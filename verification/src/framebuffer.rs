use vstd::prelude::*;

verus! {

/// One colour as its red, green and blue components.
#[derive(Clone, Copy, Debug, PartialEq, Eq, Structural)]
pub struct Color {
    pub r: u8,
    pub g: u8,
    pub b: u8,
}

impl Color {
    pub fn new(r: u8, g: u8, b: u8) -> (c: Color)
        ensures
            c.r == r,
            c.g == g,
            c.b == b,
    {
        Color { r, g, b }
    }
}

/// The byte that stands `shift` bits up in `color_value`.
pub open spec fn color_component(color_value: u32, shift: u32) -> u8 {
    ((color_value >> shift) & 0xFF) as u8
}

/// The red, green and blue channels of a packed `0xRRGGBB` colour.
pub open spec fn split_color(v: u32) -> Color {
    Color { r: color_component(v, 16), g: color_component(v, 8), b: color_component(v, 0) }
}

/// Extracts the 8-bit channel that starts at bit `shift` of a packed colour
/// (16 for red, 8 for green, 0 for blue).
pub fn extract_color_component(color_value: u32, shift: u32) -> (c: u8)
    requires
        shift < 32,
    ensures
        c == color_component(color_value, shift),
        c as int == (color_value as int / vstd::arithmetic::power2::pow2(shift as nat) as int) % 256,
{
    proof {
        vstd::bits::lemma_u32_shr_is_div(color_value, shift);
        assert(((color_value >> shift) & 0xFF) == (color_value >> shift) % 256) by (bit_vector);
    }
    ((color_value >> shift) & 0xFF) as u8
}


/// Where pixel (x, y) is kept in the buffer: rows are stored from the top of
/// the picture down, so y counts rows up from the bottom.
pub open spec fn pixel_index(width: int, height: int, x: int, y: int) -> int {
    (height - 1 - y) * width + x
}

/// Every pixel of a `width` by `height` picture has its own place in a buffer
/// of `width * height` entries.
pub proof fn lemma_pixel_index(width: int, height: int, x: int, y: int)
    requires
        0 <= x < width,
        0 <= y < height,
    ensures
        0 <= pixel_index(width, height, x, y) < width * height,
        forall|x2: int, y2: int|
            0 <= x2 < width && 0 <= y2 < height && pixel_index(width, height, x2, y2)
                == pixel_index(width, height, x, y) ==> x2 == x && y2 == y,
{
    let r = height - 1 - y;
    assert(0 <= r * width) by (nonlinear_arith)
        requires
            0 <= r,
            0 <= width,
    ;
    assert(r * width + x < width * height) by (nonlinear_arith)
        requires
            0 <= r < height,
            0 <= x < width,
    ;
    assert forall|x2: int, y2: int|
        0 <= x2 < width && 0 <= y2 < height && pixel_index(width, height, x2, y2)
            == pixel_index(width, height, x, y) implies x2 == x && y2 == y by {
        let r2 = height - 1 - y2;
        assert(r2 == r) by (nonlinear_arith)
            requires
                0 <= r2,
                0 <= r,
                0 <= x < width,
                0 <= x2 < width,
                r2 * width + x2 == r * width + x,
        {
            if r2 < r {
                assert(r2 * width + width <= r * width);
            } else if r < r2 {
                assert(r * width + width <= r2 * width);
            }
        }
    }
}

/// Every place of a `width` by `height` buffer holds some pixel.
pub proof fn lemma_pixel_at_index(width: int, height: int, i: int)
    requires
        0 <= height,
        0 <= i < width * height,
    ensures
        0 < width,
        0 <= i % width < width,
        0 <= height - 1 - i / width < height,
        pixel_index(width, height, i % width, height - 1 - i / width) == i,
{
    if width <= 0 {
        assert(width * height <= 0) by (nonlinear_arith)
            requires
                width <= 0,
                0 <= height,
        ;
    }
    vstd::arithmetic::div_mod::lemma_fundamental_div_mod(i, width);
    assert(0 <= i / width < height) by (nonlinear_arith)
        requires
            0 < width,
            0 <= i < width * height,
            i == width * (i / width) + i % width,
            0 <= i % width < width,
    ;
    assert(width * (i / width) == (i / width) * width) by (nonlinear_arith);
}

/// A picture of `width` by `height` pixels, kept as one packed `0xRRGGBB`
/// colour per pixel.
pub struct Framebuffer {
    pub width: usize,
    pub height: usize,
    pub buffer: Vec<u32>,
    pub background_color: u32,
    pub current_color: u32,
    pub line_color: u32,
}

impl Framebuffer {
    /// The buffer holds exactly one entry per pixel.
    pub open spec fn wf(&self) -> bool {
        self.buffer@.len() == self.width * self.height
    }

    /// The three colours kept for drawing: background, current and line.
    pub open spec fn settings(&self) -> (u32, u32, u32) {
        (self.background_color, self.current_color, self.line_color)
    }

    pub open spec fn background(&self) -> u32 {
        self.settings().0
    }

    pub open spec fn current(&self) -> u32 {
        self.settings().1
    }

    pub open spec fn line(&self) -> u32 {
        self.settings().2
    }

    pub open spec fn in_bounds(&self, x: int, y: int) -> bool {
        0 <= x < self.width && 0 <= y < self.height
    }

    /// The colour of pixel (x, y).
    pub open spec fn pixel(&self, x: int, y: int) -> u32 {
        self.buffer@[pixel_index(self.width as int, self.height as int, x, y)]
    }

    /// Same size and same drawing colours.
    pub open spec fn same_frame(&self, other: &Framebuffer) -> bool {
        &&& self.width == other.width
        &&& self.height == other.height
        &&& self.buffer@.len() == other.buffer@.len()
        &&& self.settings() == other.settings()
    }

    /// A framebuffer of `width` by `height` black pixels, with a white
    /// background and line colour and a black current colour.
    pub fn new(width: usize, height: usize) -> (fb: Framebuffer)
        requires
            width * height <= usize::MAX,
        ensures
            fb.wf(),
            fb.width == width,
            fb.height == height,
            forall|i: int| 0 <= i < fb.buffer@.len() ==> fb.buffer@[i] == 0,
            fb.background() == 0xFFFFFF,
            fb.current() == 0x000000,
            fb.line() == 0xFFFFFF,
    {
        let buffer = vec![0u32; width * height];
        Framebuffer {
            width,
            height,
            buffer,
            background_color: 0xFFFFFF,
            current_color: 0x000000,
            line_color: 0xFFFFFF,
        }
    }

    pub fn width(&self) -> (w: usize)
        ensures
            w == self.width,
    {
        self.width
    }

    pub fn height(&self) -> (h: usize)
        ensures
            h == self.height,
    {
        self.height
    }

    pub fn set_background_color(&mut self, color: u32)
        ensures
            final(self).width == old(self).width,
            final(self).height == old(self).height,
            final(self).buffer@ == old(self).buffer@,
            final(self).settings() == (color, old(self).current(), old(self).line()),
    {
        self.background_color = color;
    }

    pub fn set_current_color(&mut self, color: u32)
        ensures
            final(self).width == old(self).width,
            final(self).height == old(self).height,
            final(self).buffer@ == old(self).buffer@,
            final(self).settings() == (old(self).background(), color, old(self).line()),
    {
        self.current_color = color;
    }

    pub fn set_line_color(&mut self, color: u32)
        ensures
            final(self).width == old(self).width,
            final(self).height == old(self).height,
            final(self).buffer@ == old(self).buffer@,
            final(self).settings() == (old(self).background(), old(self).current(), color),
    {
        self.line_color = color;
    }

    /// Paints every pixel with the background colour.
    pub fn clear(&mut self)
        ensures
            final(self).same_frame(old(self)),
            forall|i: int| 0 <= i < final(self).buffer@.len() ==> final(self).buffer@[i] == old(self).background(),
    {
        let n = self.buffer.len();
        let mut i: usize = 0;
        while i < n
            invariant
                n == self.buffer@.len(),
                i <= n,
                self.same_frame(old(self)),
                forall|k: int| 0 <= k < i ==> self.buffer@[k] == old(self).background(),
            decreases n - i,
        {
            let c = self.background_color;
            self.buffer.set(i, c);
            i = i + 1;
        }
    }

    /// Paints pixel (x, y) with `color`; a pixel outside the picture is
    /// ignored.
    pub fn point(&mut self, x: usize, y: usize, color: u32)
        requires
            old(self).wf(),
        ensures
            final(self).wf(),
            final(self).same_frame(old(self)),
            old(self).in_bounds(x as int, y as int) ==> final(self).buffer@ == old(self).buffer@.update(
                pixel_index(old(self).width as int, old(self).height as int, x as int, y as int),
                color,
            ),
            !old(self).in_bounds(x as int, y as int) ==> final(self).buffer@ == old(self).buffer@,
            forall|px: int, py: int|
                #![trigger final(self).pixel(px, py)]
                old(self).in_bounds(px, py) ==> final(self).pixel(px, py) == if px == x && py == y {
                    color
                } else {
                    old(self).pixel(px, py)
                },
    {
        if x < self.width && y < self.height {
            proof {
                lemma_pixel_index(self.width as int, self.height as int, x as int, y as int);
            }
            let len = self.buffer.len();
            let inverted_y = self.height - 1 - y;
            assert(inverted_y * self.width + x < len);
            let idx = inverted_y * self.width + x;
            self.buffer.set(idx, color);
            proof {
                assert forall|px: int, py: int| #![trigger self.pixel(px, py)]
                    old(self).in_bounds(px, py) implies self.pixel(px, py) == if px == x && py == y {
                        color
                    } else {
                        old(self).pixel(px, py)
                    } by {
                    lemma_pixel_index(self.width as int, self.height as int, px, py);
                }
            }
        }
    }

    /// Two well-formed framebuffers of one size whose pixels all agree hold
    /// the same buffer.
    pub proof fn lemma_pixels_determine_buffer(a: &Framebuffer, b: &Framebuffer)
        requires
            a.wf(),
            b.wf(),
            a.width == b.width,
            a.height == b.height,
            forall|x: int, y: int| a.in_bounds(x, y) ==> #[trigger] a.pixel(x, y) == b.pixel(x, y),
        ensures
            a.buffer@ == b.buffer@,
    {
        let w = a.width as int;
        let h = a.height as int;
        assert forall|i: int| 0 <= i < a.buffer@.len() implies a.buffer@[i] == b.buffer@[i] by {
            lemma_pixel_at_index(w, h, i);
            assert(a.pixel(i % w, h - 1 - i / w) == b.pixel(i % w, h - 1 - i / w));
        }
        assert(a.buffer@ =~= b.buffer@);
    }

    /// The colour of every pixel, in buffer order, split into its channels.
    pub fn render_buffer(&self) -> (colors: Vec<Color>)
        ensures
            colors@.len() == self.buffer@.len(),
            forall|i: int|
                0 <= i < colors@.len() ==> colors@[i] == split_color(self.buffer@[i]),
    {
        let mut colors: Vec<Color> = Vec::new();
        let n = self.buffer.len();
        let mut i: usize = 0;
        while i < n
            invariant
                n == self.buffer@.len(),
                i <= n,
                colors@.len() == i,
                forall|k: int|
                    0 <= k < i ==> colors@[k] == split_color(self.buffer@[k]),
            decreases n - i,
        {
            let v = self.buffer[i];
            colors.push(
                Color::new(
                    extract_color_component(v, 16),
                    extract_color_component(v, 8),
                    extract_color_component(v, 0),
                ),
            );
            i = i + 1;
        }
        colors
    }
}

} // verus!
