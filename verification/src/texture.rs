use vstd::prelude::*;
use crate::framebuffer::{split_color, Color};

verus! {

/// The image that `image::load_from_memory` decodes from a file's bytes, as
/// its width, height and red, green, blue bytes in row order; `None` where
/// the bytes are no image it can decode.
pub uninterp spec fn decoded_rgb(bytes: Seq<u8>) -> Option<(u32, u32, Seq<u8>)>;

/// Decodes an image file held in memory. Calls `image::load_from_memory`
/// (which finds the format from the bytes) and turns the result into plain
/// values with `DynamicImage::to_rgb8` and `ImageBuffer::into_raw`.
/// Trusted: the result is the decoded image named by `decoded_rgb`, and an
/// RGB image buffer holds three bytes per pixel.
#[verifier::external_body]
fn decode_rgb(bytes: &[u8]) -> (decoded: Option<(u32, u32, Vec<u8>)>)
    ensures
        decoded.is_some() == decoded_rgb(bytes@).is_some(),
        decoded matches Some((w, h, px)) ==> decoded_rgb(bytes@) == Some((w, h, px@)) && px@.len() == 3 * w * h,
{
    match image::load_from_memory(bytes) {
        Ok(img) => {
            let rgb = img.to_rgb8();
            Some((rgb.width(), rgb.height(), rgb.into_raw()))
        },
        Err(_) => None,
    }
}

/// The packed `0xRRGGBB` colour of three channels.
pub open spec fn pack_rgb(r: u8, g: u8, b: u8) -> u32 {
    (r as int * 65536 + g as int * 256 + b as int) as u32
}

/// Splitting a packed colour gives back the channels it was packed from.
pub proof fn lemma_split_pack(r: u8, g: u8, b: u8)
    ensures
        split_color(pack_rgb(r, g, b)) == (Color { r, g, b }),
{
    assert(pack_rgb(r, g, b) == ((r as u32) << 16u32) | ((g as u32) << 8u32) | (b as u32)) by (bit_vector);
    assert(((((r as u32) << 16u32) | ((g as u32) << 8u32) | (b as u32)) >> 16u32) & 0xFF == r as u32) by (bit_vector);
    assert(((((r as u32) << 16u32) | ((g as u32) << 8u32) | (b as u32)) >> 8u32) & 0xFF == g as u32) by (bit_vector);
    assert(((((r as u32) << 16u32) | ((g as u32) << 8u32) | (b as u32)) >> 0u32) & 0xFF == b as u32) by (bit_vector);
}

/// An image to draw from, kept as three bytes (red, green, blue) per pixel in
/// row order.
pub struct Texture {
    pub width: u32,
    pub height: u32,
    pub color_array: Vec<Vec<u32>>,
    pub rgb: Vec<u8>,
}

impl Texture {
    /// The pixel bytes cover the image.
    pub open spec fn wf(&self) -> bool {
        self.rgb@.len() == 3 * self.width * self.height
    }

    /// The colour array has `height` rows of `width` zeros.
    pub open spec fn zero_grid(&self) -> bool {
        &&& self.color_array@.len() == self.height
        &&& forall|r: int| 0 <= r < self.height ==> (#[trigger] self.color_array@[r])@.len() == self.width
        &&& forall|r: int, c: int| 0 <= r < self.height && 0 <= c < self.width ==> #[trigger] self.color_array@[r]@[c] == 0
    }

    /// The packed colour of pixel (x, y) of the image.
    pub open spec fn color_at(&self, x: int, y: int) -> u32 {
        let k = 3 * (y * self.width + x);
        pack_rgb(self.rgb@[k], self.rgb@[k + 1], self.rgb@[k + 2])
    }

    /// A lookup at (x, y) is answered: the pixel is in the image, or lies
    /// beyond its right or bottom edge.
    pub open spec fn lookup_defined(&self, x: int, y: int) -> bool {
        x > self.width || y > self.height || (x < self.width && y < self.height)
    }

    /// What a lookup at (x, y) gives: white beyond the edges, the pixel's
    /// colour inside.
    pub open spec fn lookup(&self, x: int, y: int) -> u32 {
        if x > self.width || y > self.height {
            0xFFFFFF
        } else {
            self.color_at(x, y)
        }
    }

    /// A texture of a decoded image: `width` by `height` pixels given as
    /// three bytes each, with a `height` by `width` grid of zeros as its
    /// colour array.
    pub fn from_rgb(width: u32, height: u32, rgb: Vec<u8>) -> (t: Texture)
        requires
            rgb@.len() == 3 * width * height,
        ensures
            t.wf(),
            t.width == width,
            t.height == height,
            t.rgb@ == rgb@,
            t.zero_grid(),
    {
        let mut color_array: Vec<Vec<u32>> = Vec::new();
        let mut r: u32 = 0;
        while r < height
            invariant
                r <= height,
                color_array@.len() == r,
                forall|k: int| 0 <= k < r ==> (#[trigger] color_array@[k])@.len() == width,
                forall|k: int, c: int|
                    0 <= k < r && 0 <= c < width ==> #[trigger] color_array@[k]@[c] == 0,
            decreases height - r,
        {
            let mut row: Vec<u32> = Vec::new();
            let mut c: u32 = 0;
            while c < width
                invariant
                    c <= width,
                    row@.len() == c,
                    forall|k: int| 0 <= k < c ==> row@[k] == 0,
                decreases width - c,
            {
                row.push(0);
                c = c + 1;
            }
            color_array.push(row);
            r = r + 1;
        }
        Texture { width, height, color_array, rgb }
    }

    /// Decodes a texture from the bytes of an image file; `None` where the
    /// bytes are no image that can be decoded.
    pub fn new(image_bytes: &[u8]) -> (t: Option<Texture>)
        ensures
            t.is_some() == decoded_rgb(image_bytes@).is_some(),
            t matches Some(t) ==> t.wf() && t.zero_grid() && decoded_rgb(image_bytes@) == Some(
                (t.width, t.height, t.rgb@),
            ),
    {
        match decode_rgb(image_bytes) {
            Some((width, height, rgb)) => Some(Texture::from_rgb(width, height, rgb)),
            None => None,
        }
    }

    /// The packed colour at (x, y); white for a point beyond the image's
    /// right or bottom edge.
    pub fn get_pixel_color(&self, x: u32, y: u32) -> (c: u32)
        requires
            self.wf(),
            self.lookup_defined(x as int, y as int),
        ensures
            c == self.lookup(x as int, y as int),
    {
        if x > self.width || y > self.height {
            0xFFFFFF
        } else {
            let w = self.width as usize;
            let len = self.rgb.len();
            proof {
                let xi = x as int;
                let yi = y as int;
                let wi = self.width as int;
                let hi = self.height as int;
                assert(3 * (yi * wi + xi) + 2 < 3 * wi * hi) by (nonlinear_arith)
                    requires
                        0 <= xi < wi,
                        0 <= yi < hi,
                ;
            }
            let k = 3 * ((y as usize) * w + x as usize);
            let r = self.rgb[k];
            let g = self.rgb[k + 1];
            let b = self.rgb[k + 2];
            proof {
                assert(((r as u32) << 16u32) | ((g as u32) << 8u32) | (b as u32) == (r as int * 65536
                    + g as int * 256 + b as int) as u32) by (bit_vector);
            }
            ((r as u32) << 16) | ((g as u32) << 8) | (b as u32)
        }
    }

    /// The colour array's entry at row `x`, column `y`; white for a point
    /// outside the image.
    pub fn get_pixel(&self, x: u32, y: u32) -> (c: u32)
        requires
            x >= self.width || y >= self.height || (x < self.color_array@.len() && y
                < self.color_array@[x as int]@.len()),
        ensures
            c == if x >= self.width || y >= self.height {
                0xFFFFFF
            } else {
                self.color_array@[x as int]@[y as int]
            },
    {
        if x >= self.width || y >= self.height {
            return 0xFFFFFF;
        }
        self.color_array[x as usize][y as usize]
    }
}

} // verus!
