use vstd::prelude::*;
use crate::framebuffer::Framebuffer;
use crate::texture::Texture;

verus! {

/// Pure white, the colour of walls and of text.
pub const WHITE: u32 = 0xFFFFFF;

/// Pixel (x, y) lies in the `w` by `h` rectangle whose corner is (x0, y0).
pub open spec fn in_rect(x: int, y: int, x0: int, y0: int, w: int, h: int) -> bool {
    x0 <= x < x0 + w && y0 <= y < y0 + h
}

/// `after` is `before` with the pixels where `painted` holds set to `color`
/// and every other pixel left as it was.
pub open spec fn painted_where(
    before: &Framebuffer,
    after: &Framebuffer,
    color: u32,
    painted: spec_fn(int, int) -> bool,
) -> bool {
    &&& after.wf()
    &&& after.same_frame(before)
    &&& forall|x: int, y: int|
        #![trigger after.pixel(x, y)]
        before.in_bounds(x, y) ==> after.pixel(x, y) == if painted(x, y) {
            color
        } else {
            before.pixel(x, y)
        }
}

/// Fills the rectangle of `w` columns from column `yo` and `h` rows from row
/// `xo` with `color` (the first coordinate names the row).
pub fn render_box(framebuffer: &mut Framebuffer, xo: usize, yo: usize, w: usize, h: usize, color: u32)
    requires
        old(framebuffer).wf(),
        xo + h <= usize::MAX,
        h > 0 ==> yo + w <= usize::MAX,
    ensures
        painted_where(old(framebuffer), final(framebuffer), color, |x: int, y: int| in_rect(x, y, yo as int, xo as int, w as int, h as int)),
{
    let end_i = xo + h;
    let mut i = xo;
    while i < end_i
        invariant
            xo <= i <= end_i,
            end_i == xo + h,
            h > 0 ==> yo + w <= usize::MAX,
            painted_where(old(framebuffer), framebuffer, color, |x: int, y: int| in_rect(x, y, yo as int, xo as int, w as int, i - xo)),
        decreases end_i - i,
    {
        let end_j = yo + w;
        let mut j = yo;
        while j < end_j
            invariant
                xo <= i < end_i,
                yo <= j <= end_j,
                end_j == yo + w,
                painted_where(old(framebuffer), framebuffer, color, |x: int, y: int|
                    in_rect(x, y, yo as int, xo as int, w as int, i - xo) || (y == i && yo <= x < j)),
            decreases end_j - j,
        {
            framebuffer.point(j, i, color);
            j = j + 1;
        }
        i = i + 1;
    }
}

/// Draws one maze cell as a white `block_size` square with corner (xo, yo);
/// an empty cell (a space) draws nothing.
pub fn drawcell(framebuffer: &mut Framebuffer, xo: usize, yo: usize, block_size: usize, cell: char)
    requires
        old(framebuffer).wf(),
        xo + block_size <= usize::MAX,
        yo + block_size <= usize::MAX,
    ensures
        painted_where(old(framebuffer), final(framebuffer), WHITE, |x: int, y: int|
            cell != ' ' && in_rect(x, y, xo as int, yo as int, block_size as int, block_size as int)),
{
    if cell != ' ' {
        render_box(framebuffer, yo, xo, block_size, block_size, WHITE);
    }
}


/// A point `a` lies in block `c` of a row of blocks of size `b` exactly when
/// `a / b == c`.
pub proof fn lemma_in_block(a: int, b: int, c: int)
    requires
        0 <= a,
        0 < b,
        0 <= c,
    ensures
        (c * b <= a < c * b + b) <==> a / b == c,
{
    vstd::arithmetic::div_mod::lemma_fundamental_div_mod(a, b);
    let q = a / b;
    let r = a % b;
    assert(0 <= r < b);
    if c * b <= a < c * b + b {
        vstd::arithmetic::div_mod::lemma_fundamental_div_mod_converse(a, b, c, a - c * b);
    }
    if q == c {
        assert(b * q == c * b) by (nonlinear_arith)
            requires
                q == c,
        ;
    }
}

/// The maze cell at `row`, `col`, if the maze has one there.
pub open spec fn cell_at(maze: Seq<Vec<char>>, row: int, col: int) -> Option<char> {
    if 0 <= row < maze.len() && 0 <= col < maze[row]@.len() {
        Some(maze[row]@[col])
    } else {
        None
    }
}

/// Pixel (x, y) falls on a wall of a maze drawn with blocks of `block_size`
/// pixels from corner (x0, y0).
pub open spec fn on_wall(maze: Seq<Vec<char>>, x0: int, y0: int, block_size: int, x: int, y: int) -> bool {
    &&& block_size > 0
    &&& x0 <= x
    &&& y0 <= y
    &&& cell_at(maze, (y - y0) / block_size, (x - x0) / block_size) matches Some(c)
    &&& c != ' '
}

/// A pixel is drawn as wall exactly when it lies in the square of a cell the
/// maze has, whatever character other than a space that cell holds: the
/// square of the cell in row `row`, column `col` spans
/// `x0 + col * block_size .. x0 + (col + 1) * block_size` across and the same
/// down from `y0 + row * block_size`.
pub proof fn lemma_on_wall_cells(maze: Seq<Vec<char>>, x0: int, y0: int, block_size: int, x: int, y: int)
    requires
        block_size > 0,
    ensures
        on_wall(maze, x0, y0, block_size, x, y) <==> exists|row: int, col: int|
            0 <= row < maze.len() && 0 <= col < maze[row]@.len() && #[trigger] maze[row]@[col] != ' ' && in_rect(
                x,
                y,
                x0 + col * block_size,
                y0 + row * block_size,
                block_size,
                block_size,
            ),
{
    if on_wall(maze, x0, y0, block_size, x, y) {
        let row = (y - y0) / block_size;
        let col = (x - x0) / block_size;
        lemma_in_block(x - x0, block_size, col);
        lemma_in_block(y - y0, block_size, row);
        assert(maze[row]@[col] != ' ');
    }
    if exists|row: int, col: int|
        0 <= row < maze.len() && 0 <= col < maze[row]@.len() && #[trigger] maze[row]@[col] != ' ' && in_rect(
            x,
            y,
            x0 + col * block_size,
            y0 + row * block_size,
            block_size,
            block_size,
        ) {
        let (row, col) = choose|row: int, col: int|
            0 <= row < maze.len() && 0 <= col < maze[row]@.len() && #[trigger] maze[row]@[col] != ' ' && in_rect(
                x,
                y,
                x0 + col * block_size,
                y0 + row * block_size,
                block_size,
                block_size,
            );
        assert(col * block_size >= 0 && row * block_size >= 0) by (nonlinear_arith)
            requires
                col >= 0,
                row >= 0,
                block_size > 0,
        ;
        lemma_in_block(x - x0, block_size, col);
        lemma_in_block(y - y0, block_size, row);
    }
}

/// The maze fits on the machine when drawn with `block_size` pixel blocks
/// from corner (x0, y0).
pub open spec fn maze_fits(maze: Seq<Vec<char>>, x0: int, y0: int, block_size: int) -> bool {
    &&& y0 + maze.len() * block_size <= usize::MAX
    &&& forall|row: int| 0 <= row < maze.len() ==> x0 + #[trigger] maze[row]@.len() * block_size <= usize::MAX
}

/// Draws every wall of the maze as a white square of `block_size` pixels; the
/// cell in row `row` and column `col` has its corner at
/// (x0 + col * block_size, y0 + row * block_size).
pub fn draw_maze(framebuffer: &mut Framebuffer, maze: &Vec<Vec<char>>, x0: usize, y0: usize, block_size: usize)
    requires
        old(framebuffer).wf(),
        maze_fits(maze@, x0 as int, y0 as int, block_size as int),
    ensures
        painted_where(old(framebuffer), final(framebuffer), WHITE, |x: int, y: int|
            on_wall(maze@, x0 as int, y0 as int, block_size as int, x, y)),
{
    let ghost m = maze@;
    let ghost bs = block_size as int;
    let rows = maze.len();
    let mut row: usize = 0;
    while row < rows
        invariant
            rows == m.len(),
            m == maze@,
            bs == block_size,
            row <= rows,
            maze_fits(m, x0 as int, y0 as int, bs),
            painted_where(old(framebuffer), framebuffer, WHITE, |x: int, y: int|
                on_wall(m, x0 as int, y0 as int, bs, x, y) && (y - y0) / bs < row),
        decreases rows - row,
    {
        let cols = maze[row].len();
        proof {
            assert(x0 + m[row as int]@.len() * bs <= usize::MAX);
            assert(row * bs + bs <= rows * bs) by (nonlinear_arith)
                requires
                    row < rows,
                    0 <= bs,
            ;
        }
        let yo = y0 + row * block_size;
        let mut col: usize = 0;
        while col < cols
            invariant
                rows == m.len(),
                m == maze@,
                bs == block_size,
                row < rows,
                cols == m[row as int]@.len(),
                col <= cols,
                yo == y0 + row * bs,
                yo + bs <= usize::MAX,
                x0 + cols * bs <= usize::MAX,
                maze_fits(m, x0 as int, y0 as int, bs),
                painted_where(old(framebuffer), framebuffer, WHITE, |x: int, y: int|
                    on_wall(m, x0 as int, y0 as int, bs, x, y) && ((y - y0) / bs < row
                        || ((y - y0) / bs == row && (x - x0) / bs < col))),
            decreases cols - col,
        {
            proof {
                assert(col * bs + bs <= cols * bs) by (nonlinear_arith)
                    requires
                        col < cols,
                        0 <= bs,
                ;
            }
            let xo = x0 + col * block_size;
            let cell = maze[row][col];
            drawcell(framebuffer, xo, yo, block_size, cell);
            proof {
                assert forall|x: int, y: int| #![trigger framebuffer.pixel(x, y)]
                    old(framebuffer).in_bounds(x, y) implies framebuffer.pixel(x, y) == if on_wall(m, x0 as int, y0 as int, bs, x, y)
                        && ((y - y0) / bs < row || ((y - y0) / bs == row && (x - x0) / bs < col + 1)) {
                        WHITE
                    } else {
                        old(framebuffer).pixel(x, y)
                    } by {
                    if bs > 0 && x0 <= x && y0 <= y {
                        lemma_in_block(x - x0, bs, col as int);
                        lemma_in_block(y - y0, bs, row as int);
                        assert(col * bs == col * block_size);
                    }
                }
            }
            col = col + 1;
        }
        proof {
            assert forall|x: int, y: int| #![trigger framebuffer.pixel(x, y)]
                old(framebuffer).in_bounds(x, y) implies framebuffer.pixel(x, y) == if on_wall(m, x0 as int, y0 as int, bs, x, y)
                    && (y - y0) / bs < row + 1 {
                    WHITE
                } else {
                    old(framebuffer).pixel(x, y)
                } by {
                if on_wall(m, x0 as int, y0 as int, bs, x, y) && (y - y0) / bs == row {
                    assert((x - x0) / bs < cols);
                }
            }
        }
        row = row + 1;
    }
    proof {
        assert forall|x: int, y: int| #![trigger framebuffer.pixel(x, y)]
            old(framebuffer).in_bounds(x, y) implies framebuffer.pixel(x, y) == if on_wall(m, x0 as int, y0 as int, bs, x, y) {
                WHITE
            } else {
                old(framebuffer).pixel(x, y)
            } by {
            if on_wall(m, x0 as int, y0 as int, bs, x, y) {
                assert((y - y0) / bs < rows);
            }
        }
    }
}


/// `after` is `before` with each pixel for which `paint` gives a colour set
/// to that colour, and every other pixel left as it was.
pub open spec fn redrawn_where(
    before: &Framebuffer,
    after: &Framebuffer,
    paint: spec_fn(int, int) -> Option<u32>,
) -> bool {
    &&& after.wf()
    &&& after.same_frame(before)
    &&& forall|x: int, y: int|
        #![trigger after.pixel(x, y)]
        before.in_bounds(x, y) ==> after.pixel(x, y) == match paint(x, y) {
            Some(c) => c,
            None => before.pixel(x, y),
        }
}

/// Copies a full-screen picture onto the framebuffer: every pixel that both
/// have gets the picture's colour.
pub fn render_screen(framebuffer: &mut Framebuffer, texture: &Texture)
    requires
        old(framebuffer).wf(),
        texture.wf(),
    ensures
        redrawn_where(old(framebuffer), final(framebuffer), |x: int, y: int|
            if x < texture.width && y < texture.height { Some(texture.color_at(x, y)) } else { None }),
{
    let height = framebuffer.height;
    let width = framebuffer.width;
    let mut y: usize = 0;
    while y < height
        invariant
            height == old(framebuffer).height,
            width == old(framebuffer).width,
            y <= height,
            texture.wf(),
            redrawn_where(old(framebuffer), framebuffer, |px: int, py: int|
                if py < y && px < texture.width && py < texture.height { Some(texture.color_at(px, py)) } else { None }),
        decreases height - y,
    {
        let mut x: usize = 0;
        while x < width
            invariant
                height == old(framebuffer).height,
                width == old(framebuffer).width,
                y < height,
                x <= width,
                texture.wf(),
                redrawn_where(old(framebuffer), framebuffer, |px: int, py: int|
                    if (py < y || (py == y && px < x)) && px < texture.width && py < texture.height {
                        Some(texture.color_at(px, py))
                    } else {
                        None
                    }),
            decreases width - x,
        {
            if x < texture.width as usize && y < texture.height as usize {
                let color = texture.get_pixel_color(x as u32, y as u32);
                framebuffer.point(x, y, color);
            }
            x = x + 1;
        }
        y = y + 1;
    }
}

/// The texture coordinate that screen offset `d` maps to when a 128 pixel
/// wide sprite is stretched over `size` pixels.
pub open spec fn sprite_coord(d: int, size: int) -> u32 {
    ((d * 128) / size) as u32
}

/// The colour a sprite drawn from corner (start_x, start_y) at `size`
/// pixels would give pixel (x, y).
pub open spec fn sprite_color(texture: &Texture, start_x: int, start_y: int, size: int, x: int, y: int) -> u32 {
    texture.lookup(sprite_coord(x - start_x, size) as int, sprite_coord(y - start_y, size) as int)
}

/// A sprite can be drawn over the columns `start_x..end_x` and rows
/// `start_y..end_y` at `size` pixels: the scale is not zero, the texture
/// coordinates fit a `usize`, and every texture lookup is answered.
pub open spec fn sprite_in_texture(texture: &Texture, start_x: int, end_x: int, start_y: int, end_y: int, size: int) -> bool {
    &&& start_x < end_x && start_y < end_y ==> size > 0
    &&& start_y < end_y ==> (end_x - start_x) * 128 <= usize::MAX
    &&& start_x < end_x ==> (end_y - start_y) * 128 <= usize::MAX
    &&& forall|dx: int, dy: int|
        0 <= dx < end_x - start_x && 0 <= dy < end_y - start_y ==> texture.lookup_defined(
            #[trigger] sprite_coord(dx, size) as int,
            #[trigger] sprite_coord(dy, size) as int,
        )
}

/// Tells whether a sprite can be drawn (see `sprite_in_texture`).
pub fn sprite_fits(texture: &Texture, start_x: usize, end_x: usize, start_y: usize, end_y: usize, size: usize) -> (ok: bool)
    ensures
        ok == sprite_in_texture(texture, start_x as int, end_x as int, start_y as int, end_y as int, size as int),
{
    if start_x >= end_x || start_y >= end_y {
        return true;
    }
    if size == 0 {
        return false;
    }
    let limit = usize::MAX / 128;
    if end_x - start_x > limit || end_y - start_y > limit {
        return false;
    }
    let ghost sz = size as int;
    let wx = end_x - start_x;
    let hy = end_y - start_y;
    proof {
        assert(sprite_coord(0, sz) == 0);
    }
    let mut d: usize = 0;
    while d < wx
        invariant
            d <= wx,
            wx == end_x - start_x,
            wx <= limit,
            limit == usize::MAX / 128,
            sz == size,
            size > 0,
            start_x < end_x,
            start_y < end_y,
            forall|e: int| 0 <= e < d ==> #[trigger] sprite_coord(e, sz) != texture.width,
        decreases wx - d,
    {
        let tx = (d * 128 / size) as u32;
        if tx == texture.width {
            proof {
                assert(sprite_coord(d as int, sz) == tx);
                assert(sprite_coord(0, sz) == 0);
                assert(!texture.lookup_defined(
                    sprite_coord(d as int, sz) as int,
                    sprite_coord(0, sz) as int,
                ));
                if sprite_in_texture(texture, start_x as int, end_x as int, start_y as int, end_y as int, sz) {
                    assert(texture.lookup_defined(
                        sprite_coord(d as int, sz) as int,
                        sprite_coord(0, sz) as int,
                    ));
                }
            }
            return false;
        }
        d = d + 1;
    }
    let mut d: usize = 0;
    while d < hy
        invariant
            d <= hy,
            hy == end_y - start_y,
            hy <= limit,
            limit == usize::MAX / 128,
            sz == size,
            size > 0,
            start_x < end_x,
            start_y < end_y,
            forall|e: int| 0 <= e < wx ==> #[trigger] sprite_coord(e, sz) != texture.width,
            forall|e: int| 0 <= e < d ==> #[trigger] sprite_coord(e, sz) != texture.height,
        decreases hy - d,
    {
        let ty = (d * 128 / size) as u32;
        if ty == texture.height {
            proof {
                assert(sprite_coord(d as int, sz) == ty);
                assert(sprite_coord(0, sz) == 0);
                assert(!texture.lookup_defined(
                    sprite_coord(0, sz) as int,
                    sprite_coord(d as int, sz) as int,
                ));
                if sprite_in_texture(texture, start_x as int, end_x as int, start_y as int, end_y as int, sz) {
                    assert(texture.lookup_defined(
                        sprite_coord(0, sz) as int,
                        sprite_coord(d as int, sz) as int,
                    ));
                }
            }
            return false;
        }
        d = d + 1;
    }
    proof {
        assert forall|dx: int, dy: int| 0 <= dx < end_x - start_x && 0 <= dy < end_y - start_y implies texture.lookup_defined(
            #[trigger] sprite_coord(dx, sz) as int,
            #[trigger] sprite_coord(dy, sz) as int,
        ) by {
            assert(sprite_coord(dx, sz) != texture.width);
            assert(sprite_coord(dy, sz) != texture.height);
        }
    }
    true
}

/// Draws a sprite scaled to `size` pixels over the columns `start_x..end_x`
/// and rows `start_y..end_y`; white in the sprite is transparent.
pub fn render_sprite(
    framebuffer: &mut Framebuffer,
    texture: &Texture,
    start_x: usize,
    end_x: usize,
    start_y: usize,
    end_y: usize,
    size: usize,
)
    requires
        old(framebuffer).wf(),
        texture.wf(),
        sprite_in_texture(texture, start_x as int, end_x as int, start_y as int, end_y as int, size as int),
    ensures
        redrawn_where(old(framebuffer), final(framebuffer), |x: int, y: int|
            if start_x <= x < end_x && start_y <= y < end_y
                && sprite_color(texture, start_x as int, start_y as int, size as int, x, y) != 0xFFFFFF {
                Some(sprite_color(texture, start_x as int, start_y as int, size as int, x, y))
            } else {
                None
            }),
{
    let ghost sx = start_x as int;
    let ghost sy = start_y as int;
    let ghost sz = size as int;
    let mut x = start_x;
    while x < end_x
        invariant
            start_x <= x,
            x <= end_x || x == start_x,
            texture.wf(),
            sx == start_x,
            sy == start_y,
            sz == size,
            start_x < end_x && start_y < end_y ==> size > 0,
            start_y < end_y ==> (end_x - start_x) * 128 <= usize::MAX,
            start_x < end_x ==> (end_y - start_y) * 128 <= usize::MAX,
            sprite_in_texture(texture, start_x as int, end_x as int, start_y as int, end_y as int, size as int),
            redrawn_where(old(framebuffer), framebuffer, |px: int, py: int|
                if start_x <= px < x && start_y <= py < end_y
                    && sprite_color(texture, sx, sy, sz, px, py) != 0xFFFFFF {
                    Some(sprite_color(texture, sx, sy, sz, px, py))
                } else {
                    None
                }),
        decreases end_x - x,
    {
        let mut y = start_y;
        while y < end_y
            invariant
                start_x <= x < end_x,
                start_y <= y,
                y <= end_y || y == start_y,
                texture.wf(),
                sx == start_x,
                sy == start_y,
                sz == size,
                start_y < end_y ==> size > 0,
                start_y < end_y ==> (end_x - start_x) * 128 <= usize::MAX,
                (end_y - start_y) * 128 <= usize::MAX,
                sprite_in_texture(texture, start_x as int, end_x as int, start_y as int, end_y as int, size as int),
                redrawn_where(old(framebuffer), framebuffer, |px: int, py: int|
                    if (start_x <= px < x && start_y <= py < end_y || px == x && start_y <= py < y)
                        && sprite_color(texture, sx, sy, sz, px, py) != 0xFFFFFF {
                        Some(sprite_color(texture, sx, sy, sz, px, py))
                    } else {
                        None
                    }),
            decreases end_y - y,
        {
            proof {
                assert((x - start_x) * 128 <= (end_x - start_x) * 128) by (nonlinear_arith)
                    requires
                        x < end_x,
                        start_x <= x,
                ;
                assert((y - start_y) * 128 <= (end_y - start_y) * 128) by (nonlinear_arith)
                    requires
                        y < end_y,
                        start_y <= y,
                ;
            }
            let tx = ((x - start_x) * 128 / size) as u32;
            let ty = ((y - start_y) * 128 / size) as u32;
            proof {
                assert(tx == sprite_coord(x - start_x, sz));
                assert(ty == sprite_coord(y - start_y, sz));
                assert(texture.lookup_defined(tx as int, ty as int));
            }
            let color = texture.get_pixel_color(tx, ty);
            if color != 0xFFFFFF {
                framebuffer.point(x, y, color);
            }
            y = y + 1;
        }
        x = x + 1;
    }
}


/// Draws a `size` pixel square marker with corner (x0, y0), keeping only the
/// part that falls inside the `clip_size` pixel square with corner
/// (clip_x, clip_y).
pub fn render_marker(
    framebuffer: &mut Framebuffer,
    x0: usize,
    y0: usize,
    size: usize,
    clip_x: usize,
    clip_y: usize,
    clip_size: usize,
    color: u32,
)
    requires
        old(framebuffer).wf(),
        x0 + size <= usize::MAX,
        y0 + size <= usize::MAX,
    ensures
        painted_where(old(framebuffer), final(framebuffer), color, |x: int, y: int|
            in_rect(x, y, x0 as int, y0 as int, size as int, size as int)
                && in_rect(x, y, clip_x as int, clip_y as int, clip_size as int, clip_size as int)),
{
    let end_x = x0 + size;
    let end_y = y0 + size;
    let mut x = x0;
    while x < end_x
        invariant
            x0 <= x <= end_x,
            end_x == x0 + size,
            end_y == y0 + size,
            painted_where(old(framebuffer), framebuffer, color, |px: int, py: int|
                in_rect(px, py, x0 as int, y0 as int, x - x0, size as int)
                    && in_rect(px, py, clip_x as int, clip_y as int, clip_size as int, clip_size as int)),
        decreases end_x - x,
    {
        let mut y = y0;
        while y < end_y
            invariant
                x0 <= x < end_x,
                y0 <= y <= end_y,
                end_y == y0 + size,
                painted_where(old(framebuffer), framebuffer, color, |px: int, py: int|
                    (in_rect(px, py, x0 as int, y0 as int, x - x0, size as int) || (px == x && y0 <= py < y))
                        && in_rect(px, py, clip_x as int, clip_y as int, clip_size as int, clip_size as int)),
            decreases end_y - y,
        {
            if x >= clip_x && y >= clip_y && x - clip_x < clip_size && y - clip_y < clip_size {
                framebuffer.point(x, y, color);
            }
            y = y + 1;
        }
        x = x + 1;
    }
}


/// Painting the pixels where `p` holds and then those where `q` holds, with
/// one colour, paints the pixels where either holds.
pub proof fn lemma_paint_twice(
    a: &Framebuffer,
    b: &Framebuffer,
    c: &Framebuffer,
    color: u32,
    p: spec_fn(int, int) -> bool,
    q: spec_fn(int, int) -> bool,
)
    requires
        painted_where(a, b, color, p),
        painted_where(b, c, color, q),
    ensures
        painted_where(a, c, color, |x: int, y: int| p(x, y) || q(x, y)),
{
    assert forall|x: int, y: int| #![trigger c.pixel(x, y)]
        a.in_bounds(x, y) implies c.pixel(x, y) == if p(x, y) || q(x, y) {
            color
        } else {
            a.pixel(x, y)
        } by {
        assert(b.pixel(x, y) == if p(x, y) { color } else { a.pixel(x, y) });
    }
}

/// The same painting described by two conditions that agree on every pixel.
pub proof fn lemma_paint_same(
    a: &Framebuffer,
    b: &Framebuffer,
    color: u32,
    p: spec_fn(int, int) -> bool,
    q: spec_fn(int, int) -> bool,
)
    requires
        painted_where(a, b, color, p),
        forall|x: int, y: int| a.in_bounds(x, y) ==> (p(x, y) <==> q(x, y)),
    ensures
        painted_where(a, b, color, q),
{
    assert forall|x: int, y: int| #![trigger b.pixel(x, y)]
        a.in_bounds(x, y) implies b.pixel(x, y) == if q(x, y) {
            color
        } else {
            a.pixel(x, y)
        } by {
        assert(p(x, y) <==> q(x, y));
    }
}


/// The colour of a wall of kind `cell` at texture point (tx, ty): every kind
/// of wall is drawn with the same wall texture.
pub open spec fn wall_color(wall: &Texture, cell: char, tx: u32, ty: u32) -> u32 {
    wall.lookup(tx as int, ty as int)
}

/// The colour of a wall at texture point (tx, ty). The kind of wall never
/// changes the colour: any other kind gives the same.
pub fn cell_to_texture_color(wall: &Texture, cell: char, tx: u32, ty: u32) -> (c: u32)
    requires
        wall.wf(),
        wall.lookup_defined(tx as int, ty as int),
    ensures
        c == wall.lookup(tx as int, ty as int),
        forall|other: char| c == #[trigger] wall_color(wall, other, tx, ty),
{
    wall.get_pixel_color(tx, ty)
}

/// The colour of the sky above a wall.
pub const SKY: u32 = 0x165590;

/// The colour of the floor below a wall.
pub const FLOOR: u32 = 0x273a28;

/// The colour of a wall whose ends fall outside the picture.
pub const OFF_SCREEN_WALL: u32 = 0x0c160c;

/// What one column of the 3D view shows at row `y`, for a wall from row
/// `top` up to row `bottom` whose texture rows are `tys`, in a picture
/// `height` rows high.
pub open spec fn column_paint(
    wall: &Texture,
    tx: u32,
    tys: Seq<u32>,
    top: int,
    bottom: int,
    height: int,
    y: int,
) -> Option<u32> {
    if top <= height && bottom <= height {
        if y < top {
            Some(SKY)
        } else if y >= bottom {
            Some(FLOOR)
        } else {
            Some(wall.lookup(tx as int, tys[y - top] as int))
        }
    } else if top <= y < bottom {
        Some(OFF_SCREEN_WALL)
    } else {
        None
    }
}

/// Draws column `i` of the 3D view: a wall from row `stake_top` up to row
/// `stake_bottom`, textured from column `tx` of the wall texture with texture
/// row `tys[k]` for the wall's k-th pixel row, sky above and floor below. A
/// wall that does not fit in the picture is drawn in one flat colour and
/// nothing else is drawn; it needs no texture rows.
pub fn render_column(
    framebuffer: &mut Framebuffer,
    i: usize,
    stake_top: usize,
    stake_bottom: usize,
    wall: &Texture,
    impact: char,
    tx: u32,
    tys: &Vec<u32>,
)
    requires
        old(framebuffer).wf(),
        wall.wf(),
        i < usize::MAX,
        tys@.len() == if stake_top < stake_bottom && stake_bottom <= old(framebuffer).height {
            stake_bottom - stake_top
        } else {
            0
        },
        forall|k: int| 0 <= k < tys@.len() ==> wall.lookup_defined(tx as int, #[trigger] tys@[k] as int),
    ensures
        redrawn_where(old(framebuffer), final(framebuffer), |x: int, y: int|
            if x == i {
                column_paint(wall, tx, tys@, stake_top as int, stake_bottom as int, old(framebuffer).height as int, y)
            } else {
                None
            }),
{
    let height = framebuffer.height;
    if stake_top <= height && stake_bottom <= height {
        let mut y = stake_top;
        while y < stake_bottom
            invariant
                stake_top <= y,
                y <= stake_bottom || y == stake_top,
                stake_bottom <= height,
                height == old(framebuffer).height,
                wall.wf(),
                tys@.len() == if stake_top < stake_bottom { stake_bottom - stake_top } else { 0 },
                forall|k: int| 0 <= k < tys@.len() ==> wall.lookup_defined(tx as int, #[trigger] tys@[k] as int),
                redrawn_where(old(framebuffer), framebuffer, |px: int, py: int|
                    if px == i && stake_top <= py < y {
                        Some(wall.lookup(tx as int, tys@[py - stake_top] as int))
                    } else {
                        None
                    }),
            decreases stake_bottom - y,
        {
            let ty = tys[y - stake_top];
            let color = cell_to_texture_color(wall, impact, tx, ty);
            framebuffer.point(i, y, color);
            y = y + 1;
        }
        let ghost walled = *framebuffer;
        if stake_bottom < height {
            render_box(framebuffer, stake_bottom, i, 1, height - stake_bottom, FLOOR);
        }
        let ghost floored = *framebuffer;
        render_box(framebuffer, 0, i, 1, stake_top, SKY);
        proof {
            assert forall|x: int, y: int| #![trigger framebuffer.pixel(x, y)]
                old(framebuffer).in_bounds(x, y) implies framebuffer.pixel(x, y) == match (if x == i {
                    column_paint(wall, tx, tys@, stake_top as int, stake_bottom as int, height as int, y)
                } else {
                    None
                }) {
                    Some(c) => c,
                    None => old(framebuffer).pixel(x, y),
                } by {
                assert(floored.pixel(x, y) == if in_rect(x, y, i as int, stake_bottom as int, 1, height - stake_bottom)
                    && stake_bottom < height {
                    FLOOR
                } else {
                    walled.pixel(x, y)
                });
            }
        }
    } else if stake_top < stake_bottom {
        render_box(framebuffer, stake_top, i, 1, stake_bottom - stake_top, OFF_SCREEN_WALL);
    }
}

} // verus!
