use vstd::prelude::*;
use crate::draw::{lemma_in_block, lemma_paint_same, lemma_paint_twice, painted_where, render_box, in_rect, WHITE};
use crate::framebuffer::Framebuffer;

verus! {

/// The decimal digits of `n`, most significant first (`0` has the one digit
/// `0`).
pub open spec fn decimal_digits(n: usize) -> Seq<usize>
    decreases n,
{
    if n < 10 {
        seq![n]
    } else {
        decimal_digits(n / 10).push(n % 10)
    }
}

pub open spec fn pow10(k: nat) -> nat
    decreases k,
{
    if k == 0 {
        1
    } else {
        10 * pow10((k - 1) as nat)
    }
}

/// The number that a sequence of decimal digits, most significant first,
/// stands for.
pub open spec fn digits_value(digits: Seq<usize>) -> int
    decreases digits.len(),
{
    if digits.len() == 0 {
        0
    } else {
        digits_value(digits.drop_last()) * 10 + digits.last()
    }
}

/// The digits drawn for `n` are its decimal representation: every one is
/// below ten, they stand for `n`, and the first is not zero unless `n` is.
pub proof fn lemma_digits_value(n: usize)
    ensures
        digits_value(decimal_digits(n)) == n,
        decimal_digits(n).len() >= 1,
        n != 0 ==> decimal_digits(n)[0] != 0,
        forall|p: int| 0 <= p < decimal_digits(n).len() ==> #[trigger] decimal_digits(n)[p] < 10,
    decreases n,
{
    lemma_digits_below_10(n);
    let d = decimal_digits(n);
    if n < 10 {
        assert(d.drop_last() =~= Seq::<usize>::empty());
        assert(digits_value(d.drop_last()) == 0);
        assert(d.last() == n);
    } else {
        lemma_digits_value(n / 10);
        assert(d.drop_last() =~= decimal_digits(n / 10));
        assert(d.last() == n % 10);
        assert(digits_value(d) == digits_value(decimal_digits(n / 10)) * 10 + n % 10);
        assert((n / 10) * 10 + n % 10 == n);
        assert(d[0] == decimal_digits(n / 10)[0]);
    }
}

/// A number below `10^k` has at most `k` digits.
proof fn lemma_digits_len(n: usize, k: nat)
    requires
        k >= 1,
        n < pow10(k),
    ensures
        decimal_digits(n).len() <= k,
    decreases n,
{
    if n >= 10 {
        if k == 1 {
            assert(pow10(1) == 10 * pow10(0));
        } else {
            let k1 = (k - 1) as nat;
            assert(pow10(k) == 10 * pow10(k1));
            assert((n / 10) < pow10(k1)) by (nonlinear_arith)
                requires
                    n < 10 * pow10(k1),
                    n >= 10,
            ;
            lemma_digits_len(n / 10, k1);
        }
    }
}

/// No number that fits a `usize` has more than 20 digits.
proof fn lemma_digits_at_most_20(n: usize)
    ensures
        decimal_digits(n).len() <= 20,
{
    reveal_with_fuel(pow10, 21);
    assert(pow10(20) == 100000000000000000000);
    assert(usize::MAX <= 0xffff_ffff_ffff_ffff);
    lemma_digits_len(n, 20);
}

/// Every digit is below ten.
proof fn lemma_digits_below_10(n: usize)
    ensures
        forall|p: int| 0 <= p < decimal_digits(n).len() ==> #[trigger] decimal_digits(n)[p] < 10,
    decreases n,
{
    if n >= 10 {
        lemma_digits_below_10(n / 10);
        let d = decimal_digits(n);
        assert forall|p: int| 0 <= p < d.len() implies #[trigger] d[p] < 10 by {
            if p < d.len() - 1 {
                assert(d[p] == decimal_digits(n / 10)[p]);
            }
        }
    }
}

/// The decimal digits of `n`, most significant first.
fn digits_of(n: usize) -> (d: Vec<usize>)
    ensures
        d@ == decimal_digits(n),
    decreases n,
{
    if n < 10 {
        let mut d: Vec<usize> = Vec::new();
        d.push(n);
        d
    } else {
        let mut d = digits_of(n / 10);
        d.push(n % 10);
        d
    }
}

/// Cell (gx, gy) of the 3 pixel text grid is lit by a glyph whose six rows
/// start at row `first_row` of `numbers` and whose top left cell is
/// (gx0, gy0).
pub open spec fn glyph_lit(numbers: Seq<Vec<char>>, first_row: int, gx0: int, gy0: int, gx: int, gy: int) -> bool {
    &&& gy0 <= gy < gy0 + 6
    &&& gx0 <= gx
    &&& gx - gx0 < numbers[first_row + gy - gy0]@.len()
    &&& numbers[first_row + gy - gy0]@[gx - gx0] != ' '
}

/// Grid cell (gx, gy) is lit by the digit in position `p` of a number whose
/// digit there is `d`: that digit's glyph starts at row `6 * d + 5` and stands
/// four cells further right for each position.
pub open spec fn digit_lit(numbers: Seq<Vec<char>>, d: usize, p: int, gx: int, gy: int) -> bool {
    glyph_lit(numbers, 6 * d + 5, 65 + 4 * p, 1, gx, gy)
}

/// Grid cell (gx, gy) is lit by the frame counter showing `num`: by the label
/// (the first six rows of `numbers`) or by one of the number's digits.
pub open spec fn text_lit(numbers: Seq<Vec<char>>, num: usize, gx: int, gy: int) -> bool {
    ||| glyph_lit(numbers, 0, 50, 2, gx, gy)
    ||| exists|p: int| 0 <= p < decimal_digits(num).len() && #[trigger] digit_lit(numbers, decimal_digits(num)[p], p, gx, gy)
}

/// `numbers` holds the label and a glyph for every digit of `num`, and no row
/// is longer than a row of characters can be in memory.
pub open spec fn glyphs_cover(numbers: Seq<Vec<char>>, num: usize) -> bool {
    &&& numbers.len() >= 6
    &&& forall|p: int| 0 <= p < decimal_digits(num).len() ==> 6 * #[trigger] decimal_digits(num)[p] + 11 <= numbers.len()
    &&& forall|r: int| 0 <= r < numbers.len() ==> #[trigger] numbers[r]@.len() <= usize::MAX / 4
}

/// A pixel lies in the 3 by 3 block of grid cell (gx, gy) exactly when its
/// coordinates divided by 3 are that cell.
proof fn lemma_grid_cell(x: int, y: int, gx: int, gy: int)
    requires
        0 <= x,
        0 <= y,
        0 <= gx,
        0 <= gy,
    ensures
        in_rect(x, y, gx * 3, gy * 3, 3, 3) <==> (x / 3 == gx && y / 3 == gy),
{
    lemma_in_block(x, 3, gx);
    lemma_in_block(y, 3, gy);
}

/// Draws one six-row glyph from `numbers`, starting at row `first_row`, with
/// a 3 by 3 pixel block for every character that is not a space; character
/// `col` of glyph row `i` lands on grid cell (gx0 + col, gy0 + i).
fn render_glyph(
    framebuffer: &mut Framebuffer,
    numbers: &Vec<Vec<char>>,
    first_row: usize,
    gx0: usize,
    gy0: usize,
    color: u32,
)
    requires
        old(framebuffer).wf(),
        first_row + 6 <= numbers@.len(),
        gx0 <= 160,
        gy0 <= 2,
        forall|r: int| 0 <= r < numbers@.len() ==> #[trigger] numbers@[r]@.len() <= usize::MAX / 4,
    ensures
        painted_where(old(framebuffer), final(framebuffer), color, |x: int, y: int|
            glyph_lit(numbers@, first_row as int, gx0 as int, gy0 as int, x / 3, y / 3)),
{
    let ghost n = numbers@;
    let ghost fr = first_row as int;
    let ghost g0 = gx0 as int;
    let ghost h0 = gy0 as int;
    let total = numbers.len();
    let mut i: usize = 0;
    while i < 6
        invariant
            i <= 6,
            total == numbers@.len(),
            n == numbers@,
            fr == first_row,
            g0 == gx0,
            h0 == gy0,
            first_row + 6 <= numbers@.len(),
            gx0 <= 160,
            gy0 <= 2,
            forall|r: int| 0 <= r < numbers@.len() ==> #[trigger] numbers@[r]@.len() <= usize::MAX / 4,
            painted_where(old(framebuffer), framebuffer, color, |x: int, y: int|
                glyph_lit(n, fr, g0, h0, x / 3, y / 3) && y / 3 - h0 < i),
        decreases 6 - i,
    {
        let row = first_row + i;
        let len = numbers[row].len();
        assert(len <= usize::MAX / 4);
        let mut col: usize = 0;
        while col < len
            invariant
                i < 6,
                col <= len,
                row == first_row + i,
                n == numbers@,
                fr == first_row,
                g0 == gx0,
                h0 == gy0,
                first_row + 6 <= numbers@.len(),
                len == numbers@[row as int]@.len(),
                len <= usize::MAX / 4,
                gx0 <= 160,
                gy0 <= 2,
                painted_where(old(framebuffer), framebuffer, color, |x: int, y: int|
                    glyph_lit(n, fr, g0, h0, x / 3, y / 3) && (y / 3 - h0 < i || (y / 3 - h0 == i && x / 3 - g0 < col))),
            decreases len - col,
        {
            if numbers[row][col] != ' ' {
                let ghost before = *framebuffer;
                let gx = gx0 + col;
                let gy = gy0 + i;
                render_box(framebuffer, gy * 3, gx * 3, 3, 3, color);
                proof {
                    let ghost p1 = |x: int, y: int|
                        glyph_lit(n, fr, g0, h0, x / 3, y / 3) && (y / 3 - h0 < i || (y / 3 - h0 == i && x / 3 - g0 < col));
                    let ghost p2 = |x: int, y: int| in_rect(x, y, (gx * 3) as int, (gy * 3) as int, 3, 3);
                    lemma_paint_twice(old(framebuffer), &before, framebuffer, color, p1, p2);
                    assert forall|x: int, y: int| old(framebuffer).in_bounds(x, y) implies ((p1(x, y) || p2(x, y)) <==> (
                        glyph_lit(n, fr, g0, h0, x / 3, y / 3) && (y / 3 - h0 < i || (y / 3 - h0 == i && x / 3 - g0 < col + 1)))) by {
                        lemma_grid_cell(x, y, gx as int, gy as int);
                    }
                    lemma_paint_same(old(framebuffer), framebuffer, color, |x: int, y: int| p1(x, y) || p2(x, y), |x: int, y: int|
                        glyph_lit(n, fr, g0, h0, x / 3, y / 3) && (y / 3 - h0 < i || (y / 3 - h0 == i && x / 3 - g0 < col + 1)));
                }
            } else {
                proof {
                    let ghost p1 = |x: int, y: int|
                        glyph_lit(n, fr, g0, h0, x / 3, y / 3) && (y / 3 - h0 < i || (y / 3 - h0 == i && x / 3 - g0 < col));
                    assert forall|x: int, y: int| old(framebuffer).in_bounds(x, y) implies (p1(x, y) <==> (
                        glyph_lit(n, fr, g0, h0, x / 3, y / 3) && (y / 3 - h0 < i || (y / 3 - h0 == i && x / 3 - g0 < col + 1)))) by {
                        if y / 3 - h0 == i && x / 3 - g0 == col {
                            assert(!glyph_lit(n, fr, g0, h0, x / 3, y / 3));
                        }
                    }
                    lemma_paint_same(old(framebuffer), framebuffer, color, p1, |x: int, y: int|
                        glyph_lit(n, fr, g0, h0, x / 3, y / 3) && (y / 3 - h0 < i || (y / 3 - h0 == i && x / 3 - g0 < col + 1)));
                }
            }
            col = col + 1;
        }
        proof {
            lemma_paint_same(old(framebuffer), framebuffer, color, |x: int, y: int|
                glyph_lit(n, fr, g0, h0, x / 3, y / 3) && (y / 3 - h0 < i || (y / 3 - h0 == i && x / 3 - g0 < len)),
                |x: int, y: int| glyph_lit(n, fr, g0, h0, x / 3, y / 3) && y / 3 - h0 < i + 1);
        }
        i = i + 1;
    }
    proof {
        lemma_paint_same(old(framebuffer), framebuffer, color, |x: int, y: int|
            glyph_lit(n, fr, g0, h0, x / 3, y / 3) && y / 3 - h0 < 6,
            |x: int, y: int| glyph_lit(n, fr, g0, h0, x / 3, y / 3));
    }
}


/// Tells whether `numbers` has the rows needed to show `num` (see
/// `glyphs_cover`).
pub fn has_glyphs_for(numbers: &Vec<Vec<char>>, num: usize) -> (ok: bool)
    ensures
        ok == glyphs_cover(numbers@, num),
{
    let total = numbers.len();
    if total < 6 {
        return false;
    }
    let mut r: usize = 0;
    while r < total
        invariant
            total == numbers@.len(),
            r <= total,
            forall|k: int| 0 <= k < r ==> #[trigger] numbers@[k]@.len() <= usize::MAX / 4,
        decreases total - r,
    {
        if numbers[r].len() > usize::MAX / 4 {
            return false;
        }
        r = r + 1;
    }
    let digits = digits_of(num);
    proof {
        lemma_digits_below_10(num);
    }
    let size = digits.len();
    let mut p: usize = 0;
    while p < size
        invariant
            total == numbers@.len(),
            total >= 6,
            size == digits@.len(),
            digits@ == decimal_digits(num),
            p <= size,
            forall|q: int| 0 <= q < size ==> #[trigger] decimal_digits(num)[q] < 10,
            forall|k: int| 0 <= k < total ==> #[trigger] numbers@[k]@.len() <= usize::MAX / 4,
            forall|q: int| 0 <= q < p ==> 6 * #[trigger] decimal_digits(num)[q] + 11 <= total,
        decreases size - p,
    {
        assert(decimal_digits(num)[p as int] < 10);
        if 6 * digits[p] + 11 > total {
            return false;
        }
        p = p + 1;
    }
    true
}

/// Writes the frame counter: the label glyph (rows 0 to 5 of `numbers`) from
/// grid cell (50, 2), then the digits of `num`, most significant first, from
/// grid cell (65, 1), four cells apart; the glyph of digit `d` is rows
/// `6 * d + 5` to `6 * d + 10`. Every character of a glyph that is not a space
/// becomes a 3 by 3 pixel block of `color`.
pub fn text_format(framebuffer: &mut Framebuffer, numbers: &Vec<Vec<char>>, num: usize, color: u32)
    requires
        old(framebuffer).wf(),
        glyphs_cover(numbers@, num),
    ensures
        painted_where(old(framebuffer), final(framebuffer), color, |x: int, y: int| text_lit(numbers@, num, x / 3, y / 3)),
{
    let ghost n = numbers@;
    let ghost ds = decimal_digits(num);
    proof {
        lemma_digits_at_most_20(num);
        lemma_digits_below_10(num);
    }
    render_glyph(framebuffer, numbers, 0, 50, 2, color);
    let digits = digits_of(num);
    let size = digits.len();
    let mut p: usize = 0;
    while p < size
        invariant
            p <= size,
            size == ds.len(),
            size <= 20,
            digits@ == ds,
            ds == decimal_digits(num),
            n == numbers@,
            glyphs_cover(n, num),
            forall|q: int| 0 <= q < ds.len() ==> #[trigger] ds[q] < 10,
            painted_where(old(framebuffer), framebuffer, color, |x: int, y: int|
                glyph_lit(n, 0, 50, 2, x / 3, y / 3) || exists|q: int| 0 <= q < p && #[trigger] digit_lit(n, ds[q], q, x / 3, y / 3)),
        decreases size - p,
    {
        let d = digits[p];
        assert(ds[p as int] < 10);
        assert(6 * ds[p as int] + 11 <= n.len());
        let ghost before = *framebuffer;
        render_glyph(framebuffer, numbers, 6 * d + 5, 65 + 4 * p, 1, color);
        proof {
            let ghost p1 = |x: int, y: int|
                glyph_lit(n, 0, 50, 2, x / 3, y / 3) || exists|q: int| 0 <= q < p && #[trigger] digit_lit(n, ds[q], q, x / 3, y / 3);
            let ghost p2 = |x: int, y: int| glyph_lit(n, (6 * d + 5) as int, (65 + 4 * p) as int, 1, x / 3, y / 3);
            let ghost p3 = |x: int, y: int|
                glyph_lit(n, 0, 50, 2, x / 3, y / 3) || exists|q: int| 0 <= q < p + 1 && #[trigger] digit_lit(n, ds[q], q, x / 3, y / 3);
            lemma_paint_twice(old(framebuffer), &before, framebuffer, color, p1, p2);
            assert forall|x: int, y: int| old(framebuffer).in_bounds(x, y) implies ((p1(x, y) || p2(x, y)) <==> p3(x, y)) by {
                assert(p2(x, y) == digit_lit(n, ds[p as int], p as int, x / 3, y / 3));
                if p3(x, y) && !glyph_lit(n, 0, 50, 2, x / 3, y / 3) {
                    let q = choose|q: int| 0 <= q < p + 1 && #[trigger] digit_lit(n, ds[q], q, x / 3, y / 3);
                    if q < p {
                        assert(p1(x, y));
                    }
                }
            }
            lemma_paint_same(old(framebuffer), framebuffer, color, |x: int, y: int| p1(x, y) || p2(x, y), p3);
        }
        p = p + 1;
    }
    proof {
        lemma_paint_same(old(framebuffer), framebuffer, color, |x: int, y: int|
            glyph_lit(n, 0, 50, 2, x / 3, y / 3) || exists|q: int| 0 <= q < size && #[trigger] digit_lit(n, ds[q], q, x / 3, y / 3),
            |x: int, y: int| text_lit(numbers@, num, x / 3, y / 3));
    }
}

/// `after` is `before` with the frame counter for `num` drawn in white (as
/// `text_format` draws it) and white made the current colour.
pub open spec fn shows_fps(before: &Framebuffer, after: &Framebuffer, numbers: Seq<Vec<char>>, num: usize) -> bool {
    &&& after.current() == WHITE
    &&& after.background() == before.background()
    &&& after.line() == before.line()
    &&& after.wf()
    &&& after.width == before.width
    &&& after.height == before.height
    &&& forall|x: int, y: int|
        #![trigger after.pixel(x, y)]
        before.in_bounds(x, y) ==> after.pixel(x, y) == if text_lit(numbers, num, x / 3, y / 3) {
            WHITE
        } else {
            before.pixel(x, y)
        }
}

/// Shows the frame rate `num` in white in the top right corner and makes
/// white the current colour.
pub fn render_fps(framebuffer: &mut Framebuffer, numbers: &Vec<Vec<char>>, num: usize)
    requires
        old(framebuffer).wf(),
        glyphs_cover(numbers@, num),
    ensures
        shows_fps(old(framebuffer), final(framebuffer), numbers@, num),
{
    let color: u32 = 0xffffff;
    framebuffer.set_current_color(color);
    text_format(framebuffer, numbers, num, color);
}

/// Showing the frame rate leaves the same picture as writing the counter in
/// white with `text_format`; it differs only in making white the current
/// colour. (Both ask the same of their inputs.)
pub proof fn lemma_fps_is_white_text(
    before: &Framebuffer,
    shown: &Framebuffer,
    written: &Framebuffer,
    numbers: Seq<Vec<char>>,
    num: usize,
)
    requires
        before.wf(),
        shows_fps(before, shown, numbers, num),
        painted_where(before, written, WHITE, |x: int, y: int| text_lit(numbers, num, x / 3, y / 3)),
    ensures
        shown.buffer@ == written.buffer@,
        shown.width == written.width,
        shown.height == written.height,
        shown.background() == written.background(),
        shown.line() == written.line(),
        shown.current() == WHITE,
{
    assert forall|x: int, y: int| shown.in_bounds(x, y) implies #[trigger] shown.pixel(x, y) == written.pixel(x, y) by {
        assert(before.in_bounds(x, y));
    }
    Framebuffer::lemma_pixels_determine_buffer(shown, written);
}

} // verus!
