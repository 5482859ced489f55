//! Area-average downsampling of a captured frame to the size that is encoded.
//!
//! Pixels are four bytes: blue, green, red, alpha. Each output pixel is the
//! mean, channel by channel, of the source pixels in its rectangle. The
//! rectangles partition the source: no pixel is left out and none is read
//! twice.

use rayon::iter::{IndexedParallelIterator, ParallelIterator};
use rayon::slice::ParallelSliceMut;
use vstd::prelude::*;

verus! {

/// Where the `i`-th of `parts` nearly equal parts of `0..whole` begins.
pub open spec fn boundary(i: int, whole: int, parts: int) -> int {
    i * whole / parts
}

/// The boundaries of the `parts` parts of `0..whole`, both ends included.
pub open spec fn boundaries(whole: int, parts: int) -> Seq<usize> {
    Seq::new((parts + 1) as nat, |i: int| boundary(i, whole, parts) as usize)
}

/// The first boundary is 0, the last is the whole, and they do not decrease.
pub proof fn lemma_boundary(i: int, j: int, whole: int, parts: int)
    requires
        0 <= i <= j <= parts,
        0 < parts,
        0 <= whole,
    ensures
        boundary(0, whole, parts) == 0,
        boundary(parts, whole, parts) == whole,
        0 <= boundary(i, whole, parts) <= boundary(j, whole, parts) <= whole,
{
    vstd::arithmetic::mul::lemma_mul_inequality(i, j, whole);
    vstd::arithmetic::mul::lemma_mul_inequality(j, parts, whole);
    vstd::arithmetic::mul::lemma_mul_nonnegative(i, whole);
    vstd::arithmetic::div_mod::lemma_div_is_ordered(0, i * whole, parts);
    vstd::arithmetic::div_mod::lemma_div_is_ordered(i * whole, j * whole, parts);
    vstd::arithmetic::div_mod::lemma_div_is_ordered(j * whole, parts * whole, parts);
    vstd::arithmetic::div_mod::lemma_div_multiples_vanish(whole, parts);
    assert(0 * whole == 0);
    assert(0int / parts == 0) by (nonlinear_arith)
        requires
            parts > 0,
    ;
}

/// The boundaries of the parts of `0..whole`.
fn boundary_table(whole: usize, parts: usize) -> (table: Vec<usize>)
    requires
        0 < parts < usize::MAX,
        parts * whole <= usize::MAX,
    ensures
        table@ == boundaries(whole as int, parts as int),
{
    let mut table: Vec<usize> = Vec::new();
    let mut i: usize = 0;
    while i <= parts
        invariant
            0 < parts < usize::MAX,
            parts * whole <= usize::MAX,
            i <= parts + 1,
            table@ == boundaries(whole as int, parts as int).take(i as int),
        decreases parts + 1 - i,
    {
        proof {
            vstd::arithmetic::mul::lemma_mul_inequality(i as int, parts as int, whole as int);
            lemma_boundary(i as int, parts as int, whole as int, parts as int);
        }
        table.push(i * whole / parts);
        i += 1;
    }
    assert(boundaries(whole as int, parts as int).take(i as int) =~= boundaries(
        whole as int,
        parts as int,
    ));
    table
}

/// The length of the `i`-th part in a table of boundaries.
pub open spec fn step(table: Seq<usize>, i: int) -> int {
    table[i + 1] - table[i]
}

/// The lengths of the shortest and the longest part, and one of each length.
fn extreme_steps(table: &Vec<usize>, whole: usize, parts: usize) -> (r: (
    usize,
    usize,
    Ghost<int>,
    Ghost<int>,
))
    requires
        parts > 0,
        table@ == boundaries(whole as int, parts as int),
    ensures
        forall|i: int| 0 <= i < parts ==> r.0 <= #[trigger] step(table@, i) <= r.1,
        0 <= r.2@ < parts && step(table@, r.2@) == r.0,
        0 <= r.3@ < parts && step(table@, r.3@) == r.1,
{
    proof {
        lemma_boundary(0, 1, whole as int, parts as int);
    }
    let mut shortest: usize = table[1] - table[0];
    let mut longest: usize = shortest;
    let ghost mut at_shortest: int = 0;
    let ghost mut at_longest: int = 0;
    let mut i: usize = 1;
    while i < parts
        invariant
            1 <= i <= parts,
            table@ == boundaries(whole as int, parts as int),
            forall|k: int| 0 <= k < i ==> shortest <= #[trigger] step(table@, k) <= longest,
            0 <= at_shortest < parts && step(table@, at_shortest) == shortest,
            0 <= at_longest < parts && step(table@, at_longest) == longest,
        decreases parts - i,
    {
        proof {
            lemma_boundary(i as int, i + 1, whole as int, parts as int);
        }
        let length: usize = table[i + 1] - table[i];
        assert(step(table@, i as int) == length);
        if length < shortest {
            shortest = length;
            proof {
                at_shortest = i as int;
            }
        }
        if length > longest {
            longest = length;
            proof {
                at_longest = i as int;
            }
        }
        i += 1;
    }
    (shortest, longest, Ghost(at_shortest), Ghost(at_longest))
}

/// Precomputed source rectangles for one pair of source and output sizes.
///
/// Output column `dx` covers the source columns
/// `sx_starts[dx]..sx_starts[dx + 1]`, and `sy_starts` works the same way for
/// rows. It is made once and used for every frame of that geometry.
pub struct DownsampleLut {
    pub src_w: usize,
    pub src_h: usize,
    pub dst_w: usize,
    pub dst_h: usize,
    pub sx_starts: Vec<usize>,
    pub sy_starts: Vec<usize>,
}

impl DownsampleLut {
    /// The tables hold the boundaries of the sizes.
    pub open spec fn well_formed(&self) -> bool {
        &&& self.dst_w > 0
        &&& self.dst_h > 0
        &&& self.sx_starts@ == boundaries(self.src_w as int, self.dst_w as int)
        &&& self.sy_starts@ == boundaries(self.src_h as int, self.dst_h as int)
    }

    /// The number of source pixels in the rectangle of output pixel `(dx, dy)`.
    pub open spec fn cell_area(&self, dx: int, dy: int) -> int {
        (self.sy_starts@[dy + 1] - self.sy_starts@[dy]) * (self.sx_starts@[dx + 1]
            - self.sx_starts@[dx])
    }

    /// Whether the source pixel in column `x` of row `y` lies in the rectangle
    /// of output pixel `(dx, dy)`.
    pub open spec fn covers(&self, dx: int, dy: int, x: int, y: int) -> bool {
        &&& self.sx_starts@[dx] <= x < self.sx_starts@[dx + 1]
        &&& self.sy_starts@[dy] <= y < self.sy_starts@[dy + 1]
    }

    /// Every rectangle has a pixel, and few enough that the sum of a channel
    /// over it fits in 32 bits.
    pub open spec fn averages(&self) -> bool {
        forall|dx: int, dy: int|
            #![trigger self.cell_area(dx, dy)]
            0 <= dx < self.dst_w && 0 <= dy < self.dst_h ==> 0 < self.cell_area(dx, dy) <= u32::MAX
                / 255
    }

    /// Makes the tables for one pair of sizes.
    pub fn new(src_w: usize, src_h: usize, dst_w: usize, dst_h: usize) -> (lut: DownsampleLut)
        requires
            0 < dst_w < usize::MAX,
            0 < dst_h < usize::MAX,
            dst_w * src_w <= usize::MAX,
            dst_h * src_h <= usize::MAX,
        ensures
            lut.well_formed(),
            lut.src_w == src_w,
            lut.src_h == src_h,
            lut.dst_w == dst_w,
            lut.dst_h == dst_h,
            forall|i: int|
                0 <= i <= dst_w ==> #[trigger] lut.sx_starts@[i] * dst_w <= i * src_w < (
                lut.sx_starts@[i] + 1) * dst_w,
            forall|i: int|
                0 <= i <= dst_h ==> #[trigger] lut.sy_starts@[i] * dst_h <= i * src_h < (
                lut.sy_starts@[i] + 1) * dst_h,
    {
        let sx_starts = boundary_table(src_w, dst_w);
        let sy_starts = boundary_table(src_h, dst_h);
        let lut = DownsampleLut { src_w, src_h, dst_w, dst_h, sx_starts, sy_starts };
        proof {
            assert forall|i: int|
                0 <= i <= dst_w implies #[trigger] lut.sx_starts@[i] * dst_w <= i * src_w < (
            lut.sx_starts@[i] + 1) * dst_w by {
                law_boundary_is_proportional(i, src_w as int, dst_w as int);
                lemma_boundary(i, i, src_w as int, dst_w as int);
            }
            assert forall|i: int|
                0 <= i <= dst_h implies #[trigger] lut.sy_starts@[i] * dst_h <= i * src_h < (
            lut.sy_starts@[i] + 1) * dst_h by {
                law_boundary_is_proportional(i, src_h as int, dst_h as int);
                lemma_boundary(i, i, src_h as int, dst_h as int);
            }
        }
        lut
    }

    /// Whether every rectangle has a pixel, and few enough that the sum of a
    /// channel over it fits in 32 bits.
    pub fn can_average(&self) -> (r: bool)
        requires
            self.well_formed(),
        ensures
            r == self.averages(),
    {
        let (min_w, max_w, iw, jw) = extreme_steps(&self.sx_starts, self.src_w, self.dst_w);
        let (min_h, max_h, ih, jh) = extreme_steps(&self.sy_starts, self.src_h, self.dst_h);
        assert(max_w * max_h <= u128::MAX) by (nonlinear_arith)
            requires
                max_w <= u64::MAX,
                max_h <= u64::MAX,
        ;
        let fits: bool = max_w as u128 * max_h as u128 <= (u32::MAX / 255) as u128;
        proof {
            let most = (u32::MAX / 255) as int;
            let low = self.cell_area(iw@, ih@);
            let high = self.cell_area(jw@, jh@);
            assert(min_w == 0 || min_h == 0 ==> min_h * min_w == 0) by (nonlinear_arith);
            assert(max_w * max_h == max_h * max_w) by (nonlinear_arith);
            if min_w > 0 && min_h > 0 && fits {
                assert forall|dx: int, dy: int|
                    #![trigger self.cell_area(dx, dy)]
                    0 <= dx < self.dst_w && 0 <= dy < self.dst_h implies 0 < self.cell_area(dx, dy)
                    <= most by {
                    let w = step(self.sx_starts@, dx);
                    let h = step(self.sy_starts@, dy);
                    assert(0 < h * w <= max_h * max_w) by (nonlinear_arith)
                        requires
                            0 < min_w <= w <= max_w,
                            0 < min_h <= h <= max_h,
                    ;
                }
            }
        }
        min_w > 0 && min_h > 0 && fits
    }

    /// Whether the tables were made for these sizes.
    pub fn matches(&self, src_w: usize, src_h: usize, dst_w: usize, dst_h: usize) -> (r: bool)
        ensures
            r == (self.src_w == src_w && self.src_h == src_h && self.dst_w == dst_w && self.dst_h
                == dst_h),
    {
        self.src_w == src_w && self.src_h == src_h && self.dst_w == dst_w && self.dst_h == dst_h
    }
}

// ---------------------------------------------------------------------------
// The mean of a rectangle
// ---------------------------------------------------------------------------

/// Channel `c` of the source pixel in column `x` of row `y`.
pub open spec fn channel(src: Seq<u8>, pitch: int, y: int, x: int, c: int) -> int {
    src[y * pitch + x * 4 + c] as int
}

/// The sum of channel `c` over the columns `x0..x1` of row `y`.
pub open spec fn row_sum(src: Seq<u8>, pitch: int, y: int, x0: int, x1: int, c: int) -> int
    decreases x1 - x0,
{
    if x1 <= x0 {
        0
    } else {
        row_sum(src, pitch, y, x0, x1 - 1, c) + channel(src, pitch, y, x1 - 1, c)
    }
}

/// The sum of channel `c` over the rows `y0..y1` and columns `x0..x1`.
pub open spec fn area_sum(
    src: Seq<u8>,
    pitch: int,
    y0: int,
    y1: int,
    x0: int,
    x1: int,
    c: int,
) -> int
    decreases y1 - y0,
{
    if y1 <= y0 {
        0
    } else {
        area_sum(src, pitch, y0, y1 - 1, x0, x1, c) + row_sum(src, pitch, y1 - 1, x0, x1, c)
    }
}

/// Channel `c` of output pixel `(dx, dy)`: the mean over its rectangle,
/// rounded down.
pub open spec fn mean(
    src: Seq<u8>,
    pitch: int,
    lut: &DownsampleLut,
    dx: int,
    dy: int,
    c: int,
) -> int {
    area_sum(
        src,
        pitch,
        lut.sy_starts@[dy] as int,
        lut.sy_starts@[dy + 1] as int,
        lut.sx_starts@[dx] as int,
        lut.sx_starts@[dx + 1] as int,
        c,
    ) / lut.cell_area(dx, dy)
}

/// Whether `row` is output row `dy` up to column `upto`.
pub open spec fn row_is_mean(
    src: Seq<u8>,
    pitch: int,
    lut: &DownsampleLut,
    dy: int,
    row: Seq<u8>,
    upto: int,
) -> bool {
    forall|dx: int, c: int|
        #![trigger mean(src, pitch, lut, dx, dy, c)]
        0 <= dx < upto && 0 <= c < 4 ==> row[dx * 4 + c] == mean(src, pitch, lut, dx, dy, c)
}

/// Whether every pixel of the source lies in a buffer of `len` bytes.
pub open spec fn source_fits(lut: &DownsampleLut, pitch: int, len: int) -> bool {
    lut.src_h > 0 ==> (lut.src_h - 1) * pitch + lut.src_w * 4 <= len
}

/// A sum over a row or a rectangle is at most 255 times its pixels.
proof fn lemma_sums_bounded(src: Seq<u8>, pitch: int, y0: int, y1: int, x0: int, x1: int, c: int)
    requires
        y0 <= y1,
        x0 <= x1,
    ensures
        0 <= row_sum(src, pitch, y1 - 1, x0, x1, c) <= 255 * (x1 - x0),
        0 <= area_sum(src, pitch, y0, y1, x0, x1, c) <= 255 * ((y1 - y0) * (x1 - x0)),
    decreases y1 - y0, x1 - x0,
{
    if x0 < x1 {
        lemma_sums_bounded(src, pitch, y1, y1, x0, x1 - 1, c);
    }
    if y0 < y1 {
        lemma_sums_bounded(src, pitch, y0, y1 - 1, x0, x1, c);
        assert((y1 - y0) * (x1 - x0) == (y1 - 1 - y0) * (x1 - x0) + (x1 - x0))
            by (nonlinear_arith);
    } else {
        assert((y1 - y0) * (x1 - x0) == 0) by (nonlinear_arith)
            requires
                y1 == y0,
        ;
    }
}

/// The sums of the four channels over a rectangle.
fn sum_area(src: &[u8], pitch: usize, y0: usize, y1: usize, x0: usize, x1: usize) -> (sums: (
    u32,
    u32,
    u32,
    u32,
))
    requires
        y0 < y1,
        x0 < x1,
        (y1 - 1) * pitch + x1 * 4 <= src@.len(),
        (y1 - y0) * (x1 - x0) <= u32::MAX / 255,
    ensures
        sums.0 == area_sum(src@, pitch as int, y0 as int, y1 as int, x0 as int, x1 as int, 0),
        sums.1 == area_sum(src@, pitch as int, y0 as int, y1 as int, x0 as int, x1 as int, 1),
        sums.2 == area_sum(src@, pitch as int, y0 as int, y1 as int, x0 as int, x1 as int, 2),
        sums.3 == area_sum(src@, pitch as int, y0 as int, y1 as int, x0 as int, x1 as int, 3),
{
    let len: usize = src.len();
    let ghost s = src@;
    let ghost p = pitch as int;
    let mut b: u32 = 0;
    let mut g: u32 = 0;
    let mut r: u32 = 0;
    let mut a: u32 = 0;
    let mut y: usize = y0;
    while y < y1
        invariant
            y0 <= y <= y1,
            x0 < x1,
            len == src@.len(),
            s == src@,
            p == pitch,
            (y1 - 1) * pitch + x1 * 4 <= len,
            (y1 - y0) * (x1 - x0) <= u32::MAX / 255,
            b == area_sum(s, p, y0 as int, y as int, x0 as int, x1 as int, 0),
            g == area_sum(s, p, y0 as int, y as int, x0 as int, x1 as int, 1),
            r == area_sum(s, p, y0 as int, y as int, x0 as int, x1 as int, 2),
            a == area_sum(s, p, y0 as int, y as int, x0 as int, x1 as int, 3),
        decreases y1 - y,
    {
        assert(y * pitch <= (y1 - 1) * pitch) by (nonlinear_arith)
            requires
                y <= y1 - 1,
        ;
        let row: usize = y * pitch;
        let ghost (b0, g0, r0, a0) = (b as int, g as int, r as int, a as int);
        let mut x: usize = x0;
        while x < x1
            invariant
                y0 <= y < y1,
                x0 <= x <= x1,
                len == src@.len(),
                s == src@,
                p == pitch,
                row == y * pitch,
                row + x1 * 4 <= len,
                (y1 - y0) * (x1 - x0) <= u32::MAX / 255,
                b0 == area_sum(s, p, y0 as int, y as int, x0 as int, x1 as int, 0),
                g0 == area_sum(s, p, y0 as int, y as int, x0 as int, x1 as int, 1),
                r0 == area_sum(s, p, y0 as int, y as int, x0 as int, x1 as int, 2),
                a0 == area_sum(s, p, y0 as int, y as int, x0 as int, x1 as int, 3),
                b == b0 + row_sum(s, p, y as int, x0 as int, x as int, 0),
                g == g0 + row_sum(s, p, y as int, x0 as int, x as int, 1),
                r == r0 + row_sum(s, p, y as int, x0 as int, x as int, 2),
                a == a0 + row_sum(s, p, y as int, x0 as int, x as int, 3),
            decreases x1 - x,
        {
            proof {
                assert forall|c: int|
                    area_sum(s, p, y0 as int, y as int, x0 as int, x1 as int, c) + row_sum(
                        s,
                        p,
                        y as int,
                        x0 as int,
                        x as int,
                        c,
                    ) + 255 <= u32::MAX by {
                    lemma_sums_bounded(s, p, y0 as int, y as int, x0 as int, x1 as int, c);
                    lemma_sums_bounded(s, p, y + 1, y + 1, x0 as int, x as int, c);
                    assert(255 * ((y - y0) * (x1 - x0)) + 255 * (x - x0) + 255 <= 255 * ((y1 - y0)
                        * (x1 - x0))) by (nonlinear_arith)
                        requires
                            y0 <= y < y1,
                            x0 <= x < x1,
                    ;
                }
            }
            let at: usize = row + x * 4;
            b = b + src[at] as u32;
            g = g + src[at + 1] as u32;
            r = r + src[at + 2] as u32;
            a = a + src[at + 3] as u32;
            x += 1;
        }
        y += 1;
    }
    (b, g, r, a)
}

/// Fills output row `dy`.
pub fn downsample_row(src: &[u8], pitch: usize, lut: &DownsampleLut, dy: usize, row: &mut [u8])
    requires
        lut.well_formed(),
        lut.averages(),
        source_fits(lut, pitch as int, src@.len() as int),
        dy < lut.dst_h,
        old(row)@.len() == lut.dst_w * 4,
    ensures
        final(row)@.len() == old(row)@.len(),
        row_is_mean(src@, pitch as int, lut, dy as int, final(row)@, lut.dst_w as int),
{
    let y0: usize = lut.sy_starts[dy];
    let y1: usize = lut.sy_starts[dy + 1];
    let n: usize = row.len();
    let mut dx: usize = 0;
    while dx < lut.dst_w
        invariant
            lut.well_formed(),
            lut.averages(),
            source_fits(lut, pitch as int, src@.len() as int),
            dy < lut.dst_h,
            y0 == lut.sy_starts@[dy as int],
            y1 == lut.sy_starts@[dy + 1],
            n == row@.len(),
            n == lut.dst_w * 4,
            old(row)@.len() == n,
            dx <= lut.dst_w,
            row_is_mean(src@, pitch as int, lut, dy as int, row@, dx as int),
        decreases lut.dst_w - dx,
    {
        let x0: usize = lut.sx_starts[dx];
        let x1: usize = lut.sx_starts[dx + 1];
        proof {
            lemma_cell(lut, dx as int, dy as int);
            assert((y1 - 1) * pitch <= (lut.src_h - 1) * pitch) by (nonlinear_arith)
                requires
                    y1 <= lut.src_h,
            ;
        }
        let (b, g, r, a) = sum_area(src, pitch, y0, y1, x0, x1);
        assert((y1 - y0) * (x1 - x0) == lut.cell_area(dx as int, dy as int));
        let count: u32 = ((y1 - y0) * (x1 - x0)) as u32;
        proof {
            assert forall|c: int| 0 <= #[trigger] mean(src@, pitch as int, lut, dx as int, dy as int, c)
                <= 255 by {
                lemma_sums_bounded(
                    src@,
                    pitch as int,
                    y0 as int,
                    y1 as int,
                    x0 as int,
                    x1 as int,
                    c,
                );
                let sum = area_sum(
                    src@,
                    pitch as int,
                    y0 as int,
                    y1 as int,
                    x0 as int,
                    x1 as int,
                    c,
                );
                let area = lut.cell_area(dx as int, dy as int);
                assert(0 <= sum / area <= 255) by (nonlinear_arith)
                    requires
                        0 <= sum <= 255 * area,
                        0 < area,
                ;
            }
        }
        let at: usize = dx * 4;
        let ghost before = row@;
        row[at] = (b / count) as u8;
        row[at + 1] = (g / count) as u8;
        row[at + 2] = (r / count) as u8;
        row[at + 3] = (a / count) as u8;
        proof {
            let m = |c: int| mean(src@, pitch as int, lut, dx as int, dy as int, c);
            assert(row@[dx * 4 + 0] == m(0));
            assert(row@[dx * 4 + 1] == m(1));
            assert(row@[dx * 4 + 2] == m(2));
            assert(row@[dx * 4 + 3] == m(3));
            assert forall|d: int, c: int|
                #![trigger mean(src@, pitch as int, lut, d, dy as int, c)]
                0 <= d < dx + 1 && 0 <= c < 4 implies row@[d * 4 + c] == mean(
                src@,
                pitch as int,
                lut,
                d,
                dy as int,
                c,
            ) by {
                if d < dx {
                    assert(row@[d * 4 + c] == before[d * 4 + c]);
                }
            }
        }
        dx += 1;
    }
}

/// Where the sums fit and no rectangle is empty, the corners of a rectangle
/// are in order and within the source.
proof fn lemma_cell(lut: &DownsampleLut, dx: int, dy: int)
    requires
        lut.well_formed(),
        lut.averages(),
        0 <= dx < lut.dst_w,
        0 <= dy < lut.dst_h,
    ensures
        lut.sx_starts@[dx] < lut.sx_starts@[dx + 1] <= lut.src_w,
        lut.sy_starts@[dy] < lut.sy_starts@[dy + 1] <= lut.src_h,
        0 < lut.cell_area(dx, dy) <= u32::MAX / 255,
{
    lemma_boundary(dx, dx + 1, lut.src_w as int, lut.dst_w as int);
    lemma_boundary(dy, dy + 1, lut.src_h as int, lut.dst_h as int);
    assert(0 < lut.cell_area(dx, dy) <= u32::MAX / 255);
    let h = lut.sy_starts@[dy + 1] - lut.sy_starts@[dy];
    let w = lut.sx_starts@[dx + 1] - lut.sx_starts@[dx];
    assert(h > 0 && w > 0) by (nonlinear_arith)
        requires
            h * w > 0,
            h >= 0,
            w >= 0,
    ;
}

/// Fills the output rows in parallel: `par_chunks_mut` of rayon splits `dst`
/// into consecutive rows of `row_bytes` bytes, and `enumerate` with
/// `for_each` hands each row and its number to `downsample_row` once. What
/// is claimed of a row is what `downsample_row` ensures of it.
#[verifier::external_body]
fn par_rows(src: &[u8], pitch: usize, lut: &DownsampleLut, row_bytes: usize, dst: &mut [u8])
    requires
        lut.well_formed(),
        lut.averages(),
        source_fits(lut, pitch as int, src@.len() as int),
        row_bytes == lut.dst_w * 4,
        old(dst)@.len() % (row_bytes as nat) == 0,
        old(dst)@.len() <= lut.dst_h * row_bytes,
    ensures
        final(dst)@.len() == old(dst)@.len(),
        forall|dy: int|
            #![trigger output_row(final(dst)@, row_bytes as int, dy)]
            0 <= dy && (dy + 1) * row_bytes <= final(dst)@.len() ==> row_is_mean(
                src@,
                pitch as int,
                lut,
                dy,
                output_row(final(dst)@, row_bytes as int, dy),
                lut.dst_w as int,
            ),
{
    dst.par_chunks_mut(row_bytes).enumerate().for_each(
        |(dy, row)| downsample_row(src, pitch, lut, dy, row),
    );
}

/// Row `dy` of an image with rows of `row_bytes` bytes.
pub open spec fn output_row(dst: Seq<u8>, row_bytes: int, dy: int) -> Seq<u8> {
    dst.subrange(dy * row_bytes, (dy + 1) * row_bytes)
}

/// Downsamples a frame: every channel of every output pixel is the mean over
/// its source rectangle, rounded down. `dst` holds whole output rows.
pub fn downsample_bgra(src: &[u8], pitch: usize, dst: &mut [u8], lut: &DownsampleLut)
    requires
        lut.well_formed(),
        lut.averages(),
        source_fits(lut, pitch as int, src@.len() as int),
        lut.dst_w * 4 <= usize::MAX,
        old(dst)@.len() % ((lut.dst_w * 4) as nat) == 0,
        old(dst)@.len() <= lut.dst_h * (lut.dst_w * 4),
    ensures
        final(dst)@.len() == old(dst)@.len(),
        forall|dx: int, dy: int, c: int|
            #![trigger mean(src@, pitch as int, lut, dx, dy, c)]
            0 <= dx < lut.dst_w && 0 <= dy && (dy + 1) * (lut.dst_w * 4) <= final(dst)@.len() && 0
                <= c < 4 ==> final(dst)@[(dy * lut.dst_w + dx) * 4 + c] == mean(
                src@,
                pitch as int,
                lut,
                dx,
                dy,
                c,
            ),
{
    let row_bytes: usize = lut.dst_w * 4;
    par_rows(src, pitch, lut, row_bytes, dst);
    assert forall|dx: int, dy: int, c: int|
        #![trigger mean(src@, pitch as int, lut, dx, dy, c)]
        0 <= dx < lut.dst_w && 0 <= dy && (dy + 1) * (lut.dst_w * 4) <= dst@.len() && 0 <= c
            < 4 implies dst@[(dy * lut.dst_w + dx) * 4 + c] == mean(
        src@,
        pitch as int,
        lut,
        dx,
        dy,
        c,
    ) by {
        let row = output_row(dst@, row_bytes as int, dy);
        assert((dy + 1) * row_bytes == dy * row_bytes + row_bytes) by (nonlinear_arith);
        assert(dy * row_bytes >= 0) by (nonlinear_arith)
            requires
                dy >= 0,
        ;
        assert(row[dx * 4 + c] == dst@[dy * row_bytes + (dx * 4 + c)]);
        assert(dy * row_bytes + (dx * 4 + c) == (dy * lut.dst_w + dx) * 4 + c) by (nonlinear_arith)
            requires
                row_bytes == lut.dst_w * 4,
        ;
    }
}

// ---------------------------------------------------------------------------
// Laws
// ---------------------------------------------------------------------------

/// The parts of `0..whole` are a partition: every position lies in exactly
/// one of them.
pub proof fn law_parts_partition(whole: int, parts: int, x: int) -> (i: int)
    requires
        0 < parts,
        0 <= x < whole,
    ensures
        0 <= i < parts,
        boundary(i, whole, parts) <= x < boundary(i + 1, whole, parts),
        forall|j: int|
            0 <= j < parts && boundary(j, whole, parts) <= x < #[trigger] boundary(
                j + 1,
                whole,
                parts,
            ) ==> j == i,
{
    lemma_boundary(0, parts, whole, parts);
    let i = last_boundary_upto(whole, parts, x, parts);
    assert forall|j: int|
        0 <= j < parts && boundary(j, whole, parts) <= x < #[trigger] boundary(
            j + 1,
            whole,
            parts,
        ) implies j == i by {
        if j < i {
            lemma_boundary(j + 1, i, whole, parts);
        }
        if j > i {
            lemma_boundary(i + 1, j, whole, parts);
        }
    }
    i
}

/// The part below `upto` in which `x` lies.
proof fn last_boundary_upto(whole: int, parts: int, x: int, upto: int) -> (i: int)
    requires
        0 < parts,
        0 <= x < whole,
        0 < upto <= parts,
        x < boundary(upto, whole, parts),
    ensures
        0 <= i < parts,
        boundary(i, whole, parts) <= x < boundary(i + 1, whole, parts),
    decreases upto,
{
    lemma_boundary(0, upto, whole, parts);
    if boundary(upto - 1, whole, parts) <= x {
        upto - 1
    } else {
        last_boundary_upto(whole, parts, x, upto - 1)
    }
}

/// Every part begins at its own proportional place, rounded down.
pub proof fn law_boundary_is_proportional(i: int, whole: int, parts: int)
    requires
        0 <= i <= parts,
        0 < parts,
        0 <= whole,
    ensures
        i * whole - parts < boundary(i, whole, parts) * parts <= i * whole,
        i * whole < (boundary(i, whole, parts) + 1) * parts,
{
    let n = i * whole;
    let q = n / parts;
    assert(n >= 0) by (nonlinear_arith)
        requires
            n == i * whole,
            i >= 0,
            whole >= 0,
    ;
    assert(q * parts <= n < q * parts + parts) by (nonlinear_arith)
        requires
            q == n / parts,
            parts > 0,
            n >= 0,
    ;
    assert((q + 1) * parts == q * parts + parts) by (nonlinear_arith);
}

/// Any two parts differ in length by at most one.
pub proof fn law_parts_are_nearly_equal(i: int, j: int, whole: int, parts: int)
    requires
        0 <= i < parts,
        0 <= j < parts,
        0 <= whole,
    ensures
        -1 <= (boundary(i + 1, whole, parts) - boundary(i, whole, parts)) - (boundary(
            j + 1,
            whole,
            parts,
        ) - boundary(j, whole, parts)) <= 1,
{
    law_boundary_is_proportional(i, whole, parts);
    law_boundary_is_proportional(i + 1, whole, parts);
    law_boundary_is_proportional(j, whole, parts);
    law_boundary_is_proportional(j + 1, whole, parts);
    let (a0, a1) = (boundary(i, whole, parts), boundary(i + 1, whole, parts));
    let (b0, b1) = (boundary(j, whole, parts), boundary(j + 1, whole, parts));
    assert((i + 1) * whole == i * whole + whole) by (nonlinear_arith);
    assert((j + 1) * whole == j * whole + whole) by (nonlinear_arith);
    let d = (a1 - a0) - (b1 - b0);
    assert(d * parts == (a1 * parts - a0 * parts) - (b1 * parts - b0 * parts)) by (nonlinear_arith)
        requires
            d == (a1 - a0) - (b1 - b0),
    ;
    assert(-1 <= d <= 1) by (nonlinear_arith)
        requires
            -2 * parts < d * parts < 2 * parts,
            parts > 0,
    ;
}

/// The sum over a rectangle is made up of its pixels: over one pixel it is the
/// byte of that pixel, and over two rectangles that lie side by side or one
/// below the other it is the sum of both.
pub proof fn law_sums_are_made_of_pixels(
    src: Seq<u8>,
    pitch: int,
    y0: int,
    y1: int,
    y2: int,
    x0: int,
    x1: int,
    x2: int,
    c: int,
)
    requires
        y0 <= y1 <= y2,
        x0 <= x1 <= x2,
    ensures
        area_sum(src, pitch, y0, y0 + 1, x0, x0 + 1, c) == src[y0 * pitch + x0 * 4 + c],
        area_sum(src, pitch, y0, y2, x0, x1, c) == area_sum(src, pitch, y0, y1, x0, x1, c)
            + area_sum(src, pitch, y1, y2, x0, x1, c),
        area_sum(src, pitch, y0, y1, x0, x2, c) == area_sum(src, pitch, y0, y1, x0, x1, c)
            + area_sum(src, pitch, y0, y1, x1, x2, c),
        area_sum(src, pitch, y0, y0, x0, x1, c) == 0,
        area_sum(src, pitch, y0, y1, x0, x0, c) == 0,
{
    assert(area_sum(src, pitch, y0, y0, x0, x0 + 1, c) == 0);
    assert(row_sum(src, pitch, y0, x0, x0, c) == 0);
    assert(row_sum(src, pitch, y0, x0, x0 + 1, c) == channel(src, pitch, y0, x0, c));
    assert(area_sum(src, pitch, y0, y0 + 1, x0, x0 + 1, c) == channel(src, pitch, y0, x0, c));
    lemma_rows_add(src, pitch, y0, y1, y2, x0, x1, c);
    lemma_columns_add(src, pitch, y0, y1, x0, x1, x2, c);
    lemma_columns_add(src, pitch, y0, y1, x0, x0, x0, c);
}

proof fn lemma_rows_add(
    src: Seq<u8>,
    pitch: int,
    y0: int,
    y1: int,
    y2: int,
    x0: int,
    x1: int,
    c: int,
)
    requires
        y0 <= y1 <= y2,
    ensures
        area_sum(src, pitch, y0, y2, x0, x1, c) == area_sum(src, pitch, y0, y1, x0, x1, c)
            + area_sum(src, pitch, y1, y2, x0, x1, c),
    decreases y2 - y1,
{
    if y1 < y2 {
        lemma_rows_add(src, pitch, y0, y1, y2 - 1, x0, x1, c);
    }
}

proof fn lemma_row_splits(src: Seq<u8>, pitch: int, y: int, x0: int, x1: int, x2: int, c: int)
    requires
        x0 <= x1 <= x2,
    ensures
        row_sum(src, pitch, y, x0, x2, c) == row_sum(src, pitch, y, x0, x1, c) + row_sum(
            src,
            pitch,
            y,
            x1,
            x2,
            c,
        ),
    decreases x2 - x1,
{
    if x1 < x2 {
        lemma_row_splits(src, pitch, y, x0, x1, x2 - 1, c);
    }
}

proof fn lemma_columns_add(
    src: Seq<u8>,
    pitch: int,
    y0: int,
    y1: int,
    x0: int,
    x1: int,
    x2: int,
    c: int,
)
    requires
        y0 <= y1,
        x0 <= x1 <= x2,
    ensures
        area_sum(src, pitch, y0, y1, x0, x2, c) == area_sum(src, pitch, y0, y1, x0, x1, c)
            + area_sum(src, pitch, y0, y1, x1, x2, c),
    decreases y1 - y0,
{
    if y0 < y1 {
        lemma_columns_add(src, pitch, y0, y1 - 1, x0, x1, x2, c);
        lemma_row_splits(src, pitch, y1 - 1, x0, x1, x2, c);
    }
}

/// An output pixel is the mean over its own rectangle, rounded down: as often
/// as the rectangle has pixels it goes into their sum, and no larger value
/// does.
pub proof fn law_mean_is_rounded_down(
    src: Seq<u8>,
    pitch: int,
    lut: &DownsampleLut,
    dx: int,
    dy: int,
    c: int,
)
    requires
        lut.well_formed(),
        lut.averages(),
        0 <= dx < lut.dst_w,
        0 <= dy < lut.dst_h,
    ensures
        ({
            let (y0, y1) = (lut.sy_starts@[dy] as int, lut.sy_starts@[dy + 1] as int);
            let (x0, x1) = (lut.sx_starts@[dx] as int, lut.sx_starts@[dx + 1] as int);
            let pixels = (y1 - y0) * (x1 - x0);
            let sum = area_sum(src, pitch, y0, y1, x0, x1, c);
            let m = mean(src, pitch, lut, dx, dy, c);
            &&& y0 < y1 && x0 < x1
            &&& m * pixels <= sum < (m + 1) * pixels
        }),
{
    lemma_cell(lut, dx, dy);
    let (y0, y1) = (lut.sy_starts@[dy] as int, lut.sy_starts@[dy + 1] as int);
    let (x0, x1) = (lut.sx_starts@[dx] as int, lut.sx_starts@[dx + 1] as int);
    let pixels = (y1 - y0) * (x1 - x0);
    let sum = area_sum(src, pitch, y0, y1, x0, x1, c);
    lemma_sums_bounded(src, pitch, y0, y1, x0, x1, c);
    let m = mean(src, pitch, lut, dx, dy, c);
    assert(m == sum / pixels);
    assert(m * pixels <= sum < m * pixels + pixels) by (nonlinear_arith)
        requires
            m == sum / pixels,
            pixels > 0,
            sum >= 0,
    ;
    assert((m + 1) * pixels == m * pixels + pixels) by (nonlinear_arith);
}

/// An output of the size of the source is the source, byte by byte.
pub proof fn law_same_size_is_copied(
    src: Seq<u8>,
    pitch: int,
    lut: &DownsampleLut,
    dx: int,
    dy: int,
    c: int,
)
    requires
        lut.well_formed(),
        lut.averages(),
        lut.dst_w == lut.src_w,
        lut.dst_h == lut.src_h,
        0 <= dx < lut.dst_w,
        0 <= dy < lut.dst_h,
    ensures
        mean(src, pitch, lut, dx, dy, c) == src[dy * pitch + dx * 4 + c],
{
    lemma_whole_parts(dx, lut.dst_w as int);
    lemma_whole_parts(dx + 1, lut.dst_w as int);
    lemma_whole_parts(dy, lut.dst_h as int);
    lemma_whole_parts(dy + 1, lut.dst_h as int);
    law_sums_are_made_of_pixels(src, pitch, dy, dy, dy, dx, dx, dx, c);
    law_mean_is_rounded_down(src, pitch, lut, dx, dy, c);
    assert(lut.sx_starts@[dx] == dx && lut.sx_starts@[dx + 1] == dx + 1);
    assert(lut.sy_starts@[dy] == dy && lut.sy_starts@[dy + 1] == dy + 1);
    let m = mean(src, pitch, lut, dx, dy, c);
    let (y0, y1) = (lut.sy_starts@[dy] as int, lut.sy_starts@[dy + 1] as int);
    let (x0, x1) = (lut.sx_starts@[dx] as int, lut.sx_starts@[dx + 1] as int);
    let pixels = (y1 - y0) * (x1 - x0);
    assert(m * pixels == m && (m + 1) * pixels == m + 1) by (nonlinear_arith)
        requires
            pixels == (y1 - y0) * (x1 - x0),
            y1 - y0 == 1,
            x1 - x0 == 1,
    ;
}

proof fn lemma_whole_parts(i: int, n: int)
    requires
        0 <= i <= n,
        0 < n,
    ensures
        boundary(i, n, n) == i,
{
    vstd::arithmetic::div_mod::lemma_div_by_multiple(i, n);
}

/// Every pixel of the source lies in the rectangle of exactly one output
/// pixel.
pub proof fn law_every_pixel_read_once(lut: &DownsampleLut, x: int, y: int) -> (cell: (int, int))
    requires
        lut.well_formed(),
        0 <= x < lut.src_w,
        0 <= y < lut.src_h,
    ensures
        0 <= cell.0 < lut.dst_w && 0 <= cell.1 < lut.dst_h,
        lut.covers(cell.0, cell.1, x, y),
        forall|dx: int, dy: int|
            0 <= dx < lut.dst_w && 0 <= dy < lut.dst_h && #[trigger] lut.covers(dx, dy, x, y)
                ==> dx == cell.0 && dy == cell.1,
{
    let dx = law_parts_partition(lut.src_w as int, lut.dst_w as int, x);
    let dy = law_parts_partition(lut.src_h as int, lut.dst_h as int, y);
    lemma_boundary(dx, dx + 1, lut.src_w as int, lut.dst_w as int);
    lemma_boundary(dy, dy + 1, lut.src_h as int, lut.dst_h as int);
    assert forall|i: int, j: int|
        0 <= i < lut.dst_w && 0 <= j < lut.dst_h && #[trigger] lut.covers(
            i,
            j,
            x,
            y,
        ) implies i == dx && j == dy by {
        lemma_boundary(i, i + 1, lut.src_w as int, lut.dst_w as int);
        lemma_boundary(j, j + 1, lut.src_h as int, lut.dst_h as int);
        assert(boundary(i, lut.src_w as int, lut.dst_w as int) <= x < boundary(
            i + 1,
            lut.src_w as int,
            lut.dst_w as int,
        ));
        assert(boundary(j, lut.src_h as int, lut.dst_h as int) <= y < boundary(
            j + 1,
            lut.src_h as int,
            lut.dst_h as int,
        ));
    }
    (dx, dy)
}

/// An output that is no larger than the source in either direction leaves no
/// rectangle empty.
pub proof fn law_shrinking_leaves_no_gap(lut: &DownsampleLut, dx: int, dy: int)
    requires
        lut.well_formed(),
        lut.dst_w <= lut.src_w,
        lut.dst_h <= lut.src_h,
        0 <= dx < lut.dst_w,
        0 <= dy < lut.dst_h,
    ensures
        lut.cell_area(dx, dy) > 0,
{
    lemma_step_positive(dx, lut.src_w as int, lut.dst_w as int);
    lemma_step_positive(dy, lut.src_h as int, lut.dst_h as int);
    lemma_boundary(dx, dx + 1, lut.src_w as int, lut.dst_w as int);
    lemma_boundary(dy, dy + 1, lut.src_h as int, lut.dst_h as int);
    let w = step(lut.sx_starts@, dx);
    let h = step(lut.sy_starts@, dy);
    assert(h * w > 0) by (nonlinear_arith)
        requires
            h > 0,
            w > 0,
    ;
}

/// Where there are no more parts than positions, no part is empty.
proof fn lemma_step_positive(i: int, whole: int, parts: int)
    requires
        0 <= i < parts <= whole,
    ensures
        boundary(i, whole, parts) < boundary(i + 1, whole, parts),
{
    assert((i + 1) * whole >= i * whole + parts) by (nonlinear_arith)
        requires
            0 <= i,
            parts <= whole,
    ;
    vstd::arithmetic::div_mod::lemma_div_is_ordered(i * whole + parts, (i + 1) * whole, parts);
    vstd::arithmetic::div_mod::lemma_div_plus_one(i * whole, parts);
}

/// A source of one value in a channel gives an output of that value in that
/// channel: no output pixel is left dark.
pub proof fn law_uniform_source(
    src: Seq<u8>,
    pitch: int,
    lut: &DownsampleLut,
    dx: int,
    dy: int,
    c: int,
    value: u8,
)
    requires
        lut.well_formed(),
        lut.averages(),
        0 <= dx < lut.dst_w,
        0 <= dy < lut.dst_h,
        forall|y: int, x: int|
            0 <= y < lut.src_h && 0 <= x < lut.src_w ==> #[trigger] channel(src, pitch, y, x, c)
                == value,
    ensures
        mean(src, pitch, lut, dx, dy, c) == value,
{
    lemma_cell(lut, dx, dy);
    let (y0, y1) = (lut.sy_starts@[dy] as int, lut.sy_starts@[dy + 1] as int);
    let (x0, x1) = (lut.sx_starts@[dx] as int, lut.sx_starts@[dx + 1] as int);
    lemma_uniform_sum(src, pitch, y0, y1, x0, x1, c, value, lut.src_w as int, lut.src_h as int);
    let area = lut.cell_area(dx, dy);
    vstd::arithmetic::div_mod::lemma_div_by_multiple(value as int, area);
    assert(value * area == area * value) by (nonlinear_arith);
}

/// Over a rectangle of one value the sum is the value times the area.
proof fn lemma_uniform_sum(
    src: Seq<u8>,
    pitch: int,
    y0: int,
    y1: int,
    x0: int,
    x1: int,
    c: int,
    value: u8,
    w: int,
    h: int,
)
    requires
        0 <= y0 <= y1 <= h,
        0 <= x0 <= x1 <= w,
        forall|y: int, x: int|
            0 <= y < h && 0 <= x < w ==> #[trigger] channel(src, pitch, y, x, c) == value,
    ensures
        y1 > 0 ==> row_sum(src, pitch, y1 - 1, x0, x1, c) == (x1 - x0) * value,
        area_sum(src, pitch, y0, y1, x0, x1, c) == ((y1 - y0) * (x1 - x0)) * value,
    decreases y1 - y0, x1 - x0,
{
    if x0 < x1 && y1 > 0 {
        lemma_uniform_sum(src, pitch, y1, y1, x0, x1 - 1, c, value, w, h);
        assert((x1 - x0) * value == (x1 - 1 - x0) * value + value) by (nonlinear_arith);
    }
    if x0 == x1 {
        assert((x1 - x0) * value == 0) by (nonlinear_arith)
            requires
                x0 == x1,
        ;
    }
    if y0 < y1 {
        lemma_uniform_sum(src, pitch, y0, y1 - 1, x0, x1, c, value, w, h);
        assert(((y1 - y0) * (x1 - x0)) * value == ((y1 - 1 - y0) * (x1 - x0)) * value + (x1 - x0)
            * value) by (nonlinear_arith);
    } else {
        assert(((y1 - y0) * (x1 - x0)) * value == 0) by (nonlinear_arith)
            requires
                y1 == y0,
        ;
    }
}

/// Whether the rectangle of an output pixel has a pixel, and the sum of a full
/// channel over it fits in 32 bits.
pub open spec fn rectangle_fits(lut: &DownsampleLut, dx: int, dy: int) -> bool {
    let (x0, x1) = (lut.sx_starts@[dx] as int, lut.sx_starts@[dx + 1] as int);
    let (y0, y1) = (lut.sy_starts@[dy] as int, lut.sy_starts@[dy + 1] as int);
    x0 < x1 && y0 < y1 && 255 * ((y1 - y0) * (x1 - x0)) <= u32::MAX
}

/// A frame can be averaged exactly where every rectangle has a pixel and the
/// sum of a full channel over it fits in 32 bits.
pub proof fn law_what_can_be_averaged(lut: &DownsampleLut)
    requires
        lut.well_formed(),
    ensures
        lut.averages() <==> forall|dx: int, dy: int|
            0 <= dx < lut.dst_w && 0 <= dy < lut.dst_h ==> #[trigger] rectangle_fits(lut, dx, dy),
{
    if lut.averages() {
        assert forall|dx: int, dy: int|
            0 <= dx < lut.dst_w && 0 <= dy < lut.dst_h implies #[trigger] rectangle_fits(
            lut,
            dx,
            dy,
        ) by {
            lemma_cell(lut, dx, dy);
        }
    }
    if forall|dx: int, dy: int|
        0 <= dx < lut.dst_w && 0 <= dy < lut.dst_h ==> #[trigger] rectangle_fits(lut, dx, dy) {
        assert forall|dx: int, dy: int|
            #![trigger lut.cell_area(dx, dy)]
            0 <= dx < lut.dst_w && 0 <= dy < lut.dst_h implies 0 < lut.cell_area(dx, dy)
            <= u32::MAX / 255 by {
            assert(rectangle_fits(lut, dx, dy));
            let w = lut.sx_starts@[dx + 1] - lut.sx_starts@[dx];
            let h = lut.sy_starts@[dy + 1] - lut.sy_starts@[dy];
            assert(h * w > 0) by (nonlinear_arith)
                requires
                    h > 0,
                    w > 0,
            ;
        }
    }
}

/// A source of no more than 16 million pixels can be averaged to every size
/// that is no larger.
pub proof fn law_frames_can_be_averaged(lut: &DownsampleLut)
    requires
        lut.well_formed(),
        lut.dst_w <= lut.src_w,
        lut.dst_h <= lut.src_h,
        lut.src_w * lut.src_h <= 16_000_000,
    ensures
        lut.averages(),
{
    assert forall|dx: int, dy: int|
        #![trigger lut.cell_area(dx, dy)]
        0 <= dx < lut.dst_w && 0 <= dy < lut.dst_h implies 0 < lut.cell_area(dx, dy) <= u32::MAX
        / 255 by {
        law_shrinking_leaves_no_gap(lut, dx, dy);
        lemma_boundary(dx, dx + 1, lut.src_w as int, lut.dst_w as int);
        lemma_boundary(dy, dy + 1, lut.src_h as int, lut.dst_h as int);
        let w = lut.sx_starts@[dx + 1] - lut.sx_starts@[dx];
        let h = lut.sy_starts@[dy + 1] - lut.sy_starts@[dy];
        let (sw, sh) = (lut.src_w as int, lut.src_h as int);
        assert(h * w <= sw * sh) by (nonlinear_arith)
            requires
                0 <= w <= sw,
                0 <= h <= sh,
        ;
    }
}

} // verus!
