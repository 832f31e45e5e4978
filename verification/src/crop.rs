//! The cover crop of a frame into a filmstrip cell: the largest centered rect
//! with the cell's aspect, divided evenly in double arithmetic.
//!
//! Lengths and positions are doubles, counted in units (see
//! [`crate::rounding`]); an edge is a position cut to whole pixels.

use vstd::prelude::*;

use crate::rounding;
use crate::rounding::{nearest_of, parts_of, DOUBLE, UNIT};

verus! {

/// The double nearest to 96 / 54, in units.
pub const ASPECT: u128 = 0x1_C71C_71C7_1C71_C000;

/// The double nearest to `num / den` units.
pub open spec fn fl(num: int, den: int) -> int {
    rounding::nearest(num, den, DOUBLE as int)
}

/// The cell's aspect, width over height.
pub open spec fn cell_aspect() -> int {
    fl(96 * UNIT, 54)
}

/// The source is wider than a cell: it is cropped left and right.
pub open spec fn wide(src_w: int, src_h: int) -> bool {
    9 * src_w > 16 * src_h
}

/// The width of the crop.
pub open spec fn crop_width(src_w: int, src_h: int) -> int {
    if wide(src_w, src_h) {
        fl(src_h * cell_aspect(), 1)
    } else {
        src_w * UNIT
    }
}

/// The height of the crop.
pub open spec fn crop_height(src_w: int, src_h: int) -> int {
    if wide(src_w, src_h) {
        src_h * UNIT
    } else {
        fl(src_w * UNIT * UNIT, cell_aspect())
    }
}

/// The pixel at which part `d` of `n` begins, where the parts divide a length
/// `crop` in the middle of `size` pixels.
pub open spec fn edge(size: int, crop: int, n: int, d: int) -> int {
    let start = fl(size * UNIT - crop, 1) / 2;
    let along = fl(fl(d * UNIT, n) * crop, UNIT as int);
    fl(start + along, 1) / UNIT as int
}

/// The source column at which column `d` of a cell begins.
pub open spec fn column_edge(src_w: int, src_h: int, d: int) -> int {
    edge(src_w, crop_width(src_w, src_h), 96, d)
}

/// The source row at which row `d` of a cell begins.
pub open spec fn row_edge(src_w: int, src_h: int, d: int) -> int {
    edge(src_h, crop_height(src_w, src_h), 54, d)
}

/// The end of a span that begins at `start`: where the next begins, at least
/// one pixel on and at most at the end of the source.
pub open spec fn span_end(start: int, next: int, size: int) -> int {
    if next <= start {
        start + 1
    } else if next > size {
        size
    } else {
        next
    }
}

proof fn lemma_aspect()
    ensures
        cell_aspect() == ASPECT,
        9 * ASPECT == 16 * UNIT - 0x4000,
{
    reveal_with_fuel(rounding::grain, 14);
    assert(rounding::grain(96 * UNIT, 54, DOUBLE as int) == 0x1000);
}

/// Below 2^97 units the grain of a double divides 2^44.
proof fn lemma_coarse(num: int, den: int)
    requires
        0 <= num < 0x2_0000_0000_0000_0000_0000_0000 * den,
        0 < den,
    ensures
        0x1000_0000_0000int % rounding::grain(num, den, DOUBLE as int) == 0,
        1 <= rounding::grain(num, den, DOUBLE as int) <= 0x1000_0000_0000,
{
    vstd::arithmetic::power2::lemma2_to64_rest();
    rounding::lemma_grain_divides(num, den, DOUBLE as int, 44);
    rounding::lemma_grain(num, den, DOUBLE as int);
    let g = rounding::grain(num, den, DOUBLE as int);
    if g > 0x1000_0000_0000 {
        vstd::arithmetic::div_mod::lemma_small_mod(0x1000_0000_0000, g as nat);
    }
}

proof fn lemma_multiple(n: int, p: int, g: int)
    requires
        0 < p,
        0 < g,
        n % p == 0,
        p % g == 0,
    ensures
        n % g == 0,
{
    vstd::arithmetic::div_mod::lemma_fundamental_div_mod(n, p);
    vstd::arithmetic::div_mod::lemma_fundamental_div_mod(p, g);
    let k = (n / p) * (p / g);
    assert(n == k * g + 0) by (nonlinear_arith)
        requires
            n == p * (n / p),
            p == g * (p / g),
            k == (n / p) * (p / g),
    ;
    vstd::arithmetic::div_mod::lemma_fundamental_div_mod_converse(n, g, k, 0);
}

/// A multiple of 2^44 units below 2^97 is a double.
proof fn lemma_exact(n: int, den: int, k: int)
    requires
        0 <= n < 0x2_0000_0000_0000_0000_0000_0000,
        0 < den,
        n == k * 0x1000_0000_0000,
    ensures
        fl(n * den, den) == n,
{
    assert(0 <= n * den < 0x2_0000_0000_0000_0000_0000_0000 * den) by (nonlinear_arith)
        requires
            0 <= n < 0x2_0000_0000_0000_0000_0000_0000,
            0 < den,
    ;
    lemma_coarse(n * den, den);
    lemma_multiple(n, 0x1000_0000_0000, rounding::grain(n * den, den, DOUBLE as int));
    rounding::lemma_sides(n * den, den, DOUBLE as int, n);
}

/// Dividing a width by the aspect leaves nine sixteenths of it, exactly.
proof fn lemma_nine_sixteenths(w: int)
    requires
        0 < w <= u32::MAX,
    ensures
        fl(w * UNIT * UNIT, cell_aspect()) == 9 * w * 0x1000_0000_0000_0000,
{
    lemma_aspect();
    let a = ASPECT as int;
    let num = w * UNIT * UNIT;
    assert(num == w * 0x1_0000_0000_0000_0000_0000_0000_0000_0000) by (nonlinear_arith)
        requires
            num == w * 0x1_0000_0000_0000_0000 * 0x1_0000_0000_0000_0000,
    ;
    lemma_coarse(num, a);
    rounding::lemma_grain(num, a, DOUBLE as int);
    let g = rounding::grain(num, a, DOUBLE as int);
    let n = 9 * w * 0x1000_0000_0000_0000;
    lemma_multiple(n, 0x1000_0000_0000, g);
    let k = n / g;
    vstd::arithmetic::div_mod::lemma_fundamental_div_mod(n, g);
    let rest = w * 0x400_0000_0000_0000_0000;
    assert(num == n * a + rest);
    assert(n * a == k * (a * g)) by (nonlinear_arith)
        requires
            n == g * k,
    ;
    vstd::arithmetic::div_mod::lemma_fundamental_div_mod_converse(num, a * g, k, rest);
}

proof fn lemma_crop_width(w: int, h: int)
    requires
        0 < w <= u32::MAX,
        0 < h <= u32::MAX,
    ensures
        0 <= crop_width(w, h) <= w * UNIT,
        wide(w, h) ==> UNIT as int % rounding::grain(h * ASPECT, 1, DOUBLE as int) == 0,
{
    lemma_aspect();
    if wide(w, h) {
        let num = h * ASPECT;
        lemma_coarse(num, 1);
        let g = rounding::grain(num, 1, DOUBLE as int);
        lemma_multiple(w * UNIT, 0x1000_0000_0000, g);
        lemma_multiple(UNIT as int, 0x1000_0000_0000, g);
        rounding::lemma_sides(num, 1, DOUBLE as int, w * UNIT);
        rounding::lemma_error(num, 1, DOUBLE as int);
    }
}

proof fn lemma_crop_height(w: int, h: int)
    requires
        0 < w <= u32::MAX,
        0 < h <= u32::MAX,
    ensures
        0 <= crop_height(w, h) <= h * UNIT,
{
    if !wide(w, h) {
        lemma_nine_sixteenths(w);
    }
}

/// Rounding to a double errs by less than a thousandth and a unit.
proof fn lemma_close(num: int, den: int)
    requires
        0 <= num,
        0 < den,
    ensures
        0 <= fl(num, den),
        1000 * (fl(num, den) * den) <= 1001 * num + 1000 * den,
{
    rounding::lemma_error(num, den, DOUBLE as int);
    rounding::lemma_grain(num, den, DOUBLE as int);
    if rounding::grain(num, den, DOUBLE as int) == 1 {
        assert(den * 1 == den);
    }
}

proof fn lemma_edge_inside(size: int, crop: int, n: int, d: int)
    requires
        0 < size,
        0 <= crop <= size * UNIT,
        0 <= d < n <= 96,
    ensures
        0 <= edge(size, crop, n, d) < size,
{
    let u = UNIT as int;
    let s = size * u;
    let centered = fl(s - crop, 1);
    lemma_close(s - crop, 1);
    let start = centered / 2;
    let q = fl(d * u, n);
    lemma_close(d * u, n);
    assert(96 * d <= 95 * n);
    assert(1000 * q <= 991 * u) by (nonlinear_arith)
        requires
            1000 * (q * n) <= 1001 * (d * u) + 1000 * n,
            96 * d <= 95 * n,
            0 < n,
            u == 0x1_0000_0000_0000_0000,
    ;
    assert(0 <= q * crop && 1000 * (q * crop) <= 991 * (u * crop)) by (nonlinear_arith)
        requires
            0 <= q,
            1000 * q <= 991 * u,
            0 <= crop,
    ;
    let along = fl(q * crop, u);
    lemma_close(q * crop, u);
    let sum = start + along;
    lemma_close(sum, 1);
    assert(0 <= fl(sum, 1) < s);
}

/// Every pixel of a cell covers at least one pixel of the source, and none
/// outside it.
pub proof fn law_boxes_lie_in_the_source(src_w: u32, src_h: u32, dx: int, dy: int)
    requires
        0 < src_w,
        0 < src_h,
        0 <= dx < 96,
        0 <= dy < 54,
    ensures
        ({
            let (w, h) = (src_w as int, src_h as int);
            let x0 = column_edge(w, h, dx);
            let y0 = row_edge(w, h, dy);
            &&& 0 <= x0 < span_end(x0, column_edge(w, h, dx + 1), w) <= w
            &&& 0 <= y0 < span_end(y0, row_edge(w, h, dy + 1), h) <= h
        }),
{
    let (w, h) = (src_w as int, src_h as int);
    lemma_crop_width(w, h);
    lemma_crop_height(w, h);
    lemma_edge_inside(w, crop_width(w, h), 96, dx);
    lemma_edge_inside(h, crop_height(w, h), 54, dy);
}

/// Comparing the two aspects as doubles says which source is the wider, as
/// comparing the ratios themselves does. (A ratio below 2^-11 has fewer bits
/// here than a double holds; it is far below the cell's aspect either way.)
pub proof fn law_wide_compares_doubles(src_w: u32, src_h: u32)
    requires
        0 < src_w,
        0 < src_h,
    ensures
        wide(src_w as int, src_h as int) <==> fl(src_w * UNIT, src_h as int) > cell_aspect(),
{
    lemma_aspect();
    let (w, h, u) = (src_w as int, src_h as int, UNIT as int);
    let top = DOUBLE as int;
    if wide(w, h) {
        let next = ASPECT + 0x1000;
        assert(next * h <= w * u);
        rounding::lemma_monotone(next * h, w * u, h, top);
        rounding::lemma_scale(next, 1, top, h);
        assert(h * next == next * h && h * 1 == h) by (nonlinear_arith);
        reveal_with_fuel(rounding::grain, 14);
        assert(rounding::grain(next, 1, top) == 0x1000);
        assert(next % 0x1000 == 0);
        rounding::lemma_sides(next, 1, top, next);
    } else {
        rounding::lemma_scale(w * u, h, top, 9);
        assert(0 <= 9 * (w * u) <= h * (16 * u)) by (nonlinear_arith)
            requires
                0 <= 9 * w <= 16 * h,
                0 <= u,
        ;
        rounding::lemma_monotone(9 * (w * u), h * (16 * u), 9 * h, top);
        rounding::lemma_scale(16 * u, 9, top, h);
        assert(h * 9 == 9 * h);
        rounding::lemma_scale(16 * u, 9, top, 6);
    }
}

/// Bounds on a rounded length below 2^97 units.
proof fn lemma_off_by(num: int, den: int)
    requires
        0 <= num < 0x2_0000_0000_0000_0000_0000_0000 * den,
        0 < den,
    ensures
        2 * num - 0x1000_0000_0000 * den <= 2 * (fl(num, den) * den) <= 2 * num + 0x1000_0000_0000
            * den,
        0 <= fl(num, den),
{
    lemma_coarse(num, den);
    rounding::lemma_error(num, den, DOUBLE as int);
    let g = rounding::grain(num, den, DOUBLE as int);
    assert(den * g <= 0x1000_0000_0000 * den) by (nonlinear_arith)
        requires
            g <= 0x1000_0000_0000,
            0 < den,
    ;
}

/// A source whose height is a multiple of nine has a crop of whole pixels.
proof fn lemma_whole_crop(j: int)
    requires
        0 < j,
        9 * j <= u32::MAX,
    ensures
        fl(9 * j * ASPECT, 1) == 16 * j * UNIT,
{
    lemma_aspect();
    let num = 9 * j * ASPECT;
    let n = 16 * j * UNIT;
    lemma_coarse(num, 1);
    rounding::lemma_grain(num, 1, DOUBLE as int);
    let g = rounding::grain(num, 1, DOUBLE as int);
    lemma_multiple(n, 0x1000_0000_0000, g);
    let k = n / g;
    vstd::arithmetic::div_mod::lemma_fundamental_div_mod(n, g);
    let short = j * 0x4000;
    assert(num == n - short);
    assert(g >= j * 0x8000);
    assert(num == (k - 1) * g + (g - short)) by (nonlinear_arith)
        requires
            n == g * k,
            num == n - short,
    ;
    vstd::arithmetic::div_mod::lemma_fundamental_div_mod_converse(num, g, k - 1, g - short);
    if 2 * short == g {
        assert(k == 0x20_0000_0000_0000) by (nonlinear_arith)
            requires
                j * 0x100000000000000000 == (j * 0x8000) * k,
                0 < j,
        ;
    }
}

/// A crop of whole 128ths of a pixel is divided without error.
proof fn lemma_exact_axis(size: int, crop: int, n: int, c: int)
    requires
        0 < size <= u32::MAX,
        0 < n <= 96,
        0 <= crop <= size * UNIT,
        crop == c * 0x200_0000_0000_0000,
    ensures
        edge(size, crop, n, 0) == (128 * size - c) / 256,
        edge(size, crop, n, n) == (128 * size + c) / 256,
{
    let u = UNIT as int;
    let both = size * u - crop;
    let start = (128 * size - c) * 0x100_0000_0000_0000;
    assert(both == 2 * start);
    lemma_exact(both, 1, (128 * size - c) * 0x2000);
    lemma_exact(start, 1, (128 * size - c) * 0x1000);
    lemma_exact(0, n, 0);
    lemma_exact(0, u, 0);
    assert(fl(0 * u, n) == 0);
    assert(fl(0 * crop, u) == 0) by {
        assert(0 * crop == 0);
    }
    assert(edge(size, crop, n, 0) == start / u);
    lemma_exact(u, n, 0x10_0000);
    assert(u * n == n * u);
    lemma_exact(crop, u, c * 0x2000);
    assert(u * crop == crop * u) by (nonlinear_arith);
    lemma_exact(start + crop, 1, (128 * size + c) * 0x1000);
    assert(edge(size, crop, n, n) == (start + crop) / u);
}

/// The crop is centered and as large as the cell's aspect allows: one axis is
/// covered whole, and on the other the margins are equal to within the
/// rounding to whole pixels.
pub proof fn law_crop_is_centered(src_w: u32, src_h: u32)
    requires
        0 < src_w,
        0 < src_h,
    ensures
        ({
            let (w, h) = (src_w as int, src_h as int);
            let (left, right) = (column_edge(w, h, 0), w - column_edge(w, h, 96));
            let (above, below) = (row_edge(w, h, 0), h - row_edge(w, h, 54));
            if wide(w, h) {
                above == 0 && below == 0 && right - 1 <= left <= right
            } else {
                left == 0 && right == 0 && below - 1 <= above <= below
            }
        }),
{
    let (w, h, u) = (src_w as int, src_h as int, UNIT as int);
    lemma_aspect();
    if !wide(w, h) {
        lemma_exact_axis(w, w * u, 96, 128 * w);
        lemma_nine_sixteenths(w);
        lemma_exact_axis(h, crop_height(w, h), 54, 72 * w);
    } else {
        lemma_exact_axis(h, h * u, 54, 128 * h);
        let crop = crop_width(w, h);
        if h % 9 == 0 {
            lemma_whole_crop(h / 9);
            lemma_exact_axis(w, crop, 96, 2048 * (h / 9));
        } else {
            lemma_crop_width(w, h);
            lemma_off_by(h * ASPECT, 1);
            let centered = fl(w * u - crop, 1);
            lemma_off_by(w * u - crop, 1);
            let start = centered / 2;
            lemma_exact(0, 96, 0);
            lemma_exact(0, u, 0);
            assert(0 * crop == 0);
            lemma_off_by(start, 1);
            lemma_exact(u, 96, 0x10_0000);
            assert(u * crop == crop * u) by (nonlinear_arith);
            lemma_off_by(u * crop, u);
            let along = fl(u * crop, u);
            lemma_off_by(start + along, 1);
            let (a, r) = ((9 * w - 16 * h) / 18, (9 * w - 16 * h) % 18);
            assert(r != 0 && r != 9);
            assert(a * u < fl(start, 1) < (a + 1) * u);
            assert(fl(start, 1) / u == a);
            let b = w - a - 1;
            assert(b * u < fl(start + along, 1) < (b + 1) * u);
            assert(fl(start + along, 1) / u == b);
        }
    }
}

/// One axis of the crop: `m * step` units in the middle of `size` pixels.
#[derive(Clone, Copy, Debug)]
pub struct CropAxis {
    pub size: u32,
    pub m: u128,
    pub step: u128,
}

impl CropAxis {
    /// The length of the crop.
    pub open spec fn len(self) -> int {
        self.m * self.step
    }

    /// The crop is a double and lies within the source.
    pub open spec fn wf(self) -> bool {
        &&& 0 < self.size
        &&& self.m <= DOUBLE
        &&& 1 <= self.step <= UNIT
        &&& UNIT as int % self.step as int == 0
        &&& self.len() <= self.size * UNIT
    }

    /// The horizontal axis.
    pub fn columns(src_w: u32, src_h: u32) -> (out: CropAxis)
        requires
            0 < src_w,
            0 < src_h,
        ensures
            out.wf(),
            out.size == src_w,
            out.len() == crop_width(src_w as int, src_h as int),
    {
        proof {
            lemma_aspect();
            lemma_crop_width(src_w as int, src_h as int);
        }
        if 9 * src_w as u64 > 16 * src_h as u64 {
            let (m, step) = parts_of(src_h as u128 * ASPECT, 1, DOUBLE);
            proof {
                assert(m * step == step * m) by (nonlinear_arith);
                lemma_coarse(src_h * ASPECT, 1);
            }
            CropAxis { size: src_w, m, step }
        } else {
            CropAxis { size: src_w, m: src_w as u128, step: UNIT }
        }
    }

    /// The vertical axis.
    pub fn rows(src_w: u32, src_h: u32) -> (out: CropAxis)
        requires
            0 < src_w,
            0 < src_h,
        ensures
            out.wf(),
            out.size == src_h,
            out.len() == crop_height(src_w as int, src_h as int),
    {
        if 9 * src_w as u64 > 16 * src_h as u64 {
            CropAxis { size: src_h, m: src_h as u128, step: UNIT }
        } else {
            proof {
                lemma_nine_sixteenths(src_w as int);
            }
            CropAxis { size: src_h, m: 9 * src_w as u128, step: 0x1000_0000_0000_0000 }
        }
    }

    /// The pixel at which part `d` of `n` begins.
    pub fn edge(self, n: u32, d: u32) -> (out: u64)
        requires
            self.wf(),
            0 < n <= 96,
            d <= n,
        ensures
            out == edge(self.size as int, self.len(), n as int, d as int),
    {
        proof {
            assert(0 <= self.m * self.step) by (nonlinear_arith)
                requires
                    0 <= self.m,
                    0 <= self.step,
            ;
        }
        let crop: u128 = self.m * self.step;
        let start: u128 = nearest_of(self.size as u128 * UNIT - crop, 1, DOUBLE) / 2;
        let q: u128 = nearest_of(d as u128 * UNIT, n as u128, DOUBLE);
        proof {
            let u = UNIT as int;
            assert(d * u <= u * n) by (nonlinear_arith)
                requires
                    d <= n,
                    0 <= u,
            ;
            lemma_coarse(d * u, n as int);
            lemma_multiple(u, 0x1000_0000_0000, rounding::grain(d * u, n as int, DOUBLE as int));
            rounding::lemma_sides(d * u, n as int, DOUBLE as int, u);
            assert(0 <= q * self.m <= 0x1_0000_0000_0000_0000 * 0x20_0000_0000_0000)
                by (nonlinear_arith)
                requires
                    0 <= q <= 0x1_0000_0000_0000_0000,
                    0 <= self.m <= 0x20_0000_0000_0000,
            ;
            let step = self.step as int;
            vstd::arithmetic::div_mod::lemma_fundamental_div_mod(u, step);
            let den = u / step;
            assert(0 < den <= u) by (nonlinear_arith)
                requires
                    u == step * den,
                    0 < step,
                    0 < u,
            ;
            rounding::lemma_scale(q * self.m, den, DOUBLE as int, step);
            assert(step * (q * self.m) == q * (self.m * step)) by (nonlinear_arith);
        }
        let along: u128 = nearest_of(q * self.m, UNIT / self.step, DOUBLE);
        (nearest_of(start + along, 1, DOUBLE) / UNIT) as u64
    }
}

// ---------------------------------------------------------------------
// Where the parts lie
// ---------------------------------------------------------------------

/// The parts of a crop follow each other: a later part never begins before an
/// earlier one.
pub proof fn law_parts_follow_each_other(src_w: u32, src_h: u32, d: int, e: int)
    requires
        0 < src_w,
        0 < src_h,
        0 <= d <= e,
    ensures
        column_edge(src_w as int, src_h as int, d) <= column_edge(src_w as int, src_h as int, e),
        row_edge(src_w as int, src_h as int, d) <= row_edge(src_w as int, src_h as int, e),
{
    let (w, h) = (src_w as int, src_h as int);
    lemma_crop_width(w, h);
    lemma_crop_height(w, h);
    lemma_edge_monotone(w, crop_width(w, h), 96, d, e);
    lemma_edge_monotone(h, crop_height(w, h), 54, d, e);
}

proof fn lemma_edge_monotone(size: int, crop: int, n: int, d: int, e: int)
    requires
        0 <= crop <= size * UNIT,
        0 < n,
        0 <= d <= e,
    ensures
        edge(size, crop, n, d) <= edge(size, crop, n, e),
{
    let u = UNIT as int;
    let top = DOUBLE as int;
    assert(0 <= d * u <= e * u);
    rounding::lemma_monotone(d * u, e * u, n, top);
    rounding::lemma_error(d * u, n, top);
    let (p, q) = (fl(d * u, n), fl(e * u, n));
    assert(0 <= p * crop <= q * crop) by (nonlinear_arith)
        requires
            0 <= p <= q,
            0 <= crop,
    ;
    rounding::lemma_monotone(p * crop, q * crop, u, top);
    rounding::lemma_error(p * crop, u, top);
    rounding::lemma_error(size * u - crop, 1, top);
    let start = fl(size * u - crop, 1) / 2;
    rounding::lemma_monotone(start + fl(p * crop, u), start + fl(q * crop, u), 1, top);
    vstd::arithmetic::div_mod::lemma_div_is_ordered(
        fl(start + fl(p * crop, u), 1),
        fl(start + fl(q * crop, u), 1),
        u,
    );
}

/// A fraction up to one is a double to within 2^-53.
proof fn lemma_fraction(d: int, n: int)
    requires
        0 <= d <= n,
        0 < n,
    ensures
        0 <= fl(d * UNIT, n) <= UNIT,
        2 * (d * UNIT) - 0x1000 * n <= 2 * (fl(d * UNIT, n) * n) <= 2 * (d * UNIT) + 0x1000 * n,
{
    let u = UNIT as int;
    let num = d * u;
    assert(num <= u * n) by (nonlinear_arith)
        requires
            num == d * u,
            d <= n,
            0 <= u,
    ;
    vstd::arithmetic::power2::lemma2_to64();
    assert(num < DOUBLE * (n * 0x1000)) by (nonlinear_arith)
        requires
            num <= u * n,
            u == 0x1_0000_0000_0000_0000,
            0 < n,
            DOUBLE == 0x20_0000_0000_0000,
    ;
    rounding::lemma_grain_divides(num, n, DOUBLE as int, 12);
    rounding::lemma_grain(num, n, DOUBLE as int);
    rounding::lemma_error(num, n, DOUBLE as int);
    let g = rounding::grain(num, n, DOUBLE as int);
    if g > 0x1000 {
        vstd::arithmetic::div_mod::lemma_small_mod(0x1000, g as nat);
    }
    assert(n * g <= 0x1000 * n) by (nonlinear_arith)
        requires
            g <= 0x1000,
            0 < n,
    ;
    lemma_multiple(u, 0x1000, g);
    rounding::lemma_sides(num, n, DOUBLE as int, u);
}

/// An edge lies where the even division puts it, to within 2^46 units before
/// it is cut to whole pixels.
proof fn lemma_edge_near(size: int, crop: int, n: int, d: int) -> (at: int)
    requires
        0 < size <= u32::MAX,
        0 <= crop <= size * UNIT,
        0 < n <= 96,
        0 <= d <= n,
    ensures
        0 <= at,
        edge(size, crop, n, d) == at / UNIT as int,
        -(2 * n * 0x4000_0000_0000) <= 2 * n * at - (n * (size * UNIT - crop) + 2 * (d * crop))
            <= 2 * n * 0x4000_0000_0000,
{
    let u = UNIT as int;
    let both = size * u - crop;
    let c2 = fl(both, 1);
    lemma_off_by(both, 1);
    let start = c2 / 2;
    let q = fl(d * u, n);
    lemma_fraction(d, n);
    assert(0 <= q * crop <= u * crop) by (nonlinear_arith)
        requires
            0 <= q <= u,
            0 <= crop,
    ;
    assert(u * crop < 0x2_0000_0000_0000_0000_0000_0000 * u) by (nonlinear_arith)
        requires
            0 <= crop < 0x2_0000_0000_0000_0000_0000_0000,
            0 < u,
    ;
    let along = fl(q * crop, u);
    lemma_off_by(q * crop, u);
    let at = fl(start + along, 1);
    // 2 n q crop lies within 2^12 n crop of 2 d u crop.
    assert(2 * (d * u * crop) - 0x1000 * (n * crop) <= 2 * (n * (q * crop)) <= 2 * (d * u * crop)
        + 0x1000 * (n * crop)) by (nonlinear_arith)
        requires
            2 * (d * u) - 0x1000 * n <= 2 * (q * n) <= 2 * (d * u) + 0x1000 * n,
            0 <= crop,
    ;
    assert(0 <= n * crop <= n * (0x1_0000_0000 * u)) by (nonlinear_arith)
        requires
            0 <= crop <= 0x1_0000_0000 * u,
            0 < n,
    ;
    assert(n * (2 * (q * crop) - 0x1000_0000_0000 * u) <= n * (2 * (along * u)) <= n * (2 * (q
        * crop) + 0x1000_0000_0000 * u)) by (nonlinear_arith)
        requires
            2 * (q * crop) - 0x1000_0000_0000 * u <= 2 * (along * u) <= 2 * (q * crop)
                + 0x1000_0000_0000 * u,
            0 < n,
    ;
    let (nqc, ncrop, nau, duc) = (n * (q * crop), n * crop, n * (along * u), d * u * crop);
    assert(n * (2 * (q * crop) - 0x1000_0000_0000 * u) == 2 * nqc - 0x1000_0000_0000 * (n * u))
        by (nonlinear_arith)
        requires
            nqc == n * (q * crop),
    ;
    assert(n * (2 * (q * crop) + 0x1000_0000_0000 * u) == 2 * nqc + 0x1000_0000_0000 * (n * u))
        by (nonlinear_arith)
        requires
            nqc == n * (q * crop),
    ;
    assert(n * (2 * (along * u)) == 2 * nau) by (nonlinear_arith)
        requires
            nau == n * (along * u),
    ;
    assert(n * (0x1_0000_0000 * u) == 0x1_0000_0000 * (n * u)) by (nonlinear_arith);
    // |2 n along u - 2 d u crop| <= 2^45 n u.
    assert(-(0x2000_0000_0000 * (n * u)) <= 2 * nau - 2 * duc <= 0x2000_0000_0000 * (n * u));
    assert(-(0x2000_0000_0000 * n) <= 2 * (n * along) - 2 * (d * crop) <= 0x2000_0000_0000 * n)
        by (nonlinear_arith)
        requires
            -(0x2000_0000_0000 * (n * u)) <= 2 * nau - 2 * duc <= 0x2000_0000_0000 * (n * u),
            nau == n * (along * u),
            duc == d * u * crop,
            u > 0,
    ;
    assert(0 <= along <= 0x1_8000_0000 * u) by (nonlinear_arith)
        requires
            0 <= along,
            2 * (along * u) <= 2 * (q * crop) + 0x1000_0000_0000 * u,
            q * crop <= u * crop,
            crop <= 0x1_0000_0000 * u,
            u == 0x1_0000_0000_0000_0000,
    ;
    lemma_off_by(start + along, 1);
    let bound = 2 * n * 0x4000_0000_0000;
    assert(-bound <= 2 * n * at - (n * both + 2 * (d * crop)) <= bound) by (nonlinear_arith)
        requires
            0 < n,
            -(0x2000_0000_0000 * n) <= 2 * (n * along) - 2 * (d * crop) <= 0x2000_0000_0000 * n,
            2 * (start + along) - 0x1000_0000_0000 <= 2 * at <= 2 * (start + along)
                + 0x1000_0000_0000,
            both - 0x800_0000_0000 - 2 <= 2 * start <= both + 0x800_0000_0000,
            bound == 2 * n * 0x4000_0000_0000,
    ;
    assert(n * both == n * (size * UNIT - crop));
    at
}

/// The crop is divided evenly, from left to right and from top to bottom:
/// column `d` of a cell begins at the fraction `d / 96` of the crop, row `d` at
/// the fraction `d / 54`, cut to whole pixels (at most one short).
pub proof fn law_parts_divide_the_crop_evenly(src_w: u32, src_h: u32, d: int)
    requires
        0 < src_w,
        0 < src_h,
    ensures
        ({
            let (w, h) = (src_w as int, src_h as int);
            let (x, y) = (column_edge(w, h, d), row_edge(w, h, d));
            &&& 9 * w > 16 * h && 0 <= d <= 96 ==> 27 * w - 48 * h + d * h - 54 <= 54 * x <= 27 * w
                - 48 * h + d * h
            &&& 9 * w > 16 * h && 0 <= d <= 54 ==> d * h - 54 <= 54 * y <= d * h
            &&& 9 * w <= 16 * h && 0 <= d <= 96 ==> d * w - 96 <= 96 * x <= d * w
            &&& 9 * w <= 16 * h && 0 <= d <= 54 ==> 48 * h - 27 * w + d * w - 96 <= 96 * y <= 48 * h
                - 27 * w + d * w
        }),
{
    let (w, h, u) = (src_w as int, src_h as int, UNIT as int);
    lemma_aspect();
    lemma_crop_width(w, h);
    lemma_crop_height(w, h);
    let (cw, ch) = (crop_width(w, h), crop_height(w, h));
    if 0 <= d <= 96 {
        let at = lemma_edge_near(w, cw, 96, d);
        let x = column_edge(w, h, d);
        assert(u * x <= at < u * x + u);
        if wide(w, h) {
            lemma_off_by(h * ASPECT, 1);
            assert(-0x1_0000_0000_0000 <= 9 * cw - 16 * (h * u) <= 0x1_0000_0000_0000);
            let dh = d * h;
            assert(-(96 * 0x1_0000_0000_0000) <= 9 * (d * cw) - 16 * (dh * u) <= 96
                * 0x1_0000_0000_0000) by (nonlinear_arith)
                requires
                    -0x1_0000_0000_0000 <= 9 * cw - 16 * (h * u) <= 0x1_0000_0000_0000,
                    0 <= d <= 96,
                    dh == d * h,
            ;
            let num = 27 * w - 48 * h + dh;
            assert(num * u == 27 * (w * u) - 48 * (h * u) + dh * u) by (nonlinear_arith)
                requires
                    num == 27 * w - 48 * h + dh,
            ;
            assert(-0x100_0000_0000_0000 <= 54 * at - num * u <= 0x100_0000_0000_0000);
            lemma_cut(54, at, num, x);
        } else {
            let dw = d * w;
            assert(d * cw == dw * u) by (nonlinear_arith)
                requires
                    cw == w * u,
                    dw == d * w,
            ;
            assert(-0x100_0000_0000_0000 <= 96 * at - dw * u <= 0x100_0000_0000_0000);
            lemma_cut(96, at, dw, x);
        }
    }
    if 0 <= d <= 54 {
        let at = lemma_edge_near(h, ch, 54, d);
        let y = row_edge(w, h, d);
        assert(u * y <= at < u * y + u);
        if wide(w, h) {
            let dh = d * h;
            assert(d * ch == dh * u) by (nonlinear_arith)
                requires
                    ch == h * u,
                    dh == d * h,
            ;
            assert(-0x100_0000_0000_0000 <= 54 * at - dh * u <= 0x100_0000_0000_0000);
            lemma_cut(54, at, dh, y);
        } else {
            lemma_nine_sixteenths(w);
            let dw = d * w;
            assert(16 * ch == 9 * (w * u));
            assert(16 * (d * ch) == 9 * (dw * u)) by (nonlinear_arith)
                requires
                    16 * ch == 9 * (w * u),
                    dw == d * w,
            ;
            let num = 48 * h - 27 * w + dw;
            assert(num * u == 48 * (h * u) - 27 * (w * u) + dw * u) by (nonlinear_arith)
                requires
                    num == 48 * h - 27 * w + dw,
            ;
            assert(-0x100_0000_0000_0000 <= 96 * at - num * u <= 0x100_0000_0000_0000);
            lemma_cut(96, at, num, y);
        }
    }
}

proof fn lemma_cut(n: int, at: int, num: int, x: int)
    requires
        0 < n <= 96,
        UNIT * x <= at < UNIT * x + UNIT,
        -0x100_0000_0000_0000 <= n * at - num * UNIT <= 0x100_0000_0000_0000,
    ensures
        num - n <= n * x <= num,
{
    let u = UNIT as int;
    assert(num - n <= n * x <= num) by (nonlinear_arith)
        requires
            0 < n <= 96,
            u * x <= at < u * x + u,
            -0x100_0000_0000_0000 <= n * at - num * u <= 0x100_0000_0000_0000,
            u == 0x1_0000_0000_0000_0000,
    ;
}

} // verus!
