//! Filmstrip thumbnail strips for timeline clips: a fixed-interval row of
//! small frames per media file.
//!
//! One sprite per media: `count` cells of [`TILE_W`] x [`TILE_H`] px laid out
//! horizontally, aspect-fill cropped, JPEG-encoded.
//!
//! ## File format
//!
//! ```text
//! [0..4)   magic  b"CFLM"
//! [4..8)   u32 LE version (1)
//! [8..12)  u32 LE tile width, px
//! [12..16) u32 LE tile height, px
//! [16..20) u32 LE tile count
//! [20..24) u32 LE tile interval, milliseconds
//! [24..)   JPEG sprite (count * tile_w x tile_h)
//! ```

use vstd::prelude::*;

use crate::bytes;
use crate::bytes::{push_bytes, push_le};
use crate::crop;
use crate::crop::CropAxis;
use crate::error::MediaError;

verus! {

/// Tile cell size, px. 96 x 54 (16:9) reads clearly at the timeline's
/// video-lane height and keeps even a 120-tile sprite near ~200 KB.
pub const TILE_W: u32 = 96;

/// Tile cell height, px.
pub const TILE_H: u32 = 54;

/// Longest strip generated per media.
pub const MAX_TILES: u32 = 120;

/// Strip file format version.
pub const STRIP_VERSION: u32 = 1;

/// The sum of one channel over columns `x0..x1` of a row.
pub open spec fn row_sum(src: Seq<u8>, stride: int, y: int, x0: int, x1: int, c: int) -> int
    decreases x1 - x0,
{
    if x1 <= x0 {
        0
    } else {
        row_sum(src, stride, y, x0, x1 - 1, c) + src[y * stride + (x1 - 1) * 4 + c]
    }
}

/// The sum of one channel over a box of the source.
pub open spec fn box_sum(
    src: Seq<u8>,
    stride: int,
    x0: int,
    x1: int,
    y0: int,
    y1: int,
    c: int,
) -> int
    decreases y1 - y0,
{
    if y1 <= y0 {
        0
    } else {
        box_sum(src, stride, x0, x1, y0, y1 - 1, c) + row_sum(src, stride, y1 - 1, x0, x1, c)
    }
}

/// One channel of a cell's pixel: the average over the box of source pixels
/// it covers; alpha is opaque.
pub open spec fn cell_value(
    src: Seq<u8>,
    stride: int,
    src_w: int,
    src_h: int,
    dx: int,
    dy: int,
    c: int,
) -> u8 {
    if c == 3 {
        255
    } else {
        let x0 = crop::column_edge(src_w, src_h, dx);
        let x1 = crop::span_end(x0, crop::column_edge(src_w, src_h, dx + 1), src_w);
        let y0 = crop::row_edge(src_w, src_h, dy);
        let y1 = crop::span_end(y0, crop::row_edge(src_w, src_h, dy + 1), src_h);
        (box_sum(src, stride, x0, x1, y0, y1, c) / ((x1 - x0) * (y1 - y0))) as u8
    }
}

/// Where a channel of a cell's pixel stands in the sprite.
pub open spec fn sprite_index(sprite_w: int, cell_x: int, dx: int, dy: int, c: int) -> int {
    (cell_x + dx + dy * sprite_w) * 4 + c
}

proof fn lemma_row_sum_bound(src: Seq<u8>, stride: int, y: int, x0: int, x1: int, c: int)
    requires
        x0 <= x1,
    ensures
        0 <= row_sum(src, stride, y, x0, x1, c) <= 255 * (x1 - x0),
    decreases x1 - x0,
{
    if x0 < x1 {
        lemma_row_sum_bound(src, stride, y, x0, x1 - 1, c);
    }
}

proof fn lemma_box_sum_bound(
    src: Seq<u8>,
    stride: int,
    x0: int,
    x1: int,
    y0: int,
    y1: int,
    c: int,
)
    requires
        x0 <= x1,
        y0 <= y1,
    ensures
        0 <= box_sum(src, stride, x0, x1, y0, y1, c) <= 255 * ((x1 - x0) * (y1 - y0)),
    decreases y1 - y0,
{
    if y0 < y1 {
        lemma_box_sum_bound(src, stride, x0, x1, y0, y1 - 1, c);
        lemma_row_sum_bound(src, stride, y1 - 1, x0, x1, c);
        assert((x1 - x0) * (y1 - y0) == (x1 - x0) * (y1 - 1 - y0) + (x1 - x0)) by (nonlinear_arith);
    } else {
        assert((x1 - x0) * (y1 - y0) == 0) by (nonlinear_arith)
            requires
                y1 == y0,
        ;
    }
}

/// The source holds `src_h` rows of `src_w` RGBA pixels, `stride` apart.
pub open spec fn holds_image(src: Seq<u8>, stride: int, src_w: int, src_h: int) -> bool {
    4 * src_w <= stride && (src_h - 1) * stride + 4 * src_w <= src.len()
}

proof fn lemma_pixel_in_image(src: Seq<u8>, stride: int, src_w: int, src_h: int, x: int, y: int)
    requires
        holds_image(src, stride, src_w, src_h),
        0 <= x < src_w,
        0 <= y < src_h,
    ensures
        0 <= y * stride,
        0 <= y * stride + x * 4,
        y * stride + x * 4 + 3 < src.len(),
{
    assert(y * stride <= (src_h - 1) * stride && 0 <= y * stride) by (nonlinear_arith)
        requires
            0 <= y <= src_h - 1,
            0 <= stride,
    ;
}

/// One channel of every pixel of the source lies between two values.
pub open spec fn channel_within(
    src: Seq<u8>,
    stride: int,
    src_w: int,
    src_h: int,
    c: int,
    lo: int,
    hi: int,
) -> bool {
    forall|x: int, y: int|
        0 <= x < src_w && 0 <= y < src_h ==> lo <= #[trigger] src[y * stride + x * 4 + c] <= hi
}

proof fn lemma_row_sum_within(
    src: Seq<u8>,
    stride: int,
    src_w: int,
    src_h: int,
    y: int,
    x0: int,
    x1: int,
    c: int,
    lo: int,
    hi: int,
)
    requires
        channel_within(src, stride, src_w, src_h, c, lo, hi),
        0 <= y < src_h,
        0 <= x0 <= x1 <= src_w,
    ensures
        lo * (x1 - x0) <= row_sum(src, stride, y, x0, x1, c) <= hi * (x1 - x0),
    decreases x1 - x0,
{
    if x0 < x1 {
        lemma_row_sum_within(src, stride, src_w, src_h, y, x0, x1 - 1, c, lo, hi);
        assert(lo <= src[y * stride + (x1 - 1) * 4 + c] <= hi);
        assert(lo * (x1 - x0) == lo * (x1 - 1 - x0) + lo) by (nonlinear_arith);
        assert(hi * (x1 - x0) == hi * (x1 - 1 - x0) + hi) by (nonlinear_arith);
    } else {
        assert(lo * (x1 - x0) == 0 && hi * (x1 - x0) == 0) by (nonlinear_arith)
            requires
                x1 == x0,
        ;
    }
}

proof fn lemma_box_sum_within(
    src: Seq<u8>,
    stride: int,
    src_w: int,
    src_h: int,
    x0: int,
    x1: int,
    y0: int,
    y1: int,
    c: int,
    lo: int,
    hi: int,
)
    requires
        channel_within(src, stride, src_w, src_h, c, lo, hi),
        0 <= x0 <= x1 <= src_w,
        0 <= y0 <= y1 <= src_h,
    ensures
        lo * ((x1 - x0) * (y1 - y0)) <= box_sum(src, stride, x0, x1, y0, y1, c) <= hi * ((x1 - x0)
            * (y1 - y0)),
    decreases y1 - y0,
{
    let w = x1 - x0;
    if y0 < y1 {
        lemma_box_sum_within(src, stride, src_w, src_h, x0, x1, y0, y1 - 1, c, lo, hi);
        lemma_row_sum_within(src, stride, src_w, src_h, y1 - 1, x0, x1, c, lo, hi);
        assert(w * (y1 - y0) == w * (y1 - 1 - y0) + w) by (nonlinear_arith);
        assert(lo * (w * (y1 - 1 - y0) + w) == lo * (w * (y1 - 1 - y0)) + lo * w)
            by (nonlinear_arith);
        assert(hi * (w * (y1 - 1 - y0) + w) == hi * (w * (y1 - 1 - y0)) + hi * w)
            by (nonlinear_arith);
    } else {
        assert(lo * (w * (y1 - y0)) == 0 && hi * (w * (y1 - y0)) == 0) by (nonlinear_arith)
            requires
                y1 == y0,
        ;
    }
}

/// A cell shows no color that the source does not have: each channel lies
/// between the least and the greatest of the source, so a one-color source
/// fills the cell with exactly its color, whatever its padding and its alpha.
pub proof fn law_cell_colors_come_from_the_source(
    src: Seq<u8>,
    stride: int,
    width: u32,
    height: u32,
    dx: int,
    dy: int,
    c: int,
    lo: int,
    hi: int,
)
    requires
        0 < width,
        0 < height,
        0 <= dx < 96,
        0 <= dy < 54,
        0 <= c < 3,
        0 <= lo <= hi <= 255,
        channel_within(src, stride, width as int, height as int, c, lo, hi),
    ensures
        lo <= cell_value(src, stride, width as int, height as int, dx, dy, c) <= hi,
{
    let (src_w, src_h) = (width as int, height as int);
    crop::law_boxes_lie_in_the_source(width, height, dx, dy);
    let x0 = crop::column_edge(src_w, src_h, dx);
    let x1 = crop::span_end(x0, crop::column_edge(src_w, src_h, dx + 1), src_w);
    let y0 = crop::row_edge(src_w, src_h, dy);
    let y1 = crop::span_end(y0, crop::row_edge(src_w, src_h, dy + 1), src_h);
    lemma_box_sum_within(src, stride, src_w, src_h, x0, x1, y0, y1, c, lo, hi);
    let n = (x1 - x0) * (y1 - y0);
    let sum = box_sum(src, stride, x0, x1, y0, y1, c);
    assert(n > 0) by (nonlinear_arith)
        requires
            n == (x1 - x0) * (y1 - y0),
            x1 > x0,
            y1 > y0,
    ;
    assert(lo <= sum / n <= hi) by (nonlinear_arith)
        requires
            n > 0,
            lo * n <= sum <= hi * n,
    ;
}

/// The averages of the three color channels over a box of the source.
fn box_average(
    src: &[u8],
    stride: usize,
    src_w: u32,
    src_h: u32,
    x0: usize,
    x1: usize,
    y0: usize,
    y1: usize,
) -> (out: (u8, u8, u8))
    requires
        holds_image(src@, stride as int, src_w as int, src_h as int),
        x0 < x1 <= src_w,
        y0 < y1 <= src_h,
    ensures
        ({
            let n = (x1 - x0) * (y1 - y0);
            let s = stride as int;
            &&& out.0 == (box_sum(src@, s, x0 as int, x1 as int, y0 as int, y1 as int, 0) / n)
                as u8
            &&& out.1 == (box_sum(src@, s, x0 as int, x1 as int, y0 as int, y1 as int, 1) / n)
                as u8
            &&& out.2 == (box_sum(src@, s, x0 as int, x1 as int, y0 as int, y1 as int, 2) / n)
                as u8
        }),
{
    let size: usize = src.len();
    let mut r: u128 = 0;
    let mut g: u128 = 0;
    let mut b: u128 = 0;
    let ghost s = stride as int;
    let mut y: usize = y0;
    while y < y1
        invariant
            size == src@.len(),
            s == stride,
            holds_image(src@, s, src_w as int, src_h as int),
            x0 < x1 <= src_w,
            y0 <= y <= y1 <= src_h,
            r == box_sum(src@, s, x0 as int, x1 as int, y0 as int, y as int, 0),
            g == box_sum(src@, s, x0 as int, x1 as int, y0 as int, y as int, 1),
            b == box_sum(src@, s, x0 as int, x1 as int, y0 as int, y as int, 2),
        decreases y1 - y,
    {
        let mut x: usize = x0;
        let ghost (r0, g0, b0) = (r, g, b);
        while x < x1
            invariant
                size == src@.len(),
                s == stride,
                holds_image(src@, s, src_w as int, src_h as int),
                x0 <= x <= x1 <= src_w,
                y0 <= y < y1 <= src_h,
                r0 == box_sum(src@, s, x0 as int, x1 as int, y0 as int, y as int, 0),
                g0 == box_sum(src@, s, x0 as int, x1 as int, y0 as int, y as int, 1),
                b0 == box_sum(src@, s, x0 as int, x1 as int, y0 as int, y as int, 2),
                r == r0 + row_sum(src@, s, y as int, x0 as int, x as int, 0),
                g == g0 + row_sum(src@, s, y as int, x0 as int, x as int, 1),
                b == b0 + row_sum(src@, s, y as int, x0 as int, x as int, 2),
            decreases x1 - x,
        {
            proof {
                lemma_pixel_in_image(src@, s, src_w as int, src_h as int, x as int, y as int);
                lemma_box_sum_bound(src@, s, x0 as int, x1 as int, y0 as int, y as int, 0);
                lemma_box_sum_bound(src@, s, x0 as int, x1 as int, y0 as int, y as int, 1);
                lemma_box_sum_bound(src@, s, x0 as int, x1 as int, y0 as int, y as int, 2);
                lemma_row_sum_bound(src@, s, y as int, x0 as int, x as int, 0);
                lemma_row_sum_bound(src@, s, y as int, x0 as int, x as int, 1);
                lemma_row_sum_bound(src@, s, y as int, x0 as int, x as int, 2);
                let (w, h) = ((x1 - x0) as int, (y - y0) as int);
                assert(0 <= w * h <= 0x1_0000_0000 * 0x1_0000_0000) by (nonlinear_arith)
                    requires
                        0 <= w <= 0x1_0000_0000,
                        0 <= h <= 0x1_0000_0000,
                ;
            }
            let p: usize = y * stride + x * 4;
            r = r + src[p] as u128;
            g = g + src[p + 1] as u128;
            b = b + src[p + 2] as u128;
            x = x + 1;
        }
        y = y + 1;
    }
    let w: u128 = (x1 - x0) as u128;
    let h: u128 = (y1 - y0) as u128;
    proof {
        assert(0 < w * h <= 0x1_0000_0000 * 0x1_0000_0000) by (nonlinear_arith)
            requires
                0 < w <= 0x1_0000_0000,
                0 < h <= 0x1_0000_0000,
        ;
        lemma_box_sum_bound(src@, s, x0 as int, x1 as int, y0 as int, y1 as int, 0);
        lemma_box_sum_bound(src@, s, x0 as int, x1 as int, y0 as int, y1 as int, 1);
        lemma_box_sum_bound(src@, s, x0 as int, x1 as int, y0 as int, y1 as int, 2);
    }
    let n: u128 = w * h;
    proof {
        lemma_average(r as int, n as int);
        lemma_average(g as int, n as int);
        lemma_average(b as int, n as int);
    }
    ((r / n) as u8, (g / n) as u8, (b / n) as u8)
}

proof fn lemma_average(sum: int, n: int)
    requires
        0 < n,
        0 <= sum <= 255 * n,
    ensures
        0 <= sum / n <= 255,
{
    assert(0 <= sum / n <= 255) by (nonlinear_arith)
        requires
            0 < n,
            0 <= sum <= 255 * n,
    ;
}

proof fn lemma_sprite_index(w: int, cell_x: int, dx: int, dy: int, c: int, ex: int, ey: int, e: int)
    requires
        0 <= cell_x,
        cell_x + 96 <= w,
        0 <= dx < 96,
        0 <= ex < 96,
        0 <= dy,
        0 <= ey,
        0 <= c < 4,
        0 <= e < 4,
        sprite_index(w, cell_x, dx, dy, c) == sprite_index(w, cell_x, ex, ey, e),
    ensures
        dx == ex,
        dy == ey,
        c == e,
{
    assert(dy == ey) by (nonlinear_arith)
        requires
            cell_x + dx + dy * w == cell_x + ex + ey * w,
            0 <= cell_x + dx < w,
            0 <= cell_x + ex < w,
    ;
}

proof fn lemma_sprite_fits(w: int, cell_x: int, dx: int, dy: int)
    requires
        0 <= cell_x,
        cell_x + 96 <= w,
        0 <= dx < 96,
        0 <= dy < 54,
    ensures
        0 <= dy * w,
        0 <= cell_x + dx + dy * w,
        (cell_x + dx + dy * w) * 4 + 3 < 216 * w,
{
    assert(0 <= dy * w <= 53 * w) by (nonlinear_arith)
        requires
            0 <= dy <= 53,
            0 < w,
    ;
}

/// Where every column of a cell begins and the last ends.
fn column_edges(src_w: u32, src_h: u32) -> (out: Vec<u64>)
    requires
        0 < src_w,
        0 < src_h,
    ensures
        out@.len() == 97,
        forall|d: int|
            0 <= d <= 96 ==> #[trigger] out@[d] == crop::column_edge(src_w as int, src_h as int, d),
{
    let axis = CropAxis::columns(src_w, src_h);
    let mut out: Vec<u64> = Vec::new();
    let mut d: u32 = 0;
    while d <= TILE_W
        invariant
            d <= 97,
            axis.wf(),
            axis.size == src_w,
            axis.len() == crop::crop_width(src_w as int, src_h as int),
            out@.len() == d,
            forall|k: int|
                0 <= k < d ==> #[trigger] out@[k] == crop::column_edge(src_w as int, src_h as int, k),
        decreases 97 - d,
    {
        out.push(axis.edge(TILE_W, d));
        d = d + 1;
    }
    out
}

/// The end of a span that begins at `start`.
fn end_of(start: usize, next: u64, size: u32) -> (out: usize)
    requires
        start < size,
    ensures
        out == crop::span_end(start as int, next as int, size as int),
{
    if next <= start as u64 {
        start + 1
    } else if next > size as u64 {
        size as usize
    } else {
        next as usize
    }
}

/// A byte of the sprite that belongs to a pixel of the cell before `dx` in row
/// `dy`, or to an earlier row.
pub open spec fn drawn(sprite_w: int, cell_x: int, rows: int, cols: int, p: int) -> bool {
    exists|dx: int, dy: int, c: int|
        0 <= dx < 96 && 0 <= dy && 0 <= c < 4 && (dy < rows || (dy == rows && dx < cols)) && p
            == #[trigger] sprite_index(sprite_w, cell_x, dx, dy, c)
}

/// Box-sample `src` (RGBA, `stride` bytes/row) into the sprite cell at
/// `cell_x`, aspect-fill (cover): the largest centered source rect with the
/// cell's aspect, averaged per destination pixel. The rest of the sprite stays
/// as it is.
pub fn blit_cover(
    src: &[u8],
    stride: usize,
    src_w: u32,
    src_h: u32,
    sprite: &mut Vec<u8>,
    sprite_w: u32,
    cell_x: u32,
)
    requires
        0 < src_w,
        0 < src_h,
        holds_image(src@, stride as int, src_w as int, src_h as int),
        cell_x + TILE_W <= sprite_w,
        old(sprite)@.len() >= sprite_w * TILE_H * 4,
    ensures
        final(sprite)@.len() == old(sprite)@.len(),
        forall|dx: int, dy: int, c: int|
            0 <= dx < TILE_W && 0 <= dy < TILE_H && 0 <= c < 4 ==> final(sprite)@[#[trigger] sprite_index(sprite_w as int, cell_x as int, dx, dy, c)] == cell_value(
                src@,
                stride as int,
                src_w as int,
                src_h as int,
                dx,
                dy,
                c,
            ),
        forall|p: int|
            0 <= p < old(sprite)@.len() && !drawn(
                sprite_w as int,
                cell_x as int,
                TILE_H as int,
                0,
                p,
            ) ==> #[trigger] final(sprite)@[p] == old(sprite)@[p],
{
    let ghost before = sprite@;
    let ghost w = sprite_w as int;
    let ghost cx = cell_x as int;
    let ghost (s, sw, sh) = (stride as int, src_w as int, src_h as int);
    let size: usize = sprite.len();
    let columns: Vec<u64> = column_edges(src_w, src_h);
    let rows = CropAxis::rows(src_w, src_h);
    let mut dy: u32 = 0;
    while dy < TILE_H
        invariant
            dy <= 54,
            columns@.len() == 97,
            forall|d: int| 0 <= d <= 96 ==> #[trigger] columns@[d] == crop::column_edge(sw, sh, d),
            rows.wf(),
            rows.size == src_h,
            rows.len() == crop::crop_height(sw, sh),
            0 < src_w,
            0 < src_h,
            holds_image(src@, stride as int, src_w as int, src_h as int),
            cell_x + 96 <= sprite_w,
            size >= sprite_w * 216,
            sprite@.len() == size,
            before.len() == size,
            w == sprite_w,
            cx == cell_x,
            (s, sw, sh) == (stride as int, src_w as int, src_h as int),
            forall|x: int, y: int, c: int|
                0 <= x < 96 && 0 <= y < dy && 0 <= c < 4 ==> sprite@[#[trigger] sprite_index(
                    w,
                    cx,
                    x,
                    y,
                    c,
                )] == cell_value(src@, s, sw, sh, x, y, c),
            forall|p: int|
                0 <= p < size && !drawn(w, cx, dy as int, 0, p) ==> #[trigger] sprite@[p] == before[p],
        decreases 54 - dy,
    {
        proof {
            crop::law_boxes_lie_in_the_source(src_w, src_h, 0, dy as int);
        }
        let sy0: usize = rows.edge(TILE_H, dy) as usize;
        let sy1: usize = end_of(sy0, rows.edge(TILE_H, dy + 1), src_h);
        let mut dx: u32 = 0;
        while dx < TILE_W
            invariant
                dx <= 96,
                dy < 54,
                columns@.len() == 97,
                forall|d: int|
                    0 <= d <= 96 ==> #[trigger] columns@[d] == crop::column_edge(sw, sh, d),
                0 < src_w,
                0 < src_h,
                holds_image(src@, stride as int, src_w as int, src_h as int),
                cell_x + 96 <= sprite_w,
                size >= sprite_w * 216,
                sprite@.len() == size,
                before.len() == size,
                w == sprite_w,
                cx == cell_x,
                (s, sw, sh) == (stride as int, src_w as int, src_h as int),
                sy0 == crop::row_edge(sw, sh, dy as int),
                sy1 == crop::span_end(sy0 as int, crop::row_edge(sw, sh, dy + 1), sh),
                sy0 < sy1 <= src_h,
                forall|x: int, y: int, c: int|
                    0 <= x < 96 && 0 <= y && (y < dy || (y == dy && x < dx)) && 0 <= c < 4
                        ==> sprite@[#[trigger] sprite_index(w, cx, x, y, c)] == cell_value(
                        src@,
                        s,
                        sw,
                        sh,
                        x,
                        y,
                        c,
                    ),
                forall|p: int|
                    0 <= p < size && !drawn(w, cx, dy as int, dx as int, p) ==> #[trigger] sprite@[p]
                        == before[p],
            decreases 96 - dx,
        {
            proof {
                crop::law_boxes_lie_in_the_source(src_w, src_h, dx as int, dy as int);
                lemma_sprite_fits(w, cx, dx as int, dy as int);
            }
            let sx0: usize = columns[dx as usize] as usize;
            let sx1: usize = end_of(sx0, columns[dx as usize + 1], src_w);
            let (r, g, b) = box_average(src, stride, src_w, src_h, sx0, sx1, sy0, sy1);
            let ghost held = sprite@;
            let d: usize = (cell_x as usize + dx as usize + dy as usize * sprite_w as usize) * 4;
            sprite.set(d, r);
            sprite.set(d + 1, g);
            sprite.set(d + 2, b);
            sprite.set(d + 3, 255);
            proof {
                assert(d == sprite_index(w, cx, dx as int, dy as int, 0));
                assert forall|x: int, y: int, c: int|
                    0 <= x < 96 && 0 <= y && (y < dy || (y == dy && x < dx + 1)) && 0 <= c
                        < 4 implies sprite@[#[trigger] sprite_index(w, cx, x, y, c)] == cell_value(
                    src@,
                    s,
                    sw,
                    sh,
                    x,
                    y,
                    c,
                ) by {
                    lemma_sprite_fits(w, cx, x, y);
                    let p = sprite_index(w, cx, x, y, c);
                    if y == dy && x == dx {
                        assert(p == d + c);
                    } else {
                        if d <= p < d + 4 {
                            lemma_sprite_index(w, cx, x, y, c, dx as int, dy as int, p - d);
                        }
                        assert(sprite@[p] == held[p]);
                    }
                }
                assert forall|p: int|
                    0 <= p < size && !drawn(
                        w,
                        cx,
                        dy as int,
                        dx + 1,
                        p,
                    ) implies #[trigger] sprite@[p] == before[p] by {
                    if d <= p < d + 4 {
                        assert(p == sprite_index(w, cx, dx as int, dy as int, p - d));
                        assert(drawn(w, cx, dy as int, dx + 1, p));
                    }
                    if drawn(w, cx, dy as int, dx as int, p) {
                        let (x, y, c) = choose|x: int, y: int, c: int|
                            0 <= x < 96 && 0 <= y && 0 <= c < 4 && (y < dy || (y == dy && x < dx))
                                && p == #[trigger] sprite_index(w, cx, x, y, c);
                        assert(p == sprite_index(w, cx, x, y, c));
                        assert(drawn(w, cx, dy as int, dx + 1, p));
                    }
                    assert(held[p] == before[p]);
                }
            }
            dx = dx + 1;
        }
        proof {
            assert forall|p: int| 0 <= p < size && !drawn(w, cx, dy + 1, 0, p) implies #[trigger] sprite@[p]
                == before[p] by {
                if drawn(w, cx, dy as int, 96, p) {
                    let (x, y, c) = choose|x: int, y: int, c: int|
                        0 <= x < 96 && 0 <= y && 0 <= c < 4 && (y < dy || (y == dy && x < 96)) && p
                            == #[trigger] sprite_index(w, cx, x, y, c);
                    assert(p == sprite_index(w, cx, x, y, c));
                    assert(drawn(w, cx, dy + 1, 0, p));
                }
            }
        }
        dy = dy + 1;
    }
}

// ---------------------------------------------------------------------
// Building a strip
// ---------------------------------------------------------------------

/// A strip under construction.
#[derive(Debug)]
pub struct StripBuilder {
    pub count: u32,
    pub sprite: Vec<u8>,
    /// Some tile has a picture.
    pub produced_any: bool,
}

impl StripBuilder {
    /// One to 120 tiles, and a sprite of that size.
    pub open spec fn wf(self) -> bool {
        1 <= self.count <= MAX_TILES && self.sprite@.len() == self.count * TILE_W * TILE_H * 4
    }

    /// An all-black (and transparent) strip of `count` tiles, at least one and
    /// at most 120.
    pub fn new(count: u32) -> (out: StripBuilder)
        ensures
            out.wf(),
            out.count == if count < 1 {
                1
            } else if count > MAX_TILES {
                MAX_TILES
            } else {
                count
            },
            !out.produced_any,
            forall|p: int| 0 <= p < out.sprite@.len() ==> out.sprite@[p] == 0,
    {
        let count: u32 = if count < 1 {
            1
        } else if count > MAX_TILES {
            MAX_TILES
        } else {
            count
        };
        let sprite: Vec<u8> = vec![0u8; (count * TILE_W * TILE_H * 4) as usize];
        StripBuilder { count, sprite, produced_any: false }
    }

    /// Draw the frame of tile `i`.
    pub fn place(&mut self, i: u32, src: &[u8], stride: usize, src_w: u32, src_h: u32)
        requires
            old(self).wf(),
            i < old(self).count,
            0 < src_w,
            0 < src_h,
            holds_image(src@, stride as int, src_w as int, src_h as int),
        ensures
            final(self).wf(),
            final(self).count == old(self).count,
            final(self).produced_any,
            forall|dx: int, dy: int, c: int|
                0 <= dx < TILE_W && 0 <= dy < TILE_H && 0 <= c < 4 ==> final(self).sprite@[#[trigger] sprite_index(
                    old(self).count * 96,
                    i * 96,
                    dx,
                    dy,
                    c,
                )] == cell_value(
                    src@,
                    stride as int,
                    src_w as int,
                    src_h as int,
                    dx,
                    dy,
                    c,
                ),
            forall|p: int|
                0 <= p < old(self).sprite@.len() && !drawn(
                    old(self).count * 96,
                    i * 96,
                    TILE_H as int,
                    0,
                    p,
                ) ==> #[trigger] final(self).sprite@[p] == old(self).sprite@[p],
    {
        self.produced_any = true;
        blit_cover(
            src,
            stride,
            src_w,
            src_h,
            &mut self.sprite,
            TILE_W * self.count,
            i * TILE_W,
        );
    }

    /// A strip without a single picture is an error: the source has none.
    pub fn check(&self, path: &str) -> (out: Result<(), MediaError>)
        ensures
            match out {
                Ok(_) => self.produced_any,
                Err(MediaError::NoStreams { path: p }) => !self.produced_any && p@ == path@,
                _ => false,
            },
    {
        if self.produced_any {
            Ok(())
        } else {
            Err(MediaError::NoStreams { path: path.to_owned() })
        }
    }
}

// ---------------------------------------------------------------------
// The file
// ---------------------------------------------------------------------

/// `b"CFLM"`.
pub open spec fn strip_magic() -> Seq<u8> {
    seq![67, 70, 76, 77]
}

/// A strip file.
pub open spec fn strip_bytes(count: u32, interval_ms: u32, jpeg: Seq<u8>) -> Seq<u8> {
    strip_magic() + bytes::le_bytes(STRIP_VERSION as nat, 4) + bytes::le_bytes(TILE_W as nat, 4)
        + bytes::le_bytes(TILE_H as nat, 4) + bytes::le_bytes(count as nat, 4) + bytes::le_bytes(
        interval_ms as nat,
        4,
    ) + jpeg
}

/// The strip file of `count` tiles at `interval_ms`, around an encoded sprite.
pub fn strip_file(count: u32, interval_ms: u32, jpeg: &[u8]) -> (out: Vec<u8>)
    ensures
        out@ == strip_bytes(count, interval_ms, jpeg@),
{
    let mut out: Vec<u8> = Vec::new();
    out.push(67);
    out.push(70);
    out.push(76);
    out.push(77);
    proof {
        assert(out@ =~= strip_magic());
    }
    push_le(&mut out, STRIP_VERSION as u128, 4);
    push_le(&mut out, TILE_W as u128, 4);
    push_le(&mut out, TILE_H as u128, 4);
    push_le(&mut out, count as u128, 4);
    push_le(&mut out, interval_ms as u128, 4);
    push_bytes(&mut out, jpeg);
    out
}

/// A reader that follows the format finds everything the strip was written
/// with.
pub proof fn law_strip_file_reads_back(count: u32, interval_ms: u32, jpeg: Seq<u8>)
    ensures
        ({
            let file = strip_bytes(count, interval_ms, jpeg);
            &&& file.take(4) == strip_magic()
            &&& bytes::le_value(file.subrange(4, 8)) == STRIP_VERSION
            &&& bytes::le_value(file.subrange(8, 12)) == TILE_W
            &&& bytes::le_value(file.subrange(12, 16)) == TILE_H
            &&& bytes::le_value(file.subrange(16, 20)) == count
            &&& bytes::le_value(file.subrange(20, 24)) == interval_ms
            &&& file.skip(24) == jpeg
        }),
{
    let file = strip_bytes(count, interval_ms, jpeg);
    bytes::lemma_power256();
    bytes::lemma_le_round_trip(STRIP_VERSION as nat, 4);
    bytes::lemma_le_round_trip(TILE_W as nat, 4);
    bytes::lemma_le_round_trip(TILE_H as nat, 4);
    bytes::lemma_le_round_trip(count as nat, 4);
    bytes::lemma_le_round_trip(interval_ms as nat, 4);
    assert(file.take(4) =~= strip_magic());
    assert(file.subrange(4, 8) =~= bytes::le_bytes(STRIP_VERSION as nat, 4));
    assert(file.subrange(8, 12) =~= bytes::le_bytes(TILE_W as nat, 4));
    assert(file.subrange(12, 16) =~= bytes::le_bytes(TILE_H as nat, 4));
    assert(file.subrange(16, 20) =~= bytes::le_bytes(count as nat, 4));
    assert(file.subrange(20, 24) =~= bytes::le_bytes(interval_ms as nat, 4));
    assert(file.skip(24) =~= jpeg);
}

// ---------------------------------------------------------------------
// What a thumbnail shows
// ---------------------------------------------------------------------

/// A source column that lies in the part of the crop at the fraction `dx / 96`
/// to `(dx + 1) / 96` of it, from the left, or next to it.
pub open spec fn near_column(w: int, h: int, dx: int, x: int) -> bool {
    if 9 * w > 16 * h {
        27 * w - 48 * h + dx * h - 54 <= 54 * x <= 27 * w - 48 * h + (dx + 1) * h
    } else {
        dx * w - 96 <= 96 * x <= (dx + 1) * w
    }
}

/// A source row that lies in the part of the crop at the fraction `dy / 54` to
/// `(dy + 1) / 54` of it, from the top, or next to it.
pub open spec fn near_row(w: int, h: int, dy: int, y: int) -> bool {
    if 9 * w > 16 * h {
        dy * h - 54 <= 54 * y <= (dy + 1) * h
    } else {
        48 * h - 27 * w + dy * w - 96 <= 96 * y <= 48 * h - 27 * w + (dy + 1) * w
    }
}

proof fn lemma_box_lies_near(width: u32, height: u32, dx: int, dy: int)
    requires
        0 < width,
        0 < height,
        0 <= dx < 96,
        0 <= dy < 54,
    ensures
        ({
            let (w, h) = (width as int, height as int);
            let x0 = crop::column_edge(w, h, dx);
            let x1 = crop::span_end(x0, crop::column_edge(w, h, dx + 1), w);
            let y0 = crop::row_edge(w, h, dy);
            let y1 = crop::span_end(y0, crop::row_edge(w, h, dy + 1), h);
            &&& 0 <= x0 < x1 <= w
            &&& 0 <= y0 < y1 <= h
            &&& forall|x: int| x0 <= x < x1 ==> #[trigger] near_column(w, h, dx, x)
            &&& forall|y: int| y0 <= y < y1 ==> #[trigger] near_row(w, h, dy, y)
        }),
{
    let (w, h) = (width as int, height as int);
    crop::law_boxes_lie_in_the_source(width, height, dx, dy);
    crop::law_parts_divide_the_crop_evenly(width, height, dx);
    crop::law_parts_divide_the_crop_evenly(width, height, dx + 1);
    crop::law_parts_divide_the_crop_evenly(width, height, dy);
    crop::law_parts_divide_the_crop_evenly(width, height, dy + 1);
    assert((dx + 1) * h == dx * h + h && (dx + 1) * w == dx * w + w) by (nonlinear_arith);
    assert((dy + 1) * h == dy * h + h && (dy + 1) * w == dy * w + w) by (nonlinear_arith);
    let x0 = crop::column_edge(w, h, dx);
    let x1 = crop::span_end(x0, crop::column_edge(w, h, dx + 1), w);
    let y0 = crop::row_edge(w, h, dy);
    let y1 = crop::span_end(y0, crop::row_edge(w, h, dy + 1), h);
    assert forall|x: int| x0 <= x < x1 implies #[trigger] near_column(w, h, dx, x) by {
        assert(x == x0 || x < crop::column_edge(w, h, dx + 1));
    }
    assert forall|y: int| y0 <= y < y1 implies #[trigger] near_row(w, h, dy, y) by {
        assert(y == y0 || y < crop::row_edge(w, h, dy + 1));
    }
}

proof fn lemma_same_row(a: Seq<u8>, b: Seq<u8>, stride: int, y: int, x0: int, x1: int, c: int)
    requires
        forall|x: int|
            x0 <= x < x1 ==> #[trigger] a[y * stride + x * 4 + c] == b[y * stride + x * 4 + c],
    ensures
        row_sum(a, stride, y, x0, x1, c) == row_sum(b, stride, y, x0, x1, c),
    decreases x1 - x0,
{
    if x0 < x1 {
        lemma_same_row(a, b, stride, y, x0, x1 - 1, c);
        assert(a[y * stride + (x1 - 1) * 4 + c] == b[y * stride + (x1 - 1) * 4 + c]);
    }
}

proof fn lemma_same_box(
    a: Seq<u8>,
    b: Seq<u8>,
    stride: int,
    x0: int,
    x1: int,
    y0: int,
    y1: int,
    c: int,
)
    requires
        forall|x: int, y: int|
            x0 <= x < x1 && y0 <= y < y1 ==> #[trigger] a[y * stride + x * 4 + c] == b[y * stride
                + x * 4 + c],
    ensures
        box_sum(a, stride, x0, x1, y0, y1, c) == box_sum(b, stride, x0, x1, y0, y1, c),
    decreases y1 - y0,
{
    if y0 < y1 {
        lemma_same_box(a, b, stride, x0, x1, y0, y1 - 1, c);
        lemma_same_row(a, b, stride, y1 - 1, x0, x1, c);
    }
}

/// A thumbnail is upright and shows the picture where it is: the pixel in
/// column `dx` and row `dy` of a cell depends only on the part of the source
/// that lies at these fractions of the centered crop, from the left and from
/// the top. Two sources that agree there give the same pixel, whatever else
/// they hold.
pub proof fn law_cells_show_their_part_of_the_source(
    a: Seq<u8>,
    b: Seq<u8>,
    stride: int,
    width: u32,
    height: u32,
    dx: int,
    dy: int,
    c: int,
)
    requires
        0 < width,
        0 < height,
        0 <= dx < 96,
        0 <= dy < 54,
        0 <= c < 3,
        forall|x: int, y: int|
            0 <= x < width && 0 <= y < height && near_column(width as int, height as int, dx, x)
                && near_row(width as int, height as int, dy, y) ==> #[trigger] a[y * stride + x * 4
                + c] == b[y * stride + x * 4 + c],
    ensures
        cell_value(a, stride, width as int, height as int, dx, dy, c) == cell_value(
            b,
            stride,
            width as int,
            height as int,
            dx,
            dy,
            c,
        ),
{
    let (w, h) = (width as int, height as int);
    lemma_box_lies_near(width, height, dx, dy);
    let x0 = crop::column_edge(w, h, dx);
    let x1 = crop::span_end(x0, crop::column_edge(w, h, dx + 1), w);
    let y0 = crop::row_edge(w, h, dy);
    let y1 = crop::span_end(y0, crop::row_edge(w, h, dy + 1), h);
    assert forall|x: int, y: int| x0 <= x < x1 && y0 <= y < y1 implies #[trigger] a[y * stride + x
        * 4 + c] == b[y * stride + x * 4 + c] by {
        assert(near_column(w, h, dx, x) && near_row(w, h, dy, y));
    }
    lemma_same_box(a, b, stride, x0, x1, y0, y1, c);
}

/// A thumbnail pixel is the average of its whole box, rounded down: the box
/// from where its column and row begin to where the next ones do, at least one
/// pixel each way. Alpha is opaque.
pub proof fn law_cells_average_their_box(
    src: Seq<u8>,
    stride: int,
    width: u32,
    height: u32,
    dx: int,
    dy: int,
    c: int,
)
    requires
        0 < width,
        0 < height,
        0 <= dx < 96,
        0 <= dy < 54,
        0 <= c < 4,
    ensures
        ({
            let (w, h) = (width as int, height as int);
            let v = cell_value(src, stride, w, h, dx, dy, c);
            let (x0, x) = (crop::column_edge(w, h, dx), crop::column_edge(w, h, dx + 1));
            let (y0, y) = (crop::row_edge(w, h, dy), crop::row_edge(w, h, dy + 1));
            let x1 = if x <= x0 {
                x0 + 1
            } else if x > w {
                w
            } else {
                x
            };
            let y1 = if y <= y0 {
                y0 + 1
            } else if y > h {
                h
            } else {
                y
            };
            let n = (x1 - x0) * (y1 - y0);
            &&& c == 3 ==> v == 255
            &&& c < 3 ==> n * v <= box_sum(src, stride, x0, x1, y0, y1, c) < n * (v + 1)
        }),
{
    let (w, h) = (width as int, height as int);
    crop::law_boxes_lie_in_the_source(width, height, dx, dy);
    let x0 = crop::column_edge(w, h, dx);
    let x1 = crop::span_end(x0, crop::column_edge(w, h, dx + 1), w);
    let y0 = crop::row_edge(w, h, dy);
    let y1 = crop::span_end(y0, crop::row_edge(w, h, dy + 1), h);
    let n = (x1 - x0) * (y1 - y0);
    let sum = box_sum(src, stride, x0, x1, y0, y1, c);
    lemma_box_sum_bound(src, stride, x0, x1, y0, y1, c);
    assert(n > 0) by (nonlinear_arith)
        requires
            n == (x1 - x0) * (y1 - y0),
            x1 > x0,
            y1 > y0,
    ;
    lemma_average(sum, n);
    let q = sum / n;
    assert(n * q <= sum < n * (q + 1)) by (nonlinear_arith)
        requires
            q == sum / n,
            n > 0,
    ;
}

/// The sum over a box counts every pixel of it once.
pub proof fn law_box_sums_count_every_pixel(
    src: Seq<u8>,
    stride: int,
    x0: int,
    x1: int,
    y0: int,
    y1: int,
    c: int,
)
    requires
        x0 <= x1,
        y0 <= y1,
    ensures
        box_sum(src, stride, x0, x1, y0, y0, c) == 0,
        row_sum(src, stride, y1, x0, x0, c) == 0,
        row_sum(src, stride, y1, x0, x1 + 1, c) == row_sum(src, stride, y1, x0, x1, c) + src[y1
            * stride + x1 * 4 + c],
        box_sum(src, stride, x0, x1, y0, y1 + 1, c) == box_sum(src, stride, x0, x1, y0, y1, c)
            + row_sum(src, stride, y1, x0, x1, c),
{
}

/// The sprite is one RGBA picture, row by row: pixel `(x, y)` of it is the four
/// bytes from `4 * (y * sprite_w + x)` on, and a cell takes its own columns of
/// every row and nothing else.
pub proof fn law_cells_stand_side_by_side(
    sprite_w: int,
    cell_x: int,
    x: int,
    y: int,
    c: int,
    dx: int,
    dy: int,
)
    requires
        0 <= cell_x,
        cell_x + 96 <= sprite_w,
        0 <= x < sprite_w,
        0 <= y,
        0 <= c < 4,
    ensures
        sprite_index(sprite_w, cell_x, dx, dy, c) == 4 * (dy * sprite_w + (cell_x + dx)) + c,
        drawn(sprite_w, cell_x, 54, 0, 4 * (y * sprite_w + x) + c) <==> cell_x <= x < cell_x + 96
            && y < 54,
{
    let p = 4 * (y * sprite_w + x) + c;
    if cell_x <= x < cell_x + 96 && y < 54 {
        assert(p == sprite_index(sprite_w, cell_x, x - cell_x, y, c));
    }
    if drawn(sprite_w, cell_x, 54, 0, p) {
        let (ex, ey, e) = choose|ex: int, ey: int, e: int|
            0 <= ex < 96 && 0 <= ey && 0 <= e < 4 && (ey < 54 || (ey == 54 && ex < 0)) && p
                == #[trigger] sprite_index(sprite_w, cell_x, ex, ey, e);
        assert(y == ey) by (nonlinear_arith)
            requires
                y * sprite_w + x == ey * sprite_w + (cell_x + ex),
                0 <= x < sprite_w,
                0 <= cell_x + ex < sprite_w,
        ;
    }
}

/// The first four bytes of a strip file spell `CFLM`, and its cells are 96 by
/// 54 pixels.
pub proof fn law_strip_files_are_marked(count: u32, interval_ms: u32, jpeg: Seq<u8>)
    ensures
        ({
            let file = strip_bytes(count, interval_ms, jpeg);
            &&& file.len() == 24 + jpeg.len()
            &&& file[0] == 0x43 && file[1] == 0x46 && file[2] == 0x4c && file[3] == 0x4d
            &&& bytes::le_value(file.subrange(4, 8)) == 1
            &&& bytes::le_value(file.subrange(8, 12)) == 96
            &&& bytes::le_value(file.subrange(12, 16)) == 54
        }),
{
    law_strip_file_reads_back(count, interval_ms, jpeg);
    let file = strip_bytes(count, interval_ms, jpeg);
    bytes::lemma_le_len(1, 4);
    bytes::lemma_le_len(96, 4);
    bytes::lemma_le_len(54, 4);
    bytes::lemma_le_len(count as nat, 4);
    bytes::lemma_le_len(interval_ms as nat, 4);
    assert(file.take(4)[0] == file[0] && file.take(4)[1] == file[1] && file.take(4)[2] == file[2]
        && file.take(4)[3] == file[3]);
}

} // verus!
