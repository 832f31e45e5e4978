//! Text rasterization for the compositor: from placed glyph images to one
//! **premultiplied RGBA** bitmap of fill, stroke, shadow and color glyphs.
//!
//! **Everything here is in device pixels**: the caller scales font size,
//! stroke width, and shadow offsets by its output scale *before* shaping, so a
//! 4K export rasterizes 4K-sharp glyphs.

use vstd::prelude::*;

use crate::double::Real;
use crate::rounding;
use crate::rounding::{nearest_of, SINGLE, UNIT};
use crate::strings;
use crate::strings::{insert_once, same_text};

verus! {

/// Padding around the computed ink bounds, px: guards the bilinear sampling
/// reads at raster edges.
pub const PAD: i64 = 2;

/// Hard cap on raster dimensions (a 4K frame is 4096 wide; text larger than
/// twice that is clamped rather than allocating unbounded bitmaps).
pub const MAX_RASTER_DIM: i64 = 8192;

/// Horizontal alignment of lines within the text block.
#[derive(Clone, Copy, Debug, PartialEq, Eq, Structural)]
pub enum TextAlign {
    Left,
    Center,
    Right,
}

impl TextAlign {
    /// How many halves of a line's free space stand before it.
    pub fn halves(self) -> (out: u32)
        ensures
            out == match self {
                TextAlign::Left => 0u32,
                TextAlign::Center => 1u32,
                TextAlign::Right => 2u32,
            },
    {
        match self {
            TextAlign::Left => 0,
            TextAlign::Center => 1,
            TextAlign::Right => 2,
        }
    }
}

/// What a requested font family means.
#[derive(Debug)]
pub enum FontFamily {
    SansSerif,
    Serif,
    Monospace,
    Name(String),
}

/// Classify a font family name: empty means the default sans; the generic
/// names map to the matching fallback class.
pub fn family_of(name: &str) -> (out: FontFamily)
    ensures
        if name@ == ""@ || name@ == "sans-serif"@ {
            out is SansSerif
        } else if name@ == "serif"@ {
            out is Serif
        } else if name@ == "monospace"@ {
            out is Monospace
        } else {
            out matches FontFamily::Name(n) && n@ == name@
        },
{
    if same_text(name, "") || same_text(name, "sans-serif") {
        FontFamily::SansSerif
    } else if same_text(name, "serif") {
        FontFamily::Serif
    } else if same_text(name, "monospace") {
        FontFamily::Monospace
    } else {
        FontFamily::Name(name.to_owned())
    }
}

/// Distinct font family names, sorted: the font dropdown.
pub fn font_families(names: &Vec<String>) -> (out: Vec<String>)
    ensures
        strings::strictly_ascending(strings::views(out@)),
        forall|t: Seq<char>|
            #[trigger] strings::views(out@).contains(t) <==> strings::views(names@).contains(t),
{
    let mut out: Vec<String> = Vec::new();
    let ghost all = strings::views(names@);
    for i in 0..names.len()
        invariant
            all == strings::views(names@),
            strings::strictly_ascending(strings::views(out@)),
            forall|t: Seq<char>|
                #[trigger] strings::views(out@).contains(t) <==> all.take(i as int).contains(t),
    {
        let ghost before = strings::views(out@);
        insert_once(&mut out, names[i].clone());
        proof {
            let shorter = all.take(i as int);
            let longer = all.take(i + 1);
            assert(longer =~= shorter.push(all[i as int]));
            assert forall|t: Seq<char>| #[trigger] strings::views(out@).contains(t) <==> longer.contains(
                t,
            ) by {
                if shorter.contains(t) {
                    let k = choose|k: int| 0 <= k < shorter.len() && shorter[k] == t;
                    assert(longer[k] == t);
                }
                if t == all[i as int] {
                    assert(longer[i as int] == t);
                }
                if longer.contains(t) {
                    let k = choose|k: int| 0 <= k < longer.len() && longer[k] == t;
                    if k < i {
                        assert(shorter[k] == t);
                    }
                }
                assert(before.contains(t) <==> shorter.contains(t));
            }
        }
    }
    proof {
        assert(all.take(all.len() as int) =~= all);
    }
    out
}

// ---------------------------------------------------------------------
// Glyphs and the canvas
// ---------------------------------------------------------------------

/// What a glyph image holds.
#[derive(Clone, Copy, Debug, PartialEq, Eq, Structural)]
pub enum GlyphContent {
    /// One coverage byte per pixel.
    Mask,
    /// Straight-alpha RGBA (emoji).
    Color,
    /// Four bytes per pixel; the red one counts as coverage.
    SubpixelMask,
}

/// A placed glyph with its image.
#[derive(Debug)]
pub struct GlyphImage {
    /// Pen position.
    pub x: i32,
    pub y: i32,
    /// Where the image lies relative to the pen: `left` to the right of it,
    /// `top` above it.
    pub left: i32,
    pub top: i32,
    pub width: u32,
    pub height: u32,
    pub content: GlyphContent,
    pub data: Vec<u8>,
}

impl GlyphImage {
    /// The image holds every pixel of its size.
    pub open spec fn wf(self) -> bool {
        let pixels = self.width * self.height;
        match self.content {
            GlyphContent::Mask => self.data@.len() >= pixels,
            _ => self.data@.len() >= 4 * pixels,
        }
    }

    /// There is something to draw.
    pub open spec fn visible(self) -> bool {
        self.width != 0 && self.height != 0
    }

    /// The left edge.
    pub open spec fn x0(self) -> int {
        self.x + self.left
    }

    /// The upper edge.
    pub open spec fn y0(self) -> int {
        self.y - self.top
    }
}

/// A rectangle, its far edges excluded.
#[derive(Clone, Copy, Debug, PartialEq, Eq, Structural)]
pub struct Rect {
    pub x0: i64,
    pub y0: i64,
    pub x1: i64,
    pub y1: i64,
}

pub open spec fn min_i(a: int, b: int) -> int {
    if a <= b {
        a
    } else {
        b
    }
}

pub open spec fn max_i(a: int, b: int) -> int {
    if a >= b {
        a
    } else {
        b
    }
}

/// The rectangle of a glyph.
pub open spec fn glyph_rect(g: GlyphImage) -> Rect {
    Rect {
        x0: g.x0() as i64,
        y0: g.y0() as i64,
        x1: (g.x0() + g.width) as i64,
        y1: (g.y0() + g.height) as i64,
    }
}

/// The smallest rectangle around two.
pub open spec fn around(a: Rect, b: Rect) -> Rect {
    Rect {
        x0: min_i(a.x0 as int, b.x0 as int) as i64,
        y0: min_i(a.y0 as int, b.y0 as int) as i64,
        x1: max_i(a.x1 as int, b.x1 as int) as i64,
        y1: max_i(a.y1 as int, b.y1 as int) as i64,
    }
}

/// The smallest rectangle around every visible glyph, if there is one.
pub open spec fn ink(glyphs: Seq<GlyphImage>) -> Option<Rect>
    decreases glyphs.len(),
{
    if glyphs.len() == 0 {
        None
    } else {
        let before = ink(glyphs.drop_last());
        let g = glyphs.last();
        if !g.visible() {
            before
        } else {
            match before {
                Some(r) => Some(around(r, glyph_rect(g))),
                None => Some(glyph_rect(g)),
            }
        }
    }
}

/// Ink bounds across every glyph image (mask and color). `None` when nothing
/// would be visible.
pub fn ink_bounds(glyphs: &Vec<GlyphImage>) -> (out: Option<Rect>)
    ensures
        out == ink(glyphs@),
        out is None <==> forall|i: int| 0 <= i < glyphs@.len() ==> !(#[trigger] glyphs@[i]).visible(),
        out matches Some(r) ==> bounded(r),
{
    let mut out: Option<Rect> = None;
    for i in 0..glyphs.len()
        invariant
            out == ink(glyphs@.take(i as int)),
    {
        let g = &glyphs[i];
        proof {
            assert(glyphs@.take(i + 1).drop_last() =~= glyphs@.take(i as int));
        }
        if g.width != 0 && g.height != 0 {
            let x0: i64 = g.x as i64 + g.left as i64;
            let y0: i64 = g.y as i64 - g.top as i64;
            let r = Rect { x0, y0, x1: x0 + g.width as i64, y1: y0 + g.height as i64 };
            out = Some(
                match out {
                    None => r,
                    Some(b) => Rect {
                        x0: if b.x0 <= r.x0 {
                            b.x0
                        } else {
                            r.x0
                        },
                        y0: if b.y0 <= r.y0 {
                            b.y0
                        } else {
                            r.y0
                        },
                        x1: if b.x1 >= r.x1 {
                            b.x1
                        } else {
                            r.x1
                        },
                        y1: if b.y1 >= r.y1 {
                            b.y1
                        } else {
                            r.y1
                        },
                    },
                },
            );
        }
    }
    proof {
        assert(glyphs@.take(glyphs@.len() as int) =~= glyphs@);
        lemma_ink(glyphs@);
        lemma_no_ink(glyphs@);
    }
    out
}

/// How far stroke and shadow reach past the ink, on each side.
#[derive(Clone, Copy, Debug, PartialEq, Eq, Structural)]
pub struct Growth {
    pub stroke: i32,
    pub shadow_left: i32,
    pub shadow_up: i32,
    pub shadow_right: i32,
    pub shadow_down: i32,
}

impl Growth {
    /// Nothing shrinks.
    pub open spec fn wf(self) -> bool {
        0 <= self.stroke && 0 <= self.shadow_left && 0 <= self.shadow_up && 0 <= self.shadow_right
            && 0 <= self.shadow_down
    }
}

/// The bitmap's place in layout space.
#[derive(Clone, Copy, Debug, PartialEq, Eq, Structural)]
pub struct Canvas {
    pub x0: i64,
    pub y0: i64,
    pub width: u32,
    pub height: u32,
}

/// The canvas around some ink.
pub open spec fn canvas_around(ink: Rect, grow: Growth) -> Canvas {
    let x0 = ink.x0 - grow.stroke - grow.shadow_left - PAD;
    let y0 = ink.y0 - grow.stroke - grow.shadow_up - PAD;
    let x1 = ink.x1 + grow.stroke + grow.shadow_right + PAD;
    let y1 = ink.y1 + grow.stroke + grow.shadow_down + PAD;
    Canvas {
        x0: x0 as i64,
        y0: y0 as i64,
        width: min_i(x1 - x0, MAX_RASTER_DIM as int) as u32,
        height: min_i(y1 - y0, MAX_RASTER_DIM as int) as u32,
    }
}

/// A rectangle with room to grow in machine integers.
pub open spec fn bounded(r: Rect) -> bool {
    let limit = 0x10_0000_0000int;
    -limit <= r.x0 < r.x1 <= limit && -limit <= r.y0 < r.y1 <= limit
}

/// A canvas that [`canvas_for`] gives.
pub open spec fn canvas_ok(c: Canvas) -> bool {
    let limit = 0x20_0000_0000int;
    &&& -limit <= c.x0 <= limit
    &&& -limit <= c.y0 <= limit
    &&& 1 <= c.width <= MAX_RASTER_DIM
    &&& 1 <= c.height <= MAX_RASTER_DIM
}

/// Canvas: ink bounds grown by the stroke ring and the shadow offset, then
/// padded. Only visible pixels cost memory.
pub fn canvas_for(ink: Rect, grow: Growth) -> (out: Canvas)
    requires
        bounded(ink),
        grow.wf(),
    ensures
        out == canvas_around(ink, grow),
        canvas_ok(out),
{
    let stroke: i64 = grow.stroke as i64;
    let x0: i64 = ink.x0 - stroke - grow.shadow_left as i64 - PAD;
    let y0: i64 = ink.y0 - stroke - grow.shadow_up as i64 - PAD;
    let x1: i64 = ink.x1 + stroke + grow.shadow_right as i64 + PAD;
    let y1: i64 = ink.y1 + stroke + grow.shadow_down as i64 + PAD;
    let w: i64 = if x1 - x0 <= MAX_RASTER_DIM {
        x1 - x0
    } else {
        MAX_RASTER_DIM
    };
    let h: i64 = if y1 - y0 <= MAX_RASTER_DIM {
        y1 - y0
    } else {
        MAX_RASTER_DIM
    };
    Canvas { x0, y0, width: w as u32, height: h as u32 }
}

proof fn lemma_ink(glyphs: Seq<GlyphImage>)
    ensures
        ink(glyphs) matches Some(r) ==> bounded(r) && forall|i: int|
            0 <= i < glyphs.len() && (#[trigger] glyphs[i]).visible() ==> r.x0 <= glyphs[i].x0()
                && glyphs[i].x0() + glyphs[i].width <= r.x1 && r.y0 <= glyphs[i].y0()
                && glyphs[i].y0() + glyphs[i].height <= r.y1,
        ink(glyphs) is None ==> forall|i: int|
            0 <= i < glyphs.len() ==> !(#[trigger] glyphs[i]).visible(),
    decreases glyphs.len(),
{
    if glyphs.len() > 0 {
        let init = glyphs.drop_last();
        lemma_ink(init);
        assert forall|i: int| 0 <= i < init.len() implies init[i] == #[trigger] glyphs[i] by {}
        assert forall|i: int| 0 <= i < glyphs.len() && i != glyphs.len() - 1 implies #[trigger] glyphs[i] == init[i] by {}
    }
}

proof fn lemma_no_ink(glyphs: Seq<GlyphImage>)
    ensures
        ink(glyphs) is Some ==> exists|i: int|
            0 <= i < glyphs.len() && (#[trigger] glyphs[i]).visible(),
    decreases glyphs.len(),
{
    if ink(glyphs) is Some {
        let init = glyphs.drop_last();
        if glyphs.last().visible() {
            assert(glyphs[glyphs.len() - 1].visible());
        } else {
            lemma_no_ink(init);
            let i = choose|i: int| 0 <= i < init.len() && (#[trigger] init[i]).visible();
            assert(glyphs[i].visible());
        }
    }
}

/// Unless the size cap cuts it off, the canvas holds every visible glyph with
/// room for the stroke on every side, so nothing of the text is clipped.
pub proof fn law_canvas_holds_every_glyph(glyphs: Seq<GlyphImage>, grow: Growth, i: int)
    requires
        0 <= i < glyphs.len(),
        glyphs[i].visible(),
        grow.wf(),
        canvas_around(ink(glyphs)->0, grow).width < MAX_RASTER_DIM,
        canvas_around(ink(glyphs)->0, grow).height < MAX_RASTER_DIM,
    ensures
        ({
            let c = canvas_around(ink(glyphs)->0, grow);
            let g = glyphs[i];
            &&& c.x0 + PAD + grow.stroke <= g.x0()
            &&& g.x0() + g.width + grow.stroke + PAD <= c.x0 + c.width
            &&& c.y0 + PAD + grow.stroke <= g.y0()
            &&& g.y0() + g.height + grow.stroke + PAD <= c.y0 + c.height
        }),
{
    lemma_ink(glyphs);
}

// ---------------------------------------------------------------------
// Pixels
// ---------------------------------------------------------------------

proof fn lemma_cell(w: int, x: int, y: int)
    requires
        0 <= x < w,
        0 <= y,
    ensures
        (y * w + x) / w == y,
        (y * w + x) % w == x,
        0 <= y * w,
{
    assert(0 <= y * w) by (nonlinear_arith)
        requires
            0 <= y,
            0 < w,
    ;
    vstd::arithmetic::div_mod::lemma_fundamental_div_mod_converse(y * w + x, w, y, x);
}

proof fn lemma_cell_fits(w: int, h: int, x: int, y: int)
    requires
        0 <= x < w,
        0 <= y < h,
    ensures
        0 <= y * w,
        y * w + x < w * h,
{
    assert(0 <= y * w && y * w + w <= w * h) by (nonlinear_arith)
        requires
            0 <= y < h,
            0 < w,
    ;
}

proof fn lemma_same_cell(w: int, p: int, q: int)
    requires
        0 < w,
        p / w == q / w,
        p % w == q % w,
    ensures
        p == q,
{
    vstd::arithmetic::div_mod::lemma_fundamental_div_mod(p, w);
    vstd::arithmetic::div_mod::lemma_fundamental_div_mod(q, w);
}

proof fn lemma_no_area(w: int, h: int)
    requires
        w == 0 || h == 0,
    ensures
        w * h == 0,
{
    assert(w * h == 0) by (nonlinear_arith)
        requires
            w == 0 || h == 0,
    ;
}

/// A tile drawn at an offset.
pub struct Tile {
    pub w: int,
    pub h: int,
    pub x: int,
    pub y: int,
}

impl Tile {
    /// Pixel `p` of a picture of width `dst_w` lies under the tile.
    pub open spec fn covers(self, dst_w: int, p: int) -> bool {
        0 <= p % dst_w - self.x < self.w && 0 <= p / dst_w - self.y < self.h
    }

    /// The tile's pixel over pixel `p`.
    pub open spec fn at(self, dst_w: int, p: int) -> int {
        (p / dst_w - self.y) * self.w + (p % dst_w - self.x)
    }

    /// Of the tile's pixels in row order, that over `p` comes before column
    /// `sx` of row `sy`.
    pub open spec fn before(self, dst_w: int, p: int, sy: int, sx: int) -> bool {
        self.covers(dst_w, p) && (p / dst_w - self.y < sy || (p / dst_w - self.y == sy && p % dst_w
            - self.x < sx))
    }
}

proof fn lemma_tile_index(w: int, h: int, x: int, y: int)
    requires
        0 <= x < w,
        0 <= y < h,
    ensures
        0 <= y * w + x < w * h,
{
    lemma_cell_fits(w, h, x, y);
}

pub open spec fn max_u8(a: u8, b: u8) -> u8 {
    if a >= b {
        a
    } else {
        b
    }
}

/// A coverage tile blitted into a single-channel picture, keeping the max where
/// glyphs overlap. What lies outside the picture is cut off.
pub open spec fn blitted_max(dst: Seq<u8>, dst_w: int, src: Seq<u8>, tile: Tile) -> Seq<u8> {
    Seq::new(
        dst.len(),
        |p: int|
            if tile.covers(dst_w, p) {
                max_u8(dst[p], src[tile.at(dst_w, p)])
            } else {
                dst[p]
            },
    )
}

/// Blit a coverage tile into `dst` (single channel), keeping the max where
/// glyphs overlap.
pub fn blit_max(
    dst: &mut Vec<u8>,
    dst_w: usize,
    dst_h: usize,
    src: &Vec<u8>,
    src_w: usize,
    src_h: usize,
    at_x: i64,
    at_y: i64,
)
    requires
        old(dst)@.len() == dst_w * dst_h,
        src@.len() >= src_w * src_h,
    ensures
        final(dst)@ == blitted_max(
            old(dst)@,
            dst_w as int,
            src@,
            (Tile { w: src_w as int, h: src_h as int, x: at_x as int, y: at_y as int }),
        ),
{
    let ghost before = dst@;
    let ghost w = dst_w as int;
    let ghost tile = Tile { w: src_w as int, h: src_h as int, x: at_x as int, y: at_y as int };
    let size: usize = src.len();
    let total: usize = dst.len();
    if dst_w == 0 || dst_h == 0 {
        proof {
            lemma_no_area(dst_w as int, dst_h as int);
            assert(dst@ =~= blitted_max(before, w, src@, tile));
        }
        return;
    }
    let mut sy: usize = 0;
    while sy < src_h
        invariant
            0 < dst_w,
            0 < dst_h,
            w == dst_w,
            dst@.len() == dst_w * dst_h,
            total == dst@.len(),
            before.len() == dst@.len(),
            size == src@.len(),
            size >= src_w * src_h,
            tile == (Tile { w: src_w as int, h: src_h as int, x: at_x as int, y: at_y as int }),
            sy <= src_h,
            forall|p: int|
                0 <= p < before.len() ==> #[trigger] dst@[p] == (if tile.before(w, p, sy as int, 0) {
                    max_u8(before[p], src@[tile.at(w, p)])
                } else {
                    before[p]
                }),
        decreases src_h - sy,
    {
        let dy: i128 = at_y as i128 + sy as i128;
        if dy < 0 || dy >= dst_h as i128 {
            proof {
                assert forall|p: int| 0 <= p < before.len() implies #[trigger] dst@[p] == (if tile.before(w, p, sy + 1, 0) {
                    max_u8(before[p], src@[tile.at(w, p)])
                } else {
                    before[p]
                }) by {
                    lemma_row_of(w, dst_h as int, p);
                }
            }
            sy = sy + 1;
            continue ;
        }
        let mut sx: usize = 0;
        while sx < src_w
            invariant
                0 < dst_w,
                0 < dst_h,
                w == dst_w,
                dst@.len() == dst_w * dst_h,
                total == dst@.len(),
                before.len() == dst@.len(),
                size == src@.len(),
                size >= src_w * src_h,
                tile == (Tile { w: src_w as int, h: src_h as int, x: at_x as int, y: at_y as int }),
                sy < src_h,
                sx <= src_w,
                dy == at_y + sy,
                0 <= dy < dst_h,
                forall|p: int|
                    0 <= p < before.len() ==> #[trigger] dst@[p] == (if tile.before(
                        w,
                        p,
                        sy as int,
                        sx as int,
                    ) {
                        max_u8(before[p], src@[tile.at(w, p)])
                    } else {
                        before[p]
                    }),
            decreases src_w - sx,
        {
            let dx: i128 = at_x as i128 + sx as i128;
            let ghost held = dst@;
            if 0 <= dx && dx < dst_w as i128 {
                proof {
                    lemma_cell(w, dx as int, dy as int);
                    lemma_cell_fits(w, dst_h as int, dx as int, dy as int);
                    lemma_tile_index(src_w as int, src_h as int, sx as int, sy as int);
                    lemma_cell_fits(src_w as int, src_h as int, sx as int, sy as int);
                    assert(dy * w + dx < total);
                }
                let d: usize = dy as usize * dst_w + dx as usize;
                let s: u8 = src[sy * src_w + sx];
                if s > dst[d] {
                    dst.set(d, s);
                }
                proof {
                    assert(tile.at(w, d as int) == sy * src_w + sx);
                    assert forall|p: int| 0 <= p < before.len() implies #[trigger] dst@[p] == (if tile.before(w, p, sy as int, sx + 1) {
                        max_u8(before[p], src@[tile.at(w, p)])
                    } else {
                        before[p]
                    }) by {
                        assert(held[p] == (if tile.before(w, p, sy as int, sx as int) {
                            max_u8(before[p], src@[tile.at(w, p)])
                        } else {
                            before[p]
                        }));
                        if p != d {
                            if p / w == dy && p % w == dx {
                                lemma_same_cell(w, p, d as int);
                            }
                        }
                    }
                }
            } else {
                proof {
                    assert forall|p: int| 0 <= p < before.len() implies #[trigger] dst@[p] == (if tile.before(w, p, sy as int, sx + 1) {
                        max_u8(before[p], src@[tile.at(w, p)])
                    } else {
                        before[p]
                    }) by {
                        lemma_row_of(w, dst_h as int, p);
                    }
                }
            }
            sx = sx + 1;
        }
        proof {
            assert forall|p: int| 0 <= p < before.len() implies #[trigger] dst@[p] == (if tile.before(w, p, sy + 1, 0) {
                max_u8(before[p], src@[tile.at(w, p)])
            } else {
                before[p]
            }) by {
                assert(tile.before(w, p, sy + 1, 0) == tile.before(w, p, sy as int, src_w as int));
            }
        }
        sy = sy + 1;
    }
    proof {
        assert forall|p: int| 0 <= p < before.len() implies tile.before(w, p, src_h as int, 0)
            == tile.covers(w, p) by {}
        assert(dst@ =~= blitted_max(before, w, src@, tile));
    }
}

proof fn lemma_row_of(w: int, h: int, p: int)
    requires
        0 < w,
        0 <= p < w * h,
    ensures
        0 <= p / w < h,
        0 <= p % w < w,
{
    vstd::arithmetic::div_mod::lemma_fundamental_div_mod(p, w);
    assert(0 <= p / w < h) by (nonlinear_arith)
        requires
            0 < w,
            0 <= p < w * h,
    ;
}


/// One channel of premultiplied source-over: `src + dst * (1 - src.a)`,
/// rounded to nearest.
pub open spec fn over_channel(dst: u8, src: u8, src_a: u8) -> u8 {
    min_i(src + (dst * (255 - src_a) + 127) / 255, 255) as u8
}

/// The alpha byte of the pixel that byte `k` belongs to.
pub open spec fn alpha_at(data: Seq<u8>, k: int) -> u8 {
    data[k / 4 * 4 + 3]
}

/// One RGBA picture over another.
pub open spec fn layered(dst: Seq<u8>, src: Seq<u8>) -> Seq<u8> {
    Seq::new(dst.len(), |k: int| over_channel(dst[k], src[k], alpha_at(src, k)))
}

/// Every pixel is premultiplied: no channel exceeds alpha.
pub open spec fn premultiplied(data: Seq<u8>) -> bool {
    forall|k: int| 0 <= k < data.len() ==> #[trigger] data[k] <= alpha_at(data, k)
}

/// Premultiplied source-over for one channel.
fn over_value(dst: u8, src: u8, src_a: u8) -> (out: u8)
    ensures
        out == over_channel(dst, src, src_a),
{
    let inv: u32 = 255 - src_a as u32;
    proof {
        assert(dst * inv <= 255 * 255) by (nonlinear_arith)
            requires
                dst <= 255,
                inv <= 255,
        ;
    }
    let sum: u32 = src as u32 + (dst as u32 * inv + 127) / 255;
    if sum > 255 {
        255
    } else {
        sum as u8
    }
}

/// Premultiplied source-over on the pixel at byte `at`.
pub fn over_premul(dst: &mut Vec<u8>, at: usize, src: [u8; 4])
    requires
        at + 4 <= old(dst)@.len(),
    ensures
        final(dst)@ == Seq::new(
            old(dst)@.len(),
            |k: int|
                if at <= k < at + 4 {
                    over_channel(old(dst)@[k], src[k - at], src[3])
                } else {
                    old(dst)@[k]
                },
        ),
{
    let n: usize = dst.len();
    let a: u8 = src[3];
    for c in 0..4usize
        invariant
            n == dst@.len(),
            n == old(dst)@.len(),
            at + 4 <= n,
            a == src[3],
            forall|k: int|
                0 <= k < n ==> #[trigger] dst@[k] == (if at <= k < at + c {
                    over_channel(old(dst)@[k], src[k - at], a)
                } else {
                    old(dst)@[k]
                }),
    {
        let v: u8 = over_value(dst[at + c], src[c], a);
        dst.set(at + c, v);
    }
}

/// `c * a / 255`, rounded to nearest.
pub open spec fn scaled(c: u8, a: u8) -> u8 {
    ((2 * (c * a) + 255) / 510) as u8
}

proof fn lemma_scaled(c: u8, a: u8)
    ensures
        0 <= (2 * (c * a) + 255) / 510 <= a,
        c * a <= 255 * 255,
{
    assert(0 <= c * a <= 255 * a && 255 * a <= 255 * 255) by (nonlinear_arith)
        requires
            0 <= c <= 255,
            0 <= a <= 255,
    ;
    assert((2 * (c * a) + 255) / 510 <= a);
}

fn scale_value(c: u8, a: u8) -> (out: u8)
    ensures
        out == scaled(c, a),
{
    proof {
        lemma_scaled(c, a);
    }
    ((2 * (c as u32 * a as u32) + 255) / 510) as u8
}

/// Channel `k % 4` of a straight-alpha pixel, premultiplied.
pub open spec fn premul_channel(src: Seq<u8>, k: int) -> u8 {
    if k % 4 == 3 {
        src[k]
    } else {
        scaled(src[k], alpha_at(src, k))
    }
}

/// A straight-alpha RGBA tile drawn as premultiplied "over". What lies outside
/// the picture is cut off.
pub open spec fn blitted_color(layer: Seq<u8>, dst_w: int, src: Seq<u8>, tile: Tile) -> Seq<u8> {
    Seq::new(
        layer.len(),
        |k: int|
            if tile.covers(dst_w, k / 4) {
                let s = 4 * tile.at(dst_w, k / 4);
                over_channel(layer[k], premul_channel(src, s + k % 4), src[s + 3])
            } else {
                layer[k]
            },
    )
}

/// The alpha bytes of an RGBA picture of `n` pixels.
pub open spec fn alphas(src: Seq<u8>, n: int) -> Seq<u8> {
    Seq::new(n as nat, |p: int| src[4 * p + 3])
}

spec fn drawn_color(
    before: Seq<u8>,
    src: Seq<u8>,
    tile: Tile,
    w: int,
    k: int,
    done: bool,
) -> u8 {
    if done {
        over_channel(
            before[k],
            premul_channel(src, 4 * tile.at(w, k / 4) + k % 4),
            src[4 * tile.at(w, k / 4) + 3],
        )
    } else {
        before[k]
    }
}

spec fn drawn_alpha(before: Seq<u8>, src: Seq<u8>, tile: Tile, w: int, p: int, done: bool) -> u8 {
    if done {
        max_u8(before[p], src[4 * tile.at(w, p) + 3])
    } else {
        before[p]
    }
}

/// Blit a straight-alpha RGBA tile as premultiplied "over" into `layer`, and
/// its alpha into `shadow_mask`.
pub fn blit_color_premul(
    layer: &mut Vec<u8>,
    shadow_mask: &mut Vec<u8>,
    dst_w: usize,
    dst_h: usize,
    src: &Vec<u8>,
    src_w: usize,
    src_h: usize,
    at_x: i64,
    at_y: i64,
)
    requires
        old(layer)@.len() == 4 * (dst_w * dst_h),
        old(shadow_mask)@.len() == dst_w * dst_h,
        src@.len() >= 4 * (src_w * src_h),
    ensures
        final(layer)@ == blitted_color(
            old(layer)@,
            dst_w as int,
            src@,
            (Tile { w: src_w as int, h: src_h as int, x: at_x as int, y: at_y as int }),
        ),
        final(shadow_mask)@ == blitted_max(
            old(shadow_mask)@,
            dst_w as int,
            alphas(src@, src_w * src_h),
            (Tile { w: src_w as int, h: src_h as int, x: at_x as int, y: at_y as int }),
        ),
{
    let ghost before = layer@;
    let ghost before_mask = shadow_mask@;
    let ghost w = dst_w as int;
    let ghost tile = Tile { w: src_w as int, h: src_h as int, x: at_x as int, y: at_y as int };
    let size: usize = src.len();
    let total: usize = layer.len();
    if dst_w == 0 || dst_h == 0 {
        proof {
            lemma_no_area(dst_w as int, dst_h as int);
            assert(layer@ =~= blitted_color(before, w, src@, tile));
            assert(shadow_mask@ =~= blitted_max(before_mask, w, alphas(src@, src_w * src_h), tile));
        }
        return;
    }
    let mut sy: usize = 0;
    while sy < src_h
        invariant
            0 < dst_w,
            0 < dst_h,
            w == dst_w,
            total == 4 * (dst_w * dst_h),
            total == layer@.len(),
            before.len() == total,
            before_mask.len() == dst_w * dst_h,
            shadow_mask@.len() == dst_w * dst_h,
            size == src@.len(),
            size >= 4 * (src_w * src_h),
            tile == (Tile { w: src_w as int, h: src_h as int, x: at_x as int, y: at_y as int }),
            sy <= src_h,
            forall|k: int|
                0 <= k < total ==> #[trigger] layer@[k] == drawn_color(
                    before,
                    src@,
                    tile,
                    w,
                    k,
                    tile.before(w, k / 4, sy as int, 0),
                ),
            forall|p: int|
                0 <= p < before_mask.len() ==> #[trigger] shadow_mask@[p] == drawn_alpha(
                    before_mask,
                    src@,
                    tile,
                    w,
                    p,
                    tile.before(w, p, sy as int, 0),
                ),
        decreases src_h - sy,
    {
        let dy: i128 = at_y as i128 + sy as i128;
        if dy < 0 || dy >= dst_h as i128 {
            proof {
                assert forall|p: int| 0 <= p < before_mask.len() implies #[trigger] tile.before(w, p, sy as int, 0) == tile.before(w, p, sy + 1, 0) by {
                    lemma_row_of(w, dst_h as int, p);
                }
                assert forall|k: int| 0 <= k < total implies #[trigger] layer@[k] == drawn_color(before, src@, tile, w, k, tile.before(w, k / 4, sy + 1, 0)) by {
                    assert(tile.before(w, k / 4, sy as int, 0) == tile.before(w, k / 4, sy + 1, 0));
                }
            }
            sy = sy + 1;
            continue ;
        }
        let mut sx: usize = 0;
        while sx < src_w
            invariant
                0 < dst_w,
                0 < dst_h,
                w == dst_w,
                total == 4 * (dst_w * dst_h),
                total == layer@.len(),
                before.len() == total,
                before_mask.len() == dst_w * dst_h,
                shadow_mask@.len() == dst_w * dst_h,
                size == src@.len(),
                size >= 4 * (src_w * src_h),
                tile == (Tile { w: src_w as int, h: src_h as int, x: at_x as int, y: at_y as int }),
                sy < src_h,
                sx <= src_w,
                dy == at_y + sy,
                0 <= dy < dst_h,
                forall|k: int|
                    0 <= k < total ==> #[trigger] layer@[k] == drawn_color(
                        before,
                        src@,
                        tile,
                        w,
                        k,
                        tile.before(w, k / 4, sy as int, sx as int),
                    ),
                forall|p: int|
                    0 <= p < before_mask.len() ==> #[trigger] shadow_mask@[p] == drawn_alpha(
                        before_mask,
                        src@,
                        tile,
                        w,
                        p,
                        tile.before(w, p, sy as int, sx as int),
                    ),
            decreases src_w - sx,
        {
            let dx: i128 = at_x as i128 + sx as i128;
            let ghost held = layer@;
            let ghost held_mask = shadow_mask@;
            if 0 <= dx && dx < dst_w as i128 {
                proof {
                    lemma_cell(w, dx as int, dy as int);
                    lemma_cell_fits(w, dst_h as int, dx as int, dy as int);
                    lemma_cell_fits(src_w as int, src_h as int, sx as int, sy as int);
                    assert(4 * (dy * w + dx) + 4 <= total);
                    assert(4 * (sy * src_w + sx) + 4 <= size);
                }
                let d: usize = dy as usize * dst_w + dx as usize;
                let s: usize = 4 * (sy * src_w + sx);
                let a: u8 = src[s + 3];
                proof {
                    assert(tile.at(w, d as int) == sy * src_w + sx);
                    assert(4 * tile.at(w, d as int) == s);
                    assert(tile.before(w, d as int, sy as int, sx + 1));
                    assert(!tile.before(w, d as int, sy as int, sx as int));
                    assert forall|p: int| p != d implies #[trigger] tile.before(w, p, sy as int, sx as int) == tile.before(w, p, sy as int, sx + 1) by {
                        if p / w == dy && p % w == dx {
                            lemma_same_cell(w, p, d as int);
                        }
                    }
                    assert(s / 4 * 4 + 3 == s + 3 && (s + 1) / 4 * 4 + 3 == s + 3 && (s + 2) / 4 * 4
                        + 3 == s + 3 && s % 4 == 0 && (s + 1) % 4 == 1 && (s + 2) % 4 == 2 && (s
                        + 3) % 4 == 3) by {
                        assert(s == 4 * (sy * src_w + sx));
                    }
                }
                if a != 0 {
                    let premul: [u8; 4] = [
                        scale_value(src[s], a),
                        scale_value(src[s + 1], a),
                        scale_value(src[s + 2], a),
                        a,
                    ];
                    over_premul(layer, 4 * d, premul);
                    proof {
                        assert forall|c: int| 0 <= c < 4 implies #[trigger] premul[c] == premul_channel(src@, s + c) by {
                            assert(c == 0 || c == 1 || c == 2 || c == 3);
                        }
                    }
                    if a > shadow_mask[d] {
                        shadow_mask.set(d, a);
                    }
                    proof {
                        assert forall|k: int| 0 <= k < total implies #[trigger] layer@[k] == drawn_color(before, src@, tile, w, k, tile.before(w, k / 4, sy as int, sx + 1)) by {
                            assert(held[k] == drawn_color(before, src@, tile, w, k, tile.before(w, k / 4, sy as int, sx as int)));
                            if k / 4 == d {
                                assert(k - 4 * d == k % 4);
                                assert(premul[k % 4] == premul_channel(src@, s + k % 4));
                            } else {
                                assert(tile.before(w, k / 4, sy as int, sx as int) == tile.before(w, k / 4, sy as int, sx + 1));
                            }
                        }
                    }
                } else {
                    proof {
                        assert forall|k: int| 0 <= k < total implies #[trigger] layer@[k] == drawn_color(before, src@, tile, w, k, tile.before(w, k / 4, sy as int, sx + 1)) by {
                            if k / 4 == d {
                                let c = k % 4;
                                assert(4 * tile.at(w, k / 4) + c == s + c);
                                assert(c == 0 || c == 1 || c == 2 || c == 3);
                                assert(src@[s + c] * a == 0) by (nonlinear_arith)
                                    requires
                                        a == 0,
                                ;
                                assert(premul_channel(src@, s + c) == 0);
                                lemma_over_nothing(before[k]);
                            } else {
                                assert(tile.before(w, k / 4, sy as int, sx as int) == tile.before(w, k / 4, sy as int, sx + 1));
                            }
                        }
                    }
                }
                proof {
                    assert forall|p: int| 0 <= p < before_mask.len() implies #[trigger] shadow_mask@[p] == drawn_alpha(before_mask, src@, tile, w, p, tile.before(w, p, sy as int, sx + 1)) by {
                        assert(held_mask[p] == drawn_alpha(before_mask, src@, tile, w, p, tile.before(w, p, sy as int, sx as int)));
                        if p != d {
                            assert(tile.before(w, p, sy as int, sx as int) == tile.before(w, p, sy as int, sx + 1));
                        }
                    }
                }
            } else {
                proof {
                    assert forall|p: int| 0 <= p < before_mask.len() implies #[trigger] tile.before(w, p, sy as int, sx as int) == tile.before(w, p, sy as int, sx + 1) by {
                        lemma_row_of(w, dst_h as int, p);
                    }
                    assert forall|k: int| 0 <= k < total implies #[trigger] layer@[k] == drawn_color(before, src@, tile, w, k, tile.before(w, k / 4, sy as int, sx + 1)) by {
                        assert(tile.before(w, k / 4, sy as int, sx as int) == tile.before(w, k / 4, sy as int, sx + 1));
                    }
                }
            }
            sx = sx + 1;
        }
        proof {
            assert forall|p: int| #[trigger] tile.before(w, p, sy as int, src_w as int) == tile.before(w, p, sy + 1, 0) by {}
            assert forall|k: int| 0 <= k < total implies #[trigger] layer@[k] == drawn_color(before, src@, tile, w, k, tile.before(w, k / 4, sy + 1, 0)) by {
                assert(tile.before(w, k / 4, sy as int, src_w as int) == tile.before(w, k / 4, sy + 1, 0));
            }
        }
        sy = sy + 1;
    }
    proof {
        assert forall|p: int| tile.covers(w, p) implies 0 <= #[trigger] tile.at(w, p) < src_w * src_h by {
            lemma_tile_index(src_w as int, src_h as int, p % w - tile.x, p / w - tile.y);
        }
        assert(layer@ =~= blitted_color(before, w, src@, tile));
        assert(shadow_mask@ =~= blitted_max(before_mask, w, alphas(src@, src_w * src_h), tile));
    }
}

proof fn lemma_over_nothing(d: u8)
    ensures
        over_channel(d, 0, 0) == d,
{
    assert((d * 255 + 127) / 255 == d);
}

// ---------------------------------------------------------------------
// Glyphs onto the canvas
// ---------------------------------------------------------------------

/// The single-channel and color pictures that glyphs are drawn into.
#[verifier::ext_equal]
pub struct Drawn {
    /// Fill and stroke source (monochrome glyphs).
    pub mask: Seq<u8>,
    /// Adds color-glyph alpha.
    pub shadow: Seq<u8>,
    /// Premultiplied RGBA, once there is a color glyph.
    pub color: Option<Seq<u8>>,
}

/// `n` zero bytes.
pub open spec fn zeros(n: int) -> Seq<u8> {
    Seq::new(n as nat, |k: int| 0u8)
}

/// How many pixels a canvas has.
pub open spec fn area(c: Canvas) -> int {
    c.width * c.height
}

/// Where a glyph lies on a canvas.
pub open spec fn tile_of(g: GlyphImage, c: Canvas) -> Tile {
    Tile { w: g.width as int, h: g.height as int, x: g.x0() - c.x0, y: g.y0() - c.y0 }
}

/// The red bytes of the first `n` four-byte pixels.
pub open spec fn reds(src: Seq<u8>, n: int) -> Seq<u8> {
    Seq::new(n as nat, |p: int| src[4 * p])
}

/// One more glyph drawn. Color glyphs (emoji) go to their own layer; their
/// alpha still casts the shadow so mixed lines look consistent.
pub open spec fn stamped(d: Drawn, g: GlyphImage, c: Canvas) -> Drawn {
    let w = c.width as int;
    let tile = tile_of(g, c);
    let n = g.width * g.height;
    if !g.visible() {
        d
    } else {
        match g.content {
            GlyphContent::Mask => Drawn {
                mask: blitted_max(d.mask, w, g.data@, tile),
                shadow: blitted_max(d.shadow, w, g.data@, tile),
                color: d.color,
            },
            GlyphContent::SubpixelMask => Drawn {
                mask: blitted_max(d.mask, w, reds(g.data@, n), tile),
                shadow: blitted_max(d.shadow, w, reds(g.data@, n), tile),
                color: d.color,
            },
            GlyphContent::Color => Drawn {
                mask: d.mask,
                shadow: blitted_max(d.shadow, w, alphas(g.data@, n), tile),
                color: Some(
                    blitted_color(
                        match d.color {
                            Some(layer) => layer,
                            None => zeros(4 * area(c)),
                        },
                        w,
                        g.data@,
                        tile,
                    ),
                ),
            },
        }
    }
}

/// Every glyph drawn in order onto an empty canvas.
pub open spec fn drawn(glyphs: Seq<GlyphImage>, c: Canvas) -> Drawn
    decreases glyphs.len(),
{
    if glyphs.len() == 0 {
        Drawn { mask: zeros(area(c)), shadow: zeros(area(c)), color: None }
    } else {
        stamped(drawn(glyphs.drop_last(), c), glyphs.last(), c)
    }
}

/// The pictures of all glyphs.
#[derive(Debug)]
pub struct GlyphLayers {
    pub mask: Vec<u8>,
    pub shadow_mask: Vec<u8>,
    pub color_layer: Option<Vec<u8>>,
}

impl View for GlyphLayers {
    type V = Drawn;

    open spec fn view(&self) -> Drawn {
        Drawn {
            mask: self.mask@,
            shadow: self.shadow_mask@,
            color: match self.color_layer {
                Some(layer) => Some(layer@),
                None => None,
            },
        }
    }
}

impl GlyphLayers {
    /// Every picture has the canvas's size.
    pub open spec fn fits(self, c: Canvas) -> bool {
        &&& self.mask@.len() == area(c)
        &&& self.shadow_mask@.len() == area(c)
        &&& self.color_layer matches Some(layer) ==> layer@.len() == 4 * area(c)
    }
}

fn red_bytes(src: &Vec<u8>, n: usize) -> (out: Vec<u8>)
    requires
        src@.len() >= 4 * n,
    ensures
        out@ == reds(src@, n as int),
{
    let mut out: Vec<u8> = Vec::new();
    for p in 0..n
        invariant
            src@.len() >= 4 * n,
            out@ == reds(src@, p as int),
    {
        let size: usize = src.len();
        out.push(src[4 * p]);
    }
    out
}

proof fn lemma_canvas_area(c: Canvas)
    requires
        canvas_ok(c),
    ensures
        0 < area(c) <= 0x400_0000,
{
    let w = c.width as int;
    let h = c.height as int;
    assert(0 < w * h <= 8192 * 8192) by (nonlinear_arith)
        requires
            1 <= w <= 8192,
            1 <= h <= 8192,
    ;
}

/// Draw coverage (and color glyphs) in canvas space.
pub fn draw_glyphs(glyphs: &Vec<GlyphImage>, canvas: Canvas) -> (out: GlyphLayers)
    requires
        canvas_ok(canvas),
        forall|i: int| 0 <= i < glyphs@.len() ==> (#[trigger] glyphs@[i]).wf(),
    ensures
        out@ == drawn(glyphs@, canvas),
        out.fits(canvas),
{
    let w: usize = canvas.width as usize;
    let h: usize = canvas.height as usize;
    proof {
        lemma_canvas_area(canvas);
        assert(w * h == area(canvas));
    }
    let n: usize = w * h;
    let mut mask: Vec<u8> = vec![0u8; n];
    let mut shadow_mask: Vec<u8> = vec![0u8; n];
    let mut color_layer: Option<Vec<u8>> = None;
    let ghost mut state = drawn(glyphs@.take(0), canvas);
    proof {
        assert(mask@ =~= zeros(area(canvas)));
    }
    for i in 0..glyphs.len()
        invariant
            canvas_ok(canvas),
            forall|i: int| 0 <= i < glyphs@.len() ==> (#[trigger] glyphs@[i]).wf(),
            w == canvas.width,
            h == canvas.height,
            n == w * h,
            n == area(canvas),
            0 < n <= 0x400_0000,
            state == drawn(glyphs@.take(i as int), canvas),
            state.mask == mask@,
            state.shadow == shadow_mask@,
            match color_layer {
                Some(layer) => state.color == Some(layer@) && layer@.len() == 4 * n,
                None => state.color is None,
            },
            mask@.len() == n,
            shadow_mask@.len() == n,
    {
        let g = &glyphs[i];
        proof {
            assert(glyphs@.take(i + 1).drop_last() =~= glyphs@.take(i as int));
            assert(glyphs@[i as int].wf());
            state = stamped(state, *g, canvas);
        }
        if g.width != 0 && g.height != 0 {
            let gx: i64 = g.x as i64 + g.left as i64 - canvas.x0;
            let gy: i64 = g.y as i64 - g.top as i64 - canvas.y0;
            let gw: usize = g.width as usize;
            let gh: usize = g.height as usize;
            match g.content {
                GlyphContent::Mask => {
                    blit_max(&mut mask, w, h, &g.data, gw, gh, gx, gy);
                    blit_max(&mut shadow_mask, w, h, &g.data, gw, gh, gx, gy);
                },
                GlyphContent::SubpixelMask => {
                    let size: usize = g.data.len();
                    proof {
                        assert(gw * gh <= usize::MAX);
                        assert(gw * gh >= 0) by (nonlinear_arith)
                            requires
                                gw >= 0,
                                gh >= 0,
                        ;
                    }
                    let coverage: Vec<u8> = red_bytes(&g.data, gw * gh);
                    blit_max(&mut mask, w, h, &coverage, gw, gh, gx, gy);
                    blit_max(&mut shadow_mask, w, h, &coverage, gw, gh, gx, gy);
                },
                GlyphContent::Color => {
                    let mut layer: Vec<u8> = match color_layer {
                        Some(layer) => layer,
                        None => vec![0u8; 4 * n],
                    };
                    proof {
                        if state.color is None {
                            assert(layer@ =~= zeros(4 * area(canvas)));
                        }
                        assert(state.color is Some);
                        let prior = drawn(glyphs@.take(i as int), canvas).color;
                        assert(prior is None ==> layer@ =~= zeros(4 * area(canvas)));
                    }
                    blit_color_premul(
                        &mut layer,
                        &mut shadow_mask,
                        w,
                        h,
                        &g.data,
                        gw,
                        gh,
                        gx,
                        gy,
                    );
                    color_layer = Some(layer);
                },
            }
        }
    }
    proof {
        assert(glyphs@.take(glyphs@.len() as int) =~= glyphs@);
    }
    GlyphLayers { mask, shadow_mask, color_layer }
}

// ---------------------------------------------------------------------
// Composing the passes
// ---------------------------------------------------------------------

/// The single nearest to `num / den` units.
pub open spec fn single(num: int, den: int) -> int {
    rounding::nearest(num, den, SINGLE as int)
}

/// The opacity of a color with alpha `a` at coverage `m`: `(m / 255) * a /
/// 255`, in single arithmetic.
pub open spec fn opacity(m: u8, a: u8) -> int {
    single(single(single(m * UNIT, 255) * a, 1), 255)
}

/// Channel `c` of straight-alpha `color` at coverage `m`, premultiplied: the
/// channel times the opacity in single arithmetic, to the nearest whole
/// number; the alpha channel is the opacity itself, scaled to 255.
pub open spec fn tinted_channel(m: u8, color: [u8; 4], c: int) -> u8 {
    let v = if c == 3 {
        255u8
    } else {
        color[c]
    };
    rounding::whole(single(v * opacity(m, color[3]), 1)) as u8
}

/// A coverage mask tinted with a straight-alpha color.
pub open spec fn tinted(mask: Seq<u8>, color: [u8; 4]) -> Seq<u8> {
    Seq::new((4 * mask.len()) as nat, |k: int| tinted_channel(mask[k / 4], color, k % 4))
}

/// A number of units that is at most a whole `n` rounds to at most `n`.
proof fn lemma_single_at_most(num: int, den: int, n: int)
    requires
        0 <= n <= 255,
        0 < den,
        0 <= num <= n * UNIT * den,
    ensures
        0 <= single(num, den) <= n * UNIT,
{
    let top = SINGLE as int;
    let most = n * UNIT;
    assert(num < top * (den * 0x1_0000_0000_0000)) by (nonlinear_arith)
        requires
            num <= most * den,
            0 <= most <= 255 * 0x1_0000_0000_0000_0000,
            0 < den,
            top == 0x100_0000,
    ;
    vstd::arithmetic::power2::lemma2_to64_rest();
    rounding::lemma_grain_divides(num, den, top, 48);
    rounding::lemma_grain(num, den, top);
    let g = rounding::grain(num, den, top);
    vstd::arithmetic::div_mod::lemma_fundamental_div_mod(0x1_0000_0000_0000, g);
    let k = n * 0x1_0000 * (0x1_0000_0000_0000int / g);
    assert(most == k * g + 0) by (nonlinear_arith)
        requires
            most == n * 0x1_0000 * 0x1_0000_0000_0000,
            0x1_0000_0000_0000 == g * (0x1_0000_0000_0000int / g),
            k == n * 0x1_0000 * (0x1_0000_0000_0000int / g),
    ;
    vstd::arithmetic::div_mod::lemma_fundamental_div_mod_converse(most, g, k, 0);
    rounding::lemma_sides(num, den, top, most);
    rounding::lemma_error(num, den, top);
}

proof fn lemma_opacity(m: u8, a: u8)
    ensures
        0 <= opacity(m, a) <= UNIT,
        0 <= single(m * UNIT, 255) <= UNIT,
        0 <= single(m * UNIT, 255) * a <= 255 * UNIT,
        0 <= single(single(m * UNIT, 255) * a, 1) <= 255 * UNIT,
        m == 0 || a == 0 ==> opacity(m, a) == 0,
{
    lemma_single_at_most(m * UNIT, 255, 1);
    let coverage = single(m * UNIT, 255);
    assert(0 <= coverage * a <= 255 * UNIT) by (nonlinear_arith)
        requires
            0 <= coverage <= UNIT,
            0 <= a <= 255,
    ;
    lemma_single_at_most(coverage * a, 1, 255);
    lemma_single_at_most(single(coverage * a, 1), 255, 1);
    if m == 0 || a == 0 {
        lemma_single_at_most(0, 255, 0);
        lemma_single_at_most(0, 1, 0);
        assert(coverage * a == 0) by (nonlinear_arith)
            requires
                coverage == 0 || a == 0,
        ;
    }
}

proof fn lemma_tint_value(v: u8, x: int)
    requires
        0 <= x <= UNIT,
    ensures
        0 <= v * x <= 255 * x,
        0 <= single(v * x, 1) <= single(255 * x, 1) <= 255 * UNIT,
        0 <= rounding::whole(single(v * x, 1)) <= rounding::whole(single(255 * x, 1)) <= 255,
{
    assert(0 <= v * x <= 255 * x) by (nonlinear_arith)
        requires
            0 <= v <= 255,
            0 <= x,
    ;
    rounding::lemma_monotone(v * x, 255 * x, 1, SINGLE as int);
    lemma_single_at_most(v * x, 1, 255);
    lemma_single_at_most(255 * x, 1, 255);
    let (a, b, u) = (single(v * x, 1), single(255 * x, 1), UNIT as int);
    let two: int = 0x2_0000_0000_0000_0000;
    vstd::arithmetic::div_mod::lemma_div_is_ordered(0, 2 * a + u, two);
    vstd::arithmetic::div_mod::lemma_div_is_ordered(2 * a + u, 2 * b + u, two);
    vstd::arithmetic::div_mod::lemma_div_is_ordered(2 * b + u, 511 * u, two);
    assert(rounding::whole(a) == (2 * a + u) / two);
    assert(rounding::whole(b) == (2 * b + u) / two);
    assert(511 * u / two == 255);
    assert(0int / two == 0);
}

proof fn lemma_tint(m: u8, color: [u8; 4], c: int)
    requires
        0 <= c < 3,
    ensures
        tinted_channel(m, color, c) <= tinted_channel(m, color, 3),
{
    lemma_opacity(m, color[3]);
    lemma_tint_value(color[c], opacity(m, color[3]));
}

fn opacity_of(m: u8, a: u8) -> (out: u128)
    ensures
        out == opacity(m, a),
        out <= UNIT,
{
    proof {
        lemma_opacity(m, a);
    }
    let coverage: u128 = nearest_of(m as u128 * UNIT, 255, SINGLE);
    nearest_of(nearest_of(coverage * a as u128, 1, SINGLE), 255, SINGLE)
}

fn tint_value(v: u8, x: u128) -> (out: u8)
    requires
        x <= UNIT,
    ensures
        out == rounding::whole(single(v * x, 1)) as u8,
{
    proof {
        lemma_tint_value(v, x as int);
    }
    ((2 * nearest_of(v as u128 * x, 1, SINGLE) + UNIT) / (2 * UNIT)) as u8
}

/// What a color looks like at every coverage.
fn tints(color: [u8; 4]) -> (out: Vec<[u8; 4]>)
    ensures
        out@.len() == 256,
        forall|m: u8, c: int|
            0 <= c < 4 ==> #[trigger] out@[m as int][c] == tinted_channel(m, color, c),
{
    let mut out: Vec<[u8; 4]> = Vec::new();
    for k in 0..256usize
        invariant
            out@.len() == k,
            forall|m: u8, c: int|
                m < k && 0 <= c < 4 ==> #[trigger] out@[m as int][c] == tinted_channel(m, color, c),
    {
        let x: u128 = opacity_of(k as u8, color[3]);
        out.push(
            [
                tint_value(color[0], x),
                tint_value(color[1], x),
                tint_value(color[2], x),
                tint_value(255, x),
            ],
        );
    }
    out
}

/// Composite `mask` tinted with straight-alpha `color` over premultiplied
/// `out`.
pub fn over_mask(out: &mut Vec<u8>, mask: &Vec<u8>, color: [u8; 4])
    requires
        old(out)@.len() == 4 * mask@.len(),
    ensures
        final(out)@ == layered(old(out)@, tinted(mask@, color)),
{
    let ghost before = out@;
    let ghost src = tinted(mask@, color);
    let n: usize = mask.len();
    let total: usize = out.len();
    if color[3] == 0 {
        proof {
            assert forall|k: int| 0 <= k < total implies before[k] == over_channel(before[k], src[k], alpha_at(src, k)) by {
                lemma_no_tint(mask@[k / 4], color, k % 4);
                lemma_over_nothing(before[k]);
                lemma_no_tint(mask@[k / 4], color, 3);
                assert((k / 4 * 4 + 3) / 4 == k / 4 && (k / 4 * 4 + 3) % 4 == 3);
            }
            assert(before =~= layered(before, src));
        }
        return ;
    }
    let table: Vec<[u8; 4]> = tints(color);
    for p in 0..n
        invariant
            n == mask@.len(),
            total == 4 * n,
            total == out@.len(),
            total == before.len(),
            src == tinted(mask@, color),
            table@.len() == 256,
            forall|m: u8, c: int|
                0 <= c < 4 ==> #[trigger] table@[m as int][c] == tinted_channel(m, color, c),
            forall|k: int|
                0 <= k < total ==> #[trigger] out@[k] == (if k / 4 < p {
                    over_channel(before[k], src[k], alpha_at(src, k))
                } else {
                    before[k]
                }),
    {
        let m: u8 = mask[p];
        let ghost held = out@;
        if m != 0 {
            let px: [u8; 4] = table[m as usize];
            over_premul(out, 4 * p, px);
            proof {
                assert forall|k: int| 0 <= k < total implies #[trigger] out@[k] == (if k / 4 < p + 1 {
                    over_channel(before[k], src[k], alpha_at(src, k))
                } else {
                    before[k]
                }) by {
                    assert(held[k] == (if k / 4 < p {
                        over_channel(before[k], src[k], alpha_at(src, k))
                    } else {
                        before[k]
                    }));
                    if k / 4 == p {
                        let c = k % 4;
                        assert(c == 0 || c == 1 || c == 2 || c == 3);
                        assert(k == 4 * p + c);
                        assert(src[k] == px[c]);
                        assert(k / 4 * 4 + 3 == 4 * p + 3);
                        assert((4 * p + 3) / 4 == p && (4 * p + 3) % 4 == 3);
                        assert(alpha_at(src, k) == px[3]);
                    }
                }
            }
        } else {
            proof {
                assert forall|k: int| 0 <= k < total implies #[trigger] out@[k] == (if k / 4 < p + 1 {
                    over_channel(before[k], src[k], alpha_at(src, k))
                } else {
                    before[k]
                }) by {
                    if k / 4 == p {
                        let c = k % 4;
                        lemma_no_tint(m, color, c);
                        lemma_no_tint(m, color, 3);
                        assert(k / 4 * 4 + 3 == 4 * p + 3);
                        assert((4 * p + 3) / 4 == p && (4 * p + 3) % 4 == 3);
                        lemma_over_nothing(before[k]);
                    }
                }
            }
        }
    }
    proof {
        assert(out@ =~= layered(before, src));
    }
}

proof fn lemma_no_tint(m: u8, color: [u8; 4], c: int)
    requires
        0 <= c < 4,
        m == 0 || color[3] == 0,
    ensures
        tinted_channel(m, color, c) == 0,
{
    lemma_opacity(m, color[3]);
    let v = if c == 3 {
        255u8
    } else {
        color[c]
    };
    assert(v * 0 == 0);
    lemma_single_at_most(0, 1, 0);
}

/// Composite a premultiplied RGBA picture over another of its size.
pub fn over_layer(out: &mut Vec<u8>, layer: &Vec<u8>)
    requires
        old(out)@.len() == layer@.len(),
        layer@.len() % 4 == 0,
    ensures
        final(out)@ == layered(old(out)@, layer@),
{
    let ghost before = out@;
    let total: usize = out.len();
    let n: usize = total / 4;
    for p in 0..n
        invariant
            total == 4 * n,
            total == out@.len(),
            total == before.len(),
            total == layer@.len(),
            forall|k: int|
                0 <= k < total ==> #[trigger] out@[k] == (if k / 4 < p {
                    over_channel(before[k], layer@[k], alpha_at(layer@, k))
                } else {
                    before[k]
                }),
    {
        let ghost held = out@;
        let px: [u8; 4] = [layer[4 * p], layer[4 * p + 1], layer[4 * p + 2], layer[4 * p + 3]];
        over_premul(out, 4 * p, px);
        proof {
            assert forall|k: int| 0 <= k < total implies #[trigger] out@[k] == (if k / 4 < p + 1 {
                over_channel(before[k], layer@[k], alpha_at(layer@, k))
            } else {
                before[k]
            }) by {
                assert(held[k] == (if k / 4 < p {
                    over_channel(before[k], layer@[k], alpha_at(layer@, k))
                } else {
                    before[k]
                }));
                if k / 4 == p {
                    let c = k % 4;
                    assert(c == 0 || c == 1 || c == 2 || c == 3);
                    assert(k == 4 * p + c);
                }
            }
        }
    }
    proof {
        assert(out@ =~= layered(before, layer@));
    }
}

/// One picture over another, where there is one.
pub open spec fn layered_if(dst: Seq<u8>, src: Option<Seq<u8>>) -> Seq<u8> {
    match src {
        Some(src) => layered(dst, src),
        None => dst,
    }
}

pub open spec fn seq_of(v: Option<Vec<u8>>) -> Option<Seq<u8>> {
    match v {
        Some(v) => Some(v@),
        None => None,
    }
}

/// A mask with the color it is drawn in.
#[derive(Debug)]
pub struct TintedMask {
    pub mask: Vec<u8>,
    pub color: [u8; 4],
}

/// The finished bitmap: shadow, then stroke, then fill, then color glyphs.
pub open spec fn composed(
    shadow: Option<Seq<u8>>,
    stroke: Option<Seq<u8>>,
    fill: Seq<u8>,
    color: Option<Seq<u8>>,
) -> Seq<u8> {
    layered_if(layered(layered_if(layered_if(zeros(fill.len() as int), shadow), stroke), fill), color)
}

pub open spec fn stroke_layer(stroke: Option<TintedMask>) -> Option<Seq<u8>> {
    match stroke {
        Some(s) => Some(tinted(s.mask@, s.color)),
        None => None,
    }
}

/// Compose premultiplied layers bottom-up: shadow, then stroke, then fill,
/// then color glyphs.
pub fn compose_passes(
    canvas: Canvas,
    shadow: &Option<Vec<u8>>,
    stroke: &Option<TintedMask>,
    mask: &Vec<u8>,
    fill: [u8; 4],
    color_layer: &Option<Vec<u8>>,
) -> (out: Vec<u8>)
    requires
        canvas_ok(canvas),
        mask@.len() == area(canvas),
        shadow matches Some(layer) ==> layer@.len() == 4 * area(canvas),
        stroke matches Some(s) ==> s.mask@.len() == area(canvas),
        color_layer matches Some(layer) ==> layer@.len() == 4 * area(canvas),
    ensures
        out@ == composed(
            seq_of(*shadow),
            stroke_layer(*stroke),
            tinted(mask@, fill),
            seq_of(*color_layer),
        ),
        out@.len() == 4 * area(canvas),
{
    proof {
        lemma_canvas_area(canvas);
    }
    let n: usize = mask.len();
    let mut out: Vec<u8> = vec![0u8; 4 * n];
    proof {
        assert(out@ =~= zeros(4 * n));
    }
    if let Some(layer) = shadow {
        over_layer(&mut out, layer);
    }
    if let Some(s) = stroke {
        over_mask(&mut out, &s.mask, s.color);
    }
    over_mask(&mut out, mask, fill);
    if let Some(layer) = color_layer {
        over_layer(&mut out, layer);
    }
    out
}

proof fn lemma_over_monotone(d: u8, da: u8, s: u8, sa: u8)
    requires
        d <= da,
        s <= sa,
    ensures
        over_channel(d, s, sa) <= over_channel(da, sa, sa),
{
    let inv = 255 - sa;
    assert(0 <= d * inv <= da * inv <= 65025) by (nonlinear_arith)
        requires
            0 <= d <= da <= 255,
            0 <= inv <= 255,
    ;
}

/// Source-over keeps pictures premultiplied.
pub proof fn law_over_keeps_premultiplied(dst: Seq<u8>, src: Seq<u8>)
    requires
        dst.len() == src.len(),
        dst.len() % 4 == 0,
        premultiplied(dst),
        premultiplied(src),
    ensures
        premultiplied(layered(dst, src)),
{
    let out = layered(dst, src);
    assert forall|k: int| 0 <= k < out.len() implies #[trigger] out[k] <= alpha_at(out, k) by {
        let a = k / 4 * 4 + 3;
        assert(a / 4 * 4 + 3 == a);
        assert(0 <= a < out.len());
        assert(dst[k] <= alpha_at(dst, k));
        assert(src[k] <= alpha_at(src, k));
        lemma_over_monotone(dst[k], dst[a], src[k], src[a]);
    }
}

/// A tinted mask is premultiplied, whatever the color.
pub proof fn law_tint_is_premultiplied(mask: Seq<u8>, color: [u8; 4])
    ensures
        premultiplied(tinted(mask, color)),
{
    let out = tinted(mask, color);
    assert forall|k: int| 0 <= k < out.len() implies #[trigger] out[k] <= alpha_at(out, k) by {
        let a = k / 4 * 4 + 3;
        assert(a / 4 == k / 4 && a % 4 == 3);
        assert(0 <= a < out.len());
        let c = k % 4;
        if c < 3 {
            lemma_tint(mask[k / 4], color, c);
        }
    }
}

/// Drawing a straight-alpha tile keeps a picture premultiplied.
pub proof fn law_color_glyphs_keep_premultiplied(
    layer: Seq<u8>,
    dst_w: int,
    src: Seq<u8>,
    tile: Tile,
)
    requires
        layer.len() % 4 == 0,
        premultiplied(layer),
    ensures
        premultiplied(blitted_color(layer, dst_w, src, tile)),
{
    let out = blitted_color(layer, dst_w, src, tile);
    assert forall|k: int| 0 <= k < out.len() implies #[trigger] out[k] <= alpha_at(out, k) by {
        let a = k / 4 * 4 + 3;
        assert(a / 4 == k / 4 && a % 4 == 3);
        assert(0 <= a < out.len());
        assert(layer[k] <= alpha_at(layer, k));
        if tile.covers(dst_w, k / 4) {
            let s = 4 * tile.at(dst_w, k / 4);
            let c = k % 4;
            assert(0 <= c < 4);
            assert((s + c) / 4 * 4 + 3 == s + 3) by {
                assert(s == 4 * tile.at(dst_w, k / 4));
            }
            assert((s + c) % 4 == c);
            assert((s + 3) % 4 == 3);
            lemma_scaled(src[s + c], src[s + 3]);
            lemma_over_monotone(layer[k], layer[a], premul_channel(src, s + c), src[s + 3]);
        }
    }
}

proof fn lemma_drawn_premultiplied(glyphs: Seq<GlyphImage>, c: Canvas)
    requires
        canvas_ok(c),
    ensures
        drawn(glyphs, c).mask.len() == area(c),
        drawn(glyphs, c).color matches Some(layer) ==> layer.len() == 4 * area(c) && premultiplied(
            layer,
        ),
    decreases glyphs.len(),
{
    lemma_canvas_area(c);
    if glyphs.len() > 0 {
        lemma_drawn_premultiplied(glyphs.drop_last(), c);
        let g = glyphs.last();
        if g.visible() && g.content == GlyphContent::Color {
            let before = match drawn(glyphs.drop_last(), c).color {
                Some(layer) => layer,
                None => zeros(4 * area(c)),
            };
            assert(premultiplied(before)) by {
                if drawn(glyphs.drop_last(), c).color is None {
                    assert forall|k: int| 0 <= k < before.len() implies #[trigger] before[k] <= alpha_at(before, k) by {
                        assert(0 <= k / 4 * 4 + 3 < before.len());
                    }
                }
            }
            law_color_glyphs_keep_premultiplied(before, c.width as int, g.data@, tile_of(g, c));
        }
    }
}

/// The bitmap of any text is premultiplied: no channel exceeds alpha, as long
/// as the shadow picture handed in is.
pub proof fn law_raster_is_premultiplied(
    glyphs: Seq<GlyphImage>,
    c: Canvas,
    shadow: Option<Seq<u8>>,
    stroke: Option<TintedMask>,
    fill: [u8; 4],
)
    requires
        canvas_ok(c),
        shadow matches Some(layer) ==> layer.len() == 4 * area(c) && premultiplied(layer),
        stroke matches Some(s) ==> s.mask@.len() == area(c),
    ensures
        premultiplied(
            composed(
                shadow,
                stroke_layer(stroke),
                tinted(drawn(glyphs, c).mask, fill),
                drawn(glyphs, c).color,
            ),
        ),
{
    lemma_canvas_area(c);
    lemma_drawn_premultiplied(glyphs, c);
    let d = drawn(glyphs, c);
    let fill_layer = tinted(d.mask, fill);
    law_tint_is_premultiplied(d.mask, fill);
    let zero = zeros(fill_layer.len() as int);
    assert(premultiplied(zero)) by {
        assert forall|k: int| 0 <= k < zero.len() implies #[trigger] zero[k] <= alpha_at(zero, k) by {
            assert(0 <= k / 4 * 4 + 3 < zero.len());
        }
    }
    if let Some(layer) = shadow {
        law_over_keeps_premultiplied(zero, layer);
    }
    let one = layered_if(zero, shadow);
    if let Some(s) = stroke {
        law_tint_is_premultiplied(s.mask@, s.color);
        law_over_keeps_premultiplied(one, tinted(s.mask@, s.color));
    }
    let two = layered_if(one, stroke_layer(stroke));
    law_over_keeps_premultiplied(two, fill_layer);
    if let Some(layer) = d.color {
        law_over_keeps_premultiplied(layered(two, fill_layer), layer);
    }
}

/// A canvas that the size cap does not cut off, with or without a shadow.
pub open spec fn uncut(c: Canvas) -> bool {
    c.width < MAX_RASTER_DIM && c.height < MAX_RASTER_DIM
}

/// Toggling a shadow never shifts the text: around the same ink the canvas
/// grows by what the shadow reaches past it, its origin moves by the reach to
/// the left and up, every glyph moves on it by the same, and so lies where it
/// lay in layout space.
pub proof fn law_growth_never_shifts_text(ink: Rect, grow: Growth, g: GlyphImage)
    requires
        bounded(ink),
        grow.wf(),
        uncut(canvas_around(ink, grow)),
    ensures
        ({
            let plain = canvas_around(ink, Growth {
                stroke: grow.stroke,
                shadow_left: 0,
                shadow_up: 0,
                shadow_right: 0,
                shadow_down: 0,
            });
            let shadowed = canvas_around(ink, grow);
            &&& shadowed.width == plain.width + grow.shadow_left + grow.shadow_right
            &&& shadowed.height == plain.height + grow.shadow_up + grow.shadow_down
            &&& shadowed.x0 == plain.x0 - grow.shadow_left
            &&& shadowed.y0 == plain.y0 - grow.shadow_up
            &&& tile_of(g, shadowed) == (Tile {
                x: tile_of(g, plain).x + grow.shadow_left,
                y: tile_of(g, plain).y + grow.shadow_up,
                ..tile_of(g, plain)
            })
            &&& shadowed.x0 + tile_of(g, shadowed).x == plain.x0 + tile_of(g, plain).x
            &&& shadowed.y0 + tile_of(g, shadowed).y == plain.y0 + tile_of(g, plain).y
        }),
{
}

// ---------------------------------------------------------------------
// A whole block
// ---------------------------------------------------------------------

/// What a block is drawn with.
#[derive(Clone, Copy, Debug)]
pub struct BlockStyle {
    pub fill: [u8; 4],
    pub stroke_color: [u8; 4],
    /// Stroke width, rounded up to whole px.
    pub stroke: i32,
    pub shadow_color: [u8; 4],
    /// Shadow opacity; 0 disables.
    pub shadow_alpha: Real,
    /// How far the shadow offset reaches to each side, rounded up to whole px.
    pub shadow_left: i32,
    pub shadow_up: i32,
    pub shadow_right: i32,
    pub shadow_down: i32,
}

impl BlockStyle {
    /// No length is negative.
    pub open spec fn wf(self) -> bool {
        0 <= self.stroke && 0 <= self.shadow_left && 0 <= self.shadow_up && 0 <= self.shadow_right
            && 0 <= self.shadow_down
    }

    /// A shadow is drawn: it is opaque to some degree, and so is its color.
    pub open spec fn shadowed(self) -> bool {
        Real::zero().lt(self.shadow_alpha) && self.shadow_color[3] > 0
    }

    /// A stroke is drawn: it has a width, and a color that is not transparent.
    pub open spec fn stroked(self) -> bool {
        self.stroke > 0 && self.stroke_color[3] > 0
    }

    /// How far what is drawn reaches past the ink.
    pub open spec fn growth(self) -> Growth {
        Growth {
            stroke: if self.stroked() {
                self.stroke
            } else {
                0
            },
            shadow_left: if self.shadowed() {
                self.shadow_left
            } else {
                0
            },
            shadow_up: if self.shadowed() {
                self.shadow_up
            } else {
                0
            },
            shadow_right: if self.shadowed() {
                self.shadow_right
            } else {
                0
            },
            shadow_down: if self.shadowed() {
                self.shadow_down
            } else {
                0
            },
        }
    }

    /// Whether a shadow is drawn.
    pub fn casts_shadow(&self) -> (out: bool)
        ensures
            out == self.shadowed(),
    {
        (Real { bits: 0 }).is_below(self.shadow_alpha) && self.shadow_color[3] > 0
    }

    /// Whether a stroke is drawn.
    pub fn has_stroke(&self) -> (out: bool)
        ensures
            out == self.stroked(),
    {
        self.stroke > 0 && self.stroke_color[3] > 0
    }

    /// How far stroke and shadow reach past the ink.
    pub fn grow(&self) -> (out: Growth)
        requires
            self.wf(),
        ensures
            out == self.growth(),
            out.wf(),
    {
        let stroke: i32 = if self.has_stroke() {
            self.stroke
        } else {
            0
        };
        if self.casts_shadow() {
            Growth {
                stroke,
                shadow_left: self.shadow_left,
                shadow_up: self.shadow_up,
                shadow_right: self.shadow_right,
                shadow_down: self.shadow_down,
            }
        } else {
            Growth { stroke, shadow_left: 0, shadow_up: 0, shadow_right: 0, shadow_down: 0 }
        }
    }
}

/// Find the canvas of a block and draw its glyphs onto it. `None` when nothing
/// would be visible.
pub fn lay_out_block(glyphs: &Vec<GlyphImage>, grow: Growth) -> (out: Option<
    (Canvas, GlyphLayers),
>)
    requires
        forall|i: int| 0 <= i < glyphs@.len() ==> (#[trigger] glyphs@[i]).wf(),
        grow.wf(),
    ensures
        match (ink(glyphs@), out) {
            (None, None) => true,
            (Some(r), Some((c, l))) => c == canvas_around(r, grow) && l@ == drawn(glyphs@, c),
            _ => false,
        },
        out matches Some((c, l)) ==> canvas_ok(c) && l.fits(c),
{
    match ink_bounds(glyphs) {
        None => None,
        Some(r) => {
            let canvas = canvas_for(r, grow);
            let layers = draw_glyphs(glyphs, canvas);
            Some((canvas, layers))
        },
    }
}

/// The bitmap of a block in a style, from its glyphs drawn onto a canvas, the
/// picture of the shadow and the outline mask of the stroke.
pub open spec fn block_bitmap(
    d: Drawn,
    style: BlockStyle,
    shadow: Seq<u8>,
    outline: Seq<u8>,
) -> Seq<u8> {
    composed(
        if style.shadowed() {
            Some(shadow)
        } else {
            None
        },
        if style.stroked() {
            Some(tinted(outline, style.stroke_color))
        } else {
            None
        },
        tinted(d.mask, style.fill),
        d.color,
    )
}

/// Compose a block that was laid out: the shadow picture and the stroke's
/// outline mask are there just where the style draws them.
pub fn finish_block(
    canvas: Canvas,
    layers: &GlyphLayers,
    style: &BlockStyle,
    shadow: Option<Vec<u8>>,
    outline: Option<Vec<u8>>,
) -> (out: Vec<u8>)
    requires
        canvas_ok(canvas),
        layers.fits(canvas),
        shadow is Some <==> style.shadowed(),
        outline is Some <==> style.stroked(),
        shadow matches Some(layer) ==> layer@.len() == 4 * area(canvas),
        outline matches Some(mask) ==> mask@.len() == area(canvas),
    ensures
        out@ == block_bitmap(layers@, *style, shadow->0@, outline->0@),
        out@.len() == 4 * area(canvas),
{
    let stroke: Option<TintedMask> = match outline {
        Some(mask) => Some(TintedMask { mask, color: style.stroke_color }),
        None => None,
    };
    compose_passes(canvas, &shadow, &stroke, &layers.mask, style.fill, &layers.color_layer)
}

/// The bitmap of any block is premultiplied: no channel exceeds alpha, as long
/// as the shadow picture is.
pub proof fn law_block_is_premultiplied(
    glyphs: Seq<GlyphImage>,
    c: Canvas,
    style: BlockStyle,
    shadow: Seq<u8>,
    outline: Vec<u8>,
)
    requires
        canvas_ok(c),
        style.shadowed() ==> shadow.len() == 4 * area(c) && premultiplied(shadow),
        style.stroked() ==> outline@.len() == area(c),
    ensures
        premultiplied(block_bitmap(drawn(glyphs, c), style, shadow, outline@)),
{
    law_raster_is_premultiplied(
        glyphs,
        c,
        if style.shadowed() {
            Some(shadow)
        } else {
            None
        },
        if style.stroked() {
            Some(TintedMask { mask: outline, color: style.stroke_color })
        } else {
            None
        },
        style.fill,
    );
}

// ---------------------------------------------------------------------
// Where glyphs come to lie
// ---------------------------------------------------------------------

/// On a canvas that the size cap does not cut off, every visible glyph lies
/// whole: its tile starts as far from the canvas's corner as its image, which
/// stands `left` to the right of the pen and `top` above it, does in layout
/// space.
pub proof fn law_glyphs_lie_whole_on_the_canvas(glyphs: Seq<GlyphImage>, grow: Growth, i: int)
    requires
        0 <= i < glyphs.len(),
        0 < glyphs[i].width,
        0 < glyphs[i].height,
        grow.wf(),
        canvas_around(ink(glyphs)->0, grow).width < 8192,
        canvas_around(ink(glyphs)->0, grow).height < 8192,
    ensures
        ({
            let c = canvas_around(ink(glyphs)->0, grow);
            let g = glyphs[i];
            let tile = tile_of(g, c);
            &&& tile.w == g.width
            &&& tile.h == g.height
            &&& tile.x == g.x + g.left - c.x0
            &&& tile.y == g.y - g.top - c.y0
            &&& 0 <= tile.x
            &&& tile.x + g.width <= c.width
            &&& 0 <= tile.y
            &&& tile.y + g.height <= c.height
        }),
{
    assert(glyphs[i].visible());
    law_canvas_holds_every_glyph(glyphs, grow, i);
}

/// What a glyph covers of the point `(x, y)` of layout space: the pixel of its
/// image in the column right of `x + left` and the row below `y - top`, or
/// nothing beside the image.
pub open spec fn coverage_at(g: GlyphImage, x: int, y: int) -> int {
    let col = x - (g.x + g.left);
    let row = y - (g.y - g.top);
    if 0 <= col < g.width && 0 <= row < g.height {
        match g.content {
            GlyphContent::Mask => g.data@[row * g.width + col] as int,
            GlyphContent::SubpixelMask => g.data@[4 * (row * g.width + col)] as int,
            GlyphContent::Color => g.data@[4 * (row * g.width + col) + 3] as int,
        }
    } else {
        0
    }
}

proof fn lemma_point(c: Canvas, g: GlyphImage, x: int, y: int)
    requires
        c.x0 <= x < c.x0 + c.width,
        c.y0 <= y < c.y0 + c.height,
    ensures
        ({
            let w = c.width as int;
            let p = (y - c.y0) * w + (x - c.x0);
            let col = x - (g.x + g.left);
            let row = y - (g.y - g.top);
            &&& 0 <= p < area(c)
            &&& tile_of(g, c).covers(w, p) <==> 0 <= col < g.width && 0 <= row < g.height
            &&& tile_of(g, c).at(w, p) == row * g.width + col
            &&& tile_of(g, c).covers(w, p) ==> 0 <= row * g.width + col < g.width * g.height
        }),
{
    let w = c.width as int;
    let h = c.height as int;
    let col = x - (g.x + g.left);
    let row = y - (g.y - g.top);
    lemma_cell(w, x - c.x0, y - c.y0);
    lemma_cell_fits(w, h, x - c.x0, y - c.y0);
    if 0 <= col < g.width && 0 <= row < g.height {
        lemma_tile_index(g.width as int, g.height as int, col, row);
    }
}

/// The masks hold the glyphs where they were placed: at every point of the
/// canvas the mask is the largest coverage that a monochrome glyph has there,
/// and the shadow mask the largest that any glyph has, alpha counting as
/// coverage; both are zero where no glyph lies.
pub proof fn law_masks_hold_every_glyph(glyphs: Seq<GlyphImage>, c: Canvas, x: int, y: int)
    requires
        canvas_ok(c),
        c.x0 <= x < c.x0 + c.width,
        c.y0 <= y < c.y0 + c.height,
    ensures
        ({
            let d = drawn(glyphs, c);
            let p = (y - c.y0) * c.width + (x - c.x0);
            &&& d.mask.len() == c.width * c.height
            &&& d.shadow.len() == c.width * c.height
            &&& 0 <= p < c.width * c.height
            &&& forall|i: int|
                0 <= i < glyphs.len() ==> coverage_at(#[trigger] glyphs[i], x, y) <= d.shadow[p] && (
                glyphs[i].content == GlyphContent::Color || coverage_at(glyphs[i], x, y)
                    <= d.mask[p])
            &&& d.shadow[p] == 0 || exists|i: int|
                0 <= i < glyphs.len() && coverage_at(#[trigger] glyphs[i], x, y) == d.shadow[p]
            &&& d.mask[p] == 0 || exists|i: int|
                0 <= i < glyphs.len() && coverage_at(#[trigger] glyphs[i], x, y) == d.mask[p]
                    && glyphs[i].content != GlyphContent::Color
        }),
    decreases glyphs.len(),
{
    let p = (y - c.y0) * c.width + (x - c.x0);
    let w = c.width as int;
    lemma_canvas_area(c);
    if glyphs.len() == 0 {
        lemma_cell_fits(w, c.height as int, x - c.x0, y - c.y0);
    } else {
        let init = glyphs.drop_last();
        let n = init.len() as int;
        let g = glyphs.last();
        law_masks_hold_every_glyph(init, c, x, y);
        lemma_point(c, g, x, y);
        let before = drawn(init, c);
        let d = drawn(glyphs, c);
        assert(d == stamped(before, g, c));
        let v = coverage_at(g, x, y);
        assert(d.shadow[p] == if v > before.shadow[p] {
            v
        } else {
            before.shadow[p] as int
        });
        assert(d.mask[p] == if v > before.mask[p] && g.content != GlyphContent::Color {
            v
        } else {
            before.mask[p] as int
        });
        assert forall|i: int| 0 <= i < glyphs.len() implies coverage_at(
            #[trigger] glyphs[i],
            x,
            y,
        ) <= d.shadow[p] && (glyphs[i].content == GlyphContent::Color || coverage_at(
            glyphs[i],
            x,
            y,
        ) <= d.mask[p]) by {
            if i < n {
                assert(init[i] == glyphs[i]);
            }
        }
        if d.shadow[p] != 0 {
            if v > before.shadow[p] {
                assert(glyphs[n] == g);
            } else {
                let i = choose|i: int|
                    0 <= i < init.len() && coverage_at(#[trigger] init[i], x, y)
                        == before.shadow[p];
                assert(glyphs[i] == init[i]);
            }
        }
        if d.mask[p] != 0 {
            if v > before.mask[p] && g.content != GlyphContent::Color {
                assert(glyphs[n] == g);
            } else {
                let i = choose|i: int|
                    0 <= i < init.len() && coverage_at(#[trigger] init[i], x, y) == before.mask[p]
                        && init[i].content != GlyphContent::Color;
                assert(glyphs[i] == init[i]);
            }
        }
    }
}

/// There is a color layer just where there is a color glyph to see.
pub proof fn law_color_layer_is_there(glyphs: Seq<GlyphImage>, c: Canvas)
    requires
        canvas_ok(c),
    ensures
        drawn(glyphs, c).color is Some <==> exists|i: int|
            0 <= i < glyphs.len() && (#[trigger] glyphs[i]).content == GlyphContent::Color
                && glyphs[i].width > 0 && glyphs[i].height > 0,
        drawn(glyphs, c).color matches Some(layer) ==> layer.len() == 4 * (c.width * c.height),
    decreases glyphs.len(),
{
    if glyphs.len() > 0 {
        let init = glyphs.drop_last();
        law_color_layer_is_there(init, c);
        lemma_drawn_premultiplied(glyphs, c);
        let n = init.len() as int;
        assert(glyphs[n] == glyphs.last());
        assert forall|i: int| 0 <= i < n implies #[trigger] init[i] == glyphs[i] by {}
        if drawn(init, c).color is Some {
            let i = choose|i: int|
                0 <= i < init.len() && (#[trigger] init[i]).content == GlyphContent::Color
                    && init[i].width > 0 && init[i].height > 0;
            assert(glyphs[i] == init[i]);
        }
        if exists|i: int|
            0 <= i < glyphs.len() && (#[trigger] glyphs[i]).content == GlyphContent::Color
                && glyphs[i].width > 0 && glyphs[i].height > 0 {
            let i = choose|i: int|
                0 <= i < glyphs.len() && (#[trigger] glyphs[i]).content == GlyphContent::Color
                    && glyphs[i].width > 0 && glyphs[i].height > 0;
            if i < n {
                assert(init[i] == glyphs[i]);
            }
        }
    }
}

/// A channel of the color layer, or nothing where there is no layer.
pub open spec fn color_at(d: Drawn, k: int) -> int {
    match d.color {
        Some(layer) => layer[k] as int,
        None => 0,
    }
}

/// Each color glyph is drawn over those before it: where it lies, a channel
/// becomes the mean of the glyph's and what was there, weighted by the glyph's
/// alpha, to within a level; an opaque pixel replaces what was there, a
/// transparent one keeps it. Elsewhere, and by a monochrome glyph, nothing
/// changes.
pub proof fn law_color_glyphs_are_drawn_over(
    glyphs: Seq<GlyphImage>,
    g: GlyphImage,
    c: Canvas,
    x: int,
    y: int,
    ch: int,
)
    requires
        canvas_ok(c),
        c.x0 <= x < c.x0 + c.width,
        c.y0 <= y < c.y0 + c.height,
        0 <= ch < 4,
    ensures
        ({
            let k = 4 * ((y - c.y0) * c.width + (x - c.x0)) + ch;
            let before = color_at(drawn(glyphs, c), k);
            let after = color_at(drawn(glyphs.push(g), c), k);
            let col = x - (g.x + g.left);
            let row = y - (g.y - g.top);
            if g.content == GlyphContent::Color && 0 <= col < g.width && 0 <= row < g.height {
                let s = 4 * (row * g.width + col);
                let a = g.data@[s + 3];
                let v = if ch == 3 {
                    255
                } else {
                    g.data@[s + ch] as int
                };
                &&& v * a + before * (255 - a) - 255 < 255 * after < v * a + before * (255 - a)
                    + 255
                &&& a == 255 ==> after == v
                &&& a == 0 ==> after == before
            } else {
                after == before
            }
        }),
{
    let all = glyphs.push(g);
    assert(all.drop_last() =~= glyphs);
    let p = (y - c.y0) * c.width + (x - c.x0);
    let k = 4 * p + ch;
    let w = c.width as int;
    lemma_point(c, g, x, y);
    lemma_drawn_premultiplied(glyphs, c);
    lemma_drawn_premultiplied(all, c);
    assert(k / 4 == p && k % 4 == ch);
    let d = drawn(glyphs, c);
    assert(drawn(all, c) == stamped(d, g, c));
    let col = x - (g.x + g.left);
    let row = y - (g.y - g.top);
    if g.content == GlyphContent::Color && 0 <= col < g.width && 0 <= row < g.height {
        let q = row * g.width + col;
        let s = 4 * q;
        let a = g.data@[s + 3];
        let under = match d.color {
            Some(layer) => layer,
            None => zeros(4 * area(c)),
        };
        assert(under[k] == color_at(d, k));
        assert((s + ch) % 4 == ch && (s + ch) / 4 == q);
        assert(alpha_at(g.data@, s + ch) == a);
        let top = premul_channel(g.data@, s + ch);
        assert(color_at(drawn(all, c), k) == over_channel(under[k], top, a));
        lemma_blend(
            if ch == 3 {
                255
            } else {
                g.data@[s + ch]
            },
            a,
            under[k],
            top,
        );
    }
}

proof fn lemma_blend(v: u8, a: u8, under: u8, top: u8)
    requires
        top == scaled(v, a) || (v == 255 && top == a),
    ensures
        ({
            let out = over_channel(under, top, a);
            let exact = v * a + under * (255 - a);
            &&& exact - 255 < 255 * out < exact + 255
            &&& a == 255 ==> out == v
            &&& a == 0 ==> out == under
        }),
{
    lemma_scaled(v, a);
    let va = v * a;
    let rest = under * (255 - a);
    assert(0 <= rest <= 255 * (255 - a)) by (nonlinear_arith)
        requires
            rest == under * (255 - a),
            0 <= under <= 255,
            0 <= a <= 255,
    ;
    if v == 255 {
        assert(va == 255 * a) by (nonlinear_arith)
            requires
                va == v * a,
                v == 255,
        ;
    }
    if a == 255 {
        assert(va == 255 * v && rest == 0) by (nonlinear_arith)
            requires
                va == v * a,
                rest == under * (255 - a),
                a == 255,
        ;
    }
    if a == 0 {
        assert(va == 0 && rest == 255 * under) by (nonlinear_arith)
            requires
                va == v * a,
                rest == under * (255 - a),
                a == 0,
        ;
    }
    assert(255 * top <= va + 127 && va - 127 <= 255 * top && top <= a);
}

/// The ink is the smallest rectangle around what is visible: it holds every
/// visible glyph, and each of its sides touches one.
pub proof fn law_ink_is_tight(glyphs: Seq<GlyphImage>, i: int)
    requires
        0 <= i < glyphs.len(),
        0 < glyphs[i].width,
        0 < glyphs[i].height,
    ensures
        ({
            let g = glyphs[i];
            let r = ink(glyphs)->0;
            &&& ink(glyphs) is Some
            &&& r.x0 <= g.x + g.left
            &&& g.x + g.left + g.width <= r.x1
            &&& r.y0 <= g.y - g.top
            &&& g.y - g.top + g.height <= r.y1
            &&& touched(glyphs, r)
        }),
{
    assert(glyphs[i].visible());
    lemma_ink(glyphs);
    lemma_touched(glyphs);
}

/// A visible glyph touches each side of a rectangle.
pub open spec fn touched(glyphs: Seq<GlyphImage>, r: Rect) -> bool {
    &&& exists|j: int|
        0 <= j < glyphs.len() && (#[trigger] glyphs[j]).width > 0 && glyphs[j].height > 0
            && glyphs[j].x + glyphs[j].left == r.x0
    &&& exists|j: int|
        0 <= j < glyphs.len() && (#[trigger] glyphs[j]).width > 0 && glyphs[j].height > 0
            && glyphs[j].x + glyphs[j].left + glyphs[j].width == r.x1
    &&& exists|j: int|
        0 <= j < glyphs.len() && (#[trigger] glyphs[j]).width > 0 && glyphs[j].height > 0
            && glyphs[j].y - glyphs[j].top == r.y0
    &&& exists|j: int|
        0 <= j < glyphs.len() && (#[trigger] glyphs[j]).width > 0 && glyphs[j].height > 0
            && glyphs[j].y - glyphs[j].top + glyphs[j].height == r.y1
}

proof fn lemma_touched(glyphs: Seq<GlyphImage>)
    requires
        ink(glyphs) is Some,
    ensures
        touched(glyphs, ink(glyphs)->0),
    decreases glyphs.len(),
{
    let init = glyphs.drop_last();
    let n = init.len() as int;
    let g = glyphs.last();
    assert(glyphs[n] == g);
    assert forall|i: int| 0 <= i < n implies #[trigger] init[i] == glyphs[i] by {}
    if ink(init) is Some {
        lemma_touched(init);
        let r = ink(init)->0;
        let a = choose|j: int|
            0 <= j < init.len() && (#[trigger] init[j]).width > 0 && init[j].height > 0
                && init[j].x + init[j].left == r.x0;
        let b = choose|j: int|
            0 <= j < init.len() && (#[trigger] init[j]).width > 0 && init[j].height > 0
                && init[j].x + init[j].left + init[j].width == r.x1;
        let e = choose|j: int|
            0 <= j < init.len() && (#[trigger] init[j]).width > 0 && init[j].height > 0
                && init[j].y - init[j].top == r.y0;
        let f = choose|j: int|
            0 <= j < init.len() && (#[trigger] init[j]).width > 0 && init[j].height > 0
                && init[j].y - init[j].top + init[j].height == r.y1;
        assert(glyphs[a] == init[a] && glyphs[b] == init[b] && glyphs[e] == init[e] && glyphs[f]
            == init[f]);
    }
}

/// The canvas leaves room for the stroke and the shadow's reach on each side
/// and two pixels more, and is cut off at 8192 pixels each way.
pub proof fn law_canvas_margins(r: Rect, grow: Growth)
    requires
        bounded(r),
        grow.wf(),
    ensures
        ({
            let c = canvas_around(r, grow);
            let right = r.x1 + grow.stroke + grow.shadow_right + 2;
            let down = r.y1 + grow.stroke + grow.shadow_down + 2;
            &&& c.x0 + 2 + grow.stroke + grow.shadow_left == r.x0
            &&& c.y0 + 2 + grow.stroke + grow.shadow_up == r.y0
            &&& c.width <= 8192
            &&& c.height <= 8192
            &&& c.x0 + c.width == right || (c.width == 8192 && c.x0 + c.width < right)
            &&& c.y0 + c.height == down || (c.height == 8192 && c.y0 + c.height < down)
        }),
{
}

/// Source-over of a premultiplied channel: what is opaque replaces, what is
/// empty keeps, and in between the channel adds to what shows through, to
/// within half a level.
pub proof fn law_source_over(dst: u8, src: u8, src_a: u8)
    requires
        src <= src_a,
    ensures
        255 * src + dst * (255 - src_a) - 127 <= 255 * over_channel(dst, src, src_a) <= 255 * src
            + dst * (255 - src_a) + 127,
        src_a == 255 ==> over_channel(dst, src, src_a) == src,
        src_a == 0 ==> over_channel(dst, src, src_a) == dst,
        over_channel(0, src, src_a) == src,
{
    let rest = dst * (255 - src_a);
    assert(0 <= rest <= 255 * (255 - src_a)) by (nonlinear_arith)
        requires
            rest == dst * (255 - src_a),
            0 <= dst <= 255,
            0 <= src_a <= 255,
    ;
    if src_a == 255 {
        assert(rest == 0) by (nonlinear_arith)
            requires
                rest == dst * (255 - src_a),
                src_a == 255,
        ;
    }
    if src_a == 0 {
        assert(rest == 255 * dst) by (nonlinear_arith)
            requires
                rest == dst * (255 - src_a),
                src_a == 0,
        ;
    }
    assert(0 * (255 - src_a) == 0);
}

/// Color glyphs lie over the fill, the fill over the stroke and the stroke over
/// the shadow: the topmost layer that is opaque at a pixel shows there, when
/// what lies above it is empty.
pub proof fn law_layers_are_stacked(
    shadow: Option<Seq<u8>>,
    stroke: Option<Seq<u8>>,
    fill: Seq<u8>,
    color: Option<Seq<u8>>,
    p: int,
    c: int,
)
    requires
        0 <= p,
        4 * p + 4 <= fill.len(),
        0 <= c < 4,
        fill[4 * p + c] <= fill[4 * p + 3],
        stroke matches Some(l) ==> l[4 * p + c] <= l[4 * p + 3],
        shadow matches Some(l) ==> l[4 * p + c] <= l[4 * p + 3],
        color matches Some(l) ==> l[4 * p + c] <= l[4 * p + 3],
    ensures
        ({
            let k = 4 * p + c;
            let out = composed(shadow, stroke, fill, color);
            let no_color = color is None || (color->0)[4 * p + 3] == 0;
            let no_fill = no_color && fill[4 * p + 3] == 0;
            let no_stroke = no_fill && (stroke is None || (stroke->0)[4 * p + 3] == 0);
            &&& out.len() == fill.len()
            &&& color is Some && (color->0)[4 * p + 3] == 255 ==> out[k] == (color->0)[k]
            &&& no_color && fill[4 * p + 3] == 255 ==> out[k] == fill[k]
            &&& no_fill && stroke is Some && (stroke->0)[4 * p + 3] == 255 ==> out[k] == (
            stroke->0)[k]
            &&& no_stroke && shadow is Some ==> out[k] == (shadow->0)[k]
            &&& no_stroke && shadow is None ==> out[k] == 0
        }),
{
    let k = 4 * p + c;
    assert(k / 4 == p && k / 4 * 4 + 3 == 4 * p + 3);
    let zero = zeros(fill.len() as int);
    if let Some(l) = shadow {
        law_source_over(0, l[k], l[4 * p + 3]);
    }
    let one = layered_if(zero, shadow);
    if let Some(l) = stroke {
        law_source_over(one[k], l[k], l[4 * p + 3]);
    }
    let two = layered_if(one, stroke);
    law_source_over(two[k], fill[k], fill[4 * p + 3]);
    let three = layered(two, fill);
    if let Some(l) = color {
        law_source_over(three[k], l[k], l[4 * p + 3]);
    }
}

proof fn lemma_single_error(num: int, den: int)
    requires
        0 < den,
        0 <= num <= 255 * UNIT * den,
    ensures
        num - 0x8000_0000_0000 * den <= single(num, den) * den <= num + 0x8000_0000_0000 * den,
{
    let top = SINGLE as int;
    assert(num < top * (den * 0x1_0000_0000_0000)) by (nonlinear_arith)
        requires
            num <= 255 * 0x1_0000_0000_0000_0000 * den,
            0 < den,
            top == 0x100_0000,
    ;
    vstd::arithmetic::power2::lemma2_to64_rest();
    rounding::lemma_grain_divides(num, den, top, 48);
    rounding::lemma_grain(num, den, top);
    rounding::lemma_error(num, den, top);
    let g = rounding::grain(num, den, top);
    vstd::arithmetic::div_mod::lemma_fundamental_div_mod(0x1_0000_0000_0000, g);
    let q = 0x1_0000_0000_0000int / g;
    assert(g <= 0x1_0000_0000_0000) by (nonlinear_arith)
        requires
            0x1_0000_0000_0000 == g * q,
            g > 0,
    ;
    assert(den * g <= den * 0x1_0000_0000_0000) by (nonlinear_arith)
        requires
            g <= 0x1_0000_0000_0000,
            den > 0,
    ;
}

/// A tinted mask is the color at the mask's coverage: each channel is the
/// color's, times its alpha, times the coverage, to the nearest level (to
/// within half a level and a hundredth of one), and the alpha channel is the
/// color's alpha times the coverage. So full coverage with an opaque color is
/// the color itself, and no coverage is nothing.
pub proof fn law_tint_is_the_color_at_its_coverage(mask: Seq<u8>, color: [u8; 4], p: int, c: int)
    requires
        0 <= p < mask.len(),
        0 <= c < 4,
    ensures
        ({
            let out = tinted(mask, color);
            let v = if c == 3 {
                255
            } else {
                color[c] as int
            };
            let exact = v * (mask[p] * color[3]);
            &&& out.len() == 4 * mask.len()
            &&& exact - 32770 <= 65025 * out[4 * p + c] <= exact + 32770
            &&& mask[p] == 255 && color[3] == 255 ==> out[4 * p + c] == v
            &&& mask[p] == 0 || color[3] == 0 ==> out[4 * p + c] == 0
        }),
{
    let m = mask[p];
    let a = color[3];
    let v = if c == 3 {
        255u8
    } else {
        color[c]
    };
    let u = UNIT as int;
    let e: int = 0x8000_0000_0000;
    lemma_opacity(m, a);
    let c1 = single(m * UNIT, 255);
    let c2 = single(c1 * a, 1);
    let x = opacity(m, a);
    lemma_tint_value(v, x);
    let y = single(v * x, 1);
    lemma_single_error(m * UNIT, 255);
    lemma_single_error(c1 * a, 1);
    lemma_single_error(c2, 255);
    lemma_single_error(v * x, 1);
    let ma = m * a;
    assert(ma * u - 255 * 255 * e <= 255 * (c1 * a) <= ma * u + 255 * 255 * e) by (nonlinear_arith)
        requires
            m * u - e * 255 <= c1 * 255 <= m * u + e * 255,
            ma == m * a,
            0 <= a <= 255,
            0 <= e,
    ;
    assert(ma * u - 130305 * e <= 65025 * x <= ma * u + 130305 * e);
    let exact = v * ma;
    assert(exact * u - 255 * 130305 * e <= 65025 * (v * x) <= exact * u + 255 * 130305 * e)
        by (nonlinear_arith)
        requires
            ma * u - 130305 * e <= 65025 * x <= ma * u + 130305 * e,
            exact == v * ma,
            0 <= v <= 255,
            0 <= e,
    ;
    let w = rounding::whole(y);
    assert(2 * y - u <= 2 * u * w <= 2 * y + u) by {
        assert(w == (2 * y + u) / (2 * u));
        vstd::arithmetic::div_mod::lemma_fundamental_div_mod(2 * y + u, 2 * u);
    }
    assert((4 * p + c) / 4 == p && (4 * p + c) % 4 == c);
    assert(w == tinted_channel(m, color, c));
    if m == 0 || a == 0 {
        lemma_no_tint(m, color, c);
    }
    if m == 255 && a == 255 {
        assert(exact == 65025 * v) by (nonlinear_arith)
            requires
                exact == v * ma,
                ma == 255 * 255,
        ;
    }
}

/// What a block is drawn with decides how far it reaches: a stroke takes room
/// only when it has a width and a color that shows, a shadow only when its
/// opacity is above zero and its color shows; and neither is in the bitmap
/// otherwise.
pub proof fn law_styles_draw_what_shows(
    d: Drawn,
    style: BlockStyle,
    shadow: Seq<u8>,
    outline: Seq<u8>,
)
    ensures
        ({
            let grow = style.growth();
            let strokes = style.stroke > 0 && style.stroke_color[3] != 0;
            let casts = 0 < style.shadow_alpha.bits <= 0x7ff0_0000_0000_0000
                && style.shadow_color[3] != 0;
            let fill = tinted(d.mask, style.fill);
            let edge = tinted(outline, style.stroke_color);
            &&& grow.stroke == (if strokes {
                style.stroke
            } else {
                0
            })
            &&& casts ==> grow.shadow_left == style.shadow_left && grow.shadow_up == style.shadow_up
                && grow.shadow_right == style.shadow_right && grow.shadow_down == style.shadow_down
            &&& !casts ==> grow.shadow_left == 0 && grow.shadow_up == 0 && grow.shadow_right == 0
                && grow.shadow_down == 0
            &&& block_bitmap(d, style, shadow, outline) == (if casts && strokes {
                composed(Some(shadow), Some(edge), fill, d.color)
            } else if casts {
                composed(Some(shadow), None, fill, d.color)
            } else if strokes {
                composed(None, Some(edge), fill, d.color)
            } else {
                composed(None, None, fill, d.color)
            })
        }),
{
}

} // verus!
