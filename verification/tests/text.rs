//! Text rasterization.

use cutty::double::Real;
use cutty::text::{
    blit_color_premul, blit_max, canvas_for, compose_passes, draw_glyphs, family_of, finish_block,
    font_families, ink_bounds, lay_out_block, over_layer, over_mask, over_premul, BlockStyle, Canvas,
    FontFamily, GlyphContent, GlyphImage, Growth, Rect, TextAlign, TintedMask,
};

fn owned(list: &[&str]) -> Vec<String> {
    list.iter().map(|s| s.to_string()).collect()
}

#[test]
fn families_are_distinct_and_sorted() {
    assert_eq!(
        font_families(&owned(&["Noto", "Arial", "Noto", "DejaVu", "Arial"])),
        owned(&["Arial", "DejaVu", "Noto"])
    );
    assert!(font_families(&Vec::new()).is_empty());
}

#[test]
fn generic_families_are_known() {
    assert!(matches!(family_of(""), FontFamily::SansSerif));
    assert!(matches!(family_of("sans-serif"), FontFamily::SansSerif));
    assert!(matches!(family_of("serif"), FontFamily::Serif));
    assert!(matches!(family_of("monospace"), FontFamily::Monospace));
    assert!(matches!(family_of("Serif"), FontFamily::Name(n) if n == "Serif"));
}

#[test]
fn alignment_counts_halves() {
    assert_eq!(TextAlign::Left.halves(), 0);
    assert_eq!(TextAlign::Center.halves(), 1);
    assert_eq!(TextAlign::Right.halves(), 2);
}

fn glyph(x: i32, y: i32, width: u32, height: u32, content: GlyphContent, data: Vec<u8>) -> GlyphImage {
    GlyphImage {
        x,
        y,
        left: 0,
        top: 0,
        width,
        height,
        content,
        data,
    }
}

#[test]
fn ink_is_the_box_around_visible_glyphs() {
    let mut a = glyph(10, 20, 4, 3, GlyphContent::Mask, vec![0; 12]);
    a.left = -2;
    a.top = 5;
    let b = glyph(30, 10, 2, 2, GlyphContent::Mask, vec![0; 4]);
    let empty = glyph(-100, -100, 0, 5, GlyphContent::Mask, vec![]);
    assert_eq!(
        ink_bounds(&vec![a, empty, b]),
        Some(Rect { x0: 8, y0: 10, x1: 32, y1: 18 })
    );
    assert_eq!(ink_bounds(&Vec::new()), None);
    let blank = glyph(0, 0, 0, 0, GlyphContent::Mask, vec![]);
    assert_eq!(ink_bounds(&vec![blank]), None, "whitespace has no ink");
}

const NO_GROWTH: Growth = Growth {
    stroke: 0,
    shadow_left: 0,
    shadow_up: 0,
    shadow_right: 0,
    shadow_down: 0,
};

#[test]
fn the_canvas_grows_for_stroke_and_shadow() {
    let ink = Rect { x0: 0, y0: 0, x1: 20, y1: 10 };
    let plain = canvas_for(ink, NO_GROWTH);
    assert_eq!(plain, Canvas { x0: -2, y0: -2, width: 24, height: 14 });
    let stroked = canvas_for(ink, Growth { stroke: 6, ..NO_GROWTH });
    assert_eq!(stroked, Canvas { x0: -8, y0: -8, width: 36, height: 26 });
    let shadowed = canvas_for(ink, Growth { shadow_right: 8, shadow_down: 3, ..NO_GROWTH });
    assert_eq!(shadowed, Canvas { x0: -2, y0: -2, width: 32, height: 17 });
    let huge = canvas_for(Rect { x0: 0, y0: 0, x1: 100_000, y1: 10 }, NO_GROWTH);
    assert_eq!((huge.width, huge.height), (8192, 14));
}

#[test]
fn coverage_keeps_the_maximum_and_is_clipped() {
    let mut dst = vec![10u8; 12]; // 4×3
    blit_max(&mut dst, 4, 3, &vec![5, 50, 60, 7], 2, 2, 3, -1);
    assert_eq!(dst, vec![10, 10, 10, 60, 10, 10, 10, 10, 10, 10, 10, 10]);
    blit_max(&mut dst, 4, 3, &vec![1, 20, 30, 40], 2, 2, 0, 1);
    assert_eq!(dst, vec![10, 10, 10, 60, 10, 20, 10, 10, 30, 40, 10, 10]);
}

#[test]
fn any_size_can_be_drawn_into() {
    let mut none: Vec<u8> = Vec::new();
    blit_max(&mut none, 0, 7, &vec![9], 1, 1, 0, 0);
    blit_max(&mut none, 7, 0, &vec![9], 1, 1, 0, 0);
    blit_color_premul(&mut none, &mut Vec::new(), 0, 0, &vec![9; 4], 1, 1, 0, 0);
    assert!(none.is_empty());
    // Wider than any raster, and tiles far outside.
    let mut wide = vec![0u8; 20_000];
    blit_max(&mut wide, 20_000, 1, &vec![5, 6], 2, 1, 19_999, 0);
    blit_max(&mut wide, 20_000, 1, &vec![5, 6], 2, 1, i64::MAX, i64::MIN);
    assert_eq!(wide[19_999], 5);
    assert!(wide[..19_999].iter().all(|&v| v == 0));
}

#[test]
fn source_over_rounds_to_nearest() {
    let mut px = vec![1, 2, 100, 200, 50, 255, 9];
    over_premul(&mut px, 2, [30, 10, 0, 128]);
    // 100·127/255 = 49.8 → 50; 200·127/255 = 99.6 → 100; 50·127/255 = 24.9
    // → 25; 255·127/255 = 127.
    assert_eq!(px, vec![1, 2, 80, 110, 25, 255, 9]);
    over_premul(&mut px, 2, [0, 0, 0, 0]);
    assert_eq!(px, vec![1, 2, 80, 110, 25, 255, 9], "nothing over a pixel is the pixel");
    over_premul(&mut px, 2, [1, 2, 3, 255]);
    assert_eq!(px, vec![1, 2, 1, 2, 3, 255, 9], "opaque replaces");
}

#[test]
fn color_glyphs_are_premultiplied_and_cast_shadow() {
    let mut layer = vec![0u8; 16];
    let mut shadow = vec![0u8, 0, 0, 200];
    let src = vec![255, 100, 0, 128, 9, 9, 9, 0, 10, 20, 30, 255, 40, 50, 60, 64];
    blit_color_premul(&mut layer, &mut shadow, 2, 2, &src, 2, 2, 0, 0);
    // 100·128/255 = 50.2; 40·64/255 = 10.04; 50·64/255 = 12.5 → 13.
    assert_eq!(
        layer,
        vec![128, 50, 0, 128, 0, 0, 0, 0, 10, 20, 30, 255, 10, 13, 15, 64]
    );
    assert_eq!(shadow, vec![128, 0, 255, 200]);
}

/// The tint of the float formula: coverage and alpha as fractions.
fn float_tint(m: u8, color: [u8; 4]) -> [u8; 4] {
    let coverage = f32::from(m) / 255.0;
    if coverage <= 0.0 || color[3] == 0 {
        return [0; 4];
    }
    let a = coverage * f32::from(color[3]) / 255.0;
    [
        (f32::from(color[0]) * a).round() as u8,
        (f32::from(color[1]) * a).round() as u8,
        (f32::from(color[2]) * a).round() as u8,
        (a * 255.0).round() as u8,
    ]
}

#[test]
fn masks_are_tinted_by_coverage() {
    let mask: Vec<u8> = (0..=255).collect();
    for color in [
        [255, 255, 255, 255],
        [200, 100, 7, 255],
        [13, 254, 90, 128],
        [1, 2, 3, 9],
        [208, 77, 230, 142],
        [255, 255, 255, 0],
    ] {
        let mut out = vec![0u8; 1024];
        over_mask(&mut out, &mask, color);
        for (m, px) in mask.iter().zip(out.chunks(4)) {
            assert_eq!(px, float_tint(*m, color), "coverage {m} of {color:?}");
            assert!(px[0] <= px[3] && px[1] <= px[3] && px[2] <= px[3]);
        }
    }
    // 208 · 142² / 255² is just below 64.5, and just above it in singles.
    let mut near = vec![0u8; 4];
    over_mask(&mut near, &vec![142], [208, 0, 0, 142]);
    assert_eq!(near, vec![65, 0, 0, 79]);
    let mut kept = vec![7u8; 8];
    over_mask(&mut kept, &vec![0, 255], [1, 2, 3, 255]);
    assert_eq!(kept, vec![7, 7, 7, 7, 1, 2, 3, 255]);
}

#[test]
fn layers_stack_pixel_by_pixel() {
    let mut out = vec![10, 20, 30, 40, 50, 60, 70, 80];
    over_layer(&mut out, &vec![1, 1, 1, 255, 0, 0, 0, 0]);
    assert_eq!(out, vec![1, 1, 1, 255, 50, 60, 70, 80]);
}

#[test]
fn glyphs_are_drawn_where_they_lie() {
    let glyphs = vec![
        glyph(0, 0, 1, 1, GlyphContent::Mask, vec![100]),
        glyph(1, 0, 1, 1, GlyphContent::SubpixelMask, vec![40, 1, 2, 3]),
        glyph(2, 0, 1, 1, GlyphContent::Color, vec![255, 0, 0, 255]),
        glyph(9, 9, 0, 0, GlyphContent::Color, vec![]),
    ];
    let ink = ink_bounds(&glyphs).unwrap();
    let canvas = canvas_for(ink, NO_GROWTH);
    assert_eq!((canvas.width, canvas.height), (7, 5));
    let drawn = draw_glyphs(&glyphs, canvas);
    let row = 2 * 7;
    assert_eq!(&drawn.mask[row + 2..row + 5], &[100, 40, 0]);
    assert_eq!(&drawn.shadow_mask[row + 2..row + 5], &[100, 40, 255]);
    let color = drawn.color_layer.unwrap();
    assert_eq!(&color[(row + 4) * 4..(row + 5) * 4], &[255, 0, 0, 255]);
    assert_eq!(color.iter().filter(|b| **b != 0).count(), 2);

    let plain = draw_glyphs(&glyphs[..1].iter().map(copy).collect(), canvas);
    assert!(plain.color_layer.is_none());
}

fn copy(g: &GlyphImage) -> GlyphImage {
    glyph(g.x, g.y, g.width, g.height, g.content, g.data.clone())
}

#[test]
fn passes_compose_bottom_up() {
    let canvas = Canvas { x0: 0, y0: 0, width: 2, height: 2 };
    let shadow = Some(vec![9, 0, 0, 255, 9, 0, 0, 255, 9, 0, 0, 255, 0, 0, 0, 0]);
    let stroke = Some(TintedMask {
        mask: vec![0, 255, 255, 0],
        color: [0, 8, 0, 255],
    });
    let mask = vec![0, 0, 255, 0];
    let color = Some(vec![0, 0, 0, 0, 0, 0, 0, 0, 0, 0, 0, 0, 1, 2, 3, 255]);
    let out = compose_passes(canvas, &shadow, &stroke, &mask, [0, 0, 7, 255], &color);
    assert_eq!(
        out,
        vec![9, 0, 0, 255, 0, 8, 0, 255, 0, 0, 7, 255, 1, 2, 3, 255]
    );
    let bare = compose_passes(canvas, &None, &None, &mask, [255, 255, 255, 255], &None);
    assert_eq!(&bare[8..12], &[255, 255, 255, 255]);
    assert_eq!(bare.iter().map(|b| u32::from(*b)).sum::<u32>(), 4 * 255);
}

/// Rasters never hold a channel above its alpha.
#[test]
fn rasters_stay_premultiplied() {
    let canvas = Canvas { x0: 0, y0: 0, width: 16, height: 16 };
    let mut seed = 7u32;
    let mut byte = || {
        seed = seed.wrapping_mul(1_664_525).wrapping_add(1_013_904_223);
        (seed >> 24) as u8
    };
    let glyphs: Vec<GlyphImage> = (0..6)
        .map(|i| {
            let content = [GlyphContent::Mask, GlyphContent::Color][i % 2];
            glyph(i as i32 * 2 - 3, i as i32 - 2, 8, 8, content, (0..256).map(|_| byte()).collect())
        })
        .collect();
    let d = draw_glyphs(&glyphs, canvas);
    let mut shadow = vec![0u8; 1024];
    over_mask(&mut shadow, &d.shadow_mask, [200, 30, 10, 180]);
    let stroke = Some(TintedMask {
        mask: d.mask.clone(),
        color: [5, 250, 90, 77],
    });
    let out = compose_passes(canvas, &Some(shadow), &stroke, &d.mask, [250, 240, 12, 200], &d.color_layer);
    for px in out.chunks_exact(4) {
        for c in 0..3 {
            assert!(px[c] <= px[3], "premultiplied channel {c} > alpha: {px:?}");
        }
    }
    assert!(out.chunks_exact(4).filter(|px| px[3] > 0).count() > 100);
}

fn style() -> BlockStyle {
    BlockStyle {
        fill: [255, 255, 255, 255],
        stroke_color: [0, 0, 0, 255],
        stroke: 0,
        shadow_color: [0, 0, 0, 255],
        shadow_alpha: Real { bits: 0 },
        shadow_left: 0,
        shadow_up: 0,
        shadow_right: 3,
        shadow_down: 2,
    }
}

#[test]
fn only_what_is_drawn_grows_the_canvas() {
    let plain = style();
    assert!(!plain.casts_shadow() && !plain.has_stroke());
    assert_eq!(plain.grow(), NO_GROWTH);
    let half = Real { bits: 0.5f64.to_bits() };
    let shadowed = BlockStyle { shadow_alpha: half, ..plain };
    assert!(shadowed.casts_shadow());
    assert_eq!(shadowed.grow(), Growth { shadow_right: 3, shadow_down: 2, ..NO_GROWTH });
    let clear = BlockStyle { shadow_color: [9, 9, 9, 0], ..shadowed };
    assert!(!clear.casts_shadow());
    assert_eq!(clear.grow(), NO_GROWTH);
    let nan = Real { bits: f64::NAN.to_bits() };
    assert!(!BlockStyle { shadow_alpha: nan, ..plain }.casts_shadow());
    let stroked = BlockStyle { stroke: 4, ..plain };
    assert!(stroked.has_stroke());
    assert_eq!(stroked.grow(), Growth { stroke: 4, ..NO_GROWTH });
    let unseen = BlockStyle { stroke_color: [1, 2, 3, 0], ..stroked };
    assert!(!unseen.has_stroke());
    assert_eq!(unseen.grow(), NO_GROWTH);
}

#[test]
fn a_block_is_laid_out_and_finished_on_one_canvas() {
    let glyphs = vec![glyph(0, 0, 1, 1, GlyphContent::Mask, vec![255])];
    let half = Real { bits: 0.5f64.to_bits() };
    let style = BlockStyle { shadow_alpha: half, stroke: 1, ..style() };
    let (canvas, layers) = lay_out_block(&glyphs, style.grow()).unwrap();
    assert_eq!(canvas, Canvas { x0: -3, y0: -3, width: 10, height: 9 });
    let at = 3 * 10 + 3;
    assert_eq!(layers.mask[at], 255);
    let mut shadow = vec![0u8; 360];
    shadow[3] = 128;
    let mut outline = vec![0u8; 90];
    outline[1] = 255;
    let out = finish_block(canvas, &layers, &style, Some(shadow), Some(outline));
    assert_eq!(&out[..8], &[0, 0, 0, 128, 0, 0, 0, 255]);
    assert_eq!(&out[4 * at..4 * at + 4], &[255; 4]);
    assert_eq!(out.iter().filter(|b| **b != 0).count(), 6);

    let blank = vec![glyph(0, 0, 0, 0, GlyphContent::Mask, vec![])];
    assert!(lay_out_block(&blank, NO_GROWTH).is_none());
}

#[test]
fn a_shadow_never_shifts_the_text() {
    let ink = Rect { x0: 5, y0: -4, x1: 60, y1: 20 };
    let stroked = Growth { stroke: 3, ..NO_GROWTH };
    let plain = canvas_for(ink, stroked);
    let grown = Growth { shadow_left: 7, shadow_up: 1, shadow_right: 2, shadow_down: 9, ..stroked };
    let shadowed = canvas_for(ink, grown);
    assert_eq!((shadowed.width, shadowed.height), (plain.width + 9, plain.height + 10));
    assert_eq!((shadowed.x0, shadowed.y0), (plain.x0 - 7, plain.y0 - 1));
}
