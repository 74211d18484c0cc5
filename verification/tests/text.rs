use contact_sheet::chars::{chars_of, string_of};
use contact_sheet::error::SheetError;
use contact_sheet::image_maker::Image;
use contact_sheet::text::{
    blend, composite_text, draw_text, mask_of, AlphaMask, Anchor, GlyphCover, Label,
};

#[test]
fn outline_is_three_strokes_from_dark_to_light() {
    let passes = draw_text("00:01.000", 7, 9);
    assert_eq!(passes.len(), 3);
    assert_eq!((passes[0].x, passes[0].y, passes[0].gray), (9, 11, 16));
    assert_eq!((passes[1].x, passes[1].y, passes[1].gray), (8, 10, 0));
    assert_eq!((passes[2].x, passes[2].y, passes[2].gray), (7, 9, 255));
    for p in passes.iter() {
        assert_eq!(p.text, "00:01.000");
    }
}

#[test]
fn outline_at_the_far_corner() {
    let passes = draw_text("x", u32::MAX, u32::MAX);
    assert_eq!(passes[0].x, u32::MAX as u64 + 2);
    assert_eq!(passes[0].y, u32::MAX as u64 + 2);
}

#[test]
fn strings_and_characters_convert_both_ways() {
    let v = chars_of("a×b");
    assert_eq!(v, vec!['a', '×', 'b']);
    assert_eq!(string_of(&v), "a×b");
    assert_eq!(string_of(&Vec::new()), "");
}

#[test]
fn blend_of_opaque_text_is_the_text_colour() {
    for bg in [0u8, 1, 127, 255] {
        for halo_alpha in [0u8, 128, 255] {
            assert_eq!(blend(bg, 200, 34, 255, halo_alpha), 200);
            assert_eq!(blend(bg, 0, 34, 255, halo_alpha), 0);
            assert_eq!(blend(bg, 255, 34, 255, halo_alpha), 255);
        }
    }
}

#[test]
fn blend_of_nothing_is_the_background() {
    for bg in [0u8, 1, 127, 254, 255] {
        assert_eq!(blend(bg, 255, 34, 0, 0), bg);
    }
}

#[test]
fn blend_of_opaque_halo_without_text_is_the_halo_colour() {
    assert_eq!(blend(17, 255, 34, 0, 255), 34);
}

#[test]
fn blend_mixes_in_proportion() {
    // half text over nothing: (100 * 127 * 255 + 200 * 128 * 255 + 32512) / 65025
    assert_eq!(blend(100, 200, 0, 128, 0), 150);
    // half halo over nothing: (100 * 255 * 127 + 50 * 128 * 255 + 32512) / 65025
    assert_eq!(blend(100, 0, 50, 0, 128), 75);
    // a quarter text, half halo of the rest
    // (100 * 191 * 127 + 200 * 64 * 255 + 50 * 128 * 191 + 32512) / 65025
    assert_eq!(blend(100, 200, 50, 64, 128), 106);
    assert_eq!(blend(255, 255, 255, 77, 99), 255);
    assert_eq!(blend(0, 0, 0, 77, 99), 0);
}

#[test]
fn composite_text_blends_inside_its_box_only() {
    let mut canvas = Image::filled(4, 3, 100);
    let glyph = AlphaMask { width: 2, height: 1, data: vec![255, 0] };
    let halo = AlphaMask { width: 2, height: 1, data: vec![255, 255] };
    composite_text(&mut canvas, &glyph, &halo, 1, 1, (255, 254, 253), (34, 35, 36)).unwrap();
    let at = |x: usize, y: usize| (canvas.get(x, y, 0), canvas.get(x, y, 1), canvas.get(x, y, 2));
    assert_eq!(at(1, 1), (255, 254, 253));
    assert_eq!(at(2, 1), (34, 35, 36));
    for (x, y) in [(0, 0), (1, 0), (2, 0), (3, 0), (0, 1), (3, 1), (0, 2), (1, 2), (2, 2), (3, 2)] {
        assert_eq!(at(x, y), (100, 100, 100), "({}, {})", x, y);
    }
}

#[test]
fn composite_text_refuses_a_box_beyond_the_canvas() {
    let mut canvas = Image::filled(4, 3, 100);
    let glyph = AlphaMask { width: 2, height: 2, data: vec![255; 4] };
    let halo = AlphaMask { width: 2, height: 2, data: vec![255; 4] };
    for (x, y) in [(3, 0), (0, 2), (4, 3), (usize::MAX, 0), (0, usize::MAX)] {
        assert_eq!(
            composite_text(&mut canvas, &glyph, &halo, x, y, (1, 2, 3), (4, 5, 6)),
            Err(SheetError::TextOutsideCanvas)
        );
        assert!(canvas.data.iter().all(|b| *b == 100));
    }
    assert_eq!(composite_text(&mut canvas, &glyph, &halo, 2, 1, (1, 2, 3), (4, 5, 6)), Ok(()));
    assert_eq!(canvas.get(3, 2, 2), 3);
}

#[test]
fn alpha_mask_is_read_row_by_row() {
    let m = AlphaMask { width: 3, height: 2, data: vec![1, 2, 3, 4, 5, 6] };
    assert_eq!(m.get(0, 0), 1);
    assert_eq!(m.get(2, 0), 3);
    assert_eq!(m.get(0, 1), 4);
    assert_eq!(m.get(2, 1), 6);
}

#[test]
fn label_box_goes_by_its_anchor() {
    let top = Label { text: String::from("a"), x: 3, y: 40, anchor: Anchor::TopLeft };
    assert_eq!(top.top(32), 40);
    assert_eq!(top.bottom(32), 72);
    let bottom = Label { text: String::from("a"), x: 3, y: 40, anchor: Anchor::BottomLeft };
    assert_eq!(bottom.top(32), 8);
    assert_eq!(bottom.bottom(32), 40);
    assert_eq!(bottom.top(41), 0);
    let far = Label { text: String::from("a"), x: 3, y: u64::MAX - 1, anchor: Anchor::TopLeft };
    assert_eq!(far.bottom(32), u64::MAX);
    assert_eq!(far.bottom(1), u64::MAX);
}

fn glyph(min_x: i32, min_y: i32, width: i32, height: i32, value: u8) -> GlyphCover {
    GlyphCover {
        min_x,
        min_y,
        max_x: min_x + width,
        max_y: min_y + height,
        cover: vec![value; (width * height) as usize],
    }
}

#[test]
fn mask_of_no_glyphs_is_none() {
    assert!(mask_of(10, &Vec::new()).is_none());
}

#[test]
fn mask_has_a_margin_of_one_pixel() {
    let mut g = glyph(3, 0, 2, 2, 0);
    g.cover = vec![1, 2, 3, 4];
    let (mask, offset) = mask_of(2, &vec![g]).unwrap();
    assert_eq!(offset, 3);
    assert_eq!((mask.width, mask.height), (4, 4));
    assert_eq!(mask.data, vec![0, 0, 0, 0, 0, 1, 2, 0, 0, 3, 4, 0, 0, 0, 0, 0]);
}

#[test]
fn mask_spans_all_glyphs_and_later_ones_lie_on_top() {
    let a = glyph(-1, 0, 3, 1, 7);
    let b = glyph(1, 0, 2, 1, 9);
    let (mask, offset) = mask_of(1, &vec![a, b]).unwrap();
    assert_eq!(offset, -1);
    assert_eq!((mask.width, mask.height), (6, 3));
    assert_eq!(mask.data, vec![0, 0, 0, 0, 0, 0, 0, 7, 7, 9, 9, 0, 0, 0, 0, 0, 0, 0]);
}

#[test]
fn mask_leaves_out_what_falls_above_or_below() {
    let a = glyph(0, -3, 1, 4, 5);
    let b = glyph(1, 1, 1, 5, 6);
    let (mask, offset) = mask_of(2, &vec![a, b]).unwrap();
    assert_eq!(offset, 0);
    assert_eq!((mask.width, mask.height), (4, 4));
    // the first glyph would fill rows -2 to 1 of column 1, the second rows 2 to 6 of column 2
    assert_eq!(mask.data, vec![0, 5, 0, 0, 0, 5, 0, 0, 0, 0, 6, 0, 0, 0, 6, 0]);
    let c = glyph(0, 50, 1, 1, 5);
    let (mask, _) = mask_of(2, &vec![c]).unwrap();
    assert!(mask.data.iter().all(|b| *b == 0));
}

#[test]
fn mask_too_large_to_hold_is_none() {
    let g = glyph(0, 0, 1, 1, 5);
    assert!(mask_of(usize::MAX, &vec![g]).is_none());
    let g = glyph(0, 0, 1, 1, 5);
    assert!(mask_of(usize::MAX / 2, &vec![g]).is_none());
}

#[test]
fn alpha_mask_clear_and_set() {
    let mut m = AlphaMask::clear(3, 2);
    assert_eq!(m.data, vec![0; 6]);
    m.set(1, 1, 9);
    assert_eq!(m.data, vec![0, 0, 0, 0, 9, 0]);
}
