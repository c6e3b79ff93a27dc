use typeset::compose::compose;
use typeset::layout::LineMetrics;
use typeset::compose::count_soft_glyphs;
use typeset::compose::image_size;
use typeset::layout::GlyphInfo;
use typeset::layout::MeasuredChunk;
use typeset::layout::layout;
use typeset::style::Rgba;
use typeset::style::TextAlign;

fn chunk(text: &str, advance: u32, color: Option<Rgba>, align: Option<TextAlign>) -> MeasuredChunk {
    let glyphs = text
        .chars()
        .enumerate()
        .map(|(i, ch)| GlyphInfo { ch, advance, glyph_id: i as u32 })
        .collect();
    MeasuredChunk { glyphs, metrics: None, color, text_align: align }
}

fn zero_kerns(lines: &Vec<typeset::layout::Line>) -> Vec<Vec<i32>> {
    lines.iter().map(|l| vec![0; l.glyphs.len()]).collect()
}

#[test]
fn round_trip_single_glyph_auto_size() {
    // one chunk "A" of advance 7 at width 0: one line of width 7, and the
    // auto-sized image is exactly 7 wide
    let doc = vec![chunk("A", 7, None, None)];
    let lines = layout(&doc, 0, false);
    assert_eq!(lines.len(), 1);
    assert_eq!(lines[0].chars_width, 7);
    let (w, h) = image_size(&lines, 0, 0).unwrap();
    assert_eq!(w, 7);
    assert_eq!(h, 0);
}

#[test]
fn explicit_sizes_are_honored() {
    let doc = vec![chunk("A", 7, None, None)];
    let lines = layout(&doc, 0, false);
    let (w, h) = image_size(&lines, 100, 50).unwrap();
    assert_eq!(w, 100);
    assert_eq!(h, 50);
}

#[test]
fn auto_width_is_widest_line() {
    let doc = vec![chunk("abc\nab", 10, None, None)];
    let lines = layout(&doc, 0, false);
    let (w, _) = image_size(&lines, 0, 0).unwrap();
    assert_eq!(w, 30);
}

#[test]
fn auto_height_extends_by_last_descent() {
    let doc = vec![MeasuredChunk {
        glyphs: vec![GlyphInfo { ch: 'a', advance: 10, glyph_id: 0 }],
        metrics: Some(LineMetrics { span: 12, descent: -3 }),
        color: None,
        text_align: None,
    }];
    let lines = layout(&doc, 0, false);
    let (_, h) = image_size(&lines, 0, 0).unwrap();
    assert_eq!(h, 15);
}

#[test]
fn left_alignment_starts_at_zero() {
    let doc = vec![chunk("ab", 10, None, Some(TextAlign::Left))];
    let lines = layout(&doc, 0, false);
    let cmds = compose(&lines, &zero_kerns(&lines), 100);
    assert_eq!(cmds.len(), 2);
    assert_eq!(cmds[0].x, 0);
    assert_eq!(cmds[1].x, 10);
}

#[test]
fn right_alignment_flushes_to_image_edge() {
    let doc = vec![chunk("ab", 10, None, Some(TextAlign::Right))];
    let lines = layout(&doc, 0, false);
    let cmds = compose(&lines, &zero_kerns(&lines), 100);
    assert_eq!(cmds[0].x, 80);
    assert_eq!(cmds[1].x, 90);
}

#[test]
fn center_alignment_splits_slack() {
    let doc = vec![chunk("ab", 10, None, Some(TextAlign::Center))];
    let lines = layout(&doc, 0, false);
    let cmds = compose(&lines, &zero_kerns(&lines), 100);
    assert_eq!(cmds[0].x, 40);
    assert_eq!(cmds[1].x, 50);
}

#[test]
fn justify_fills_line_to_image_width() {
    // "a b": one space gets the whole slack, the final caret lands on the
    // image width exactly
    let doc = vec![MeasuredChunk {
        glyphs: vec![
            GlyphInfo { ch: 'a', advance: 10, glyph_id: 0 },
            GlyphInfo { ch: ' ', advance: 5, glyph_id: 1 },
            GlyphInfo { ch: 'b', advance: 10, glyph_id: 2 },
        ],
        metrics: None,
        color: None,
        text_align: Some(TextAlign::Justify),
    }];
    let lines = layout(&doc, 0, false);
    assert_eq!(lines[0].chars_width, 25);
    let cmds = compose(&lines, &zero_kerns(&lines), 40);
    assert_eq!(cmds[0].x, 0);
    assert_eq!(cmds[1].x, 25);
    assert_eq!(cmds[2].x, 30);
    // 30 + advance(b) == 40 == image width
}

#[test]
fn justified_line_without_spaces_gets_no_increment() {
    let doc = vec![chunk("ab", 10, None, Some(TextAlign::Justify))];
    let lines = layout(&doc, 0, false);
    assert_eq!(count_soft_glyphs(&lines[0].glyphs), 0);
    let cmds = compose(&lines, &zero_kerns(&lines), 100);
    assert_eq!(cmds[0].x, 0);
    assert_eq!(cmds[1].x, 10);
}

#[test]
fn kerning_moves_following_glyph() {
    let doc = vec![chunk("ab", 10, None, None)];
    let lines = layout(&doc, 0, false);
    let kerns = vec![vec![0, -2]];
    let cmds = compose(&lines, &kerns, 100);
    assert_eq!(cmds[0].x, 0);
    assert_eq!(cmds[1].x, 8);
}

#[test]
fn baseline_advances_by_line_height_before_drawing() {
    let doc = vec![MeasuredChunk {
        glyphs: vec![
            GlyphInfo { ch: 'a', advance: 10, glyph_id: 0 },
            GlyphInfo { ch: '\n', advance: 0, glyph_id: 1 },
            GlyphInfo { ch: 'b', advance: 10, glyph_id: 2 },
        ],
        metrics: Some(LineMetrics { span: 12, descent: -3 }),
        color: None,
        text_align: None,
    }];
    let lines = layout(&doc, 0, false);
    assert_eq!(lines.len(), 2);
    let cmds = compose(&lines, &zero_kerns(&lines), 100);
    assert_eq!(cmds[0].y, 12);
    assert_eq!(cmds[1].y, 24);
}

#[test]
fn color_sticks_across_chunks_until_overridden() {
    // first chunk red, second blue, third silent: the third paints blue
    let red = Rgba { r: 255, g: 0, b: 0, a: 255 };
    let blue = Rgba { r: 0, g: 0, b: 255, a: 255 };
    let doc = vec![
        chunk("a", 10, Some(red), None),
        chunk("b", 10, Some(blue), None),
        chunk("c", 10, None, None),
    ];
    let lines = layout(&doc, 0, false);
    assert_eq!(lines.len(), 1);
    let cmds = compose(&lines, &zero_kerns(&lines), 100);
    assert_eq!(cmds[0].color, red);
    assert_eq!(cmds[1].color, blue);
    assert_eq!(cmds[2].color, blue);
}

#[test]
fn default_color_is_opaque_black() {
    let doc = vec![chunk("a", 10, None, None)];
    let lines = layout(&doc, 0, false);
    let cmds = compose(&lines, &zero_kerns(&lines), 100);
    assert_eq!(cmds[0].color, Rgba { r: 0, g: 0, b: 0, a: 255 });
}
