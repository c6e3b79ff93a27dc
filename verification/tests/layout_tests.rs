use typeset::layout::advance_total_fits;
use typeset::layout::LineBuilder;
use typeset::layout::PlacedChar;
use typeset::layout::doc_metrics_wf;
use typeset::layout::GlyphInfo;
use typeset::layout::Line;
use typeset::layout::LineMetrics;
use typeset::layout::MeasuredChunk;
use typeset::layout::layout;
use typeset::style::Rgba;
use typeset::style::TextAlign;

fn glyphs_of(text: &str, advance: u32) -> Vec<GlyphInfo> {
    text.chars()
        .enumerate()
        .map(|(i, ch)| GlyphInfo { ch, advance, glyph_id: i as u32 })
        .collect()
}

fn plain_chunk(text: &str, advance: u32) -> MeasuredChunk {
    MeasuredChunk { glyphs: glyphs_of(text, advance), metrics: None, color: None, text_align: None }
}

fn line_text(line: &Line) -> String {
    line.glyphs.iter().map(|g| g.ch).collect()
}

#[test]
fn auto_width_single_chunk_is_one_line() {
    // "ab cd" at width 0: no wrap, one line, five advances summed
    let doc = vec![plain_chunk("ab cd", 10)];
    let lines = layout(&doc, 0, false);
    assert_eq!(lines.len(), 1);
    assert_eq!(lines[0].glyphs.len(), 5);
    assert_eq!(line_text(&lines[0]), "ab cd");
    assert_eq!(lines[0].chars_width, 50);
}

#[test]
fn auto_width_line_count_is_hard_breaks_plus_one() {
    let doc = vec![plain_chunk("x\ny\nz", 7)];
    let lines = layout(&doc, 0, false);
    assert_eq!(lines.len(), 3);
    assert_eq!(line_text(&lines[0]), "x");
    assert_eq!(line_text(&lines[1]), "y");
    assert_eq!(line_text(&lines[2]), "z");
}

#[test]
fn hard_break_forces_line_even_with_width_set() {
    let doc = vec![plain_chunk("x\ny", 10)];
    let wide = layout(&doc, 1000, false);
    assert_eq!(wide.len(), 2);
    assert_eq!(line_text(&wide[0]), "x");
    assert_eq!(line_text(&wide[1]), "y");
    let auto = layout(&doc, 0, false);
    assert_eq!(auto.len(), 2);
}

#[test]
fn word_mode_wraps_before_unfitting_word() {
    // width holds "a " but not "a b": the space is trimmed from line one
    // and "b" moves whole onto line two
    let doc = vec![MeasuredChunk {
        glyphs: vec![
            GlyphInfo { ch: 'a', advance: 10, glyph_id: 0 },
            GlyphInfo { ch: ' ', advance: 5, glyph_id: 1 },
            GlyphInfo { ch: 'b', advance: 10, glyph_id: 2 },
        ],
        metrics: None,
        color: None,
        text_align: None,
    }];
    let lines = layout(&doc, 20, true);
    assert_eq!(lines.len(), 2);
    assert_eq!(line_text(&lines[0]), "a");
    assert_eq!(lines[0].chars_width, 10);
    assert_eq!(line_text(&lines[1]), "b");
    assert_eq!(lines[1].chars_width, 10);
}

#[test]
fn word_mode_splits_oversized_word() {
    // a single word wider than the target: the open line is flushed
    // (empty) and the word is split where it overflows
    let doc = vec![plain_chunk("abcd", 10)];
    let lines = layout(&doc, 20, true);
    assert_eq!(lines.len(), 3);
    assert_eq!(line_text(&lines[0]), "");
    assert_eq!(line_text(&lines[1]), "abc");
    assert_eq!(lines[1].chars_width, 30);
    assert_eq!(line_text(&lines[2]), "d");
}

#[test]
fn word_mode_drops_pending_word_at_finalization() {
    // a word still pending when input ends is not carried onto the final
    // line
    let doc = vec![plain_chunk("ab", 10)];
    let lines = layout(&doc, 100, true);
    assert_eq!(lines.len(), 1);
    assert_eq!(line_text(&lines[0]), "");
}

#[test]
fn char_mode_wraps_before_overflowing_glyph() {
    let doc = vec![plain_chunk("abcd", 10)];
    let lines = layout(&doc, 25, false);
    assert_eq!(lines.len(), 2);
    assert_eq!(line_text(&lines[0]), "ab");
    assert_eq!(lines[0].chars_width, 20);
    assert_eq!(line_text(&lines[1]), "cd");
}

#[test]
fn char_mode_drops_overflowing_soft_break() {
    // the glyph that overflows is a space: the line wraps and the space
    // itself is dropped rather than starting the next line
    let doc = vec![plain_chunk("ab cd", 10)];
    let lines = layout(&doc, 25, false);
    assert_eq!(lines.len(), 2);
    assert_eq!(line_text(&lines[0]), "ab");
    assert_eq!(lines[0].chars_width, 20);
    assert_eq!(line_text(&lines[1]), "cd");
}

#[test]
fn trailing_space_is_trimmed_once() {
    let doc = vec![plain_chunk("ab \nc", 10)];
    let lines = layout(&doc, 0, false);
    assert_eq!(lines.len(), 2);
    assert_eq!(line_text(&lines[0]), "ab");
    assert_eq!(lines[0].chars_width, 20);
}

#[test]
fn metrics_raise_height_and_deepen_descent() {
    let doc = vec![
        MeasuredChunk {
            glyphs: glyphs_of("a", 10),
            metrics: Some(LineMetrics { span: 12, descent: -3 }),
            color: None,
            text_align: None,
        },
        MeasuredChunk {
            glyphs: glyphs_of("b", 10),
            metrics: Some(LineMetrics { span: 9, descent: -5 }),
            color: None,
            text_align: None,
        },
    ];
    let lines = layout(&doc, 0, false);
    assert_eq!(lines.len(), 1);
    assert_eq!(lines[0].height, 12);
    assert_eq!(lines[0].descent, -5);
}

#[test]
fn alignment_comes_from_first_chunk_on_line() {
    let doc = vec![
        MeasuredChunk {
            glyphs: glyphs_of("a\n", 10),
            metrics: None,
            color: None,
            text_align: Some(TextAlign::Center),
        },
        MeasuredChunk {
            glyphs: glyphs_of("b", 10),
            metrics: None,
            color: Some(Rgba { r: 1, g: 2, b: 3, a: 255 }),
            text_align: None,
        },
    ];
    let lines = layout(&doc, 0, false);
    assert_eq!(lines.len(), 2);
    assert_eq!(lines[0].text_align, TextAlign::Center);
    assert_eq!(lines[1].text_align, TextAlign::Left);
    assert_eq!(lines[1].glyphs[0].chunk, 1);
    assert_eq!(lines[1].glyphs[0].color, Some(Rgba { r: 1, g: 2, b: 3, a: 255 }));
}

#[test]
fn empty_chunk_list_still_yields_one_line() {
    let doc: Vec<MeasuredChunk> = vec![plain_chunk("", 1)];
    let lines = layout(&doc, 0, false);
    assert_eq!(lines.len(), 1);
    assert_eq!(lines[0].glyphs.len(), 0);
    assert_eq!(lines[0].chars_width, 0);
    assert_eq!(lines[0].text_align, TextAlign::Left);
}

#[test]
fn two_trailing_spaces_trim_only_one() {
    // trimming drops exactly one trailing soft-break glyph, never a run
    let doc = vec![plain_chunk("a  \nb", 10)];
    let lines = layout(&doc, 0, false);
    assert_eq!(line_text(&lines[0]), "a ");
    assert_eq!(lines[0].chars_width, 20);
}

#[test]
fn advance_budget_check_accepts_ordinary_documents() {
    let doc = vec![plain_chunk("hello", 10)];
    assert!(advance_total_fits(&doc));
    assert!(doc_metrics_wf(&doc));
}

#[test]
fn positive_descent_is_rejected_as_malformed() {
    let doc = vec![MeasuredChunk {
        glyphs: glyphs_of("a", 10),
        metrics: Some(LineMetrics { span: 10, descent: 3 }),
        color: None,
        text_align: None,
    }];
    assert!(!doc_metrics_wf(&doc));
}

#[test]
fn builder_can_be_driven_one_glyph_at_a_time() {
    let mut b = LineBuilder::new(0, false);
    for (i, ch) in "hi\nyo".chars().enumerate() {
        b.process_char(
            PlacedChar {
                chunk: 0,
                ch,
                advance: 10,
                glyph_id: i as u32,
                color: None,
                text_align: None,
            },
            None,
        );
    }
    b.flush_line();
    let lines = b.take_lines();
    assert_eq!(lines.len(), 2);
    let first: String = lines[0].glyphs.iter().map(|g| g.ch).collect();
    let second: String = lines[1].glyphs.iter().map(|g| g.ch).collect();
    assert_eq!(first, "hi");
    assert_eq!(second, "yo");
    assert_eq!(lines[0].chars_width, 20);
}

#[test]
fn word_mode_keeps_every_fitting_word_whole() {
    // three words; the third no longer fits and moves whole to line two
    let doc = vec![plain_chunk("aa bb cc\n", 10)];
    let lines = layout(&doc, 50, true);
    assert_eq!(lines.len(), 3);
    assert_eq!(line_text(&lines[0]), "aa bb");
    assert_eq!(lines[0].chars_width, 50);
    assert_eq!(line_text(&lines[1]), "cc");
    assert_eq!(line_text(&lines[2]), "");
}
