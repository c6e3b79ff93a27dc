use typeset::style::effective_font_sizes;
use typeset::style::eq_font;
use typeset::style::find_font;
use typeset::style::is_can_line_break;
use typeset::style::is_line_break;
use typeset::style::resolve_fonts;
use typeset::norm::normalize_text;
use typeset::norm::normalize_texts;

#[test]
fn newline_is_a_hard_break() {
    assert!(is_line_break('\n'));
    assert!(is_line_break('\u{000b}'));
    assert!(is_line_break('\u{000c}'));
    assert!(is_line_break('\u{0085}'));
    assert!(is_line_break('\u{2028}'));
    assert!(is_line_break('\u{21b5}'));
    assert!(!is_line_break(' '));
    assert!(!is_line_break('a'));
}

#[test]
fn space_separators_are_soft_breaks() {
    assert!(is_can_line_break(' '));
    assert!(is_can_line_break('\u{1680}'));
    assert!(is_can_line_break('\u{2000}'));
    assert!(is_can_line_break('\u{200a}'));
    assert!(is_can_line_break('\u{205f}'));
    assert!(is_can_line_break('\u{3000}'));
    assert!(!is_can_line_break('\u{2007}'));
    assert!(!is_can_line_break('\n'));
    assert!(!is_can_line_break('a'));
}

#[test]
fn font_names_compare_equal_only_when_both_present() {
    assert!(eq_font(&Some("serif".to_string()), &Some("serif".to_string())));
    assert!(!eq_font(&Some("serif".to_string()), &Some("mono".to_string())));
    assert!(!eq_font(&Some("serif".to_string()), &None));
    assert!(!eq_font(&None, &Some("serif".to_string())));
    // the documented quirk: two absent names are "different" too
    assert!(!eq_font(&None, &None));
}

#[test]
fn find_font_takes_first_match_or_first_font() {
    let names = vec!["serif".to_string(), "mono".to_string(), "mono".to_string()];
    assert_eq!(find_font(&Some("mono".to_string()), &names), 1);
    assert_eq!(find_font(&Some("serif".to_string()), &names), 0);
    assert_eq!(find_font(&Some("missing".to_string()), &names), 0);
    assert_eq!(find_font(&None, &names), 0);
}

#[test]
fn resolve_fonts_follows_sticky_names() {
    let names = vec!["serif".to_string(), "mono".to_string()];
    let chunk_fonts = vec![
        Some("mono".to_string()),
        Some("mono".to_string()),
        None,
        Some("serif".to_string()),
        Some("missing".to_string()),
    ];
    let idx = resolve_fonts(&chunk_fonts, &names);
    assert_eq!(idx, vec![1, 1, 0, 0, 0]);
}

#[test]
fn effective_sizes_stick_until_overridden() {
    let sizes = vec![None, Some(10), None, Some(12), None];
    let eff = effective_font_sizes(&sizes);
    assert_eq!(eff, vec![0, 10, 10, 12, 12]);
}

#[test]
fn normalization_composes_combining_sequences() {
    let s = "e\u{0301}".to_string();
    let n = normalize_text(&s);
    assert_eq!(n, "\u{00e9}");
    let all = normalize_texts(&vec![s, "plain".to_string()]);
    assert_eq!(all[0], "\u{00e9}");
    assert_eq!(all[1], "plain");
}
