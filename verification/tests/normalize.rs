//! The dense view and the map back.

use termcopy::normalize::{strip_diff_line_numbers, DenseIndex};

#[test]
fn drops_wrapping_gutters_and_markdown_alike() {
    let rendered = DenseIndex::build(
        "• The schema is confirmed \u{2728}. The target is\n  sample_items, and the count is",
    );
    let source = DenseIndex::build(
        "The schema is confirmed \u{2728}. The target is `sample_items`, and the count is",
    );
    assert_eq!(rendered.dense(), source.dense());
}

#[test]
fn slice_returns_original_bytes_including_dropped_ones() {
    let index = DenseIndex::build("The target is `sample_items`, and the count is");
    // The retained words span the code span, so its backticks come back.
    assert_eq!(
        index.slice(0, index.len()),
        "The target is `sample_items`, and the count is"
    );
}

#[test]
fn slice_starts_and_ends_on_retained_graphemes() {
    let index = DenseIndex::build("  hello   world  ");
    assert_eq!(index.dense(), "helloworld");
    assert_eq!(index.slice(0, 5), "hello");
    assert_eq!(index.slice(5, 10), "world");
    assert_eq!(index.slice(0, 10), "hello   world");
}

#[test]
fn keeps_emoji_and_combining_marks_whole() {
    let index = DenseIndex::build("go\u{1F4A1}\u{2728}cafe\u{0301}");
    assert_eq!(index.dense(), "go\u{1F4A1}\u{2728}cafe\u{0301}");
    assert_eq!(index.len(), 8);
    assert_eq!(index.slice(2, 4), "\u{1F4A1}\u{2728}");
}

#[test]
fn rejects_byte_offsets_landing_inside_a_grapheme() {
    let index = DenseIndex::build("\u{4E00}\u{4E8C}\u{4E09}");
    assert_eq!(index.grapheme_at(0), Some(0));
    assert_eq!(index.grapheme_at(1), None);
    assert_eq!(index.grapheme_at(3), Some(1));
    assert_eq!(index.grapheme_at(9), Some(3));
    assert_eq!(index.grapheme_at(10), None);
}

#[test]
fn empty_and_whitespace_only_input_is_empty() {
    assert!(DenseIndex::build("").is_empty());
    assert!(DenseIndex::build("   \n\t \u{3000}").is_empty());
}

#[test]
fn removes_the_line_number_gutter_of_a_diff() {
    let rendered = "    187 +            if [ \"$old_mode\" ]; then\n    188 -    old\n";
    assert_eq!(
        strip_diff_line_numbers(rendered),
        "     +            if [ \"$old_mode\" ]; then\n     -    old\n"
    );
}

/// Numbers that are content keep their place. Dropping them would take the
/// number off the front of whatever came back.
#[test]
fn leaves_leading_numbers_that_are_not_a_diff_gutter() {
    for line in [
        "42 files changed",
        "1. confirm the configuration",
        "2026-08-08 deployed",
        "    186",
        "187+no space",
    ] {
        assert_eq!(strip_diff_line_numbers(line), line, "{line:?}");
    }
}

#[test]
fn a_diff_row_matches_the_patch_it_came_from() {
    let patch = DenseIndex::build("+            if [ \"$old_mode\" ]; then");
    let rendered = DenseIndex::from_rendered("    187 +            if [ \"$old_mode\" ]; then");
    assert_eq!(rendered.dense(), patch.dense());
}

#[test]
fn keeps_list_markers_because_both_sides_render_them() {
    let index = DenseIndex::build("- restock notes are required");
    assert_eq!(index.dense(), "-restocknotesarerequired");
}
