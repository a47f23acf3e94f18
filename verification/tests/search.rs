//! Occurrences in the dense form, and the laws of the index.

use termcopy::normalize::{strip_diff_line_numbers, DenseIndex};
use termcopy::search::occurrences;

#[test]
fn every_occurrence_is_listed_in_order_with_overlaps() {
    let index = DenseIndex::build("ab ab\nab");
    assert_eq!(occurrences(&index, "abab"), vec![(0, 4), (2, 6)]);
    assert_eq!(occurrences(&index, "ab"), vec![(0, 2), (2, 4), (4, 6)]);
    assert_eq!(occurrences(&index, "ba"), vec![(1, 3), (3, 5)]);
    assert_eq!(occurrences(&index, "abc"), vec![]);
    assert_eq!(occurrences(&index, ""), vec![]);
}

#[test]
fn an_occurrence_inside_a_grapheme_is_not_one() {
    // The base letter alone stands in the bytes, but not as a grapheme.
    let index = DenseIndex::build("cafe\u{0301}s and cafes");
    assert_eq!(occurrences(&index, "cafe"), vec![(8, 12)]);
    assert_eq!(occurrences(&index, "e\u{0301}"), vec![(3, 4)]);
    assert_eq!(occurrences(&index, "\u{0301}"), vec![]);
}

#[test]
fn clusters_may_be_given_instead_of_found() {
    let clusters = vec!["e\u{0301}", " ", "xy", "`", "z"];
    let index = DenseIndex::from_clusters(&clusters);
    assert_eq!(index.source(), "e\u{0301} xy`z");
    assert_eq!(index.dense(), "e\u{0301}xyz");
    assert_eq!(index.len(), 3);
    assert_eq!(index.dense_offset(0), Some(0));
    assert_eq!(index.dense_offset(1), Some(3));
    assert_eq!(index.dense_offset(2), Some(5));
    assert_eq!(index.dense_offset(3), None);
    assert_eq!(index.grapheme_at(4), None);
    assert_eq!(index.grapheme_at(5), Some(2));
    assert_eq!(index.graphemes_before(0), 0);
    assert_eq!(index.graphemes_before(1), 1);
    assert_eq!(index.graphemes_before(4), 1);
    assert_eq!(index.graphemes_before(5), 2);
    assert_eq!(index.graphemes_before(100), 3);
    assert_eq!(index.slice(0, 3), "e\u{0301} xy`z");
    assert_eq!(index.slice(1, 3), "xy`z");
    assert_eq!(index.slice(2, 2), "");
    assert_eq!(index.slice(0, 4), "");
    assert_eq!(index.dense_slice(0, 2), "e\u{0301}xy");
    assert_eq!(index.dense_slice(1, 3), "xyz");
    assert_eq!(index.dense_slice(2, 1), "");
}

#[test]
fn graphemes_are_found_by_the_unicode_rules() {
    // A family emoji is one grapheme of seven characters, a flag one of two.
    let index = DenseIndex::build(
        "a\u{1F468}\u{200D}\u{1F469}\u{200D}\u{1F467}\u{200D}\u{1F466}\u{1F1FA}\u{1F1F8}",
    );
    assert_eq!(index.len(), 3);
    assert_eq!(
        index.slice(1, 2),
        "\u{1F468}\u{200D}\u{1F469}\u{200D}\u{1F467}\u{200D}\u{1F466}"
    );
    assert_eq!(index.slice(2, 3), "\u{1F1FA}\u{1F1F8}");
}

#[test]
fn copies_and_empty_indexes_answer_alike() {
    let index = DenseIndex::build("`one` two");
    let copy = index.clone();
    assert_eq!(copy.source(), index.source());
    assert_eq!(copy.dense(), index.dense());
    assert_eq!(copy.slice(0, 6), index.slice(0, 6));
    assert!(DenseIndex::default().is_empty());
    assert_eq!(DenseIndex::default().source(), "");
}

#[test]
fn a_slice_is_part_of_the_text_and_reduces_to_the_dense_slice() {
    let text = "• The **target** is\n  `sample_items`\u{2026} caf\u{0065}\u{0301}";
    let index = DenseIndex::build(text);
    for end in 0..=index.len() {
        for start in 0..=end {
            let slice = index.slice(start, end);
            assert!(text.contains(slice));
            assert_eq!(
                DenseIndex::build(slice).dense(),
                index.dense_slice(start, end)
            );
        }
    }
}

#[test]
fn only_the_digits_of_a_gutter_are_stripped() {
    assert_eq!(
        strip_diff_line_numbers("\t 7 +x\n12 - y\n"),
        "\t  +x\n - y\n"
    );
    assert_eq!(strip_diff_line_numbers("7 + 8 = 15"), " + 8 = 15");
    for text in ["", "7 ", "7 *x", "x 7 +", "7\u{00A0}+", "7  +", "\n\n"] {
        assert_eq!(strip_diff_line_numbers(text), text);
    }
}
