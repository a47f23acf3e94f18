//! Tidying selections that were not found.

use termcopy::heuristic::rewrap;

fn joined(selection: &str) -> String {
    rewrap(selection, true)
}

fn cleaned(selection: &str) -> String {
    rewrap(selection, false)
}

#[test]
fn joins_a_wrapped_latin_line_with_a_space() {
    let rendered =
        "• The deployment completed successfully, and the service is now\n  running normally.";
    assert_eq!(
        joined(rendered),
        "The deployment completed successfully, and the service is now running normally."
    );
}

#[test]
fn joins_a_non_space_line_without_a_space() {
    let rendered = "• \u{4E00}\u{4E8C}\u{4E09}\u{56DB}\n  \u{4E94}\u{516D}\u{4E03}\u{516B}\n  \u{4E5D}\u{5341}";
    assert_eq!(
        joined(rendered),
        "\u{4E00}\u{4E8C}\u{4E09}\u{56DB}\u{4E94}\u{516D}\u{4E03}\u{516B}\u{4E5D}\u{5341}"
    );
}

#[test]
fn removes_gutters_and_indentation_without_joining() {
    let rendered = "• Keep the transcript source\n  exactly as stored";
    assert_eq!(
        cleaned(rendered),
        "Keep the transcript source\nexactly as stored"
    );
}

#[test]
fn keeps_a_blank_line_as_a_paragraph_break() {
    assert_eq!(
        joined("• First paragraph.\n\n  Second paragraph."),
        "First paragraph.\n\nSecond paragraph."
    );
}

#[test]
fn keeps_each_list_item_on_its_own_line() {
    let rendered = "  - authenticated owners only\n  - audit logging is required\n  - plain output is forbidden";
    assert_eq!(
        joined(rendered),
        "- authenticated owners only\n- audit logging is required\n- plain output is forbidden"
    );
}

#[test]
fn keeps_numbered_list_items_apart() {
    assert_eq!(
        joined("  1. Confirm the input\n  2. Update the result"),
        "1. Confirm the input\n2. Update the result"
    );
}

#[test]
fn keeps_a_wrapped_list_item_that_is_indented_further_on_its_own_line() {
    let rendered = "  - group_id and status =\n    'active' limit the target";
    assert_eq!(
        joined(rendered),
        "- group_id and status =\n  'active' limit the target"
    );
}

/// Indentation is preserved either way, but rows at the same depth are run
/// together when joining is on. Line breaks that carry meaning are exactly
/// what cannot be recovered without the transcript, so code is the case to
/// leave joining off for.
#[test]
fn preserves_code_only_when_joining_is_off() {
    let rendered = "  const config = {\n      retries: 3,\n      timeout: 5000,\n  };";
    assert_eq!(
        cleaned(rendered),
        "const config = {\n    retries: 3,\n    timeout: 5000,\n};"
    );
    assert_eq!(
        joined(rendered),
        "const config = {\n    retries: 3, timeout: 5000, };",
        "documents the damage joining does to code"
    );
}

#[test]
fn strips_the_user_prompt_gutter_too() {
    assert_eq!(
        joined("› Change the project rule\n  now."),
        "Change the project rule now."
    );
}

#[test]
fn leaves_a_single_line_untouched_apart_from_its_gutter() {
    assert_eq!(
        joined("• Deployment is complete."),
        "Deployment is complete."
    );
    assert_eq!(cleaned("plain text"), "plain text");
}

#[test]
fn handles_empty_and_blank_only_input() {
    assert_eq!(joined(""), "");
    assert_eq!(joined("\n\n  \n"), "");
}

#[test]
fn collapses_repeated_blank_rows_into_one_break() {
    assert_eq!(
        joined("• First half.\n\n\n\n  Second half."),
        "First half.\n\nSecond half."
    );
}
