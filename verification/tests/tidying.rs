//! The fallback on rows of every kind, and the order of sessions.

use termcopy::herdr::{ranked_session_ids, AgentSession, Pane};
use termcopy::heuristic::rewrap;

#[test]
fn rows_keep_their_indentation_relative_to_the_shallowest() {
    assert_eq!(rewrap("    deep\n  edge\n      deeper", false), "  deep\nedge\n    deeper");
    assert_eq!(rewrap("  a\r\n  b\r\n", false), "a\nb");
    assert_eq!(rewrap("x   \n\ty", false), "x\n y");
    assert_eq!(rewrap("\u{2502} framed \u{2502}", false), "framed \u{2502}");
}

#[test]
fn joining_stops_at_lists_and_steps_to_the_right() {
    assert_eq!(rewrap("one\ntwo", true), "one two");
    assert_eq!(rewrap("one\n- two", true), "one\n- two");
    assert_eq!(rewrap("one\n-two", true), "one -two");
    assert_eq!(rewrap("one\n12) two", true), "one\n12) two");
    assert_eq!(rewrap("one\n12] two", true), "one 12] two");
    assert_eq!(rewrap("one\n  two", true), "one\n  two");
    assert_eq!(rewrap("  one\ntwo", true), "  one two");
    assert_eq!(rewrap("\u{4E00}\ntwo", true), "\u{4E00}two");
    assert_eq!(rewrap("one\n\u{4E00}", true), "one\u{4E00}");
}

#[test]
fn diff_gutters_are_removed_before_tidying() {
    assert_eq!(rewrap("  12 +added\n  13 -gone", false), "+added\n-gone");
}

#[test]
fn blank_rows_at_the_edges_are_dropped() {
    assert_eq!(rewrap("\n\n  a\n\n \n  b\n\n", false), "a\n\nb");
    assert_eq!(rewrap("\u{2022}\n\u{2500}\u{2500}", true), "");
}

#[test]
fn nothing_but_spaces_and_breaks_changes() {
    let selection = "• One `two`\n\n\n  - three\n      four\n\u{258C} five";
    let strip = |text: &str| -> String {
        text.chars().filter(|ch| *ch != ' ' && *ch != '\n').collect()
    };
    let bare = "One`two`-threefourfive";
    assert_eq!(strip(&rewrap(selection, true)), bare);
    assert_eq!(strip(&rewrap(selection, false)), bare);
    // One line per row, and one empty line where rows were blank.
    assert_eq!(
        rewrap(selection, false),
        "One `two`\n\n- three\n    four\nfive"
    );
}

#[test]
fn latin_words_are_joined_with_a_space_beyond_ascii_too() {
    assert_eq!(rewrap("caf\u{E9}\nnoir", true), "caf\u{E9} noir");
    assert_eq!(rewrap("cafe\u{301}\nnoir", true), "cafe\u{301} noir");
    assert_eq!(rewrap("un\n\u{E9}t\u{E9}", true), "un \u{E9}t\u{E9}");
    assert_eq!(rewrap("\u{141}\u{F3}d\u{17A}\n\u{17C}yje", true), "\u{141}\u{F3}d\u{17A} \u{17C}yje");
    assert_eq!(rewrap("ti\u{1EBF}\nVi\u{1EC7}t", true), "ti\u{1EBF} Vi\u{1EC7}t");
    // Signs are no letters, and marks count with the letter that they stand on.
    assert_eq!(rewrap("3 \u{D7}\n4", true), "3 \u{D7}4");
    assert_eq!(rewrap("12\n\u{F7} 4", true), "12\u{F7} 4");
    assert_eq!(rewrap("\u{438}\u{306}\nx", true), "\u{438}\u{306}x");
    assert_eq!(rewrap("1\u{301}\nx", true), "1\u{301}x");
    assert_eq!(rewrap("x\n\u{301}y", true), "x\u{301}y");
    assert_eq!(rewrap("vie\u{323}\u{302}\nn", true), "vie\u{323}\u{302} n");
    assert_eq!(rewrap("\u{FB01}\n\u{2C61}", true), "\u{FB01} \u{2C61}");
    assert_eq!(rewrap("\u{201C}yes\u{201D}\nthen", true), "\u{201C}yes\u{201D}then");
    // Scripts without spaces take none, next to Latin words either.
    assert_eq!(rewrap("\u{65E5}\u{672C}\n\u{8A9E}", true), "\u{65E5}\u{672C}\u{8A9E}");
    assert_eq!(rewrap("\u{304B}\u{3001}\ncaf\u{E9}", true), "\u{304B}\u{3001}caf\u{E9}");
    assert_eq!(rewrap("caf\u{E9}\n\u{30AB}", true), "caf\u{E9}\u{30AB}");
}

#[test]
fn joining_only_runs_rows_together() {
    let bare = |text: &str| -> String { text.chars().filter(|ch| !ch.is_whitespace()).collect() };
    for selection in [
        "",
        "  \n\n",
        "one\ntwo\n\n\n\nthree\n- four\n  five  \n",
        "\u{2022} a\n\n\u{2502}\n  b\u{3000}\n\n",
        "\u{4E00}\n\u{4E8C}\r\n\r\n x\ty \nz",
        "  12 +added\n  13 -gone\n\n\n14 +more\u{A0}",
    ] {
        let joined = rewrap(selection, true);
        let cleaned = rewrap(selection, false);
        assert_eq!(bare(&joined), bare(&cleaned), "{selection:?}");
        assert!(joined.matches('\n').count() <= cleaned.matches('\n').count(), "{selection:?}");
        assert_eq!(joined.matches("\n\n").count(), cleaned.matches("\n\n").count(), "{selection:?}");
        for text in [&joined, &cleaned] {
            assert_eq!(text.trim_end(), text, "{selection:?}");
            assert!(!text.contains("\n\n\n"), "{selection:?}");
        }
    }
    assert_eq!(
        rewrap("one\ntwo\n\n\n\nthree\n- four\n  five  \n", true),
        "one two\n\nthree\n- four\n  five"
    );
}

#[test]
fn nearer_panes_come_first_and_every_session_is_listed_once() {
    let pane = |id: &str, tab: &str, workspace: &str, focused: bool, session: &str| Pane {
        pane_id: id.to_string(),
        tab_id: tab.to_string(),
        workspace_id: workspace.to_string(),
        focused,
        agent: Some("codex".to_string()),
        agent_session: Some(AgentSession {
            value: Some(session.to_string()),
        }),
        cwd: None,
    };
    let panes = [
        pane("far", "t9", "w9", false, "shared"),
        pane("space", "t2", "w1", false, "space"),
        pane("tab", "t1", "w1", false, "tab"),
        pane("here", "t1", "w1", false, "here"),
        pane("focus", "t9", "w9", true, "shared"),
        pane("blank", "", "", false, "blank"),
    ];
    assert_eq!(
        ranked_session_ids(&panes, Some("here")),
        ["here", "shared", "tab", "space", "blank"]
    );
    // A pane that is not listed gives no origin, and empty ids are no match.
    assert_eq!(
        ranked_session_ids(&panes, Some("gone")),
        ["shared", "space", "tab", "here", "blank"]
    );
    let lonely = [pane("a", "", "", false, "one"), pane("b", "", "", false, "two")];
    assert_eq!(ranked_session_ids(&lonely, Some("b")), ["two", "one"]);
    assert_eq!(panes[0].clone().codex_session(), Some("shared"));
}
