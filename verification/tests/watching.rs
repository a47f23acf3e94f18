//! The clipboard watcher, step by step, and what it is started with.

use termcopy::automatic::{
    app_matches_filter, is_allowed_terminal, is_filter_hit, is_focused_codex_pane,
    parse_frontmost_application, poll_interval, restoration_result, restore_arguments, terminal_filters, watcher_arguments,
    FrontmostApplication, WatchOptions,
};
use termcopy::herdr::{AgentSession, Pane};
use termcopy::watcher::{watch, Action, Event, Watcher};

fn options(pane: Option<&str>) -> WatchOptions {
    WatchOptions {
        parent_pid: 4711,
        pane: pane.map(str::to_string),
        terminal_apps: Vec::new(),
        poll_ms: 50,
        min_chars: 4,
        scan_limit: 20,
    }
}

fn app(name: &str) -> FrontmostApplication {
    FrontmostApplication {
        name: name.to_string(),
        bundle_id: String::new(),
    }
}

fn pane(id: &str, focused: bool, agent: &str) -> Pane {
    Pane {
        pane_id: id.to_string(),
        tab_id: String::new(),
        workspace_id: String::new(),
        focused,
        agent: Some(agent.to_string()),
        agent_session: Some(AgentSession {
            value: Some("session".to_string()),
        }),
        cwd: None,
    }
}

/// A watcher that has just read a text from the clipboard.
fn after_copy(watcher: Watcher, text: &str) -> Watcher {
    assert!(matches!(watcher.action(), Action::AskParent));
    let watcher = watcher.advance(Event::Parent(true));
    assert!(matches!(watcher.action(), Action::Sleep));
    let watcher = watcher.advance(Event::Slept);
    assert!(matches!(watcher.action(), Action::AskParent));
    let watcher = watcher.advance(Event::Parent(true));
    assert!(matches!(watcher.action(), Action::ReadClipboard));
    watcher.advance(Event::Clipboard(Some(text.to_string())))
}

fn is_idle(watcher: &Watcher) -> bool {
    matches!(watcher.action(), Action::AskParent)
}

/// A watcher that is about to write `restored` in place of `copy`.
fn before_write(copy: &str, restored: &str) -> Watcher {
    let watcher = after_copy(watch(options(None), None), copy);
    let watcher = watcher.advance(Event::Frontmost(Some(app("Ghostty"))));
    match watcher.action() {
        Action::Restore(selection) => assert_eq!(selection, copy),
        other => panic!("{other:?}"),
    }
    let watcher = watcher.advance(Event::Restored(Some(restored.to_string())));
    assert!(matches!(watcher.action(), Action::AskParent));
    let watcher = watcher.advance(Event::Parent(true));
    assert!(matches!(watcher.action(), Action::ReadClipboard));
    watcher
}

#[test]
fn a_copy_in_the_terminal_is_restored_and_counts_as_seen() {
    let watcher = before_write("wrapped", "source");
    let watcher = watcher.advance(Event::Clipboard(Some("wrapped".to_string())));
    match watcher.action() {
        Action::Write(text) => assert_eq!(text, "source"),
        other => panic!("{other:?}"),
    }
    let watcher = watcher.advance(Event::Written(true));
    // The text that was written is not taken for a new copy.
    let watcher = after_copy(watcher, "source");
    assert!(is_idle(&watcher));
    // Copying the selection once more is.
    let watcher = after_copy(watcher, "wrapped");
    assert!(matches!(watcher.action(), Action::AskFrontmost));
}

#[test]
fn a_failed_write_leaves_the_selection_seen() {
    let watcher = before_write("wrapped", "source");
    let watcher = watcher.advance(Event::Clipboard(Some("wrapped".to_string())));
    let watcher = watcher.advance(Event::Written(false));
    assert!(is_idle(&after_copy(watcher, "wrapped")));
}

#[test]
fn a_newer_copy_is_never_replaced() {
    let watcher = before_write("wrapped", "source");
    let watcher = watcher.advance(Event::Clipboard(Some("newer".to_string())));
    assert!(is_idle(&watcher));
    let watcher = before_write("wrapped", "source").advance(Event::Clipboard(None));
    assert!(is_idle(&watcher));
}

#[test]
fn a_copy_made_elsewhere_is_seen_and_not_processed_later() {
    let watcher = after_copy(watch(options(None), None), "from the browser");
    let watcher = watcher.advance(Event::Frontmost(Some(app("Google Chrome"))));
    assert!(is_idle(&watcher));
    assert!(is_idle(&after_copy(watcher, "from the browser")));
    // An application that cannot be identified is not trusted either.
    let watcher = after_copy(watch(options(None), None), "somewhere");
    let watcher = watcher.advance(Event::Frontmost(None));
    assert!(is_idle(&after_copy(watcher, "somewhere")));
}

#[test]
fn what_is_on_the_clipboard_at_the_start_is_not_processed() {
    let watcher = watch(options(None), Some("old".to_string()));
    assert!(is_idle(&after_copy(watcher, "old")));
    let watcher = watch(options(None), Some("old".to_string()));
    let watcher = after_copy(watcher, "new");
    assert!(matches!(watcher.action(), Action::AskFrontmost));
}

#[test]
fn a_known_pane_must_have_the_focus_and_run_codex() {
    let located = || {
        let watcher = after_copy(watch(options(Some("p1")), None), "copy");
        let watcher = watcher.advance(Event::Frontmost(Some(app("cmux"))));
        assert!(matches!(watcher.action(), Action::AskPanes));
        watcher
    };
    let watcher = located().advance(Event::Panes(vec![pane("p1", true, "codex")]));
    assert!(matches!(watcher.action(), Action::Restore("copy")));
    for panes in [
        vec![],
        vec![pane("p1", false, "codex")],
        vec![pane("p1", true, "other")],
        vec![pane("p2", true, "codex")],
        vec![pane("p1", false, "codex"), pane("p1", true, "codex")],
    ] {
        assert!(is_idle(&located().advance(Event::Panes(panes))));
    }
    assert!(is_focused_codex_pane(&[pane("p1", true, "codex")], "p1"));
    assert!(!is_focused_codex_pane(&[pane("p1", true, "codex")], "p2"));
}

#[test]
fn nothing_is_written_unless_a_different_text_was_found() {
    let restoring = || {
        after_copy(watch(options(None), None), "copy")
            .advance(Event::Frontmost(Some(app("Ghostty"))))
    };
    assert!(is_idle(&restoring().advance(Event::Restored(None))));
    let same = restoring().advance(Event::Restored(Some("copy".to_string())));
    // The next question is the one that opens a round, not a confirmation.
    let same = same.advance(Event::Parent(true));
    assert!(matches!(same.action(), Action::Sleep));
}

#[test]
fn the_watcher_stops_with_the_command() {
    let stopped = watch(options(None), None).advance(Event::Parent(false));
    assert!(matches!(stopped.action(), Action::Stop));
    let stopped = stopped.advance(Event::Parent(true));
    assert!(matches!(stopped.action(), Action::Stop));
    let woken = watch(options(None), None)
        .advance(Event::Parent(true))
        .advance(Event::Slept)
        .advance(Event::Parent(false));
    assert!(matches!(woken.action(), Action::Stop));
    // Gone while the text was being looked up: nothing is written.
    let restored = after_copy(watch(options(None), None), "copy")
        .advance(Event::Frontmost(Some(app("Ghostty"))))
        .advance(Event::Restored(Some("source".to_string())))
        .advance(Event::Parent(false))
        .advance(Event::Parent(false));
    assert!(matches!(restored.action(), Action::Stop));
}

#[test]
fn an_answer_that_was_not_asked_for_changes_nothing() {
    let watcher = watch(options(None), None).advance(Event::Slept);
    assert!(is_idle(&watcher));
    let watcher = before_write("wrapped", "source").advance(Event::Written(true));
    assert!(matches!(watcher.action(), Action::ReadClipboard));
    let watcher = watcher.advance(Event::Clipboard(Some("wrapped".to_string())));
    assert!(matches!(watcher.action(), Action::Write("source")));
}

#[test]
fn a_clipboard_without_text_is_left_alone() {
    let watcher = watch(options(None), Some("text".to_string()))
        .advance(Event::Parent(true))
        .advance(Event::Slept)
        .advance(Event::Parent(true))
        .advance(Event::Clipboard(None));
    assert!(is_idle(&watcher));
    assert!(is_idle(&after_copy(watcher, "text")));
}

#[test]
fn the_watcher_is_started_with_its_options() {
    let mut settings = options(Some("w1:p1"));
    settings.terminal_apps = vec!["WezTerm".to_string(), "kitty".to_string()];
    assert_eq!(
        watcher_arguments(&settings),
        [
            "__watch",
            "--parent-pid",
            "4711",
            "--poll-ms",
            "50",
            "--min-chars",
            "4",
            "--scan-limit",
            "20",
            "--pane",
            "w1:p1",
            "--terminal-app",
            "WezTerm",
            "--terminal-app",
            "kitty",
        ]
    );
    assert_eq!(watcher_arguments(&options(None)).len(), 9);
}

#[test]
fn a_restoration_is_started_verified_only() {
    assert_eq!(
        restore_arguments(&options(None)),
        [
            "--stdin",
            "--stdout",
            "--fallback",
            "off",
            "--min-chars",
            "4",
            "--scan-limit",
            "20",
        ]
    );
    assert_eq!(
        restore_arguments(&options(Some("w1:p1")))[8..],
        ["--pane", "w1:p1"]
    );
}

#[test]
fn a_restoration_counts_only_if_it_succeeded_with_text() {
    assert_eq!(restoration_result(false, b"text").unwrap(), None);
    assert_eq!(restoration_result(false, b"\xFF").unwrap(), None);
    assert_eq!(
        restoration_result(true, "caf\u{e9}".as_bytes()).unwrap().as_deref(),
        Some("caf\u{e9}")
    );
    assert_eq!(restoration_result(true, b"").unwrap().as_deref(), Some(""));
    assert_eq!(
        restoration_result(true, b"\xFF").unwrap_err().message(),
        "restored text was not valid UTF-8"
    );
}

#[test]
fn the_polling_interval_has_a_floor() {
    assert_eq!(poll_interval(0), 10);
    assert_eq!(poll_interval(9), 10);
    assert_eq!(poll_interval(10), 10);
    assert_eq!(poll_interval(50), 50);
}

#[test]
fn an_answer_without_an_application_is_an_error() {
    for output in ["", "\n", "\t", " \t \n"] {
        assert_eq!(
            parse_frontmost_application(output).unwrap_err().message(),
            "frontmost application was empty"
        );
    }
    let parsed = parse_frontmost_application(" Name only \n").unwrap();
    assert_eq!(parsed.name, "Name only");
    assert_eq!(parsed.bundle_id, "");
    let parsed = parse_frontmost_application("\tbundle\tmore\n").unwrap();
    assert_eq!(parsed.name, "");
    assert_eq!(parsed.bundle_id, "bundle\tmore");
}

#[test]
fn filters_ignore_case_and_surrounding_space() {
    assert!(app_matches_filter(&app("WezTerm"), " wezterm\n"));
    assert!(app_matches_filter(&app("wezterm"), "WEZ"));
    assert!(app_matches_filter(&app("\u{c9}diteur"), "\u{e9}DIT"));
    assert!(!app_matches_filter(&app("WezTerm"), "  "));
    assert!(!app_matches_filter(&app("WezTerm"), ""));
    assert!(!app_matches_filter(&app("Terminal"), "WezTerm"));
    assert!(is_filter_hit("name", "com.example", "example"));
    assert!(!is_filter_hit("name", "com.example", ""));
}

#[test]
fn an_unknown_launcher_leaves_no_filters() {
    assert_eq!(terminal_filters(&[], None), Vec::<String>::new());
    assert_eq!(terminal_filters(&[], Some(&app(""))), Vec::<String>::new());
    assert_eq!(terminal_filters(&[], Some(&app("Zed"))), vec!["Zed".to_string()]);
}

#[test]
fn the_launching_application_passes_its_own_filters() {
    for output in [
        "WezTerm\tcom.github.wez.wezterm\n",
        " \u{130}stanbul Terminal \t\n",
        "\tcom.example.TERM",
        "\u{3A3}\u{39F}\u{3A6}\u{39F}\u{3A3}\t\u{1E9E}",
    ] {
        let app = parse_frontmost_application(output).unwrap();
        let filters = terminal_filters(&[], Some(&app));
        assert!(!filters.is_empty(), "{output:?}");
        assert!(is_allowed_terminal(&app, &filters), "{output:?}");
        assert!(!is_allowed_terminal(&app, &[]), "{output:?}");
        let blank = [String::new(), " \t\u{3000}".to_string()];
        assert!(!is_allowed_terminal(&app, &blank), "{output:?}");
        assert_eq!(terminal_filters(&blank, Some(&app)), blank.to_vec());
        let defaults = ["Ghostty".to_string(), "cmux".to_string()];
        assert_eq!(is_allowed_terminal(&app, &defaults), is_allowed_terminal(&app, &[]));
    }
}
