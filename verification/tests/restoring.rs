//! The one-off pipeline, step by step.

use termcopy::align::{find, Haystack, Match, Options, Strategy};
use termcopy::codex::{load, Block, BlockKind, Transcript};
use termcopy::herdr::{AgentSession, Pane};
use termcopy::normalize::DenseIndex;
use termcopy::restore::{
    candidate_sessions, recent_by_locality, report, search_options, search_transcript,
    wanted_sessions, Fallback, Need, Outcome, Reason, RecentSession, Restoration, Wanted,
};

fn transcript(texts: &[&str]) -> Transcript {
    let header =
        b"{\"type\":\"session_meta\",\"payload\":{\"id\":\"11111111-2222-3333\",\"cwd\":\"/work\"}}";
    let mut transcript = load("rollout-x.jsonl", "rollout-x", header).unwrap();
    transcript.blocks = texts
        .iter()
        .map(|text| Block {
            kind: BlockKind::AgentMessage,
            text: text.to_string(),
        })
        .collect();
    transcript
}

fn pane(id: &str, session: &str) -> Pane {
    Pane {
        pane_id: id.to_string(),
        tab_id: String::new(),
        workspace_id: String::new(),
        focused: false,
        agent: Some("codex".to_string()),
        agent_session: Some(AgentSession {
            value: Some(session.to_string()),
        }),
        cwd: None,
    }
}

fn start(selection: &str, fallback: Fallback) -> Restoration {
    Restoration::start(selection.to_string(), 4, fallback)
}

#[test]
fn a_selection_found_in_the_second_session_is_restored_from_it() {
    let restoration = start("• The target is\n  sample_items", Fallback::Clean);
    assert_eq!(restoration.need(), Need::Sessions);
    let restoration = restoration.listed(3);
    assert_eq!(restoration.need(), Need::Transcript(0));
    let found = restoration.search(&transcript(&["something else"]));
    assert!(found.is_none());
    let restoration = restoration.searched(found);
    assert_eq!(restoration.need(), Need::Transcript(1));
    let second = transcript(&["first", "The target is `sample_items`."]);
    let found = restoration.search(&second).unwrap();
    assert_eq!(
        report(&second, &found),
        "restored 27 characters from session 11111111 (assistant message, exact match)"
    );
    let restoration = restoration.searched(Some(found));
    assert_eq!(restoration.need(), Need::Nothing);
    assert_eq!(restoration.reason(), None);
    let finished = restoration.finish().unwrap();
    assert_eq!(finished.text, "The target is `sample_items");
    assert_eq!(finished.outcome, Outcome::Restored);
    assert_eq!(finished.outcome.exit_code(), 0);
}

#[test]
fn a_selection_in_no_session_falls_back() {
    let selection = "• First row\n  second row";
    let ended = |fallback| {
        start(selection, fallback)
            .listed(2)
            .searched(None)
            .searched(None)
    };
    let restoration = ended(Fallback::Off);
    assert_eq!(restoration.reason(), Some(Reason::NotFound { sessions: 2 }));
    let finished = restoration.finish().unwrap();
    assert_eq!(finished.text, selection);
    assert_eq!(finished.outcome, Outcome::Unverified);
    assert_eq!(finished.outcome.exit_code(), 2);
    assert_eq!(
        ended(Fallback::Clean).finish().unwrap().text,
        "First row\nsecond row"
    );
    assert_eq!(
        ended(Fallback::Rewrap).finish().unwrap().text,
        "First row second row"
    );
}

#[test]
fn a_short_selection_is_not_looked_up() {
    let restoration = start("• ab c", Fallback::Clean);
    assert_eq!(restoration.need(), Need::Nothing);
    assert_eq!(
        restoration.reason(),
        Some(Reason::TooShort {
            length: 3,
            minimum: 4
        })
    );
    assert_eq!(restoration.finish().unwrap().text, "ab c");
    // Sessions that come too late change nothing.
    let restoration = restoration.listed(5);
    assert_eq!(restoration.need(), Need::Nothing);
    assert_eq!(start("abcd", Fallback::Clean).need(), Need::Sessions);
    let index = DenseIndex::from_clusters(&vec!["a", "b", " ", "c", "d"]);
    let given = Restoration::with_index("ab cd".to_string(), index, 5, Fallback::Off);
    assert_eq!(
        given.reason(),
        Some(Reason::TooShort {
            length: 4,
            minimum: 5
        })
    );
}

#[test]
fn no_sessions_end_the_search_at_once() {
    let restoration = start("long enough", Fallback::Off).listed(0);
    assert_eq!(restoration.reason(), Some(Reason::NoSessions));
    assert_eq!(restoration.finish().unwrap().outcome, Outcome::Unverified);
    assert!(start("long enough", Fallback::Off).finish().is_none());
}

#[test]
fn reasons_and_fallbacks_are_put_in_words() {
    let home = "/home/.codex";
    assert_eq!(
        Reason::TooShort {
            length: 3,
            minimum: 4
        }
        .message(home),
        "selection is too short to look up (3 characters, minimum 4)"
    );
    assert_eq!(
        Reason::NoSessions.message(home),
        "no Codex sessions found under /home/.codex"
    );
    assert_eq!(
        Reason::NotFound { sessions: 1 }.message(home),
        "could not find this selection in 1 session"
    );
    assert_eq!(
        Reason::NotFound { sessions: 20 }.message(home),
        "could not find this selection in 20 sessions"
    );
    assert_eq!(Fallback::Off.notice(), "leaving it unchanged");
    assert_eq!(
        Fallback::Clean.notice(),
        "removed TUI decoration, but line breaks are as rendered"
    );
    assert_eq!(
        Fallback::Rewrap.notice(),
        "guessed which line breaks were wrapping; check the result"
    );
}

#[test]
fn a_report_counts_occurrences_and_names_the_strategy() {
    let found = Match {
        text: "caf\u{e9}".to_string(),
        strategy: Strategy::Anchored,
        candidates: 3,
        block: None,
    };
    assert_eq!(
        report(&transcript(&[]), &found),
        "restored 4 characters from session 11111111 (anchored match, most recent of 3 occurrences)"
    );
    let found = Match {
        strategy: Strategy::Trimmed,
        candidates: 1,
        block: Some(BlockKind::Command),
        ..found.clone()
    };
    assert_eq!(
        report(&transcript(&[]), &found),
        "restored 4 characters from session 11111111 (command, trimmed match)"
    );
}

#[test]
fn the_least_length_bounds_the_trim_too() {
    let options = search_options(9);
    assert_eq!(
        (options.max_trim, options.anchor_len, options.min_span),
        (3, 12, 9)
    );
    let source = transcript(&["abcdefghij"]);
    let selection = DenseIndex::build("?cdefghij");
    assert!(search_transcript(&source, &selection, search_options(9)).is_none());
    let found = search_transcript(&source, &selection, search_options(8)).unwrap();
    assert_eq!(found.text, "cdefghij");
    assert_eq!(found.strategy, Strategy::Trimmed);
}

#[test]
fn a_named_session_or_pane_settles_what_is_searched() {
    let panes = [pane("w1:p1", "from-pane")];
    match wanted_sessions(Some("ref"), Some("w1:p1"), &panes) {
        Ok(Wanted::Session(reference)) => assert_eq!(reference, "ref"),
        other => panic!("{other:?}"),
    }
    match wanted_sessions(None, Some("w1:p1"), &panes) {
        Ok(Wanted::Session(reference)) => assert_eq!(reference, "from-pane"),
        other => panic!("{other:?}"),
    }
    assert_eq!(
        wanted_sessions(None, Some("w9:p9"), &panes)
            .unwrap_err()
            .message(),
        "pane w9:p9 is not running a Codex session"
    );
    assert!(matches!(
        wanted_sessions(None, None, &panes),
        Ok(Wanted::Any)
    ));
}

#[test]
fn candidates_are_those_of_panes_and_then_recent_ones_without_repeats() {
    let listing: Vec<Vec<Vec<u8>>> = vec![
        vec![
            b"rollout-4-a.jsonl".to_vec(),
            b"rollout-3-b.jsonl".to_vec(),
        ],
        vec![b"rollout-2-c.jsonl".to_vec()],
    ];
    let panes = [pane("p1", "c"), pane("p2", "missing"), pane("p3", "b")];
    let recent = vec![(0, 0), (0, 1), (1, 0)];
    assert_eq!(
        candidate_sessions(&listing, &panes, Some("p3"), &recent),
        vec![(0, 1), (1, 0), (0, 0)]
    );
    assert_eq!(
        candidate_sessions(&listing, &[], None, &recent),
        recent
    );
    assert_eq!(
        candidate_sessions(&listing, &panes, None, &Vec::new()),
        vec![(1, 0), (0, 1)]
    );
}

#[test]
fn sessions_of_the_current_directory_come_first_in_order() {
    let recent: Vec<RecentSession> = [
        ((0, 0), Some("/elsewhere")),
        ((0, 1), Some("/work")),
        ((1, 0), None),
        ((1, 1), Some("/work")),
    ]
    .into_iter()
    .map(|(file, cwd)| RecentSession {
        file,
        cwd: cwd.map(str::to_string),
    })
    .collect();
    assert_eq!(
        recent_by_locality(&recent, Some("/work")),
        vec![(0, 1), (1, 1), (0, 0), (1, 0)]
    );
    assert_eq!(
        recent_by_locality(&recent, None),
        vec![(0, 0), (0, 1), (1, 0), (1, 1)]
    );
}

fn haystack(texts: &[&str]) -> Haystack {
    Haystack::build(&transcript(texts).blocks)
}

#[test]
fn the_whole_transcript_finds_itself_once() {
    let texts = ["`one` two", "two one", "\u{2728} three\n\tfour"];
    let whole = texts.join("\n\n");
    let found = find(
        &haystack(&texts),
        &DenseIndex::build(&whole),
        Options::default(),
    )
    .unwrap();
    assert_eq!(found.text, &whole[1..]);
    assert_eq!(found.strategy, Strategy::Exact);
    assert_eq!(found.candidates, 1);
}

#[test]
fn the_least_trim_wins_and_the_front_is_kept_where_it_can_be() {
    let options = Options::default();
    // One stray character at the back.
    let found = find(&haystack(&["abcdefgh"]), &DenseIndex::build("abcdefg?"), options).unwrap();
    assert_eq!(found.text, "abcdefg");
    // Both "bcdefg" (one off the front) and "abcdef" (one off the back) occur:
    // nothing taken off the front comes first.
    let both = haystack(&["xbcdefgx abcdefy"]);
    let found = find(&both, &DenseIndex::build("abcdefg"), options).unwrap();
    assert_eq!(found.text, "abcdef");
    // More than `max_trim` at one edge is not tried.
    assert!(find(
        &haystack(&["efghijklmnop"]),
        &DenseIndex::build("????efghijkl"),
        options
    )
    .is_none());
    let wider = Options {
        max_trim: 4,
        ..options
    };
    assert!(find(
        &haystack(&["efghijklmnop"]),
        &DenseIndex::build("????efghijkl"),
        wider
    )
    .is_some());
}

#[test]
fn the_nearest_anchored_span_wins() {
    // The head stands twice; only the nearer one leaves a span close in length.
    let head = "headheadhead";
    let tail = "tailtailtail";
    let source = format!("{head} 12345678901234567890 {head} 123 {tail}");
    let selection = format!("{head}?x?{tail}");
    let found = find(
        &haystack(&[&source]),
        &DenseIndex::build(&selection),
        Options::default(),
    )
    .unwrap();
    assert_eq!(found.strategy, Strategy::Anchored);
    assert_eq!(found.text, format!("{head} 123 {tail}"));
    assert_eq!(found.candidates, 2);
    // Without anchors there is nothing to hold on to.
    let none = Options {
        anchor_len: 0,
        ..Options::default()
    };
    assert!(find(&haystack(&[&source]), &DenseIndex::build(&selection), none).is_none());
}

#[test]
fn the_most_recent_of_equally_near_spans_wins() {
    // Both blocks leave a span of 25 parts for a selection of 26.
    let texts = ["abcdefghijkl`1mnopqrstuvwx", "abcdefghijkl1mnopqrstuvwx"];
    let selection = DenseIndex::build("abcdefghijklZZmnopqrstuvwx");
    let found = find(&haystack(&texts), &selection, Options::default()).unwrap();
    assert_eq!(found.strategy, Strategy::Anchored);
    assert_eq!(found.text, "abcdefghijkl1mnopqrstuvwx");
    assert_eq!(found.candidates, 2);
    let reversed = [texts[1], texts[0]];
    let found = find(&haystack(&reversed), &selection, Options::default()).unwrap();
    assert_eq!(found.text, "abcdefghijkl`1mnopqrstuvwx");
    // A nearer span wins over a later one.
    let nearer = ["abcdefghijkl12mnopqrstuvwx", "abcdefghijkl1mnopqrstuvwx"];
    let found = find(&haystack(&nearer), &selection, Options::default()).unwrap();
    assert_eq!(found.text, "abcdefghijkl12mnopqrstuvwx");
    assert_eq!(found.candidates, 2);
}

#[test]
fn any_stretch_of_a_transcript_is_found_whatever_the_options() {
    let text = "`one` \u{1F469}\u{200D}\u{1F4BB} two\n\u{2022} one caf\u{E9} one";
    let index = DenseIndex::build(text);
    let narrow = Options { max_trim: 0, anchor_len: 0, min_span: 0 };
    for start in 0..index.len() {
        for end in start + 1..=index.len() {
            let selection = DenseIndex::build(index.slice(start, end));
            let found = find(&haystack(&[text]), &selection, Options::default()).unwrap();
            assert_eq!(found.strategy, Strategy::Exact);
            assert_eq!(DenseIndex::build(&found.text).dense(), index.dense_slice(start, end));
            assert_eq!(found.block, Some(BlockKind::AgentMessage));
            let again = find(&haystack(&[text]), &selection, narrow).unwrap();
            assert_eq!(again.text, found.text);
            assert_eq!(again.candidates, found.candidates);
        }
    }
    let found = find(&haystack(&[text]), &DenseIndex::build("one"), narrow).unwrap();
    assert_eq!(found.candidates, 3);
    assert_eq!(found.text, "one");
    let overlapping = find(&haystack(&["ababa"]), &DenseIndex::build("aba"), narrow).unwrap();
    assert_eq!(overlapping.candidates, 2);
}

#[test]
fn texts_on_lines_of_their_own_are_reduced_each_for_itself() {
    for (a, b) in [("", ""), ("ab c", "d"), ("x\r", "\u{301}y"), ("\u{1F1E6}", "\u{1F1E7}")] {
        let (first, second) = (DenseIndex::build(a), DenseIndex::build(b));
        let both = DenseIndex::build(&format!("{a}\n{b}"));
        assert_eq!(both.dense(), format!("{}{}", first.dense(), second.dense()));
        assert_eq!(both.len(), first.len() + second.len());
        assert_eq!(both.graphemes_before(a.len() + 1), first.len());
        assert_eq!(both.graphemes_before(0), 0);
        assert_eq!(both.graphemes_before(a.len() + b.len() + 1), both.len());
        assert_eq!(both.graphemes_before(usize::MAX), both.len());
        for byte in 0..a.len() + b.len() + 1 {
            assert!(both.graphemes_before(byte) <= both.graphemes_before(byte + 1));
        }
    }
}

#[test]
fn every_match_reports_a_block() {
    // Line feeds and carriage returns stand at the edges of the blocks.
    let blocks = vec![
        Block { kind: BlockKind::UserMessage, text: "\r\nfirst\r".to_string() },
        Block { kind: BlockKind::Command, text: "\n\u{301}second\n".to_string() },
        Block { kind: BlockKind::AgentMessage, text: "\u{301}third".to_string() },
    ];
    let haystack = Haystack::build(&blocks);
    for (selection, kind) in [
        ("first", BlockKind::UserMessage),
        ("firs", BlockKind::UserMessage),
        ("second", BlockKind::Command),
        ("econd", BlockKind::Command),
        ("\u{301}third", BlockKind::AgentMessage),
        ("hird", BlockKind::AgentMessage),
    ] {
        let found = find(&haystack, &DenseIndex::build(selection), Options::default()).unwrap();
        assert_eq!(found.block, Some(kind), "{selection:?}");
    }
    let whole = "\u{301}second\n\n\n\u{301}third";
    let found = find(&haystack, &DenseIndex::build(whole), Options::default()).unwrap();
    assert_eq!(found.text, whole);
    assert_eq!(found.block, Some(BlockKind::Command));
}

#[test]
fn blocks_that_begin_empty_put_nothing_in_front() {
    let blocks = transcript(&["", "", "first", "", "second"]).blocks;
    let haystack = Haystack::build(&blocks);
    assert!(!haystack.is_empty());
    let found = find(
        &haystack,
        &DenseIndex::build("first second"),
        Options::default(),
    )
    .unwrap();
    assert_eq!(found.text, "first\n\n\n\nsecond");
    let given = Haystack::with_index(&blocks, DenseIndex::build("first\n\n\n\nsecond"));
    assert!(!given.is_empty());
}

#[test]
fn default_options_and_labels() {
    let options = Options::default();
    assert_eq!(
        (options.max_trim, options.anchor_len, options.min_span),
        (3, 12, 4)
    );
    assert_eq!(Strategy::Exact.label(), "exact match");
    assert_eq!(Strategy::Trimmed.label(), "trimmed match");
    assert_eq!(Strategy::Anchored.label(), "anchored match");
}
