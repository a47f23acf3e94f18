//! Rollout files as a whole, and choosing among them.

use termcopy::codex::{find_by_id, load, parse, recent, resolve_session_ref, BlockKind};
use termcopy::sessions::{
    find_if_settled, recent_if_settled, rollout_files, session_dirs, sorted_dirs_desc, SessionDir,
    SessionRef,
};

const ROLLOUT: &str = "{\"type\":\"session_meta\",\"payload\":{\"id\":\"11111111-2222\",\"cwd\":\"/work\",\"cli_version\":\"0.147.0\"}}\n";

fn names(list: &[&str]) -> Vec<Vec<u8>> {
    list.iter().map(|name| name.as_bytes().to_vec()).collect()
}

#[test]
fn a_rollout_with_a_header_alone_is_a_transcript() {
    let transcript = load("/x/rollout-a.jsonl", "rollout-a", ROLLOUT.as_bytes()).unwrap();
    assert_eq!(transcript.path, "/x/rollout-a.jsonl");
    assert_eq!(transcript.stem, "rollout-a");
    assert_eq!(transcript.meta.id.as_deref(), Some("11111111-2222"));
    assert_eq!(transcript.meta.cwd.as_deref(), Some("/work"));
    assert_eq!(transcript.meta.cli_version.as_deref(), Some("0.147.0"));
    assert!(transcript.blocks.is_empty());
    assert_eq!(transcript.short_id(), "11111111");
    let copy = transcript.clone();
    assert_eq!(copy.meta, transcript.meta);
    assert_eq!(copy.blocks, transcript.blocks);
}

#[test]
fn the_short_id_falls_back_to_the_file_stem() {
    let line = "{\"type\":\"response_item\",\"payload\":{\"type\":\"agent_message\",\"content\":[\"hi\"]}}";
    let mut transcript = load("p", "rollout-stem", line.as_bytes()).unwrap();
    assert_eq!(transcript.short_id(), "rollout-stem");
    transcript.meta.id = Some("nohyphen".to_string());
    assert_eq!(transcript.short_id(), "nohyphen");
    transcript.meta.id = Some("-x".to_string());
    assert_eq!(transcript.short_id(), "");
}

#[test]
fn a_file_without_records_is_refused_by_name() {
    let error = load("/tmp/notes.txt", "notes", b"{}\n[]\n").unwrap_err();
    assert_eq!(error.message(), "/tmp/notes.txt is not a Codex rollout file");
    assert!(load("p", "s", b"").is_err());
}

#[test]
fn block_kinds_have_names() {
    assert_eq!(BlockKind::AgentMessage.label(), "assistant message");
    assert_eq!(BlockKind::UserMessage.label(), "user message");
    assert_eq!(BlockKind::Reasoning.label(), "reasoning");
    assert_eq!(BlockKind::Command.label(), "command");
    assert_eq!(BlockKind::CommandOutput.label(), "command output");
}

#[test]
fn directories_are_ordered_by_component_newest_first() {
    let days = vec![
        names(&["2026", "08", "09"]),
        names(&["2025", "12", "31"]),
        names(&["2026", "10", "01"]),
        names(&["2026", "08", "10"]),
        // A longer name is later than its own beginning, whatever follows it.
        names(&["2026", "08-", "01"]),
    ];
    assert_eq!(sorted_dirs_desc(&days), vec![2, 4, 3, 0, 1]);
    assert_eq!(
        session_dirs(&days, true),
        vec![
            SessionDir::Day(2),
            SessionDir::Day(4),
            SessionDir::Day(3),
            SessionDir::Day(0),
            SessionDir::Day(1),
            SessionDir::Archived,
        ]
    );
    assert_eq!(session_dirs(&Vec::new(), false), vec![]);
    assert_eq!(session_dirs(&Vec::new(), true), vec![SessionDir::Archived]);
}

#[test]
fn only_rollout_files_are_listed_newest_first() {
    let mut listed = names(&[
        "rollout-2026-08-08T09-00-00-a.jsonl",
        "notes.txt",
        "rollout-2026-08-08T10-00-00-b.jsonl",
        "rollout-2026-08-08T10-00-00-b.json",
        "xrollout-2026-08-08T11-00-00-c.jsonl",
        "rollout-2026-08-08T08-00-00-d.jsonl",
    ]);
    listed.push(b"rollout-\xFF.jsonl".to_vec());
    assert_eq!(rollout_files(&listed), vec![2, 0, 5]);
    assert_eq!(rollout_files(&Vec::new()), Vec::<usize>::new());
    // A name may be both the prefix and the suffix.
    assert_eq!(rollout_files(&names(&["rollout-.jsonl"])), vec![0]);
    assert_eq!(rollout_files(&names(&["rollout.jsonl"])), Vec::<usize>::new());
}

fn listing() -> Vec<Vec<Vec<u8>>> {
    vec![
        names(&["rollout-2-x.jsonl", "rollout-3-y.jsonl"]),
        names(&["readme"]),
        names(&["rollout-1-z.jsonl", "rollout-0-x.jsonl"]),
    ]
}

#[test]
fn the_most_recent_sessions_come_first_up_to_the_limit() {
    assert_eq!(recent(&listing(), 10), vec![(0, 1), (0, 0), (2, 0), (2, 1)]);
    assert_eq!(recent(&listing(), 3), vec![(0, 1), (0, 0), (2, 0)]);
    assert_eq!(recent(&listing(), 1), vec![(0, 1)]);
    assert_eq!(recent(&listing(), 0), vec![]);
    assert_eq!(recent(&Vec::new(), 5), vec![]);
    // Two sessions are found in the first directory alone, so no more are needed.
    let first = listing()[..1].to_vec();
    assert_eq!(recent(&first, 2), recent(&listing(), 2));
}

#[test]
fn a_session_is_found_by_the_end_of_its_file_name() {
    assert_eq!(find_by_id(&listing(), "x"), Some((0, 0)));
    assert_eq!(find_by_id(&listing(), "z"), Some((2, 0)));
    assert_eq!(find_by_id(&listing(), "3-y"), Some((0, 1)));
    assert_eq!(find_by_id(&listing(), "q"), None);
    assert_eq!(find_by_id(&listing(), ""), None);
    // What was found in the directories read so far stays found.
    let first = listing()[..1].to_vec();
    assert_eq!(find_by_id(&first, "x"), find_by_id(&listing(), "x"));
}

#[test]
fn a_session_is_found_where_it_comes_first_among_all_recent_ones() {
    let listing = listing();
    for id in ["x", "y", "z", "3-y", "0-x", "q", ""] {
        let suffix = format!("-{id}.jsonl").into_bytes();
        let first = recent(&listing, usize::MAX)
            .into_iter()
            .find(|(dir, file)| listing[*dir][*file].ends_with(&suffix));
        assert_eq!(find_by_id(&listing, id), first, "{id:?}");
    }
    assert_eq!(find_by_id(&listing, "0-x"), Some((2, 1)));
}

#[test]
fn rows_that_are_not_read_change_nothing() {
    let message = "{\"type\":\"response_item\",\"payload\":{\"type\":\"agent_message\",\"content\":[{\"text\":\"kept\"}]}}\n";
    let (meta, blocks) = parse(format!("{ROLLOUT}{message}").as_bytes());
    assert_eq!(blocks.len(), 1);
    for row in [
        "{\"type\":\"session_meta\"}",
        "{\"type\":\"turn_context\",\"payload\":{\"id\":\"other\"}}",
        "{\"payload\":{\"type\":\"agent_message\",\"content\":[{\"text\":\"lost\"}]}}",
        "{\"type\":\"response_item\",\"payload\":{\"type\":\"unknown\",\"content\":[{\"text\":\"lost\"}]}}",
        "{\"type\":\"event_msg\",\"payload\":{\"type\":\"item_started\",\"item\":{\"type\":\"AgentMessage\",\"content\":[{\"text\":\"lost\"}]}}}",
        "{\"type\":\"event_msg\",\"payload\":{\"type\":\"item_completed\",\"item\":{\"type\":\"Unknown\",\"content\":[{\"text\":\"lost\"}]}}}",
        "[1, 2]",
        "{\"type\":\"session_meta\",\"payl",
    ] {
        for text in [
            format!("{row}\n{ROLLOUT}{message}"),
            format!("{ROLLOUT}{row}\n{message}"),
            format!("{ROLLOUT}{message}{row}"),
        ] {
            let (other, others) = parse(text.as_bytes());
            assert_eq!(other.id, meta.id, "{row}");
            assert_eq!(others.len(), 1, "{row}");
            assert_eq!(others[0].text, blocks[0].text, "{row}");
        }
    }
}

#[test]
fn reading_stops_as_soon_as_the_answer_is_settled() {
    let first = listing()[..1].to_vec();
    assert_eq!(recent_if_settled(&first, 2, false), Some(vec![(0, 1), (0, 0)]));
    assert_eq!(recent_if_settled(&first, 3, false), None);
    assert_eq!(recent_if_settled(&first, 3, true), Some(vec![(0, 1), (0, 0)]));
    assert_eq!(recent_if_settled(&Vec::new(), 0, false), Some(vec![]));
    assert_eq!(find_if_settled(&first, "x", false), Some(Some((0, 0))));
    assert_eq!(find_if_settled(&first, "z", false), None);
    assert_eq!(find_if_settled(&first, "z", true), Some(None));
    assert_eq!(find_if_settled(&listing(), "z", false), Some(Some((2, 0))));
}

#[test]
fn the_most_recent_sessions_are_the_newest_of_all_directories() {
    let days: Vec<Vec<Vec<u8>>> = vec![
        names(&["2025", "12", "31"]),
        names(&["2026", "01", "02"]),
        names(&["2026", "01", "01"]),
    ];
    let entries = vec![
        names(&["rollout-2025-12-31T09-a.jsonl"]),
        names(&["rollout-2026-01-02T08-b.jsonl", "rollout-2026-01-02T10-c.jsonl"]),
        names(&["notes", "rollout-2026-01-01T07-d.jsonl"]),
    ];
    let mut listing: Vec<Vec<Vec<u8>>> = Vec::new();
    for dir in session_dirs(&days, true) {
        match dir {
            SessionDir::Day(day) => listing.push(entries[day].clone()),
            SessionDir::Archived => listing.push(names(&["rollout-2024-05-05T05-e.jsonl"])),
        }
    }
    let all: Vec<Vec<u8>> = recent(&listing, usize::MAX)
        .into_iter()
        .map(|(dir, file)| listing[dir][file].clone())
        .collect();
    let mut sorted = all.clone();
    sorted.sort();
    sorted.reverse();
    sorted.dedup();
    assert_eq!(all, sorted);
    assert_eq!(all.len(), 5);
    for limit in 0..6 {
        let few = recent(&listing, limit);
        assert_eq!(few, recent(&listing, usize::MAX)[..limit.min(5)].to_vec());
    }
}

#[test]
fn a_session_argument_is_a_path_or_an_id() {
    assert_eq!(
        resolve_session_ref(true, &listing(), "x").unwrap(),
        SessionRef::Path
    );
    assert_eq!(
        resolve_session_ref(false, &listing(), "z").unwrap(),
        SessionRef::Listed(2, 0)
    );
    let error = resolve_session_ref(false, &listing(), "q").unwrap_err();
    assert_eq!(
        error.message("/home/.codex"),
        "no rollout file found for session `q` under /home/.codex"
    );
}
