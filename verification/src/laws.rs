//! What the operations promise together, said of the values that go in and come out.
//!
//! A law here speaks of calls: `call_ensures` of an operation, its arguments and its
//! result is what the caller of it knows. The laws of the single modules say the same
//! things of the models.

use vstd::prelude::*;
use vstd::utf8::encode_utf8;

use crate::align;
use crate::align::{
    joined, kind_at, law_a_selection_is_found_by_its_edges,
    law_a_selection_with_stray_edges_is_found, law_every_kept_cluster_is_in_a_block,
    law_found_text_is_part_of_the_transcript, law_reported_block_holds_the_match,
    law_the_last_exact_occurrence_wins, law_the_reported_kind_is_that_of_the_block,
    law_the_whole_transcript_finds_itself, located, separated, Haystack, Match, Options, Strategy,
};
use crate::automatic::{
    allowed_terminal, identified, is_allowed_terminal, is_focused_codex_pane,
    law_a_filter_allows_what_it_is_part_of, law_a_focused_pane_runs_codex,
    law_a_restoration_is_told_everything, law_a_watcher_is_told_everything,
    law_an_answer_reads_back, law_filters_are_taken_from_the_application,
    law_the_launching_application_is_allowed, lowercase, parse_frontmost_application,
    restore_arguments, terminal_filters, watcher_arguments, FrontmostApplication, NoApplication,
    WatchOptions,
};
use crate::bytes::decoded;
use crate::clipboard::{base64_read, osc52_sequence, TooLong};
use crate::codex::{
    after_record, block_views, contents, law_a_file_is_read_to_its_end,
    law_a_row_is_read_by_itself, law_a_session_is_reported_briefly, law_every_completed_item_is_read, law_every_response_is_read,
    law_the_header_is_that_of_its_record,
    lemma_names_differ, load, parse, session_cwd, Block, BlockKind, NotRollout, SessionMeta, Transcript,
};
use crate::herdr::{
    law_every_session_is_listed, law_sessions_are_listed_once, law_the_own_pane_comes_first,
    pane_session, ranked_session_ids, ranked_sessions, Pane,
};
use crate::heuristic::{
    blank_lines, law_ascii_rows_are_joined_with_a_space, law_cleaning_keeps_rows_and_columns,
    law_joining_only_runs_rows_together, line_feeds, neat, on_lines, opens_no_list,
    rendered_rows, rewrap, set_off, without_white_space,
};
use crate::json::{field, json_text, text_field, Json, JsonView};
use crate::normalize::{
    dense_text, is_droppable, kept, law_a_diff_number_is_taken_off,
    law_a_readable_text_is_sliced_whole, law_other_numbers_stay, pieces,
    strip_diff_line_numbers, without_diff_numbers, written, DenseIndex,
};
use crate::record::{
    command_text, content_text, injected_opening, injected_tag, is_synthetic_user_text,
    join_text_parts, law_a_literal_reads_back, law_arguments_follow_the_script,
    law_injected_turns_are_told_by_their_tags, law_literals_are_shown_one_per_line,
    law_other_commands_are_their_words, law_output_is_unwrapped, law_parts_are_read_in_a_row,
    law_scaffolding_is_not_shown, literals, output_text, parse_tool_output, quoted,
    script_literals, shell_script, word_values,
};
use crate::restore::{
    candidate_sessions, files_of, law_a_report_says_where_the_text_came_from,
    law_candidates_are_complete_and_distinct, law_every_listed_session_is_searched,
    law_local_sessions_come_first_in_order, law_pane_sessions_come_first, recent_by_locality, report, search_options,
    wanted_sessions, Fallback, Finished, Need, NoSessionInPane, Outcome, Progress, Reason,
    RecentSession, Restoration, Wanted,
};
use crate::search::{law_hits_are_occurrences, occurs};
use crate::segment::graphemes;
use crate::sessions::{
    all_files, file_of, find_by_id, find_if_settled, is_listed,
    law_a_session_is_found_by_its_id, law_recent_sessions_are_the_newest, newest_dirs_first,
    no_newer, optional_pair, pair, pairs, recent, recent_if_settled, resolve_session_ref,
    SessionRef, UnknownSession,
};
use crate::text::{
    blank, decimal, join, lemma_leading, number_read, option_view, string_view, trim, trim_start,
    views, white_space,
};
use crate::watcher::{
    action_view, law_a_differing_restoration_is_written, law_a_new_copy_is_looked_up,
    law_only_a_confirmed_restoration_is_written, watch, Action, ActionView, Event, EventView,
    PhaseView, Watcher,
};

verus! {

// Finding a selection

/// A text that begins and ends with something readable, selected whole, is found exactly and
/// comes back whole, with both its edges, whatever stands between them and whatever the
/// options are, and as what it is.
pub proof fn law_a_whole_block_comes_back_whole(
    blocks: &[Block],
    haystack: Haystack,
    rendered: &str,
    selection: DenseIndex,
    options: Options,
    found: Option<Match>,
)
    requires
        call_ensures(Haystack::build, (blocks,), haystack),
        call_ensures(DenseIndex::from_rendered, (rendered,), selection),
        call_ensures(align::find, (&haystack, &selection, options), found),
        blocks@.len() == 1,
        rendered@ == blocks@[0].text@,
        without_diff_numbers(rendered@) == rendered@,
        rendered@.len() > 0,
        written(rendered@[0] as int),
        written(rendered@.last() as int),
    ensures
        found matches Some(found) && found.text@ == rendered@ && found.strategy == Strategy::Exact
            && found.candidates == 1 && found.block == Some(blocks@[0].kind),
{
    let clusters = haystack.clusters();
    assert(blocks@.drop_last() == Seq::<Block>::empty());
    assert(separated(joined(blocks@.drop_last())) == Seq::<char>::empty());
    assert(joined(blocks@) == rendered@);
    assert(selection.clusters() == clusters);
    law_a_readable_text_is_sliced_whole(clusters);
    law_the_whole_transcript_finds_itself(clusters, options);
    law_every_kept_cluster_is_in_a_block(blocks@, clusters, 0);
    law_reported_block_holds_the_match(blocks@, clusters, haystack.spans(), 0);
    law_the_reported_kind_is_that_of_the_block(blocks@, clusters, 0);
    assert(kind_at(haystack.spans(), 0) == Some(blocks@[0].kind));
}

/// Whatever readable text occurs in a transcript is found exactly, the last time that it
/// occurs, and what comes back has the dense form of what was selected.
pub proof fn law_what_occurs_is_found(
    haystack: &Haystack,
    selection: &DenseIndex,
    options: Options,
    found: Option<Match>,
    start: int,
    end: int,
)
    requires
        call_ensures(align::find, (haystack, selection, options), found),
        dense_text(selection.clusters()).len() > 0,
        occurs(pieces(haystack.clusters()), dense_text(selection.clusters()), start, end),
    ensures
        found matches Some(found) && found.strategy == Strategy::Exact && exists|a: int, b: int|
            {
                &&& start <= a < b <= kept(haystack.clusters()).len()
                &&& #[trigger] occurs(
                    pieces(haystack.clusters()),
                    dense_text(selection.clusters()),
                    a,
                    b,
                )
                &&& found.text@ == haystack.clusters().subrange(
                    kept(haystack.clusters())[a],
                    kept(haystack.clusters())[b - 1] + 1,
                ).flatten()
            },
{
    let clusters = haystack.clusters();
    let needle = pieces(selection.clusters()).flatten();
    law_the_last_exact_occurrence_wins(clusters, selection.clusters(), options, start, end);
    law_hits_are_occurrences(clusters, needle);
    let (place, _) = located(pieces(clusters), pieces(selection.clusters()), options)->0;
    law_found_text_is_part_of_the_transcript(clusters, selection.clusters(), options);
    assert(occurs(pieces(clusters), needle, place.start, place.end));
}

/// A character is dropped exactly when nothing readable is written with it.
pub proof fn law_only_what_is_not_readable_is_dropped(ch: char, yes: bool)
    requires
        call_ensures(is_droppable, (ch,), yes),
    ensures
        yes <==> !written(ch as int),
{
}

/// The number of a diff gutter is taken off a line, and other lines stay as they are.
pub proof fn law_diff_numbers_are_taken_off(
    rendered: &str,
    plain: String,
    blanks: Seq<char>,
    number: Seq<char>,
    sign: char,
    rest: Seq<char>,
)
    requires
        call_ensures(strip_diff_line_numbers, (rendered,), plain),
        forall|i: int| 0 <= i < blanks.len() ==> #[trigger] blanks[i] == ' ' || blanks[i] == '\t',
        number.len() > 0,
        forall|i: int| 0 <= i < number.len() ==> '0' <= #[trigger] number[i] <= '9',
        forall|i: int| 0 <= i < rest.len() - 1 ==> #[trigger] rest[i] != '\n',
    ensures
        (sign == '+' || sign == '-') && rendered@ == blanks + number + seq![' ', sign] + rest
            ==> plain@ == blanks + seq![' ', sign] + rest,
        rest.len() > 0 && !('0' <= rest[0] <= '9') && !(rest.len() >= 2 && rest[0] == ' ' && (
        rest[1] == '+' || rest[1] == '-')) && rendered@ == blanks + number + rest ==> plain@
            == rendered@,
{
    if sign == '+' || sign == '-' {
        law_a_diff_number_is_taken_off(blanks, number, sign, rest);
    }
    if rest.len() > 0 && !('0' <= rest[0] <= '9') && !(rest.len() >= 2 && rest[0] == ' ' && (
    rest[1] == '+' || rest[1] == '-')) {
        law_other_numbers_stay(blanks, number, rest);
    }
}

// Tidying a selection

/// Wrapped ASCII rows are joined with exactly one space, and cleaned they stay on their
/// lines.
pub proof fn law_wrapped_rows_are_joined(
    selection: &str,
    joined_rows: String,
    cleaned: String,
    prefixes: Seq<Seq<char>>,
    texts: Seq<Seq<char>>,
    column: nat,
)
    requires
        call_ensures(rewrap, (selection, true), joined_rows),
        call_ensures(rewrap, (selection, false), cleaned),
        selection@ == on_lines(set_off(prefixes, texts)),
        rendered_rows(prefixes, texts),
        forall|i: int| 0 <= i < prefixes.len() ==> (#[trigger] prefixes[i]).len() == column,
        forall|i: int| 1 <= i < texts.len() ==> opens_no_list(#[trigger] texts[i]),
        forall|i: int|
            0 <= i < texts.len() ==> (#[trigger] texts[i])[0] as int <= 0x7F && texts[i].last() as int
                <= 0x7F,
    ensures
        joined_rows@ == join(texts, seq![' ']),
        cleaned@ == join(texts, seq!['\n']),
{
    assert(prefixes[0].len() == column);
    assert(prefixes[prefixes.len() - 1].len() == column);
    assert forall|i: int| 1 <= i < prefixes.len() implies (#[trigger] prefixes[i]).len()
        <= prefixes[i - 1].len() by {
        assert(prefixes[i - 1].len() == column);
    }
    law_ascii_rows_are_joined_with_a_space(prefixes, texts);
    assert(Seq::new(
        (prefixes[0].len() - prefixes.last().len()) as nat,
        |k: int| ' ',
    ) + join(texts, seq![' ']) =~= join(texts, seq![' ']));
    law_cleaning_keeps_rows_and_columns(prefixes, texts, 0);
    let lined = Seq::new(
        texts.len(),
        |i: int| Seq::new((prefixes[i].len() - prefixes[0].len()) as nat, |k: int| ' ') + texts[i],
    );
    assert forall|i: int| 0 <= i < texts.len() implies #[trigger] lined[i] == texts[i] by {
        assert(prefixes[i].len() == column);
        assert(lined[i] =~= texts[i]);
    }
    assert(lined == texts);
}

/// Whatever was selected, joining its rows keeps all that is not white space, adds no line
/// break and keeps every blank line; nothing trails and no blank line is doubled.
pub proof fn law_joining_is_harmless(selection: &str, joined_rows: String, cleaned: String)
    requires
        call_ensures(rewrap, (selection, true), joined_rows),
        call_ensures(rewrap, (selection, false), cleaned),
    ensures
        without_white_space(joined_rows@) == without_white_space(cleaned@),
        line_feeds(joined_rows@) <= line_feeds(cleaned@),
        blank_lines(joined_rows@) == blank_lines(cleaned@),
        neat(joined_rows@),
        neat(cleaned@),
{
    law_joining_only_runs_rows_together(selection@);
}

/// Without a match a selection is left, cleaned or rewrapped, as was asked for.
pub proof fn law_a_fallback_is_what_was_asked_for(
    selection: &str,
    off: String,
    clean: String,
    rewrapped_text: String,
    joined_rows: String,
    cleaned: String,
)
    requires
        call_ensures(Fallback::apply, (Fallback::Off, selection), off),
        call_ensures(Fallback::apply, (Fallback::Clean, selection), clean),
        call_ensures(Fallback::apply, (Fallback::Rewrap, selection), rewrapped_text),
        call_ensures(rewrap, (selection, true), joined_rows),
        call_ensures(rewrap, (selection, false), cleaned),
    ensures
        off@ == selection@,
        clean@ == cleaned@,
        rewrapped_text@ == joined_rows@,
{
}

// Reading a rollout file

/// The output of every completed command is read, whatever was read before and whatever
/// follows, and so is the command.
pub proof fn law_every_completed_command_is_read(
    bytes: &[u8],
    read: (SessionMeta, Vec<Block>),
    front: Seq<u8>,
    row: Seq<u8>,
    back: Seq<u8>,
    text: Seq<char>,
    record: JsonView,
    payload: JsonView,
    item: JsonView,
    shown: Seq<char>,
)
    requires
        call_ensures(parse, (bytes,), read),
        bytes@ == (front + (row + seq![0x0Au8])) + back,
        front.len() > 0 ==> front.last() == 0x0A,
        !row.contains(0x0Au8),
        row.len() > 0 ==> row.last() != 0x0D,
        decoded(row) == Some(text),
        json_text(text) == Some(record),
        field(record, "payload"@) == Some(payload),
        text_field(record, "type"@) == Some("event_msg"@),
        text_field(payload, "type"@) == Some("item_completed"@),
        field(payload, "item"@) == Some(item),
        text_field(item, "type"@) == Some("CommandExecution"@),
        text_field(item, "aggregated_output"@) == Some(shown) || command_text(
            field(item, "command"@),
        ) == Some(shown),
        !blank(shown),
    ensures
        exists|i: int| 0 <= i < read.1@.len() && (#[trigger] read.1@[i]).text@ == shown,
{
    law_every_completed_item_is_read(contents(front), record, payload, item, shown);
    lemma_names_differ();
    lemma_read_to_the_end(bytes, read, front, row, back, text, record, shown);
}

/// Every text of a completed message or of a response is read, whatever was read before
/// and whatever follows.
pub proof fn law_every_message_is_read(
    bytes: &[u8],
    read: (SessionMeta, Vec<Block>),
    front: Seq<u8>,
    row: Seq<u8>,
    back: Seq<u8>,
    text: Seq<char>,
    record: JsonView,
    payload: JsonView,
    item: JsonView,
    shown: Seq<char>,
)
    requires
        call_ensures(parse, (bytes,), read),
        bytes@ == (front + (row + seq![0x0Au8])) + back,
        front.len() > 0 ==> front.last() == 0x0A,
        !row.contains(0x0Au8),
        row.len() > 0 ==> row.last() != 0x0D,
        decoded(row) == Some(text),
        json_text(text) == Some(record),
        field(record, "payload"@) == Some(payload),
        !blank(shown),
        ({
            let completed = text_field(record, "type"@) == Some("event_msg"@) && text_field(
                payload,
                "type"@,
            ) == Some("item_completed"@) && field(payload, "item"@) == Some(item);
            let response = text_field(record, "type"@) == Some("response_item"@);
            let content = content_text(field(payload, "content"@));
            ||| completed && text_field(item, "type"@) == Some("AgentMessage"@) && content_text(
                field(item, "content"@),
            ) == Some(shown)
            ||| completed && text_field(item, "type"@) == Some("UserMessage"@) && content_text(
                field(item, "content"@),
            ) == Some(shown)
            ||| completed && text_field(item, "type"@) == Some("Reasoning"@) && content_text(
                field(item, "summary_text"@),
            ) == Some(shown)
            ||| response && text_field(payload, "type"@) == Some("message"@) && text_field(
                payload,
                "role"@,
            ) == Some("assistant"@) && content == Some(shown)
            ||| response && text_field(payload, "type"@) == Some("message"@) && text_field(
                payload,
                "role"@,
            ) == Some("user"@) && content == Some(shown) && !injected_opening(trim_start(shown))
            ||| response && text_field(payload, "type"@) == Some("reasoning"@) && content_text(
                field(payload, "summary"@),
            ) == Some(shown)
            ||| response && text_field(payload, "type"@) == Some("agent_message"@) && content
                == Some(shown)
            ||| response && text_field(payload, "type"@) == Some("custom_tool_call_output"@)
                && output_text(field(payload, "output"@)) == Some(shown)
        }),
    ensures
        exists|i: int| 0 <= i < read.1@.len() && (#[trigger] read.1@[i]).text@ == shown,
{
    lemma_names_differ();
    if text_field(record, "type"@) == Some("event_msg"@) {
        law_every_completed_item_is_read(contents(front), record, payload, item, shown);
    } else {
        law_every_response_is_read(contents(front), record, payload, shown);
    }
    lemma_read_to_the_end(bytes, read, front, row, back, text, record, shown);
}

/// A text that one row added is still there when the file has been read.
proof fn lemma_read_to_the_end(
    bytes: &[u8],
    read: (SessionMeta, Vec<Block>),
    front: Seq<u8>,
    row: Seq<u8>,
    back: Seq<u8>,
    text: Seq<char>,
    record: JsonView,
    shown: Seq<char>,
)
    requires
        call_ensures(parse, (bytes,), read),
        bytes@ == (front + (row + seq![0x0Au8])) + back,
        front.len() > 0 ==> front.last() == 0x0A,
        !row.contains(0x0Au8),
        row.len() > 0 ==> row.last() != 0x0D,
        decoded(row) == Some(text),
        json_text(text) == Some(record),
        exists|i: int|
            0 <= i < after_record(contents(front), record).blocks.len() && (
            #[trigger] after_record(contents(front), record).blocks[i]).text == shown,
    ensures
        exists|i: int| 0 <= i < read.1@.len() && (#[trigger] read.1@[i]).text@ == shown,
{
    law_a_row_is_read_by_itself(front, row, seq![0x0Au8], text);
    let after = after_record(contents(front), record).blocks;
    let i = choose|i: int| 0 <= i < after.len() && (#[trigger] after[i]).text == shown;
    let upto = front + row;
    assert(upto.push(0x0Au8) == front + (row + seq![0x0Au8]));
    law_a_file_is_read_to_its_end(upto, back, i);
    assert(block_views(read.1@)[i].text == read.1@[i].text@);
}

/// The header is the one that the file says, and a first line tells the same directory.
pub proof fn law_the_first_line_tells_the_directory(
    first_line: &[u8],
    cwd: Option<String>,
    text: Seq<char>,
    record: JsonView,
    payload: JsonView,
)
    requires
        call_ensures(session_cwd, (first_line,), cwd),
        decoded(first_line@) == Some(text),
        json_text(text) == Some(record),
        field(record, "payload"@) == Some(payload),
    ensures
        text_field(record, "type"@) == Some("session_meta"@) ==> string_view(cwd) == text_field(
            payload,
            "cwd"@,
        ),
        text_field(record, "type"@) != Some("session_meta"@) ==> cwd is None,
{
}

/// A file is a transcript as soon as it says anything, and comes with all that was read.
pub proof fn law_a_file_that_says_anything_is_loaded(
    path: &str,
    stem: &str,
    bytes: &[u8],
    loaded: Result<Transcript, NotRollout>,
    read: (SessionMeta, Vec<Block>),
)
    requires
        call_ensures(load, (path, stem, bytes), loaded),
        call_ensures(parse, (bytes,), read),
    ensures
        loaded is Err <==> read.0.id is None && read.0.cwd is None && read.0.cli_version is None
            && read.1@.len() == 0,
        loaded matches Ok(transcript) ==> transcript.path@ == path@ && transcript.stem@ == stem@
            && transcript.meta@ == read.0@ && block_views(transcript.blocks@) == block_views(
            read.1@,
        ),
{
}

// Watching the clipboard

/// Every restoration that differs from the copy is written, whatever the texts are: when the
/// copy was looked up, the command is still there and the clipboard unchanged, the watcher
/// asks for the restored text to be written, and nothing else.
pub proof fn law_every_differing_restoration_is_written(
    asking: Watcher,
    lookup: Action<'_>,
    copy: Seq<char>,
    found: Event,
    confirming: Watcher,
    alive: Event,
    rereading: Watcher,
    unchanged: Event,
    writing: Watcher,
    write: Action<'_>,
    restored: Seq<char>,
)
    requires
        call_ensures(Watcher::action, (&asking,), lookup),
        action_view(lookup) == ActionView::Restore(copy),
        call_ensures(Watcher::advance, (asking, found), confirming),
        call_ensures(Watcher::advance, (confirming, alive), rereading),
        call_ensures(Watcher::advance, (rereading, unchanged), writing),
        call_ensures(Watcher::action, (&writing,), write),
        found matches Event::Restored(Some(text)) && text@ == restored,
        alive == Event::Parent(true),
        unchanged matches Event::Clipboard(Some(text)) && text@ == copy,
        restored != copy,
    ensures
        action_view(write) == ActionView::Write(restored),
{
    assert(asking.state().phase == (PhaseView::Restoring { selection: copy }));
    law_a_differing_restoration_is_written(
        asking.filters(),
        asking.pane(),
        asking.state(),
        copy,
        restored,
    );
}

/// Every new copy is looked up: from the start on, once the command is there, the pause is
/// over and the clipboard holds another text than at the start, with an allowed terminal in
/// front, the watcher asks for exactly that text to be looked up.
pub proof fn law_every_new_copy_is_looked_up(
    options: WatchOptions,
    clipboard: Option<String>,
    started: Watcher,
    sleeping: Watcher,
    woken: Watcher,
    reading: Watcher,
    copied: Event,
    locating: Watcher,
    app: FrontmostApplication,
    asking: Watcher,
    lookup: Action<'_>,
    copy: Seq<char>,
)
    requires
        call_ensures(watch, (options, clipboard), started),
        call_ensures(Watcher::advance, (started, Event::Parent(true)), sleeping),
        call_ensures(Watcher::advance, (sleeping, Event::Slept), woken),
        call_ensures(Watcher::advance, (woken, Event::Parent(true)), reading),
        call_ensures(Watcher::advance, (reading, copied), locating),
        call_ensures(Watcher::advance, (locating, Event::Frontmost(Some(app))), asking),
        call_ensures(Watcher::action, (&asking,), lookup),
        copied matches Event::Clipboard(Some(text)) && text@ == copy,
        string_view(clipboard) != Some(copy),
        options.pane is None,
        allowed_terminal(app, views(options.terminal_apps@)),
    ensures
        action_view(lookup) == ActionView::Restore(copy),
{
    law_a_new_copy_is_looked_up(
        started.filters(),
        started.pane(),
        started.state(),
        copy,
        app,
        Seq::empty(),
    );
}

/// Automatic mode writes nothing of its own: whatever it is told, a watcher comes to ask for
/// a text to be written only from having that text restored, when the clipboard was seen to
/// hold what it was restored from.
pub proof fn law_only_what_was_restored_is_written(
    before: Watcher,
    event: Event,
    after: Watcher,
    asked: Action<'_>,
    written_text: Seq<char>,
)
    requires
        call_ensures(Watcher::advance, (before, event), after),
        call_ensures(Watcher::action, (&after,), asked),
        action_view(asked) == ActionView::Write(written_text),
    ensures
        match before.state().phase {
            PhaseView::Writing { restored, .. } => restored == written_text,
            PhaseView::Rereading { selection, restored } => restored == written_text && event@
                == EventView::Clipboard(Some(selection)),
            _ => false,
        },
{
    let selection = after.state().phase->Writing_selection;
    assert(after.state().phase == (PhaseView::Writing { selection, restored: written_text }));
    law_only_a_confirmed_restoration_is_written(
        before.filters(),
        before.pane(),
        before.state(),
        event@,
        selection,
        written_text,
    );
}

// Choosing sessions

/// A session whose file is named as Codex names it is listed and found by its id, however
/// long its name is and whatever else is in the directories.
pub proof fn law_a_session_is_listed_and_found(
    listing: &Vec<Vec<Vec<u8>>>,
    files: Vec<(usize, usize)>,
    found: Option<(usize, usize)>,
    dir: int,
    file: int,
    time: Seq<char>,
    id: &str,
)
    requires
        call_ensures(recent, (listing, usize::MAX), files),
        call_ensures(find_by_id, (listing, id), found),
        0 <= dir < listing@.len(),
        0 <= file < listing@[dir]@.len(),
        listing@[dir]@[file]@ == encode_utf8("rollout-"@ + time + "-"@ + id@ + ".jsonl"@),
        all_files(listing.deep_view()).len() <= usize::MAX,
    ensures
        exists|k: int| 0 <= k < files@.len() && pair(#[trigger] files@[k]) == (dir, file),
        found is Some,
        (forall|d: int, f: int, text: Seq<char>|
            0 <= d < listing@.len() && 0 <= f < listing@[d]@.len() && #[trigger] listing@[d]@[f]@
                == #[trigger] encode_utf8(text) && ("-"@ + id@ + ".jsonl"@).is_suffix_of(text) ==> d
                == dir && f == file) ==> (found matches Some(found) && pair(found) == (dir, file)),
{
    let names = listing.deep_view();
    assert(names[dir] == listing@[dir].deep_view());
    assert(names[dir][file] == listing@[dir]@[file]@);
    law_a_session_is_found_by_its_id(names, dir, file, time, id@);
    let all = all_files(names);
    let k = choose|k: int| 0 <= k < all.len() && all[k] == (dir, file);
    assert(pairs(files@)[k] == pair(files@[k]));
    if forall|d: int, f: int, text: Seq<char>|
        0 <= d < listing@.len() && 0 <= f < listing@[d]@.len() && #[trigger] listing@[d]@[f]@
            == #[trigger] encode_utf8(text) && ("-"@ + id@ + ".jsonl"@).is_suffix_of(text) ==> d
            == dir && f == file {
        assert forall|d: int, f: int, text: Seq<char>|
            0 <= d < names.len() && 0 <= f < names[d].len() && #[trigger] names[d][f]
                == #[trigger] encode_utf8(text) && ("-"@ + id@ + ".jsonl"@).is_suffix_of(
                text,
            ) implies d == dir && f == file by {
            assert(names[d] == listing@[d].deep_view());
            assert(names[d][f] == listing@[d]@[f]@);
        }
    }
}

/// The recent sessions come newest first, and a limit leaves out older ones alone.
pub proof fn law_recent_sessions_come_newest_first(
    dirs: Seq<Seq<Seq<u8>>>,
    listing: &Vec<Vec<Vec<u8>>>,
    limit: usize,
    files: Vec<(usize, usize)>,
)
    requires
        call_ensures(recent, (listing, limit), files),
        dirs.len() == listing@.len(),
        newest_dirs_first(dirs),
    ensures
        files@.len() <= limit,
        forall|i: int, j: int|
            0 <= i < j < files@.len() ==> no_newer(
                dirs,
                listing.deep_view(),
                pair(#[trigger] files@[j]),
                pair(#[trigger] files@[i]),
            ),
        forall|file: (int, int), i: int|
            #[trigger] is_listed(listing.deep_view(), file) && 0 <= i < files@.len() && !pairs(
                files@,
            ).contains(file) ==> files@.len() == limit && no_newer(
                dirs,
                listing.deep_view(),
                file,
                pair(#[trigger] files@[i]),
            ),
{
    let names = listing.deep_view();
    law_recent_sessions_are_the_newest(dirs, names, limit as int);
    let all = pairs(files@);
    assert(all.len() == files@.len());
    assert forall|i: int, j: int| 0 <= i < j < files@.len() implies no_newer(
        dirs,
        names,
        pair(#[trigger] files@[j]),
        pair(#[trigger] files@[i]),
    ) by {
        assert(all[i] == pair(files@[i]));
        assert(all[j] == pair(files@[j]));
    }
    assert forall|file: (int, int), i: int|
        #[trigger] is_listed(names, file) && 0 <= i < files@.len() && !all.contains(file) implies
    files@.len() == limit && no_newer(dirs, names, file, pair(#[trigger] files@[i])) by {
        assert(all[i] == pair(files@[i]));
    }
}

/// The session of the pane that the search starts from is tried first, and every session of
/// a pane is tried once.
pub proof fn law_the_own_session_is_tried_first(
    panes: &[Pane],
    id: &str,
    ids: Vec<String>,
    p: int,
    session: Seq<char>,
)
    requires
        call_ensures(ranked_session_ids, (panes, Some(id)), ids),
        0 <= p < panes@.len(),
        panes@[p].pane_id@ == id@,
        panes@[p].codex() == Some(session),
        forall|k: int|
            0 <= k < panes@.len() && k != p ==> (#[trigger] panes@[k]).pane_id@ != id@,
    ensures
        ids@.len() > 0 && ids@[0]@ == session,
        views(ids@).no_duplicates(),
        forall|k: int, other: Seq<char>|
            0 <= k < panes@.len() && #[trigger] panes@[k].codex() == Some(other) ==> #[trigger] views(
                ids@,
            ).contains(other),
{
    let from = Some(id@);
    let ranked = ranked_sessions(panes@, from);
    law_sessions_are_listed_once(panes@, from);
    law_every_session_is_listed(panes@, from, session);
    assert forall|k: int, other: Seq<char>|
        0 <= k < panes@.len() && #[trigger] panes@[k].codex() == Some(other) implies #[trigger] views(
        ids@,
    ).contains(other) by {
        law_every_session_is_listed(panes@, from, other);
    }
    assert(panes@[p].codex() == Some(session));
    let i = choose|i: int| 0 <= i < ranked.len() && ranked[i] == session;
    assert(views(ids@)[0] == ids@[0]@);
    if ranked[0] != session {
        let other = ranked[0];
        law_every_session_is_listed(panes@, from, other);
        assert(ranked.contains(other));
        let q = choose|q: int| 0 <= q < panes@.len() && (#[trigger] panes@[q]).codex() == Some(other);
        law_the_own_pane_comes_first(panes@, id@, p, session, q, other);
        let (a, b) = choose|a: int, b: int|
            0 <= a < b < ranked.len() && #[trigger] ranked[a] == session && #[trigger] ranked[b]
                == other;
        assert(ranked[0] == ranked[b]);
    }
}

// Restoring

/// A restoration ends as its searches went: with the text of the first session that has the
/// selection, verified and with exit code zero, or with the fallback and another code.
pub proof fn law_a_restoration_ends_as_its_searches_went(
    restoration: &Restoration,
    finished: Option<Finished>,
    code: u8,
    session: usize,
    found: Match,
    reason: Reason,
)
    requires
        call_ensures(Restoration::finish, (restoration,), finished),
        finished matches Some(finished) ==> call_ensures(
            Outcome::exit_code,
            (finished.outcome,),
            code,
        ),
    ensures
        restoration.progress() == (Progress::Restored { session, found }) ==> (finished matches Some(
            finished,
        ) && finished.text@ == found.text@ && code == 0),
        restoration.progress() == Progress::Unverified(reason) ==> (finished matches Some(finished)
            && finished.text@ == restoration.fallback().applied(restoration.selection()) && code
            == 2),
        restoration.progress() == Progress::Listing ==> finished is None,
{
}

/// A selection that is long enough is looked up and one that is not is not, and the search
/// goes on until a session has it.
pub proof fn law_a_long_enough_selection_is_looked_up(
    selection: String,
    least: usize,
    fallback: Fallback,
    started: Restoration,
    count: usize,
    listed: Restoration,
    missed: Restoration,
    found: Match,
    restored: Restoration,
)
    requires
        call_ensures(Restoration::start, (selection, least, fallback), started),
        call_ensures(Restoration::listed, (started, count), listed),
        call_ensures(Restoration::searched, (listed, None::<Match>), missed),
        call_ensures(Restoration::searched, (missed, Some(found)), restored),
        kept(graphemes(without_diff_numbers(selection@))).len() >= least,
        count > 1,
    ensures
        started.progress() == Progress::Listing,
        listed.progress() == (Progress::Searching { next: 0, count }),
        missed.progress() == (Progress::Searching { next: 1, count }),
        restored.progress() == (Progress::Restored { session: 1, found }),
        restored.selection() == selection@,
        restored.fallback() == fallback,
{
}

/// An explicit session settles what is searched, then an explicit pane, and only without
/// either everything is.
pub proof fn law_what_is_named_is_searched(
    session: Option<&str>,
    pane: Option<&str>,
    panes: &[Pane],
    wanted_session: Result<Wanted, NoSessionInPane>,
)
    requires
        call_ensures(wanted_sessions, (session, pane, panes), wanted_session),
    ensures
        session matches Some(reference) ==> (wanted_session matches Ok(Wanted::Session(found))
            && found@ == reference@),
        session is None && pane is None ==> wanted_session matches Ok(Wanted::Any),
        session is None ==> (pane matches Some(id) ==> match pane_session(panes@, id@) {
            Some(expected) => wanted_session matches Ok(Wanted::Session(found)) && found@
                == expected,
            None => wanted_session is Err,
        }),
{
}

// Handing over

/// A text that fits is handed to the terminal as it is: what stands between the opening and
/// the end of the sequence reads back as its bytes. A text fits up to 24576 bytes.
pub proof fn law_a_text_is_handed_over_as_it_is(text: &str, sequence: Result<String, TooLong>)
    requires
        call_ensures(osc52_sequence, (text,), sequence),
    ensures
        sequence is Ok <==> encode_utf8(text@).len() <= 24576,
        sequence matches Ok(sequence) ==> {
            &&& sequence@.len() >= 8
            &&& base64_read(sequence@.subrange(7, sequence@.len() - 1)) == encode_utf8(text@)
            &&& sequence@[0] == '\u{1b}' && sequence@[1] == ']' && sequence@[2] == '5'
            &&& sequence@[3] == '2' && sequence@[4] == ';' && sequence@[5] == 'c'
            &&& sequence@[6] == ';' && sequence@.last() == '\u{7}'
        },
        sequence matches Err(error) ==> error.characters == text@.len(),
{
    reveal_strlit("\x1b]52;c;");
    reveal_strlit("\x07");
}

// Reading records

/// A shell shows its script, and any other command its words.
pub proof fn law_a_command_is_shown_as_it_was_typed(
    value: &Json,
    shown: Option<String>,
    words: Seq<Seq<char>>,
)
    requires
        call_ensures(shell_script, (Some(value),), shown),
        value@ == JsonView::Array(word_values(words)),
    ensures
        words.len() >= 3 && (words[1] == "-lc"@ || words[1] == "-c"@ || words[1] == "-lic"@)
            ==> string_view(shown) == Some(join(words.skip(2), seq![' '])),
        words.len() < 3 || (words[1] != "-lc"@ && words[1] != "-c"@ && words[1] != "-lic"@)
            ==> string_view(shown) == Some(join(words, seq![' '])),
{
    if words.len() >= 3 && (words[1] == "-lc"@ || words[1] == "-c"@ || words[1] == "-lic"@) {
        law_arguments_follow_the_script(words.take(2), words.skip(2));
        assert(words.take(2) + words.skip(2) == words);
    } else {
        law_other_commands_are_their_words(words);
    }
}

/// Whatever text a script quotes is shown as it was before it was quoted.
pub proof fn law_a_quoted_text_is_shown(
    input: &str,
    shown: Option<String>,
    front: Seq<char>,
    text: Seq<char>,
    quote: char,
    back: Seq<char>,
)
    requires
        call_ensures(script_literals, (input,), shown),
        quote == '"' || quote == '\'' || quote == '`',
        input@ == front + (seq![quote] + quoted(text, quote) + seq![quote] + back),
        !front.contains('"') && !front.contains('\'') && !front.contains('`'),
        !back.contains('"') && !back.contains('\'') && !back.contains('`'),
        !blank(text),
    ensures
        string_view(shown) == Some(text),
{
    let source = seq![quote] + quoted(text, quote) + seq![quote] + back;
    law_scaffolding_is_not_shown(front, source);
    law_a_literal_reads_back(text, quote, back);
    law_scaffolding_is_not_shown(back, Seq::empty());
    assert(back + Seq::<char>::empty() == back);
    assert(seq![text] + literals(back) == seq![text]);
    law_literals_are_shown_one_per_line(input@, seq![text]);
}

// Terminal applications

/// An answer reads back, and one that says nothing names no application.
pub proof fn law_an_application_reads_back(
    output: &str,
    app: Result<FrontmostApplication, NoApplication>,
    name: Seq<char>,
    bundle_id: Seq<char>,
)
    requires
        call_ensures(parse_frontmost_application, (output,), app),
        trim(name) == name,
        trim(bundle_id) == bundle_id,
        !name.contains('\t'),
    ensures
        bundle_id.len() > 0 && output@ == name + seq!['\t'] + bundle_id + seq!['\n'] ==> (
        app matches Ok(app) && app.name@ == name && app.bundle_id@ == bundle_id),
        name.len() > 0 && output@ == name + seq!['\n'] ==> (app matches Ok(app) && app.name@ == name
            && app.bundle_id@.len() == 0),
{
    law_an_answer_reads_back(name, bundle_id);
}

/// A configured filter decides alone: an application is allowed exactly when one that is not
/// blank is a part of its name or bundle id, whatever the case.
pub proof fn law_a_configured_filter_decides(
    app: &FrontmostApplication,
    configured: &[String],
    yes: bool,
    front: Seq<char>,
    back: Seq<char>,
)
    requires
        call_ensures(is_allowed_terminal, (app, configured), yes),
        configured@.len() == 1,
        !blank(configured@[0]@),
    ensures
        lowercase(app.name@) == front + lowercase(trim(configured@[0]@)) + back ==> yes,
        lowercase(app.bundle_id@) == front + lowercase(trim(configured@[0]@)) + back ==> yes,
        yes ==> exists|a: Seq<char>, b: Seq<char>|
            {
                let whole = #[trigger] (a + lowercase(trim(configured@[0]@)) + b);
                lowercase(app.name@) == whole || lowercase(app.bundle_id@) == whole
            },
{
    assert(views(configured@) == seq![configured@[0]@]);
    law_a_filter_allows_what_it_is_part_of(*app, configured@[0]@, front, back);
}

/// Whatever is configured is used, and otherwise what the launching application gives,
/// which it then passes itself.
pub proof fn law_the_filters_in_use(
    configured: &[String],
    launched_from: Option<&FrontmostApplication>,
    filters: Vec<String>,
    used: &[String],
    yes: bool,
)
    requires
        call_ensures(terminal_filters, (configured, launched_from), filters),
        used@ == filters@,
        launched_from matches Some(app) ==> call_ensures(is_allowed_terminal, (app, used), yes),
    ensures
        configured@.len() > 0 ==> views(filters@) == views(configured@),
        configured@.len() == 0 && launched_from is None ==> filters@.len() == 0,
        configured@.len() == 0 ==> (launched_from matches Some(app) ==> {
            &&& identified(*app) ==> yes
            &&& app.name@.len() > 0 ==> views(filters@).contains(app.name@)
            &&& app.bundle_id@.len() > 0 ==> views(filters@).contains(app.bundle_id@)
        }),
{
    assert(views(filters@).len() == filters@.len());
    assert(views(configured@).len() == configured@.len());
    if configured@.len() == 0 {
        assert(views(configured@) == Seq::<Seq<char>>::empty());
        if let Some(app) = launched_from {
            law_filters_are_taken_from_the_application(*app);
            if identified(*app) {
                law_the_launching_application_is_allowed(*app);
            }
            if app.name@.len() > 0 {
                assert(views(filters@)[0] == app.name@);
            }
            if app.bundle_id@.len() > 0 {
                assert(views(filters@).last() == app.bundle_id@);
            }
        }
    }
}

/// The processes are started with all that they are to know.
pub proof fn law_processes_are_told_everything(
    options: &WatchOptions,
    watcher: Vec<String>,
    restoration: Vec<String>,
    k: int,
)
    requires
        call_ensures(watcher_arguments, (options,), watcher),
        call_ensures(restore_arguments, (options,), restoration),
        0 <= k < options.terminal_apps@.len(),
    ensures
        ({
            let base: int = if options.pane is Some {
                11
            } else {
                9
            };
            &&& views(watcher@).len() == base + 2 * options.terminal_apps@.len()
            &&& views(watcher@)[0] == "__watch"@
            &&& number_read(views(watcher@)[2]) == options.parent_pid
            &&& number_read(views(watcher@)[4]) == options.poll_ms
            &&& number_read(views(watcher@)[6]) == options.min_chars
            &&& number_read(views(watcher@)[8]) == options.scan_limit
            &&& options.pane matches Some(id) ==> views(watcher@)[10] == id@
            &&& views(watcher@)[base + 2 * k + 1] == options.terminal_apps@[k]@
        }),
        views(restoration@)[0] == "--stdin"@,
        views(restoration@)[1] == "--stdout"@,
        views(restoration@)[3] == "off"@,
        number_read(views(restoration@)[5]) == options.min_chars,
        number_read(views(restoration@)[7]) == options.scan_limit,
        options.pane matches Some(id) ==> views(restoration@)[9] == id@,
{
    law_a_watcher_is_told_everything(*options, k);
    law_a_restoration_is_told_everything(*options);
}

/// A pane counts exactly when the first one with its id is focused and runs Codex.
pub proof fn law_a_pane_counts_when_it_is_focused(
    panes: &[Pane],
    id: &str,
    yes: bool,
    k: int,
)
    requires
        call_ensures(is_focused_codex_pane, (panes, id), yes),
        0 <= k < panes@.len(),
        panes@[k].pane_id@ == id@,
        forall|i: int| 0 <= i < k ==> (#[trigger] panes@[i]).pane_id@ != id@,
    ensures
        yes <==> panes@[k].focused && string_view(panes@[k].agent) == Some("codex"@) && (
        panes@[k].agent_session matches Some(session) && session.value is Some),
{
    law_a_focused_pane_runs_codex(panes@, k, id@);
}

// Which sessions are searched

/// Every recent session is searched, and every session of a pane that has a file, those of
/// panes first and none of them twice.
pub proof fn law_every_session_is_searched(
    listing: &Vec<Vec<Vec<u8>>>,
    panes: &[Pane],
    from_pane: Option<&str>,
    recent_files: &Vec<(usize, usize)>,
    files: Vec<(usize, usize)>,
    k: int,
    p: int,
    session: Seq<char>,
)
    requires
        call_ensures(candidate_sessions, (listing, panes, from_pane, recent_files), files),
    ensures
        pairs(files@).no_duplicates(),
        0 <= k < recent_files@.len() ==> pairs(files@).contains(pair(recent_files@[k])),
        0 <= p < panes@.len() && panes@[p].codex() == Some(session) ==> (file_of(
            listing.deep_view(),
            session,
        ) matches Some(file) ==> pairs(files@).contains(file)),
        forall|i: int, j: int|
            0 <= i < j < files@.len() && (exists|q: int|
                0 <= q < panes@.len() && (#[trigger] panes@[q]).codex() is Some && file_of(
                    listing.deep_view(),
                    panes@[q].codex()->0,
                ) == Some(pair(files@[j]))) ==> files_of(
                listing.deep_view(),
                ranked_sessions(panes@, option_view(from_pane)),
            ).contains(pair(#[trigger] files@[i])) && files_of(
                listing.deep_view(),
                ranked_sessions(panes@, option_view(from_pane)),
            ).contains(pair(#[trigger] files@[j])),
{
    let ids = ranked_sessions(panes@, option_view(from_pane));
    let near = files_of(listing.deep_view(), ids);
    let late = pairs(recent_files@);
    law_candidates_are_complete_and_distinct(near, late, (0, 0));
    if 0 <= k < recent_files@.len() {
        assert(late[k] == pair(recent_files@[k]));
        law_candidates_are_complete_and_distinct(near, late, late[k]);
    }
    if 0 <= p < panes@.len() && panes@[p].codex() == Some(session) {
        law_every_session_is_listed(panes@, option_view(from_pane), session);
        let i = choose|i: int| 0 <= i < ids.len() && ids[i] == session;
        if let Some(file) = file_of(listing.deep_view(), session) {
            let front = ids.take(i);
            let back = ids.skip(i + 1);
            assert(front.push(session) + back == ids);
            law_every_listed_session_is_searched(listing.deep_view(), front, session, back);
            let before = files_of(listing.deep_view(), front);
            assert(near[before.len() as int] == file);
            law_candidates_are_complete_and_distinct(near, late, file);
        }
    }
    assert forall|i: int, j: int|
        0 <= i < j < files@.len() && (exists|q: int|
            0 <= q < panes@.len() && (#[trigger] panes@[q]).codex() is Some && file_of(
                listing.deep_view(),
                panes@[q].codex()->0,
            ) == Some(pair(files@[j]))) implies near.contains(pair(#[trigger] files@[i]))
        && near.contains(pair(#[trigger] files@[j])) by {
        let q = choose|q: int|
            0 <= q < panes@.len() && (#[trigger] panes@[q]).codex() is Some && file_of(
                listing.deep_view(),
                panes@[q].codex()->0,
            ) == Some(pair(files@[j]));
        lemma_pane_file_is_near(listing.deep_view(), panes@, option_view(from_pane), q);
        assert(pairs(files@)[i] == pair(files@[i]));
        assert(pairs(files@)[j] == pair(files@[j]));
        law_pane_sessions_come_first(near, late, i, j);
    }
}

/// The file of a session that a pane runs is among those that are tried first.
proof fn lemma_pane_file_is_near(
    listing: Seq<Seq<Seq<u8>>>,
    panes: Seq<Pane>,
    from: Option<Seq<char>>,
    q: int,
)
    requires
        0 <= q < panes.len(),
        panes[q].codex() is Some,
        file_of(listing, panes[q].codex()->0) is Some,
    ensures
        files_of(listing, ranked_sessions(panes, from)).contains(
            file_of(listing, panes[q].codex()->0)->0,
        ),
{
    let ids = ranked_sessions(panes, from);
    let session = panes[q].codex()->0;
    law_every_session_is_listed(panes, from, session);
    assert(panes[q].codex() == Some(session));
    let i = choose|i: int| 0 <= i < ids.len() && ids[i] == session;
    let front = ids.take(i);
    let back = ids.skip(i + 1);
    assert(front.push(session) + back == ids);
    law_every_listed_session_is_searched(listing, front, session, back);
    let before = files_of(listing, front);
    assert(files_of(listing, ids)[before.len() as int] == file_of(listing, session)->0);
}

/// Sessions of the current directory come first, all in order, and none is lost.
pub proof fn law_local_sessions_are_searched_first(
    recent_sessions: &Vec<RecentSession>,
    here: &str,
    files: Vec<(usize, usize)>,
)
    requires
        call_ensures(recent_by_locality, (recent_sessions, Some(here)), files),
    ensures
        pairs(files@) == recent_sessions@.filter(
            |session: RecentSession| string_view(session.cwd) == Some(here@),
        ).map_values(|session: RecentSession| (session.file.0 as int, session.file.1 as int))
            + recent_sessions@.filter(
            |session: RecentSession| string_view(session.cwd) != Some(here@),
        ).map_values(|session: RecentSession| (session.file.0 as int, session.file.1 as int)),
{
    law_local_sessions_come_first_in_order(recent_sessions@, here@);
}

/// A session argument is a path where there is such a file, and otherwise the session of
/// that id; it is refused only where there is neither.
pub proof fn law_a_session_argument_is_resolved(
    is_file: bool,
    listing: &Vec<Vec<Vec<u8>>>,
    reference: &str,
    resolved: Result<SessionRef, UnknownSession>,
    found: Option<(usize, usize)>,
)
    requires
        call_ensures(resolve_session_ref, (is_file, listing, reference), resolved),
        call_ensures(find_by_id, (listing, reference), found),
    ensures
        is_file ==> resolved == Ok::<SessionRef, UnknownSession>(SessionRef::Path),
        !is_file ==> (found matches Some((dir, file)) ==> resolved == Ok::<
            SessionRef,
            UnknownSession,
        >(SessionRef::Listed(dir, file))),
        !is_file && found is None ==> (resolved matches Err(error) && error.reference@
            == reference@),
{
}

/// Reading directories may stop as soon as it is settled what is asked, and not before.
pub proof fn law_reading_stops_when_it_is_settled(
    listing: &Vec<Vec<Vec<u8>>>,
    limit: usize,
    id: &str,
    all_read: bool,
    few: Vec<(usize, usize)>,
    few_if: Option<Vec<(usize, usize)>>,
    file: Option<(usize, usize)>,
    file_if: Option<Option<(usize, usize)>>,
)
    requires
        call_ensures(recent, (listing, limit), few),
        call_ensures(recent_if_settled, (listing, limit, all_read), few_if),
        call_ensures(find_by_id, (listing, id), file),
        call_ensures(find_if_settled, (listing, id, all_read), file_if),
    ensures
        few_if is Some <==> all_read || few@.len() == limit,
        few_if matches Some(files) ==> pairs(files@) == pairs(few@),
        file_if is Some <==> all_read || file is Some,
        file_if matches Some(found) ==> optional_pair(found) == optional_pair(file),
{
    assert(pairs(few@).len() == few@.len());
}

// Searching and reporting

/// The search of a restoration finds whatever occurs, by itself and not by the length.
pub proof fn law_a_restoration_finds_what_occurs(
    restoration: &Restoration,
    transcript: &Transcript,
    found: Option<Match>,
    start: int,
    end: int,
)
    requires
        call_ensures(Restoration::search, (restoration, transcript), found),
        dense_text(restoration.clusters()).len() > 0,
        occurs(
            pieces(graphemes(joined(transcript.blocks@))),
            dense_text(restoration.clusters()),
            start,
            end,
        ),
    ensures
        found matches Some(found) && found.strategy == Strategy::Exact && found.block is Some,
        found matches Some(found) ==> exists|front: Seq<char>, back: Seq<char>|
            joined(transcript.blocks@) == #[trigger] (front + found.text@ + back),
{
    law_the_last_exact_occurrence_wins(
        graphemes(joined(transcript.blocks@)),
        restoration.clusters(),
        Options { max_trim: 3, anchor_len: 12, min_span: restoration.min_chars() },
        start,
        end,
    );
}

/// The least length bounds how far a match may be pared back, and nothing else is changed
/// by it.
pub proof fn law_the_least_length_bounds_the_search(least: usize, options: Options)
    requires
        call_ensures(search_options, (least,), options),
    ensures
        options.min_span == least && options.max_trim == 3 && options.anchor_len == 12,
{
}

/// A reason says what happened, with its numbers.
pub proof fn law_a_reason_says_what_happened(
    home: &str,
    length: usize,
    minimum: usize,
    sessions: usize,
    short: String,
    none: String,
    missing: String,
)
    requires
        call_ensures(Reason::message, (Reason::TooShort { length, minimum }, home), short),
        call_ensures(Reason::message, (Reason::NoSessions, home), none),
        call_ensures(Reason::message, (Reason::NotFound { sessions }, home), missing),
    ensures
        short@ == "selection is too short to look up ("@ + decimal(length as nat)
            + " characters, minimum "@ + decimal(minimum as nat) + ")"@,
        none@ == "no Codex sessions found under "@ + home@,
        sessions == 1 ==> missing@ == "could not find this selection in "@ + decimal(1)
            + " session"@,
        sessions != 1 ==> missing@ == "could not find this selection in "@ + decimal(
            sessions as nat,
        ) + " session"@ + "s"@,
{
    reveal_strlit("");
    let words = "could not find this selection in "@ + decimal(1) + " session"@;
    assert(words + ""@ == words);
}

/// A report says how many characters came from where, and how.
pub proof fn law_a_report_says_where_a_text_came_from(
    transcript: &Transcript,
    found: &Match,
    text: String,
    kind: BlockKind,
    id: String,
)
    requires
        call_ensures(report, (transcript, found), text),
        call_ensures(Transcript::short_id, (transcript,), id),
        found.block == Some(kind),
    ensures
        found.candidates <= 1 ==> text@ == "restored "@ + decimal(found.text@.len())
            + " characters from session "@ + id@ + " ("@ + (kind.name() + ", "@
            + found.strategy.name()) + ")"@,
        found.candidates > 1 ==> text@ == "restored "@ + decimal(found.text@.len())
            + " characters from session "@ + id@ + " ("@ + (kind.name() + ", "@
            + found.strategy.name() + (", most recent of "@ + decimal(found.candidates as nat)
            + " occurrences"@)) + ")"@,
{
    law_a_report_says_where_the_text_came_from(transcript.brief(), *found, kind);
}

/// A session is reported by its id up to the first hyphen.
pub proof fn law_a_short_id_ends_at_the_hyphen(
    transcript: &Transcript,
    id: String,
    front: Seq<char>,
    back: Seq<char>,
)
    requires
        call_ensures(Transcript::short_id, (transcript,), id),
        !front.contains('-'),
    ensures
        transcript.meta@.id == Some(front + seq!['-'] + back) ==> id@ == front,
        transcript.meta@.id == Some(front) ==> id@ == front,
        transcript.meta@.id is None ==> id@ == transcript.stem@,
{
    law_a_session_is_reported_briefly(*transcript, front, back);
}

/// Content parts are read in a row, and so is output that is stored as parts.
pub proof fn law_content_is_read_in_a_row(
    value: &Json,
    content: Option<String>,
    output: Option<String>,
    parts: Seq<JsonView>,
    texts: Seq<Seq<char>>,
)
    requires
        call_ensures(join_text_parts, (Some(value),), content),
        call_ensures(parse_tool_output, (Some(value),), output),
        value@ == JsonView::Array(parts),
        parts.len() == texts.len(),
        forall|i: int|
            0 <= i < parts.len() ==> texts[i] == (match #[trigger] parts[i] {
                JsonView::Text(text) => text,
                JsonView::Object(_) => match text_field(parts[i], "text"@) {
                    Some(text) => text,
                    None => Seq::empty(),
                },
                _ => Seq::empty(),
            }),
    ensures
        string_view(content) == Some(texts.flatten()),
        string_view(output) == Some(texts.flatten()),
{
    law_parts_are_read_in_a_row(parts, texts);
}

/// Output that is stored as a string is that string, unless it holds parts as JSON.
pub proof fn law_plain_output_is_read_as_it_is(
    value: &Json,
    output: Option<String>,
    raw: Seq<char>,
    parts: Seq<JsonView>,
)
    requires
        call_ensures(parse_tool_output, (Some(value),), output),
        value@ == JsonView::Text(raw),
    ensures
        !(json_text(raw) matches Some(JsonView::Array(_))) ==> string_view(output) == Some(raw),
        json_text(raw) == Some(JsonView::Array(parts)) ==> string_view(output) == content_text(
            Some(JsonView::Array(parts)),
        ),
{
    law_output_is_unwrapped(raw, parts);
}

/// A turn that opens with a tag was injected exactly when Codex injects that tag, and one
/// that opens with neither a tag nor a heading never was.
pub proof fn law_only_known_tags_are_injected(
    text: &str,
    yes: bool,
    name: Seq<char>,
    rest: Seq<char>,
)
    requires
        call_ensures(is_synthetic_user_text, (text,), yes),
        !name.contains('>'),
        text@.len() > 0,
        !white_space(text@[0]),
    ensures
        text@ == seq!['<'] + name + seq!['>'] + rest ==> (yes <==> injected_tag(name)),
        text@[0] != '<' && text@[0] != '#' ==> !yes,
        text@[0] == '#' ==> (yes <==> "# AGENTS.md instructions for "@.is_prefix_of(text@)),
{
    lemma_leading(text@, |ch: char| white_space(ch), 0);
    assert(text@.skip(0) == text@);
    law_injected_turns_are_told_by_their_tags(name, rest);
    law_injected_turns_are_told_by_their_tags(Seq::empty(), text@);
}

// Starting out

/// What is on the clipboard when the watcher starts is not looked up.
pub proof fn law_what_was_there_before_is_left_alone(
    options: WatchOptions,
    clipboard: Option<String>,
    started: Watcher,
    sleeping: Watcher,
    woken: Watcher,
    reading: Watcher,
    seen: Event,
    waiting: Watcher,
    asked: Action<'_>,
)
    requires
        call_ensures(watch, (options, clipboard), started),
        call_ensures(Watcher::advance, (started, Event::Parent(true)), sleeping),
        call_ensures(Watcher::advance, (sleeping, Event::Slept), woken),
        call_ensures(Watcher::advance, (woken, Event::Parent(true)), reading),
        call_ensures(Watcher::advance, (reading, seen), waiting),
        call_ensures(Watcher::action, (&waiting,), asked),
        seen matches Event::Clipboard(text) && string_view(text) == string_view(clipboard),
    ensures
        action_view(asked) == ActionView::AskParent,
        waiting.state() == started.state(),
{
}

/// A restoration asks for the sessions, then for one transcript after the other, and for
/// nothing once it has ended.
pub proof fn law_a_restoration_asks_for_what_it_needs(
    restoration: &Restoration,
    need: Need,
    next: usize,
    count: usize,
    session: usize,
    found: Match,
    reason: Reason,
)
    requires
        call_ensures(Restoration::need, (restoration,), need),
    ensures
        restoration.progress() == Progress::Listing ==> need == Need::Sessions,
        restoration.progress() == (Progress::Searching { next, count }) ==> need
            == Need::Transcript(next),
        restoration.progress() == (Progress::Restored { session, found }) ==> need == Need::Nothing,
        restoration.progress() == Progress::Unverified(reason) ==> need == Need::Nothing,
{
}

/// The header of a file is the last one that it holds.
pub proof fn law_the_header_of_a_file_is_read(
    bytes: &[u8],
    read: (SessionMeta, Vec<Block>),
    front: Seq<u8>,
    row: Seq<u8>,
    text: Seq<char>,
    record: JsonView,
    payload: JsonView,
)
    requires
        call_ensures(parse, (bytes,), read),
        bytes@ == front + (row + seq![0x0Au8]),
        front.len() > 0 ==> front.last() == 0x0A,
        !row.contains(0x0Au8),
        row.len() > 0 ==> row.last() != 0x0D,
        decoded(row) == Some(text),
        json_text(text) == Some(record),
        field(record, "payload"@) == Some(payload),
        text_field(record, "type"@) == Some("session_meta"@),
    ensures
        string_view(read.0.id) == text_field(payload, "id"@),
        string_view(read.0.cwd) == text_field(payload, "cwd"@),
        string_view(read.0.cli_version) == text_field(payload, "cli_version"@),
{
    law_a_row_is_read_by_itself(front, row, seq![0x0Au8], text);
    law_the_header_is_that_of_its_record(contents(front), record, payload);
}

/// A rendered text is searched without the numbers of its diff gutters, and a stored one as
/// it is.
pub proof fn law_rendered_text_loses_its_diff_numbers(
    rendered: &str,
    selection: DenseIndex,
    stored: &str,
    index: DenseIndex,
    source: &str,
    blanks: Seq<char>,
    number: Seq<char>,
    sign: char,
    rest: Seq<char>,
)
    requires
        call_ensures(DenseIndex::from_rendered, (rendered,), selection),
        call_ensures(DenseIndex::build, (stored,), index),
        call_ensures(DenseIndex::source, (&index,), source),
        forall|i: int| 0 <= i < blanks.len() ==> #[trigger] blanks[i] == ' ' || blanks[i] == '\t',
        number.len() > 0,
        forall|i: int| 0 <= i < number.len() ==> '0' <= #[trigger] number[i] <= '9',
        sign == '+' || sign == '-',
        forall|i: int| 0 <= i < rest.len() - 1 ==> #[trigger] rest[i] != '\n',
        rendered@ == blanks + number + seq![' ', sign] + rest,
    ensures
        selection.clusters().flatten() == blanks + seq![' ', sign] + rest,
        source@ == stored@,
        stored@ == blanks + seq![' ', sign] + rest ==> index.clusters() == selection.clusters(),
{
    law_a_diff_number_is_taken_off(blanks, number, sign, rest);
}

/// What lies between two kept graphemes is sliced out untouched, and nothing is sliced where
/// there is nothing between them.
pub proof fn law_a_slice_is_what_lies_between(
    index: &DenseIndex,
    start: usize,
    end: usize,
    text: &str,
    dense: &str,
    count: usize,
)
    requires
        call_ensures(DenseIndex::slice, (index, start, end), text),
        call_ensures(DenseIndex::dense_slice, (index, start, end), dense),
        call_ensures(DenseIndex::len, (index,), count),
    ensures
        count == kept(index.clusters()).len(),
        start >= end || end > count ==> text@.len() == 0 && dense@.len() == 0,
        start < end <= count ==> {
            &&& text@ == index.clusters().subrange(
                kept(index.clusters())[start as int],
                kept(index.clusters())[end - 1] + 1,
            ).flatten()
            &&& dense@ == pieces(index.clusters()).subrange(start as int, end as int).flatten()
        },
{
}

/// Stray parts at the edges of a selection do not keep it from being found.
pub proof fn law_stray_edges_are_ignored(
    haystack: &Haystack,
    selection: &DenseIndex,
    options: Options,
    found: Option<Match>,
    head: int,
    tail: int,
    start: int,
    end: int,
)
    requires
        call_ensures(align::find, (haystack, selection, options), found),
        forall|s: int, e: int|
            !#[trigger] occurs(
                pieces(haystack.clusters()),
                pieces(selection.clusters()).flatten(),
                s,
                e,
            ),
        0 <= head <= options.max_trim,
        0 <= tail <= options.max_trim,
        0 < head + tail < pieces(selection.clusters()).len(),
        pieces(selection.clusters()).len() - head - tail >= options.min_span,
        pieces(selection.clusters()).len() - head - tail >= pieces(
            selection.clusters(),
        ).len() as int / 2,
        occurs(
            pieces(haystack.clusters()),
            pieces(selection.clusters()).subrange(
                head,
                pieces(selection.clusters()).len() - tail,
            ).flatten(),
            start,
            end,
        ),
    ensures
        found matches Some(found) && found.strategy == Strategy::Trimmed,
{
    law_a_selection_with_stray_edges_is_found(
        haystack.clusters(),
        selection.clusters(),
        options,
        head,
        tail,
        start,
        end,
    );
}

/// A selection whose middle was drawn over is found by its edges.
pub proof fn law_a_middle_that_was_drawn_over_is_restored(
    haystack: &Haystack,
    selection: &DenseIndex,
    options: Options,
    found: Option<Match>,
    start: int,
    head_end: int,
    tail_start: int,
    end: int,
)
    requires
        call_ensures(align::find, (haystack, selection, options), found),
        forall|s: int, e: int|
            !#[trigger] occurs(
                pieces(haystack.clusters()),
                pieces(selection.clusters()).flatten(),
                s,
                e,
            ),
        options.max_trim == 0,
        0 < 2 * options.anchor_len <= pieces(selection.clusters()).len(),
        occurs(
            pieces(haystack.clusters()),
            pieces(selection.clusters()).subrange(0, options.anchor_len as int).flatten(),
            start,
            head_end,
        ),
        occurs(
            pieces(haystack.clusters()),
            pieces(selection.clusters()).subrange(
                pieces(selection.clusters()).len() - options.anchor_len,
                pieces(selection.clusters()).len() as int,
            ).flatten(),
            tail_start,
            end,
        ),
        start < end,
        end - start <= pieces(selection.clusters()).len() + pieces(
            selection.clusters(),
        ).len() as int / 2 + 16,
        end - start >= pieces(selection.clusters()).len() - (pieces(
            selection.clusters(),
        ).len() as int / 4 + 8),
    ensures
        found matches Some(found) && found.strategy == Strategy::Anchored,
{
    law_a_selection_is_found_by_its_edges(
        haystack.clusters(),
        selection.clusters(),
        options,
        start,
        head_end,
        tail_start,
        end,
    );
}

} // verus!
