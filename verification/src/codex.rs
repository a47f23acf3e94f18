//! Reading Codex rollout transcripts.
//!
//! Each line of a rollout file is a JSON record; the ones carrying rendered text
//! are `event_msg`/`item_completed` (Codex >= 0.147) and `response_item` (all
//! versions), so both are read and de-duplicated by text.

pub use crate::sessions::{find_by_id, recent, resolve_session_ref};

use vstd::hash_set::StringHashSet;
use vstd::prelude::*;
use vstd::slice::slice_subrange;
use vstd::string::StringExecFns;

use crate::bytes::{decode, decoded};
use crate::json::{field, json_text, parse_json, text_field, Json, JsonView};
use crate::record::{
    command_text, content_text, injected_opening, is_synthetic_user_text, join_text_parts,
    output_text, parse_tool_output, script_literals, script_text, shell_script,
};
use crate::text::{
    blank, bounds_match, chars_of, copy_text, first_of, is_blank, is_text,
    law_rows_begin_anew_behind_a_mark, lemma_first_of, lemma_single_row, owned, row_bounds, rows, string_of, string_view, trim_start,
};

verus! {

/// Where a block of transcript text came from. Diagnostics only — matching
/// treats every block the same way.
#[derive(Debug, Clone, Copy, PartialEq, Eq, Structural)]
pub enum BlockKind {
    AgentMessage,
    UserMessage,
    Reasoning,
    Command,
    CommandOutput,
}

impl BlockKind {
    /// The words the kind is reported by.
    pub open spec fn name(self) -> Seq<char> {
        match self {
            BlockKind::AgentMessage => "assistant message"@,
            BlockKind::UserMessage => "user message"@,
            BlockKind::Reasoning => "reasoning"@,
            BlockKind::Command => "command"@,
            BlockKind::CommandOutput => "command output"@,
        }
    }

    /// The words the kind is reported by.
    pub fn label(self) -> (label: &'static str)
        ensures
            label@ == self.name(),
    {
        match self {
            BlockKind::AgentMessage => "assistant message",
            BlockKind::UserMessage => "user message",
            BlockKind::Reasoning => "reasoning",
            BlockKind::Command => "command",
            BlockKind::CommandOutput => "command output",
        }
    }
}

/// One logical chunk of transcript text, in the order Codex emitted it.
#[derive(Debug, PartialEq, Eq)]
pub struct Block {
    pub kind: BlockKind,
    pub text: String,
}

impl Clone for Block {
    fn clone(&self) -> (copy: Self)
        ensures
            copy == *self,
    {
        Block { kind: self.kind, text: self.text.clone() }
    }
}

/// What a block is.
pub struct BlockView {
    pub kind: BlockKind,
    pub text: Seq<char>,
}

impl View for Block {
    type V = BlockView;

    open spec fn view(&self) -> BlockView {
        BlockView { kind: self.kind, text: self.text@ }
    }
}

/// What a sequence of blocks is.
pub open spec fn block_views(blocks: Seq<Block>) -> Seq<BlockView> {
    blocks.map_values(|block: Block| block@)
}

/// What the header of a session says.
#[derive(Debug, PartialEq, Eq)]
pub struct SessionMeta {
    pub id: Option<String>,
    pub cwd: Option<String>,
    pub cli_version: Option<String>,
}

/// What a session header is.
pub struct MetaView {
    pub id: Option<Seq<char>>,
    pub cwd: Option<Seq<char>>,
    pub cli_version: Option<Seq<char>>,
}

impl MetaView {
    /// The header of a session that has none.
    pub open spec fn empty() -> MetaView {
        MetaView { id: None, cwd: None, cli_version: None }
    }
}

impl View for SessionMeta {
    type V = MetaView;

    open spec fn view(&self) -> MetaView {
        MetaView {
            id: string_view(self.id),
            cwd: string_view(self.cwd),
            cli_version: string_view(self.cli_version),
        }
    }
}

impl Default for SessionMeta {
    fn default() -> (meta: Self)
        ensures
            meta@ == MetaView::empty(),
    {
        SessionMeta { id: None, cwd: None, cli_version: None }
    }
}

impl Clone for SessionMeta {
    fn clone(&self) -> (copy: Self)
        ensures
            copy@ == self@,
    {
        SessionMeta {
            id: copy_text(&self.id),
            cwd: copy_text(&self.cwd),
            cli_version: copy_text(&self.cli_version),
        }
    }
}

// What records add

/// A transcript as far as it has been read.
pub struct ReadState {
    pub meta: MetaView,
    pub blocks: Seq<BlockView>,
}

impl ReadState {
    /// Nothing has been read.
    pub open spec fn empty() -> ReadState {
        ReadState { meta: MetaView::empty(), blocks: Seq::empty() }
    }
}

/// Some block has this text.
pub open spec fn has_text(blocks: Seq<BlockView>, text: Seq<char>) -> bool {
    exists|i: int| 0 <= i < blocks.len() && (#[trigger] blocks[i]).text == text
}

/// The blocks with one more, unless its text is missing, blank, or that of a
/// block which is there already.
pub open spec fn with_block(
    blocks: Seq<BlockView>,
    kind: BlockKind,
    text: Option<Seq<char>>,
) -> Seq<BlockView> {
    match text {
        Some(text) => if blank(text) || has_text(blocks, text) {
            blocks
        } else {
            blocks.push(BlockView { kind, text })
        },
        None => blocks,
    }
}

/// The header that a `session_meta` record holds.
pub open spec fn meta_of(payload: JsonView) -> MetaView {
    MetaView {
        id: text_field(payload, "id"@),
        cwd: text_field(payload, "cwd"@),
        cli_version: text_field(payload, "cli_version"@),
    }
}

/// The blocks after one rendered item.
pub open spec fn with_item(blocks: Seq<BlockView>, item: JsonView) -> Seq<BlockView> {
    let kind = text_field(item, "type"@);
    if kind == Some("AgentMessage"@) {
        with_block(blocks, BlockKind::AgentMessage, content_text(field(item, "content"@)))
    } else if kind == Some("UserMessage"@) {
        with_block(blocks, BlockKind::UserMessage, content_text(field(item, "content"@)))
    } else if kind == Some("Reasoning"@) {
        with_block(blocks, BlockKind::Reasoning, content_text(field(item, "summary_text"@)))
    } else if kind == Some("CommandExecution"@) {
        with_block(
            with_block(blocks, BlockKind::Command, command_text(field(item, "command"@))),
            BlockKind::CommandOutput,
            text_field(item, "aggregated_output"@),
        )
    } else {
        blocks
    }
}

/// The blocks after an `event_msg` record. Only completed items add to them.
pub open spec fn with_event(blocks: Seq<BlockView>, payload: JsonView) -> Seq<BlockView> {
    if text_field(payload, "type"@) == Some("item_completed"@) {
        match field(payload, "item"@) {
            Some(item) => with_item(blocks, item),
            None => blocks,
        }
    } else {
        blocks
    }
}

/// The blocks after a message. Only what the assistant and the user wrote was
/// rendered: other roles, and instructions injected as user turns, add nothing.
pub open spec fn with_message(blocks: Seq<BlockView>, payload: JsonView) -> Seq<BlockView> {
    let role = text_field(payload, "role"@);
    let text = content_text(field(payload, "content"@));
    if role == Some("assistant"@) {
        with_block(blocks, BlockKind::AgentMessage, text)
    } else if role == Some("user"@) {
        match text {
            Some(written) => if injected_opening(trim_start(written)) {
                blocks
            } else {
                with_block(blocks, BlockKind::UserMessage, text)
            },
            None => blocks,
        }
    } else {
        blocks
    }
}

/// The literals of a script that a tool call ran.
pub open spec fn call_text(payload: JsonView) -> Option<Seq<char>> {
    match text_field(payload, "input"@) {
        Some(input) => script_text(input),
        None => None,
    }
}

/// The blocks after a `response_item` record.
pub open spec fn with_response(blocks: Seq<BlockView>, payload: JsonView) -> Seq<BlockView> {
    let kind = text_field(payload, "type"@);
    if kind == Some("message"@) {
        with_message(blocks, payload)
    } else if kind == Some("reasoning"@) {
        with_block(blocks, BlockKind::Reasoning, content_text(field(payload, "summary"@)))
    } else if kind == Some("agent_message"@) {
        with_block(blocks, BlockKind::AgentMessage, content_text(field(payload, "content"@)))
    } else if kind == Some("custom_tool_call"@) {
        with_block(blocks, BlockKind::Command, call_text(payload))
    } else if kind == Some("custom_tool_call_output"@) {
        with_block(blocks, BlockKind::CommandOutput, output_text(field(payload, "output"@)))
    } else {
        blocks
    }
}

/// What has been read after one more record. A record without a payload, or of a
/// kind that is not read, changes nothing.
pub open spec fn after_record(state: ReadState, record: JsonView) -> ReadState {
    match field(record, "payload"@) {
        Some(payload) => {
            let kind = text_field(record, "type"@);
            if kind == Some("session_meta"@) {
                ReadState { meta: meta_of(payload), ..state }
            } else if kind == Some("event_msg"@) {
                ReadState { blocks: with_event(state.blocks, payload), ..state }
            } else if kind == Some("response_item"@) {
                ReadState { blocks: with_response(state.blocks, payload), ..state }
            } else {
                state
            }
        },
        None => state,
    }
}

/// A row without the line feed, or the carriage return and line feed, that ends
/// it.
pub open spec fn row_body(row: Seq<u8>) -> Seq<u8> {
    if row.len() > 0 && row.last() == 0x0A {
        let body = row.drop_last();
        if body.len() > 0 && body.last() == 0x0D {
            body.drop_last()
        } else {
            body
        }
    } else {
        row
    }
}

/// The record that a row holds. A row that is not UTF-8, or not JSON, holds none.
pub open spec fn row_record(row: Seq<u8>) -> Option<JsonView> {
    match decoded(row_body(row)) {
        Some(text) => json_text(text),
        None => None,
    }
}

/// What has been read after one more row. A row without a record changes
/// nothing.
#[verifier::opaque]
pub open spec fn after_row(state: ReadState, row: Seq<u8>) -> ReadState {
    match row_record(row) {
        Some(record) => after_record(state, record),
        None => state,
    }
}

/// What has been read after all of the rows.
pub open spec fn after_rows(all: Seq<Seq<u8>>) -> ReadState
    decreases all.len(),
{
    if all.len() == 0 {
        ReadState::empty()
    } else {
        after_row(after_rows(all.drop_last()), all.last())
    }
}

/// What a rollout file holds.
pub open spec fn contents(bytes: Seq<u8>) -> ReadState {
    after_rows(rows(bytes, 0x0Au8))
}

// Reading

/// A transcript being read record by record.
pub struct Reader {
    meta: SessionMeta,
    blocks: Vec<Block>,
    /// The texts of the blocks.
    seen: StringHashSet,
}

impl Reader {
    /// What has been read.
    pub closed spec fn state(&self) -> ReadState {
        ReadState { meta: self.meta@, blocks: block_views(self.blocks@) }
    }

    /// The texts that were seen are those of the blocks.
    pub closed spec fn well_formed(&self) -> bool {
        forall|text: Seq<char>| #[trigger]
            self.seen@.contains(text) <==> has_text(block_views(self.blocks@), text)
    }

    /// Nothing has been read.
    pub fn new() -> (reader: Self)
        ensures
            reader.well_formed(),
            reader.state() == ReadState::empty(),
    {
        let reader = Reader {
            meta: SessionMeta::default(),
            blocks: Vec::new(),
            seen: StringHashSet::new(),
        };
        assert(block_views(reader.blocks@) == Seq::<BlockView>::empty());
        reader
    }

    /// The header and the blocks that were read.
    pub fn finish(self) -> (read: (SessionMeta, Vec<Block>))
        requires
            self.well_formed(),
        ensures
            read.0@ == self.state().meta,
            block_views(read.1@) == self.state().blocks,
    {
        (self.meta, self.blocks)
    }

    /// Add a block, unless its text is missing, blank, or known already.
    fn push(&mut self, kind: BlockKind, text: Option<String>)
        requires
            old(self).well_formed(),
        ensures
            final(self).well_formed(),
            final(self).state() == (ReadState {
                blocks: with_block(old(self).state().blocks, kind, string_view(text)),
                ..old(self).state()
            }),
    {
        if let Some(text) = text {
            if is_blank(text.as_str()) || self.seen.contains(text.as_str()) {
                return;
            }
            let ghost before = block_views(self.blocks@);
            let ghost words = text@;
            self.seen.insert(text.clone());
            self.blocks.push(Block { kind, text });
            proof {
                let after = block_views(self.blocks@);
                assert(after == before.push(BlockView { kind, text: words }));
                assert forall|other: Seq<char>| #[trigger]
                    self.seen@.contains(other) <==> has_text(after, other) by {
                    if has_text(before, other) {
                        let k = choose|k: int|
                            0 <= k < before.len() && (#[trigger] before[k]).text == other;
                        assert(after[k].text == other);
                    }
                    if other == words {
                        assert(after[before.len() as int].text == other);
                    }
                    if has_text(after, other) && other != words {
                        let k = choose|k: int|
                            0 <= k < after.len() && (#[trigger] after[k]).text == other;
                        assert(before[k].text == other);
                    }
                }
            }
        }
    }

    /// `event_msg`/`item_completed` mirrors what the TUI drew, one record per
    /// rendered item.
    fn collect_event_msg(&mut self, payload: &Json)
        requires
            old(self).well_formed(),
        ensures
            final(self).well_formed(),
            final(self).state() == (ReadState {
                blocks: with_event(old(self).state().blocks, payload@),
                ..old(self).state()
            }),
    {
        if !is_text(payload.text_at("type"), "item_completed") {
            return;
        }
        let item = match payload.get("item") {
            Some(item) => item,
            None => return,
        };
        let kind = item.text_at("type");
        if is_text(kind, "AgentMessage") {
            self.push(BlockKind::AgentMessage, join_text_parts(item.get("content")));
        } else if is_text(kind, "UserMessage") {
            self.push(BlockKind::UserMessage, join_text_parts(item.get("content")));
        } else if is_text(kind, "Reasoning") {
            self.push(BlockKind::Reasoning, join_text_parts(item.get("summary_text")));
        } else if is_text(kind, "CommandExecution") {
            self.push(BlockKind::Command, shell_script(item.get("command")));
            self.push(BlockKind::CommandOutput, string_field(item, "aggregated_output"));
        }
    }

    /// `response_item` is the raw model conversation. It is the only source on
    /// Codex < 0.147, but it also carries synthetic turns the TUI never showed.
    fn collect_response_item(&mut self, payload: &Json)
        requires
            old(self).well_formed(),
        ensures
            final(self).well_formed(),
            final(self).state() == (ReadState {
                blocks: with_response(old(self).state().blocks, payload@),
                ..old(self).state()
            }),
    {
        let kind = payload.text_at("type");
        if is_text(kind, "message") {
            let role = payload.text_at("role");
            let text = join_text_parts(payload.get("content"));
            if is_text(role, "assistant") {
                self.push(BlockKind::AgentMessage, text);
            } else if is_text(role, "user") {
                if let Some(text) = text {
                    if !is_synthetic_user_text(text.as_str()) {
                        self.push(BlockKind::UserMessage, Some(text));
                    }
                }
            }
            // `developer` turns are injected instructions, never rendered.
        } else if is_text(kind, "reasoning") {
            self.push(BlockKind::Reasoning, join_text_parts(payload.get("summary")));
        } else if is_text(kind, "agent_message") {
            // A sub-agent's reply, wrapped in a routing envelope. Matching finds
            // the prose inside it and returns only that, so the envelope never
            // leaks into the result.
            self.push(BlockKind::AgentMessage, join_text_parts(payload.get("content")));
        } else if is_text(kind, "custom_tool_call") {
            // The script Codex ran. On Codex < 0.147 this is the only record of
            // the command, and it also carries plan updates and patches.
            let script = match payload.text_at("input") {
                Some(input) => script_literals(input),
                None => None,
            };
            self.push(BlockKind::Command, script);
        } else if is_text(kind, "custom_tool_call_output") {
            self.push(BlockKind::CommandOutput, parse_tool_output(payload.get("output")));
        }
    }

    /// Read one record.
    pub fn record(&mut self, record: &Json)
        requires
            old(self).well_formed(),
        ensures
            final(self).well_formed(),
            final(self).state() == after_record(old(self).state(), record@),
    {
        let payload = match record.get("payload") {
            Some(payload) => payload,
            None => return,
        };
        let kind = record.text_at("type");
        if is_text(kind, "session_meta") {
            self.meta = parse_session_meta(payload);
        } else if is_text(kind, "event_msg") {
            self.collect_event_msg(payload);
        } else if is_text(kind, "response_item") {
            self.collect_response_item(payload);
        }
    }

    /// Read one row, with or without the line ending behind it. A session being
    /// written to concurrently can end in a partial row, and records from future
    /// Codex versions may not parse. Skip, never fail.
    pub fn row(&mut self, row: &[u8])
        requires
            old(self).well_formed(),
        ensures
            final(self).well_formed(),
            final(self).state() == after_row(old(self).state(), row@),
    {
        let mut end: usize = row.len();
        if end > 0 && row[end - 1] == 0x0A {
            end = end - 1;
            if end > 0 && row[end - 1] == 0x0D {
                end = end - 1;
            }
        }
        proof {
            reveal(after_row);
            assert(row@.subrange(0, end as int) == row_body(row@));
        }
        if let Some(text) = decode(slice_subrange(row, 0, end)) {
            if let Some(record) = parse_json(text) {
                self.record(&record);
            }
        }
    }
}

/// The header that a `session_meta` record holds.
fn parse_session_meta(payload: &Json) -> (meta: SessionMeta)
    ensures
        meta@ == meta_of(payload@),
{
    SessionMeta {
        id: string_field(payload, "id"),
        cwd: string_field(payload, "cwd"),
        cli_version: string_field(payload, "cli_version"),
    }
}

/// A copy of the text of a field that holds a string.
fn string_field(value: &Json, key: &str) -> (text: Option<String>)
    ensures
        string_view(text) == text_field(value@, key@),
{
    owned(value.text_at(key))
}

/// Read the bytes of a rollout file into its header and its logical text blocks.
pub fn parse(bytes: &[u8]) -> (read: (SessionMeta, Vec<Block>))
    ensures
        read.0@ == contents(bytes@).meta,
        block_views(read.1@) == contents(bytes@).blocks,
{
    let bounds = row_bounds(bytes);
    let ghost all = rows(bytes@, 0x0Au8);
    let mut reader = Reader::new();
    let mut i: usize = 0;
    assert(all.take(0) == Seq::<Seq<u8>>::empty());
    while i < bounds.len()
        invariant
            i <= bounds@.len(),
            all == rows(bytes@, 0x0Au8),
            bounds_match(bytes@, all, bounds@),
            reader.well_formed(),
            reader.state() == after_rows(all.take(i as int)),
        decreases bounds@.len() - i,
    {
        assert(all.take(i + 1).drop_last() == all.take(i as int));
        let (from, to) = bounds[i];
        reader.row(slice_subrange(bytes, from, to));
        i = i + 1;
    }
    assert(all.take(all.len() as int) == all);
    reader.finish()
}

/// A rollout file that has been read.
#[derive(Debug)]
pub struct Transcript {
    /// Where the file was found.
    pub path: String,
    /// The name of the file without its extension.
    pub stem: String,
    pub meta: SessionMeta,
    pub blocks: Vec<Block>,
}

impl Clone for Transcript {
    fn clone(&self) -> (copy: Self)
        ensures
            copy.path@ == self.path@,
            copy.stem@ == self.stem@,
            copy.meta@ == self.meta@,
            block_views(copy.blocks@) == block_views(self.blocks@),
    {
        let blocks = self.blocks.clone();
        assert(blocks@ == self.blocks@);
        Transcript {
            path: self.path.clone(),
            stem: self.stem.clone(),
            meta: self.meta.clone(),
            blocks,
        }
    }
}

impl Transcript {
    /// The identifier that a session is reported by: its id up to the first
    /// hyphen, or the file stem.
    pub open spec fn brief(&self) -> Seq<char> {
        match self.meta@.id {
            Some(id) => id.take(first_of(id, '-') as int),
            None => self.stem@,
        }
    }

    /// Short session identifier for status output, falling back to the file stem.
    pub fn short_id(&self) -> (id: String)
        ensures
            id@ == self.brief(),
    {
        match &self.meta.id {
            Some(id) => {
                let chars = chars_of(id.as_str());
                let mut end: usize = 0;
                while end < chars.len() && chars[end] != '-'
                    invariant
                        end <= chars@.len(),
                        forall|i: int| 0 <= i < end ==> #[trigger] chars@[i] != '-',
                    decreases chars@.len() - end,
                {
                    end = end + 1;
                }
                proof {
                    lemma_first_of(id@, '-', end as int);
                    assert(chars@.subrange(0, end as int) == id@.take(end as int));
                }
                string_of(&chars, 0, end)
            },
            None => self.stem.clone(),
        }
    }
}

/// A file that holds no transcript.
#[derive(Debug)]
pub struct NotRollout {
    pub path: String,
}

impl NotRollout {
    /// The error in words.
    pub fn message(&self) -> (text: String)
        ensures
            text@ == self.path@ + " is not a Codex rollout file"@,
    {
        let mut text = self.path.clone();
        text.append(" is not a Codex rollout file");
        text
    }
}

/// There is no header and nothing to index.
pub open spec fn nothing_read(state: ReadState) -> bool {
    state.meta == MetaView::empty() && state.blocks.len() == 0
}

/// Read the bytes of a rollout file into its logical text blocks.
///
/// A file with no session header and nothing to index is not a transcript.
/// Saying so beats reporting that the selection could not be found in it.
pub fn load(path: &str, stem: &str, bytes: &[u8]) -> (loaded: Result<Transcript, NotRollout>)
    ensures
        match loaded {
            Ok(transcript) => {
                &&& !nothing_read(contents(bytes@))
                &&& transcript.path@ == path@
                &&& transcript.stem@ == stem@
                &&& transcript.meta@ == contents(bytes@).meta
                &&& block_views(transcript.blocks@) == contents(bytes@).blocks
            },
            Err(error) => nothing_read(contents(bytes@)) && error.path@ == path@,
        },
{
    let (meta, blocks) = parse(bytes);
    if meta.id.is_none() && meta.cwd.is_none() && meta.cli_version.is_none() && blocks.len() == 0 {
        return Err(NotRollout { path: path.to_string() });
    }
    Ok(Transcript { path: path.to_string(), stem: stem.to_string(), meta, blocks })
}

/// The working directory that a session header names.
pub open spec fn header_cwd(record: JsonView) -> Option<Seq<char>> {
    if text_field(record, "type"@) == Some("session_meta"@) {
        match field(record, "payload"@) {
            Some(payload) => text_field(payload, "cwd"@),
            None => None,
        }
    } else {
        None
    }
}

/// The working directory that a session header names.
pub fn record_cwd(record: &Json) -> (cwd: Option<String>)
    ensures
        string_view(cwd) == header_cwd(record@),
{
    if !is_text(record.text_at("type"), "session_meta") {
        return None;
    }
    match record.get("payload") {
        Some(payload) => string_field(payload, "cwd"),
        None => None,
    }
}

/// The working directory a session was started in, read from the first line of
/// its file without parsing the rest. `session_meta` is always the first record,
/// so this costs one line rather than the whole transcript.
pub fn session_cwd(first_line: &[u8]) -> (cwd: Option<String>)
    ensures
        string_view(cwd) == (match decoded(first_line@) {
            Some(text) => match json_text(text) {
                Some(record) => header_cwd(record),
                None => None,
            },
            None => None,
        }),
{
    match decode(first_line) {
        Some(text) => match parse_json(text) {
            Some(record) => record_cwd(&record),
            None => None,
        },
        None => None,
    }
}

// Laws

/// No text stands in a transcript twice, and none is blank.
pub open spec fn distinct_texts(blocks: Seq<BlockView>) -> bool {
    &&& forall|i: int| 0 <= i < blocks.len() ==> !blank((#[trigger] blocks[i]).text)
    &&& forall|i: int, j: int|
        0 <= i < j < blocks.len() ==> (#[trigger] blocks[i]).text != (#[trigger] blocks[j]).text
}

/// Whatever a rollout file holds, the blocks read from it have distinct texts and
/// none of them is blank.
pub proof fn law_blocks_are_distinct_and_not_blank(bytes: Seq<u8>)
    ensures
        distinct_texts(contents(bytes).blocks),
{
    lemma_rows_keep_texts_distinct(rows(bytes, 0x0Au8));
}

proof fn lemma_rows_keep_texts_distinct(all: Seq<Seq<u8>>)
    ensures
        distinct_texts(after_rows(all).blocks),
    decreases all.len(),
{
    if all.len() > 0 {
        reveal(after_row);
        lemma_rows_keep_texts_distinct(all.drop_last());
        if let Some(record) = row_record(all.last()) {
            law_records_keep_texts_distinct(after_rows(all.drop_last()), record);
        }
    }
}

/// One more record keeps the texts distinct and not blank, keeps every block that
/// was there in its place, and only adds behind them.
pub proof fn law_records_keep_texts_distinct(state: ReadState, record: JsonView)
    requires
        distinct_texts(state.blocks),
    ensures
        distinct_texts(after_record(state, record).blocks),
        state.blocks.is_prefix_of(after_record(state, record).blocks),
{
    assert(state.blocks.is_prefix_of(state.blocks));
}

/// A record that nothing is read from: it has no payload, is of another type than
/// those that are read, or its payload is.
pub open spec fn unread(record: JsonView) -> bool {
    match field(record, "payload"@) {
        Some(payload) => {
            let kind = text_field(record, "type"@);
            &&& kind != Some("session_meta"@)
            &&& kind == Some("event_msg"@) ==> unread_event(payload)
            &&& kind == Some("response_item"@) ==> unread_response(text_field(payload, "type"@))
        },
        None => true,
    }
}

/// An event that nothing is read from: all but completed items of the four types
/// that are rendered.
pub open spec fn unread_event(payload: JsonView) -> bool {
    text_field(payload, "type"@) == Some("item_completed"@) ==> match field(payload, "item"@) {
        Some(item) => {
            let kind = text_field(item, "type"@);
            &&& kind != Some("AgentMessage"@)
            &&& kind != Some("UserMessage"@)
            &&& kind != Some("Reasoning"@)
            &&& kind != Some("CommandExecution"@)
        },
        None => true,
    }
}

/// A type of response that nothing is read from.
pub open spec fn unread_response(kind: Option<Seq<char>>) -> bool {
    &&& kind != Some("message"@)
    &&& kind != Some("reasoning"@)
    &&& kind != Some("agent_message"@)
    &&& kind != Some("custom_tool_call"@)
    &&& kind != Some("custom_tool_call_output"@)
}

/// A row that holds no record — cut short, not UTF-8, not JSON — or one that nothing
/// is read from changes nothing, wherever it stands.
pub proof fn law_rows_that_are_not_read_are_skipped(
    before: Seq<Seq<u8>>,
    row: Seq<u8>,
    after: Seq<Seq<u8>>,
)
    requires
        row_record(row) matches Some(record) ==> unread(record),
    ensures
        after_rows(before.push(row) + after) == after_rows(before + after),
    decreases after.len(),
{
    if after.len() == 0 {
        reveal(after_row);
        assert(before.push(row) + after == before.push(row));
        assert(before + after == before);
        assert(before.push(row).drop_last() == before);
    } else {
        law_rows_that_are_not_read_are_skipped(before, row, after.drop_last());
        assert((before.push(row) + after).drop_last() == before.push(row) + after.drop_last());
        assert((before + after).drop_last() == before + after.drop_last());
    }
}

/// Turns that were never rendered add nothing: messages of other roles than the
/// assistant and the user, and instructions injected as user turns.
pub proof fn law_unrendered_turns_add_nothing(blocks: Seq<BlockView>, payload: JsonView)
    requires
        text_field(payload, "type"@) == Some("message"@),
        text_field(payload, "role"@) != Some("assistant"@),
        text_field(payload, "role"@) == Some("user"@) ==> injected(
            content_text(field(payload, "content"@)),
        ),
    ensures
        with_response(blocks, payload) == blocks,
{
}

/// A text that opens like injected instructions.
pub open spec fn injected(text: Option<Seq<char>>) -> bool {
    text matches Some(written) && injected_opening(trim_start(written))
}

/// A block that was added, or was there, stays.
proof fn lemma_text_stays(
    blocks: Seq<BlockView>,
    kind: BlockKind,
    text: Option<Seq<char>>,
    known: Seq<char>,
)
    requires
        has_text(blocks, known) || text == Some(known),
    ensures
        blank(known) || has_text(with_block(blocks, kind, text), known),
{
    let after = with_block(blocks, kind, text);
    if has_text(blocks, known) {
        let k = choose|k: int| 0 <= k < blocks.len() && (#[trigger] blocks[k]).text == known;
        assert(after[k].text == known);
    } else if !blank(known) {
        assert(after[blocks.len() as int].text == known);
    }
}

/// A record that was read adds nothing when it comes again, as it does when both
/// record kinds hold the same texts.
pub proof fn law_a_repeated_record_adds_nothing(state: ReadState, record: JsonView)
    ensures
        after_record(after_record(state, record), record) == after_record(state, record),
{
    let blocks = state.blocks;
    if let Some(payload) = field(record, "payload"@) {
        lemma_repeated_response(blocks, payload);
        lemma_repeated_event(blocks, payload);
    }
}

proof fn lemma_repeated_block(blocks: Seq<BlockView>, kind: BlockKind, text: Option<Seq<char>>)
    ensures
        with_block(with_block(blocks, kind, text), kind, text) == with_block(blocks, kind, text),
{
    if let Some(words) = text {
        lemma_text_stays(blocks, kind, text, words);
    }
}

proof fn lemma_repeated_response(blocks: Seq<BlockView>, payload: JsonView)
    ensures
        with_response(with_response(blocks, payload), payload) == with_response(blocks, payload),
{
    let content = content_text(field(payload, "content"@));
    lemma_repeated_block(blocks, BlockKind::AgentMessage, content);
    lemma_repeated_block(blocks, BlockKind::UserMessage, content);
    lemma_repeated_block(
        blocks,
        BlockKind::Reasoning,
        content_text(field(payload, "summary"@)),
    );
    lemma_repeated_block(blocks, BlockKind::Command, call_text(payload));
    lemma_repeated_block(
        blocks,
        BlockKind::CommandOutput,
        output_text(field(payload, "output"@)),
    );
}

proof fn lemma_repeated_event(blocks: Seq<BlockView>, payload: JsonView)
    ensures
        with_event(with_event(blocks, payload), payload) == with_event(blocks, payload),
{
    if let Some(item) = field(payload, "item"@) {
        let content = content_text(field(item, "content"@));
        lemma_repeated_block(blocks, BlockKind::AgentMessage, content);
        lemma_repeated_block(blocks, BlockKind::UserMessage, content);
        lemma_repeated_block(
            blocks,
            BlockKind::Reasoning,
            content_text(field(item, "summary_text"@)),
        );
        let command = command_text(field(item, "command"@));
        let output = text_field(item, "aggregated_output"@);
        let first = with_block(blocks, BlockKind::Command, command);
        let second = with_block(first, BlockKind::CommandOutput, output);
        if let Some(words) = command {
            lemma_text_stays(blocks, BlockKind::Command, command, words);
            if !blank(words) {
                lemma_text_stays(first, BlockKind::CommandOutput, output, words);
            }
        }
        assert(with_block(second, BlockKind::Command, command) == second);
        lemma_repeated_block(first, BlockKind::CommandOutput, output);
    }
}

/// Everything that was on screen is read: whatever blocks were there before, every text of
/// a completed item that is not blank is that of some block afterwards, the output of a
/// command whatever became of the command.
pub proof fn law_every_completed_item_is_read(
    state: ReadState,
    record: JsonView,
    payload: JsonView,
    item: JsonView,
    text: Seq<char>,
)
    requires
        field(record, "payload"@) == Some(payload),
        text_field(record, "type"@) == Some("event_msg"@),
        text_field(payload, "type"@) == Some("item_completed"@),
        field(payload, "item"@) == Some(item),
        !blank(text),
    ensures
        ({
            let after = after_record(state, record).blocks;
            let shown = text_field(item, "type"@);
            let source = if shown == Some("AgentMessage"@) || shown == Some("UserMessage"@) {
                content_text(field(item, "content"@)) == Some(text)
            } else if shown == Some("Reasoning"@) {
                content_text(field(item, "summary_text"@)) == Some(text)
            } else {
                shown == Some("CommandExecution"@) && (command_text(field(item, "command"@))
                    == Some(text) || text_field(item, "aggregated_output"@) == Some(text))
            };
            source ==> exists|i: int| 0 <= i < after.len() && (#[trigger] after[i]).text == text
        }),
{
    lemma_names_differ();
    let blocks = state.blocks;
    let content = content_text(field(item, "content"@));
    lemma_block_read(blocks, BlockKind::AgentMessage, content, text);
    lemma_block_read(blocks, BlockKind::UserMessage, content, text);
    lemma_block_read(
        blocks,
        BlockKind::Reasoning,
        content_text(field(item, "summary_text"@)),
        text,
    );
    let command = command_text(field(item, "command"@));
    lemma_block_read(blocks, BlockKind::Command, command, text);
    lemma_block_read(
        with_block(blocks, BlockKind::Command, command),
        BlockKind::CommandOutput,
        text_field(item, "aggregated_output"@),
        text,
    );
    let after = after_record(state, record).blocks;
    assert(after == with_item(blocks, item));
    assert(has_text(after, text) ==> exists|i: int|
        0 <= i < after.len() && (#[trigger] after[i]).text == text);
    let shown = text_field(item, "type"@);
    if shown == Some("AgentMessage"@) {
        assert(after == with_block(blocks, BlockKind::AgentMessage, content));
    } else if shown == Some("UserMessage"@) {
        assert(after == with_block(blocks, BlockKind::UserMessage, content));
    } else if shown == Some("CommandExecution"@) {
        assert(command == Some(text) ==> has_text(
            with_block(blocks, BlockKind::Command, command),
            text,
        ));
    }
}

/// Every text of a response that is not blank is that of some block afterwards, whatever
/// blocks were there before, unless it was injected.
pub proof fn law_every_response_is_read(
    state: ReadState,
    record: JsonView,
    payload: JsonView,
    text: Seq<char>,
)
    requires
        field(record, "payload"@) == Some(payload),
        text_field(record, "type"@) == Some("response_item"@),
        !blank(text),
    ensures
        ({
            let after = after_record(state, record).blocks;
            let kind = text_field(payload, "type"@);
            let role = text_field(payload, "role"@);
            let content = content_text(field(payload, "content"@));
            let source = if kind == Some("message"@) {
                content == Some(text) && (role == Some("assistant"@) || (role == Some("user"@)
                    && !injected_opening(trim_start(text))))
            } else if kind == Some("reasoning"@) {
                content_text(field(payload, "summary"@)) == Some(text)
            } else if kind == Some("agent_message"@) {
                content == Some(text)
            } else if kind == Some("custom_tool_call"@) {
                text_field(payload, "input"@) matches Some(input) && script_text(input) == Some(
                    text,
                )
            } else {
                kind == Some("custom_tool_call_output"@) && output_text(field(payload, "output"@))
                    == Some(text)
            };
            source ==> exists|i: int| 0 <= i < after.len() && (#[trigger] after[i]).text == text
        }),
{
    lemma_names_differ();
    let blocks = state.blocks;
    let content = content_text(field(payload, "content"@));
    lemma_block_read(blocks, BlockKind::AgentMessage, content, text);
    lemma_block_read(blocks, BlockKind::UserMessage, content, text);
    lemma_block_read(blocks, BlockKind::Reasoning, content_text(field(payload, "summary"@)), text);
    lemma_block_read(blocks, BlockKind::Command, call_text(payload), text);
    let output = output_text(field(payload, "output"@));
    lemma_block_read(blocks, BlockKind::CommandOutput, output, text);
    let after = after_record(state, record).blocks;
    assert(after == with_response(blocks, payload));
    let kind = text_field(payload, "type"@);
    if kind == Some("message"@) {
        if text_field(payload, "role"@) == Some("assistant"@) {
            assert(after == with_block(blocks, BlockKind::AgentMessage, content));
        } else if content == Some(text) && !injected_opening(trim_start(text)) && text_field(
            payload,
            "role"@,
        ) == Some("user"@) {
            assert(after == with_block(blocks, BlockKind::UserMessage, content));
        }
    } else if kind == Some("agent_message"@) {
        assert(after == with_block(blocks, BlockKind::AgentMessage, content));
    } else if kind == Some("custom_tool_call"@) {
        assert(after == with_block(blocks, BlockKind::Command, call_text(payload)));
    } else if kind == Some("custom_tool_call_output"@) {
        assert(after == with_block(blocks, BlockKind::CommandOutput, output));
    }
}

/// A block that is added, or was there, is there.
proof fn lemma_block_read(
    blocks: Seq<BlockView>,
    kind: BlockKind,
    shown: Option<Seq<char>>,
    text: Seq<char>,
)
    requires
        !blank(text),
    ensures
        ({
            let after = with_block(blocks, kind, shown);
            shown == Some(text) || has_text(blocks, text) ==> exists|i: int|
                0 <= i < after.len() && (#[trigger] after[i]).text == text
        }),
{
    if shown == Some(text) || has_text(blocks, text) {
        lemma_text_stays(blocks, kind, shown, text);
    }
}

/// The names of types and roles are all different.
pub proof fn lemma_names_differ()
    ensures
        "session_meta"@ != "event_msg"@,
        "session_meta"@ != "response_item"@,
        "event_msg"@ != "response_item"@,
        "AgentMessage"@ != "UserMessage"@,
        "AgentMessage"@ != "Reasoning"@,
        "AgentMessage"@ != "CommandExecution"@,
        "UserMessage"@ != "Reasoning"@,
        "UserMessage"@ != "CommandExecution"@,
        "Reasoning"@ != "CommandExecution"@,
        "assistant"@ != "user"@,
        "message"@ != "reasoning"@,
        "message"@ != "agent_message"@,
        "message"@ != "custom_tool_call"@,
        "message"@ != "custom_tool_call_output"@,
        "reasoning"@ != "agent_message"@,
        "reasoning"@ != "custom_tool_call"@,
        "reasoning"@ != "custom_tool_call_output"@,
        "agent_message"@ != "custom_tool_call"@,
        "agent_message"@ != "custom_tool_call_output"@,
        "custom_tool_call"@ != "custom_tool_call_output"@,
{
    reveal_strlit("session_meta");
    reveal_strlit("event_msg");
    reveal_strlit("response_item");
    reveal_strlit("AgentMessage");
    reveal_strlit("UserMessage");
    reveal_strlit("Reasoning");
    reveal_strlit("CommandExecution");
    reveal_strlit("assistant");
    reveal_strlit("user");
    reveal_strlit("message");
    reveal_strlit("reasoning");
    reveal_strlit("agent_message");
    reveal_strlit("custom_tool_call");
    reveal_strlit("custom_tool_call_output");
    assert("session_meta"@.len() == 12);
    assert("event_msg"@.len() == 9);
    assert("response_item"@.len() == 13);
    assert("AgentMessage"@.len() == 12);
    assert("UserMessage"@.len() == 11);
    assert("Reasoning"@.len() == 9);
    assert("CommandExecution"@.len() == 16);
    assert("assistant"@.len() == 9);
    assert("user"@.len() == 4);
    assert("message"@.len() == 7);
    assert("reasoning"@.len() == 9);
    assert("agent_message"@.len() == 13);
    assert("custom_tool_call"@.len() == 16);
    assert("custom_tool_call_output"@.len() == 23);
}

/// A text that is new becomes one more block, behind all others and of the kind that it was
/// shown as, and nothing else changes.
pub proof fn law_a_new_text_becomes_a_block(
    state: ReadState,
    record: JsonView,
    payload: JsonView,
    item: JsonView,
    text: Seq<char>,
)
    requires
        field(record, "payload"@) == Some(payload),
        !blank(text),
        forall|i: int| 0 <= i < state.blocks.len() ==> (#[trigger] state.blocks[i]).text != text,
    ensures
        ({
            let after = after_record(state, record);
            let added = |kind: BlockKind|
                after == (ReadState {
                    meta: state.meta,
                    blocks: state.blocks.push(BlockView { kind, text }),
                });
            let completed = text_field(record, "type"@) == Some("event_msg"@) && text_field(
                payload,
                "type"@,
            ) == Some("item_completed"@) && field(payload, "item"@) == Some(item);
            let shown = text_field(item, "type"@);
            let response = text_field(record, "type"@) == Some("response_item"@);
            let kind = text_field(payload, "type"@);
            let content = content_text(field(payload, "content"@));
            &&& completed && shown == Some("AgentMessage"@) && content_text(field(item, "content"@))
                == Some(text) ==> added(BlockKind::AgentMessage)
            &&& completed && shown == Some("UserMessage"@) && content_text(field(item, "content"@))
                == Some(text) ==> added(BlockKind::UserMessage)
            &&& completed && shown == Some("Reasoning"@) && content_text(
                field(item, "summary_text"@),
            ) == Some(text) ==> added(BlockKind::Reasoning)
            &&& completed && shown == Some("CommandExecution"@) && command_text(
                field(item, "command"@),
            ) == Some(text) && text_field(item, "aggregated_output"@) is None ==> added(
                BlockKind::Command,
            )
            &&& completed && shown == Some("CommandExecution"@) && command_text(
                field(item, "command"@),
            ) is None && text_field(item, "aggregated_output"@) == Some(text) ==> added(
                BlockKind::CommandOutput,
            )
            &&& response && kind == Some("message"@) && content == Some(text) && text_field(
                payload,
                "role"@,
            ) == Some("assistant"@) ==> added(BlockKind::AgentMessage)
            &&& response && kind == Some("message"@) && content == Some(text) && text_field(
                payload,
                "role"@,
            ) == Some("user"@) && !injected_opening(trim_start(text)) ==> added(
                BlockKind::UserMessage,
            )
            &&& response && kind == Some("reasoning"@) && content_text(field(payload, "summary"@))
                == Some(text) ==> added(BlockKind::Reasoning)
            &&& response && kind == Some("agent_message"@) && content == Some(text) ==> added(
                BlockKind::AgentMessage,
            )
            &&& response && kind == Some("custom_tool_call_output"@) && output_text(
                field(payload, "output"@),
            ) == Some(text) ==> added(BlockKind::CommandOutput)
        }),
{
    lemma_names_differ();
    assert(!has_text(state.blocks, text));
}

/// A command and its output become two blocks, the output behind the command, as far as
/// their texts are new.
pub proof fn law_output_follows_its_command(
    state: ReadState,
    record: JsonView,
    payload: JsonView,
    item: JsonView,
    command: Seq<char>,
    output: Seq<char>,
)
    requires
        field(record, "payload"@) == Some(payload),
        text_field(record, "type"@) == Some("event_msg"@),
        text_field(payload, "type"@) == Some("item_completed"@),
        field(payload, "item"@) == Some(item),
        text_field(item, "type"@) == Some("CommandExecution"@),
        command_text(field(item, "command"@)) == Some(command),
        text_field(item, "aggregated_output"@) == Some(output),
        !blank(command),
        !blank(output),
        command != output,
        forall|i: int| 0 <= i < state.blocks.len() ==> (#[trigger] state.blocks[i]).text != output,
    ensures
        ({
            let after = after_record(state, record).blocks;
            let known = exists|i: int|
                0 <= i < state.blocks.len() && (#[trigger] state.blocks[i]).text == command;
            let result = BlockView { kind: BlockKind::CommandOutput, text: output };
            let before = if known {
                state.blocks
            } else {
                state.blocks.push(BlockView { kind: BlockKind::Command, text: command })
            };
            after == before.push(result)
        }),
{
    lemma_names_differ();
    let commanded = with_block(state.blocks, BlockKind::Command, Some(command));
    assert(!has_text(commanded, output)) by {
        if has_text(commanded, output) {
            let k = choose|k: int|
                0 <= k < commanded.len() && (#[trigger] commanded[k]).text == output;
            if k < state.blocks.len() {
                assert(state.blocks[k].text == output);
            }
        }
    }
    assert(after_record(state, record).blocks == with_item(state.blocks, item));
    assert(with_item(state.blocks, item) == with_block(
        commanded,
        BlockKind::CommandOutput,
        Some(output),
    ));
}

/// The script of a tool call that is new becomes a command.
pub proof fn law_a_new_script_becomes_a_command(
    state: ReadState,
    record: JsonView,
    payload: JsonView,
    input: Seq<char>,
    text: Seq<char>,
)
    requires
        field(record, "payload"@) == Some(payload),
        text_field(record, "type"@) == Some("response_item"@),
        text_field(payload, "type"@) == Some("custom_tool_call"@),
        text_field(payload, "input"@) == Some(input),
        script_text(input) == Some(text),
        !blank(text),
        forall|i: int| 0 <= i < state.blocks.len() ==> (#[trigger] state.blocks[i]).text != text,
    ensures
        after_record(state, record) == (ReadState {
            meta: state.meta,
            blocks: state.blocks.push(BlockView { kind: BlockKind::Command, text }),
        }),
{
    lemma_names_differ();
    assert(!has_text(state.blocks, text));
}

/// The header says what its record says, and no other record changes it.
pub proof fn law_the_header_is_that_of_its_record(
    state: ReadState,
    record: JsonView,
    payload: JsonView,
)
    requires
        field(record, "payload"@) == Some(payload),
    ensures
        text_field(record, "type"@) == Some("session_meta"@) ==> {
            let after = after_record(state, record);
            &&& after.meta.id == text_field(payload, "id"@)
            &&& after.meta.cwd == text_field(payload, "cwd"@)
            &&& after.meta.cli_version == text_field(payload, "cli_version"@)
            &&& after.blocks == state.blocks
            &&& header_cwd(record) == after.meta.cwd
        },
        text_field(record, "type"@) != Some("session_meta"@) ==> after_record(state, record).meta
            == state.meta && header_cwd(record) is None,
{
}

/// What was read stays read: a block stays as it is and where it is, whatever rows follow.
pub proof fn law_what_was_read_stays_read(
    before: Seq<Seq<u8>>,
    after: Seq<Seq<u8>>,
    i: int,
)
    requires
        0 <= i < after_rows(before).blocks.len(),
    ensures
        i < after_rows(before + after).blocks.len(),
        after_rows(before + after).blocks[i] == after_rows(before).blocks[i],
    decreases after.len(),
{
    if after.len() == 0 {
        assert(before + after == before);
    } else {
        let init = after.drop_last();
        law_what_was_read_stays_read(before, init, i);
        assert((before + after).drop_last() == before + init);
        let state = after_rows(before + init);
        lemma_rows_keep_texts_distinct(before + init);
        reveal(after_row);
        if let Some(record) = row_record(after.last()) {
            law_records_keep_texts_distinct(state, record);
            let longer = after_record(state, record).blocks;
            assert(longer.subrange(0, state.blocks.len() as int)[i] == state.blocks[i]);
        }
    }
}

/// Rows are read one by one and by themselves: whatever was read before, a row with any of
/// the line endings, or none at the end of the file, adds what the JSON in it adds, and
/// nothing if it is not JSON.
pub proof fn law_a_row_is_read_by_itself(
    front: Seq<u8>,
    row: Seq<u8>,
    ending: Seq<u8>,
    text: Seq<char>,
)
    requires
        front.len() > 0 ==> front.last() == 0x0A,
        !row.contains(0x0Au8),
        row.len() > 0 ==> row.last() != 0x0D,
        ending == seq![0x0Au8] || ending == seq![0x0Du8, 0x0Au8] || (ending.len() == 0 && row.len()
            > 0),
        decoded(row) == Some(text),
    ensures
        contents(front + (row + ending)) == (match json_text(text) {
            Some(record) => after_record(contents(front), record),
            None => contents(front),
        }),
{
    let line = row + ending;
    let before = rows(front, 0x0Au8);
    assert forall|k: int| 0 <= k < line.len() - 1 implies #[trigger] line[k] != 0x0A by {
        if k < row.len() {
            assert(row.contains(row[k]));
        }
    }
    lemma_single_row(line, 0x0Au8);
    if front.len() > 0 {
        law_rows_begin_anew_behind_a_mark(front.drop_last(), 0x0Au8, line);
        assert(front.drop_last().push(0x0Au8) == front);
    } else {
        assert(front + line == line);
        assert(before + seq![line] == seq![line]);
    }
    let all = before + seq![line];
    assert(rows(front + line, 0x0Au8) == all);
    assert(all.drop_last() == before);
    assert(all.last() == line);
    reveal(after_row);
    assert(row_body(line) == row) by {
        if ending.len() == 1 {
            assert(line.drop_last() == row);
        } else if ending.len() == 2 {
            assert(line.drop_last().drop_last() == row);
        } else {
            assert(line == row);
            assert(row.contains(row.last()));
        }
    }
}

/// A session is reported by its id up to the first hyphen, or by its file without one.
pub proof fn law_a_session_is_reported_briefly(
    transcript: Transcript,
    front: Seq<char>,
    back: Seq<char>,
)
    requires
        !front.contains('-'),
    ensures
        transcript.meta@.id == Some(front + seq!['-'] + back) ==> transcript.brief() == front,
        transcript.meta@.id == Some(front) ==> transcript.brief() == front,
        transcript.meta@.id is None ==> transcript.brief() == transcript.stem@,
{
    let id = front + seq!['-'] + back;
    let n = front.len() as int;
    assert forall|i: int| 0 <= i < n implies #[trigger] id[i] != '-' by {
        assert(front.contains(front[i]));
    }
    assert forall|i: int| 0 <= i < n implies #[trigger] front[i] != '-' by {
        assert(front.contains(front[i]));
    }
    lemma_first_of(id, '-', n);
    lemma_first_of(front, '-', n);
    assert(id.take(n) == front);
    assert(front.take(n) == front);
}

/// A file is refused exactly when its header says nothing and it holds no text.
pub proof fn law_a_file_is_refused_when_it_says_nothing(state: ReadState)
    ensures
        nothing_read(state) <==> state.meta.id is None && state.meta.cwd is None
            && state.meta.cli_version is None && state.blocks.len() == 0,
{
}

/// A file is read to its end: whatever follows a line, the blocks of what stands up to it
/// are the first blocks of the file.
pub proof fn law_a_file_is_read_to_its_end(front: Seq<u8>, back: Seq<u8>, i: int)
    requires
        0 <= i < contents(front.push(0x0Au8)).blocks.len(),
    ensures
        i < contents(front.push(0x0Au8) + back).blocks.len(),
        contents(front.push(0x0Au8) + back).blocks[i] == contents(front.push(0x0Au8)).blocks[i],
{
    law_rows_begin_anew_behind_a_mark(front, 0x0Au8, back);
    law_what_was_read_stays_read(rows(front.push(0x0Au8), 0x0Au8), rows(back, 0x0Au8), i);
}

/// A text that is missing, blank, or that of a block which is there already adds nothing.
pub proof fn law_nothing_else_is_added(
    state: ReadState,
    record: JsonView,
    payload: JsonView,
    item: JsonView,
    text: Option<Seq<char>>,
)
    requires
        field(record, "payload"@) == Some(payload),
        text matches Some(words) ==> blank(words) || exists|i: int|
            0 <= i < state.blocks.len() && (#[trigger] state.blocks[i]).text == words,
    ensures
        ({
            let same = after_record(state, record) == state;
            let completed = text_field(record, "type"@) == Some("event_msg"@) && text_field(
                payload,
                "type"@,
            ) == Some("item_completed"@) && field(payload, "item"@) == Some(item);
            let shown = text_field(item, "type"@);
            let response = text_field(record, "type"@) == Some("response_item"@);
            let kind = text_field(payload, "type"@);
            let content = content_text(field(payload, "content"@));
            &&& completed && shown == Some("AgentMessage"@) && content_text(field(item, "content"@))
                == text ==> same
            &&& completed && shown == Some("UserMessage"@) && content_text(field(item, "content"@))
                == text ==> same
            &&& completed && shown == Some("Reasoning"@) && content_text(
                field(item, "summary_text"@),
            ) == text ==> same
            &&& completed && shown == Some("CommandExecution"@) && command_text(
                field(item, "command"@),
            ) == text && text_field(item, "aggregated_output"@) == text ==> same
            &&& response && kind == Some("message"@) && content == text ==> same
            &&& response && kind == Some("reasoning"@) && content_text(field(payload, "summary"@))
                == text ==> same
            &&& response && kind == Some("agent_message"@) && content == text ==> same
            &&& response && kind == Some("custom_tool_call"@) && text_field(payload, "input"@)
                is None ==> same
            &&& response && kind == Some("custom_tool_call_output"@) && output_text(
                field(payload, "output"@),
            ) == text ==> same
        }),
{
    lemma_names_differ();
    if let Some(words) = text {
        assert(blank(words) || has_text(state.blocks, words));
    }
}

} // verus!
