//! The one-off pipeline: which sessions are searched, in which order, what comes
//! of it, and what is said about it.

use vstd::prelude::*;
use vstd::string::StringExecFns;

use crate::align;
use crate::align::{
    block_holding, joined, law_every_kept_cluster_is_in_a_block,
    law_found_text_is_part_of_the_transcript, law_reported_block_holds_the_match, located,
    Haystack, Match, Options,
};
use crate::codex::{Block, BlockKind, Transcript};
use crate::herdr::{pane_session, ranked_session_ids, ranked_sessions, session_of, Pane};
use crate::heuristic::{
    law_joining_only_runs_rows_together, rewrap, rewrapped, without_white_space,
};
use crate::lists::{distinct, lemma_distinct, lemma_distinct_order};
use crate::normalize::{kept, pieces, text_between, without_diff_numbers, DenseIndex};
use crate::segment::graphemes;
use crate::sessions::{file_of, find_by_id, pair, pairs};
use crate::text::{chars_of, decimal, is_text, option_view, push_decimal, string_view, views};

verus! {

// Results

/// What to do when the selection is not in any transcript.
#[derive(Debug, Clone, Copy, PartialEq, Eq, Structural)]
pub enum Fallback {
    /// Leave the selection exactly as it was.
    Off,
    /// Remove gutters and the indentation the TUI added, keeping line breaks.
    Clean,
    /// Also run wrapped rows together, which un-wraps prose but damages code.
    Rewrap,
}

impl Fallback {
    /// What a selection becomes that was not checked against a transcript.
    pub open spec fn applied(self, selection: Seq<char>) -> Seq<char> {
        match self {
            Fallback::Off => selection,
            Fallback::Clean => rewrapped(selection, false),
            Fallback::Rewrap => rewrapped(selection, true),
        }
    }

    /// What is said about it.
    pub open spec fn notice_text(self) -> Seq<char> {
        match self {
            Fallback::Off => "leaving it unchanged"@,
            Fallback::Clean => "removed TUI decoration, but line breaks are as rendered"@,
            Fallback::Rewrap => "guessed which line breaks were wrapping; check the result"@,
        }
    }

    /// What a selection becomes that was not checked against a transcript.
    pub fn apply(self, selection: &str) -> (text: String)
        ensures
            text@ == self.applied(selection@),
    {
        match self {
            Fallback::Off => selection.to_string(),
            Fallback::Clean => rewrap(selection, false),
            Fallback::Rewrap => rewrap(selection, true),
        }
    }

    /// What is said about it.
    pub fn notice(self) -> (text: &'static str)
        ensures
            text@ == self.notice_text(),
    {
        match self {
            Fallback::Off => "leaving it unchanged",
            Fallback::Clean => "removed TUI decoration, but line breaks are as rendered",
            Fallback::Rewrap => "guessed which line breaks were wrapping; check the result",
        }
    }
}

/// How a restoration ended.
#[derive(Debug, Clone, Copy, PartialEq, Eq, Structural)]
pub enum Outcome {
    /// The selection was found in a transcript and replaced with its source.
    Restored,
    /// The command worked, but the result was never checked against a
    /// transcript. Given its own code so scripts can tell the two apart.
    Unverified,
}

impl Outcome {
    /// The exit code of the process.
    pub fn exit_code(self) -> (code: u8)
        ensures
            code == (match self {
                Outcome::Restored => 0u8,
                Outcome::Unverified => 2u8,
            }),
    {
        match self {
            Outcome::Restored => 0,
            Outcome::Unverified => 2,
        }
    }
}

// Candidates

/// The rollout files of some sessions, those that have one.
pub open spec fn files_of(listing: Seq<Seq<Seq<u8>>>, ids: Seq<Seq<char>>) -> Seq<(int, int)>
    decreases ids.len(),
{
    if ids.len() == 0 {
        Seq::empty()
    } else {
        let before = files_of(listing, ids.drop_last());
        match file_of(listing, ids.last()) {
            Some(file) => before.push(file),
            None => before,
        }
    }
}

/// A recent session: its rollout file and the directory that it was started in, as
/// far as it is known.
#[derive(Debug)]
pub struct RecentSession {
    pub file: (usize, usize),
    pub cwd: Option<String>,
}

/// The files of some recent sessions that were, or were not, started in the given
/// directory, in order.
pub open spec fn started_in(recent: Seq<RecentSession>, cwd: Seq<char>, here: bool) -> Seq<
    (int, int),
>
    decreases recent.len(),
{
    if recent.len() == 0 {
        Seq::empty()
    } else {
        let before = started_in(recent.drop_last(), cwd, here);
        if (string_view(recent.last().cwd) == Some(cwd)) == here {
            before.push(pair(recent.last().file))
        } else {
            before
        }
    }
}

/// The files of some recent sessions.
pub open spec fn recent_files(recent: Seq<RecentSession>) -> Seq<(int, int)> {
    recent.map_values(|session: RecentSession| pair(session.file))
}

/// The files of some recent sessions, with the ones started in the current
/// directory first. Without a current directory the order is left as it is.
pub open spec fn local_first(recent: Seq<RecentSession>, cwd: Option<Seq<char>>) -> Seq<
    (int, int),
> {
    match cwd {
        Some(cwd) => started_in(recent, cwd, true) + started_in(recent, cwd, false),
        None => recent_files(recent),
    }
}

/// Recent sessions, with the ones started in the current directory first. Panes
/// running elsewhere are usually working on something else entirely.
pub fn recent_by_locality(recent: &Vec<RecentSession>, cwd: Option<&str>) -> (files: Vec<
    (usize, usize),
>)
    ensures
        pairs(files@) == local_first(recent@, option_view(cwd)),
{
    let mut local: Vec<(usize, usize)> = Vec::new();
    let mut other: Vec<(usize, usize)> = Vec::new();
    let mut i: usize = 0;
    proof {
        assert(recent@.take(0) == Seq::<RecentSession>::empty());
        assert(pairs(local@) == Seq::<(int, int)>::empty());
        assert(pairs(other@) == Seq::<(int, int)>::empty());
    }
    while i < recent.len()
        invariant
            i <= recent@.len(),
            match cwd {
                Some(here) => pairs(local@) == started_in(recent@.take(i as int), here@, true)
                    && pairs(other@) == started_in(recent@.take(i as int), here@, false),
                None => pairs(local@) == recent_files(recent@.take(i as int)) && other@.len() == 0,
            },
        decreases recent@.len() - i,
    {
        let ghost before = (pairs(local@), pairs(other@));
        let session = &recent[i];
        let file = session.file;
        proof {
            assert(recent@.take(i + 1).drop_last() == recent@.take(i as int));
            assert(recent@.take(i + 1) == recent@.take(i as int).push(*session));
        }
        let started = match &session.cwd {
            Some(started) => Some(started.as_str()),
            None => None,
        };
        let first = match cwd {
            Some(here) => is_text(started, here),
            None => true,
        };
        if first {
            local.push(file);
            assert(pairs(local@) == before.0.push(pair(file)));
        } else {
            other.push(file);
            assert(pairs(other@) == before.1.push(pair(file)));
        }
        i = i + 1;
    }
    proof {
        assert(recent@.take(recent@.len() as int) == recent@);
        let first = local@;
        let second = other@;
        assert(pairs(first + second) == pairs(first) + pairs(second));
        assert(second.len() == 0 ==> first + second == first);
    }
    local.append(&mut other);
    local
}

/// Whether a list holds a file.
fn holds(files: &Vec<(usize, usize)>, file: (usize, usize)) -> (yes: bool)
    ensures
        yes == pairs(files@).contains(pair(file)),
{
    let mut i: usize = 0;
    while i < files.len()
        invariant
            i <= files@.len(),
            forall|k: int| 0 <= k < i ==> #[trigger] files@[k] != file,
        decreases files@.len() - i,
    {
        if files[i].0 == file.0 && files[i].1 == file.1 {
            assert(pairs(files@)[i as int] == pair(file));
            return true;
        }
        i = i + 1;
    }
    proof {
        if pairs(files@).contains(pair(file)) {
            let k = choose|k: int| 0 <= k < files@.len() && pairs(files@)[k] == pair(file);
            assert(files@[k] == file);
        }
    }
    false
}

/// Append a file to a list that has every file once.
fn add_file(files: &mut Vec<(usize, usize)>, file: (usize, usize), Ghost(all): Ghost<
    Seq<(int, int)>,
>)
    requires
        pairs(old(files)@) == distinct(all),
    ensures
        pairs(final(files)@) == distinct(all.push(pair(file))),
{
    let ghost before = pairs(files@);
    assert(all.push(pair(file)).drop_last() == all);
    if !holds(files, file) {
        files.push(file);
        assert(pairs(files@) == before.push(pair(file)));
    }
}

/// Sessions to search, most promising first, when neither a session nor a pane
/// was named: those of the panes that Herdr lists, by how close they are to where
/// the search was started, and behind them the recent ones, so the search still
/// works when Herdr has nothing to say.
pub fn candidate_sessions(
    listing: &Vec<Vec<Vec<u8>>>,
    panes: &[Pane],
    from_pane: Option<&str>,
    recent: &Vec<(usize, usize)>,
) -> (files: Vec<(usize, usize)>)
    ensures
        pairs(files@) == distinct(
            files_of(listing.deep_view(), ranked_sessions(panes@, option_view(from_pane))) + pairs(
                recent@,
            ),
        ),
{
    let ids = ranked_session_ids(panes, from_pane);
    let ghost names = listing.deep_view();
    let ghost sessions = views(ids@);
    let mut files: Vec<(usize, usize)> = Vec::new();
    let mut i: usize = 0;
    proof {
        assert(sessions.take(0) == Seq::<Seq<char>>::empty());
        assert(pairs(files@) == Seq::<(int, int)>::empty());
    }
    while i < ids.len()
        invariant
            i <= ids@.len(),
            sessions == views(ids@),
            names == listing.deep_view(),
            pairs(files@) == distinct(files_of(names, sessions.take(i as int))),
        decreases ids@.len() - i,
    {
        proof {
            assert(sessions.take(i + 1).drop_last() == sessions.take(i as int));
            assert(sessions.take(i + 1).last() == ids@[i as int]@);
        }
        if let Some(file) = find_by_id(listing, ids[i].as_str()) {
            add_file(&mut files, file, Ghost(files_of(names, sessions.take(i as int))));
        }
        i = i + 1;
    }
    assert(sessions.take(sessions.len() as int) == sessions);
    let ghost near = files_of(names, sessions);
    let ghost late = pairs(recent@);
    let mut j: usize = 0;
    assert(near + late.take(0) == near);
    while j < recent.len()
        invariant
            j <= recent@.len(),
            late == pairs(recent@),
            pairs(files@) == distinct(near + late.take(j as int)),
        decreases recent@.len() - j,
    {
        let file = recent[j];
        add_file(&mut files, file, Ghost(near + late.take(j as int)));
        proof {
            assert(late.take(j + 1) == late.take(j as int).push(pair(file)));
            assert((near + late.take(j as int)).push(pair(file)) == near + late.take(j + 1));
        }
        j = j + 1;
    }
    assert(late.take(late.len() as int) == late);
    files
}

/// Which sessions are searched.
#[derive(Debug)]
pub enum Wanted {
    /// The one that an argument stands for.
    Session(String),
    /// All that can be found.
    Any,
}

/// A pane that runs no Codex session.
#[derive(Debug)]
pub struct NoSessionInPane {
    pub pane_id: String,
}

impl NoSessionInPane {
    /// The error in words.
    pub fn message(&self) -> (text: String)
        ensures
            text@ == "pane "@ + self.pane_id@ + " is not running a Codex session"@,
    {
        let mut text = String::new();
        text.append("pane ");
        text.append(self.pane_id.as_str());
        text.append(" is not running a Codex session");
        text
    }
}

/// Decide which sessions are searched. An explicit `--session` or `--pane`
/// settles it.
pub fn wanted_sessions(session: Option<&str>, pane: Option<&str>, panes: &[Pane]) -> (wanted:
    Result<Wanted, NoSessionInPane>)
    ensures
        match (session, pane) {
            (Some(reference), _) => wanted matches Ok(Wanted::Session(found)) && found@
                == reference@,
            (None, Some(id)) => match pane_session(panes@, id@) {
                Some(expected) => wanted matches Ok(Wanted::Session(found)) && found@ == expected,
                None => wanted matches Err(error) && error.pane_id@ == id@,
            },
            (None, None) => wanted matches Ok(Wanted::Any),
        },
{
    if let Some(reference) = session {
        return Ok(Wanted::Session(reference.to_string()));
    }
    match pane {
        Some(id) => match session_of(panes, id) {
            Some(found) => Ok(Wanted::Session(found)),
            None => Err(NoSessionInPane { pane_id: id.to_string() }),
        },
        None => Ok(Wanted::Any),
    }
}

// Searching

/// Why a selection was not checked against a transcript.
#[derive(Debug, Clone, Copy, PartialEq, Eq, Structural)]
pub enum Reason {
    /// It holds too little text to identify: at this length a match would be a
    /// coincidence, and a coincidence would be worse than doing nothing.
    TooShort { length: usize, minimum: usize },
    /// There are no sessions to search.
    NoSessions,
    /// It is in none of the sessions.
    NotFound { sessions: usize },
}

impl Reason {
    /// The reason in words, given the directory that sessions were looked for in.
    pub open spec fn words(self, home: Seq<char>) -> Seq<char> {
        match self {
            Reason::TooShort { length, minimum } => "selection is too short to look up ("@
                + decimal(length as nat) + " characters, minimum "@ + decimal(minimum as nat)
                + ")"@,
            Reason::NoSessions => "no Codex sessions found under "@ + home,
            Reason::NotFound { sessions } => "could not find this selection in "@ + decimal(
                sessions as nat,
            ) + " session"@ + (if sessions == 1 {
                ""@
            } else {
                "s"@
            }),
        }
    }

    /// The reason in words, given the directory that sessions were looked for in.
    pub fn message(self, home: &str) -> (text: String)
        ensures
            text@ == self.words(home@),
    {
        let mut text = String::new();
        match self {
            Reason::TooShort { length, minimum } => {
                text.append("selection is too short to look up (");
                push_decimal(&mut text, length as u64);
                text.append(" characters, minimum ");
                push_decimal(&mut text, minimum as u64);
                text.append(")");
            },
            Reason::NoSessions => {
                text.append("no Codex sessions found under ");
                text.append(home);
            },
            Reason::NotFound { sessions } => {
                text.append("could not find this selection in ");
                push_decimal(&mut text, sessions as u64);
                text.append(" session");
                text.append(
                    if sessions == 1 {
                        ""
                    } else {
                        "s"
                    },
                );
            },
        }
        text
    }
}

/// How far a restoration has come.
#[derive(Debug)]
pub enum Progress {
    /// The sessions to search are wanted.
    Listing,
    /// One of the sessions is wanted.
    Searching { next: usize, count: usize },
    /// The selection was found in one of the sessions.
    Restored { session: usize, found: Match },
    /// The selection was not checked against a transcript.
    Unverified(Reason),
}

/// Where a restoration begins, given the number of graphemes that count.
pub open spec fn begun(length: nat, min_chars: usize) -> Progress {
    if length < min_chars {
        Progress::Unverified(Reason::TooShort { length: length as usize, minimum: min_chars })
    } else {
        Progress::Listing
    }
}

/// How far a restoration has come once the sessions to search are known.
pub open spec fn after_listing(progress: Progress, count: usize) -> Progress {
    match progress {
        Progress::Listing => if count == 0 {
            Progress::Unverified(Reason::NoSessions)
        } else {
            Progress::Searching { next: 0, count }
        },
        other => other,
    }
}

/// How far a restoration has come once a session has been searched.
pub open spec fn after_search(progress: Progress, found: Option<Match>) -> Progress {
    match progress {
        Progress::Searching { next, count } => match found {
            Some(found) => Progress::Restored { session: next, found },
            None => if next + 1 < count {
                Progress::Searching { next: (next + 1) as usize, count }
            } else {
                Progress::Unverified(Reason::NotFound { sessions: count })
            },
        },
        other => other,
    }
}

/// What a restoration needs next.
#[derive(Debug, Clone, Copy, PartialEq, Eq, Structural)]
pub enum Need {
    /// The sessions to search.
    Sessions,
    /// The transcript of one of them.
    Transcript(usize),
    /// Nothing: it has ended.
    Nothing,
}

/// What a restoration came to.
#[derive(Debug)]
pub struct Finished {
    pub text: String,
    pub outcome: Outcome,
}

/// The least length guards both gates: whether a selection is worth looking up at
/// all, and how far a match may be pared back before it means nothing.
pub fn search_options(min_chars: usize) -> (options: Options)
    ensures
        options == (Options { max_trim: 3, anchor_len: 12, min_span: min_chars }),
{
    Options { min_span: min_chars, ..Options::default() }
}

/// A selection being restored.
pub struct Restoration {
    selection: String,
    index: DenseIndex,
    min_chars: usize,
    fallback: Fallback,
    progress: Progress,
}

impl Restoration {
    /// The selection.
    pub closed spec fn selection(&self) -> Seq<char> {
        self.selection@
    }

    /// The grapheme clusters of the selection, without what the renderer added.
    pub closed spec fn clusters(&self) -> Seq<Seq<char>> {
        self.index.clusters()
    }

    /// The least number of graphemes worth looking up.
    pub closed spec fn min_chars(&self) -> usize {
        self.min_chars
    }

    /// What to do when the selection is not in any transcript.
    pub closed spec fn fallback(&self) -> Fallback {
        self.fallback
    }

    /// How far the restoration has come.
    pub closed spec fn progress(&self) -> Progress {
        self.progress
    }

    /// All but the progress is the same.
    pub open spec fn same_task(&self, other: &Restoration) -> bool {
        &&& self.selection() == other.selection()
        &&& self.clusters() == other.clusters()
        &&& self.min_chars() == other.min_chars()
        &&& self.fallback() == other.fallback()
    }

    /// Begin to restore a selection.
    pub fn start(selection: String, min_chars: usize, fallback: Fallback) -> (restoration: Self)
        ensures
            restoration.selection() == selection@,
            restoration.clusters() == graphemes(without_diff_numbers(selection@)),
            restoration.min_chars() == min_chars,
            restoration.fallback() == fallback,
            restoration.progress() == begun(kept(restoration.clusters()).len(), min_chars),
    {
        let index = DenseIndex::from_rendered(selection.as_str());
        Self::with_index(selection, index, min_chars, fallback)
    }

    /// Begin to restore a selection that has been indexed.
    pub fn with_index(
        selection: String,
        index: DenseIndex,
        min_chars: usize,
        fallback: Fallback,
    ) -> (restoration: Self)
        ensures
            restoration.selection() == selection@,
            restoration.clusters() == index.clusters(),
            restoration.min_chars() == min_chars,
            restoration.fallback() == fallback,
            restoration.progress() == begun(kept(index.clusters()).len(), min_chars),
    {
        let length: usize = index.len();
        let progress = if length < min_chars {
            Progress::Unverified(Reason::TooShort { length, minimum: min_chars })
        } else {
            Progress::Listing
        };
        Restoration { selection, index, min_chars, fallback, progress }
    }

    /// What the restoration needs next.
    pub fn need(&self) -> (need: Need)
        ensures
            need == (match self.progress() {
                Progress::Listing => Need::Sessions,
                Progress::Searching { next, .. } => Need::Transcript(next),
                _ => Need::Nothing,
            }),
    {
        match &self.progress {
            Progress::Listing => Need::Sessions,
            Progress::Searching { next, .. } => Need::Transcript(*next),
            _ => Need::Nothing,
        }
    }

    /// Go on with the number of sessions to search.
    pub fn listed(self, count: usize) -> (restoration: Self)
        ensures
            restoration.same_task(&self),
            restoration.progress() == after_listing(self.progress(), count),
    {
        let Restoration { selection, index, min_chars, fallback, progress } = self;
        let progress = match progress {
            Progress::Listing => if count == 0 {
                Progress::Unverified(Reason::NoSessions)
            } else {
                Progress::Searching { next: 0, count }
            },
            other => other,
        };
        Restoration { selection, index, min_chars, fallback, progress }
    }

    /// Search one transcript.
    pub fn search(&self, transcript: &Transcript) -> (found: Option<Match>)
        ensures
            is_found_in(
                transcript.blocks@,
                self.clusters(),
                Options { max_trim: 3, anchor_len: 12, min_span: self.min_chars() },
                found,
            ),
            found matches Some(found) ==> stands_in(found.text@, joined(transcript.blocks@))
                && found.block is Some,
    {
        search_transcript(transcript, &self.index, search_options(self.min_chars))
    }

    /// Go on with what a session was found to hold; nothing, if it could not be
    /// read. Sessions come newest first, so the most recent transcript that can
    /// account for the text wins.
    pub fn searched(self, found: Option<Match>) -> (restoration: Self)
        ensures
            restoration.same_task(&self),
            restoration.progress() == after_search(self.progress(), found),
    {
        let Restoration { selection, index, min_chars, fallback, progress } = self;
        let progress = match progress {
            Progress::Searching { next, count } => match found {
                Some(found) => Progress::Restored { session: next, found },
                None => if next < count && count - next > 1 {
                    Progress::Searching { next: next + 1, count }
                } else {
                    Progress::Unverified(Reason::NotFound { sessions: count })
                },
            },
            other => other,
        };
        Restoration { selection, index, min_chars, fallback, progress }
    }

    /// Why the selection was not checked against a transcript, if it was not.
    pub fn reason(&self) -> (reason: Option<Reason>)
        ensures
            reason == (match self.progress() {
                Progress::Unverified(reason) => Some(reason),
                _ => None,
            }),
    {
        match &self.progress {
            Progress::Unverified(reason) => Some(*reason),
            _ => None,
        }
    }

    /// What the restoration came to, once it has ended: the transcript text that
    /// was found, or the selection with the fallback applied.
    pub fn finish(&self) -> (finished: Option<Finished>)
        ensures
            match self.progress() {
                Progress::Restored { found, .. } => finished matches Some(finished)
                    && finished.outcome == Outcome::Restored && finished.text@ == found.text@,
                Progress::Unverified(_) => finished matches Some(finished) && finished.outcome
                    == Outcome::Unverified && finished.text@ == self.fallback().applied(
                    self.selection(),
                ),
                _ => finished is None,
            },
    {
        match &self.progress {
            Progress::Restored { found, .. } => Some(
                Finished { text: found.text.clone(), outcome: Outcome::Restored },
            ),
            Progress::Unverified(_) => Some(
                Finished {
                    text: self.fallback.apply(self.selection.as_str()),
                    outcome: Outcome::Unverified,
                },
            ),
            _ => None,
        }
    }
}

/// The result of searching the blocks of a transcript for a selection, given by
/// its clusters.
pub open spec fn is_found_in(
    blocks: Seq<Block>,
    selection: Seq<Seq<char>>,
    options: Options,
    found: Option<Match>,
) -> bool {
    let clusters = graphemes(joined(blocks));
    match (found, located(pieces(clusters), pieces(selection), options)) {
        (Some(found), Some((place, strategy))) => {
            &&& found.text@ == text_between(clusters, place.start, place.end)
            &&& found.strategy == strategy
            &&& found.candidates == place.candidates
            &&& found.block == block_holding(blocks, clusters, place.start, 0)
        },
        (None, None) => true,
        _ => false,
    }
}

/// A text stands somewhere in another, contiguously.
pub open spec fn stands_in(text: Seq<char>, whole: Seq<char>) -> bool {
    exists|front: Seq<char>, back: Seq<char>| whole == #[trigger] (front + text + back)
}

/// Search one transcript for a selection. What is found is verified: it stands in
/// the joined blocks of the transcript, character by character, and the block that
/// it begins in is reported.
pub fn search_transcript(transcript: &Transcript, selection: &DenseIndex, options: Options) -> (found:
    Option<Match>)
    ensures
        is_found_in(transcript.blocks@, selection.clusters(), options, found),
        found matches Some(found) ==> stands_in(found.text@, joined(transcript.blocks@))
            && found.block is Some,
{
    let haystack = Haystack::build(transcript.blocks.as_slice());
    proof {
        let parts = pieces(haystack.clusters());
        if let Some((place, _)) = located(parts, pieces(selection.clusters()), options) {
            law_found_text_is_part_of_the_transcript(
                haystack.clusters(),
                selection.clusters(),
                options,
            );
            law_reported_block_holds_the_match(
                transcript.blocks@,
                haystack.clusters(),
                haystack.spans(),
                place.start,
            );
            law_every_kept_cluster_is_in_a_block(
                transcript.blocks@,
                haystack.clusters(),
                place.start,
            );
        }
    }
    align::find(&haystack, selection, options)
}

/// How a match was found, in words: where the text stood, the strategy, and how
/// many places there were to choose from.
pub open spec fn detail_of(found: Match) -> Seq<char> {
    (match found.block {
        Some(kind) => kind.name() + ", "@ + found.strategy.name(),
        None => found.strategy.name(),
    }) + (if found.candidates > 1 {
        ", most recent of "@ + decimal(found.candidates as nat) + " occurrences"@
    } else {
        Seq::empty()
    })
}

/// What is said of a restored selection.
pub open spec fn report_of(id: Seq<char>, found: Match) -> Seq<char> {
    "restored "@ + decimal(found.text@.len()) + " characters from session "@ + id + " ("@
        + detail_of(found) + ")"@
}

/// What is said of a restored selection.
pub fn report(transcript: &Transcript, found: &Match) -> (text: String)
    ensures
        text@ == report_of(transcript.brief(), *found),
{
    let mut detail = String::new();
    if let Some(kind) = found.block {
        detail.append(kind.label());
        detail.append(", ");
    }
    detail.append(found.strategy.label());
    if found.candidates > 1 {
        detail.append(", most recent of ");
        push_decimal(&mut detail, found.candidates as u64);
        detail.append(" occurrences");
    }
    assert(detail@ == detail_of(*found));
    let mut text = String::new();
    text.append("restored ");
    push_decimal(&mut text, chars_of(found.text.as_str()).len() as u64);
    text.append(" characters from session ");
    text.append(transcript.short_id().as_str());
    text.append(" (");
    text.append(detail.as_str());
    text.append(")");
    text
}

// Laws

/// How far a restoration has come once sessions have been searched, in order, with
/// the stated results.
pub open spec fn after_searches(progress: Progress, results: Seq<Option<Match>>) -> Progress
    decreases results.len(),
{
    if results.len() == 0 {
        progress
    } else {
        after_search(after_searches(progress, results.drop_last()), results.last())
    }
}

/// The first session that the selection is found in wins: once all sessions have
/// been searched, the match is that of the first one that has any, and the
/// selection is reported as not found only if none has.
pub proof fn law_the_first_match_wins(count: usize, results: Seq<Option<Match>>)
    requires
        0 < count,
        results.len() <= count,
    ensures
        match after_searches(Progress::Searching { next: 0, count }, results) {
            Progress::Restored { session, found } => {
                &&& session < results.len()
                &&& results[session as int] == Some(found)
                &&& forall|i: int| 0 <= i < session ==> #[trigger] results[i] is None
            },
            Progress::Unverified(reason) => {
                &&& results.len() == count
                &&& reason == (Reason::NotFound { sessions: count })
                &&& forall|i: int| 0 <= i < count ==> #[trigger] results[i] is None
            },
            Progress::Searching { next, count: all } => {
                &&& next == results.len()
                &&& all == count
                &&& next < count
                &&& forall|i: int| 0 <= i < next ==> #[trigger] results[i] is None
            },
            Progress::Listing => false,
        },
    decreases results.len(),
{
    if results.len() > 0 {
        let init = results.drop_last();
        law_the_first_match_wins(count, init);
        assert forall|i: int| 0 <= i < init.len() implies #[trigger] results[i] == init[i] by {}
        assert(results[results.len() - 1] == results.last());
    }
}

/// No session is searched twice, every recent one is searched, and so is every
/// one that Herdr knows of and that has a file.
pub proof fn law_candidates_are_complete_and_distinct(
    near: Seq<(int, int)>,
    recent: Seq<(int, int)>,
    file: (int, int),
)
    ensures
        distinct(near + recent).no_duplicates(),
        distinct(near + recent).contains(file) <==> near.contains(file) || recent.contains(file),
{
    let all = near + recent;
    lemma_distinct(all);
    if near.contains(file) {
        let k = choose|k: int| 0 <= k < near.len() && near[k] == file;
        assert(all[k] == file);
    }
    if recent.contains(file) {
        let k = choose|k: int| 0 <= k < recent.len() && recent[k] == file;
        assert(all[near.len() + k] == file);
    }
    if all.contains(file) {
        let k = choose|k: int| 0 <= k < all.len() && all[k] == file;
        if k < near.len() {
            assert(near[k] == file);
        } else {
            assert(recent[k - near.len()] == file);
        }
    }
}

/// Sessions that Herdr knows of come before those that are only recent.
pub proof fn law_pane_sessions_come_first(
    near: Seq<(int, int)>,
    recent: Seq<(int, int)>,
    i: int,
    j: int,
)
    requires
        0 <= i < j < distinct(near + recent).len(),
        near.contains(distinct(near + recent)[j]),
    ensures
        near.contains(distinct(near + recent)[i]),
{
    let all = near + recent;
    let k = choose|k: int| 0 <= k < near.len() && near[k] == distinct(all)[j];
    assert(all[k] == distinct(all)[j]);
    lemma_distinct_order(all, i, j, k);
    let a = choose|a: int| 0 <= a < k && #[trigger] all[a] == distinct(all)[i];
    assert(near[a] == distinct(all)[i]);
}

/// Putting the sessions of the current directory first loses none and adds none.
pub proof fn law_locality_reorders_only(recent: Seq<RecentSession>, cwd: Option<Seq<char>>)
    ensures
        local_first(recent, cwd).to_multiset() == recent_files(recent).to_multiset(),
{
    if let Some(here) = cwd {
        lemma_partition(recent, here);
    }
}

proof fn lemma_partition(recent: Seq<RecentSession>, cwd: Seq<char>)
    ensures
        (started_in(recent, cwd, true) + started_in(recent, cwd, false)).to_multiset()
            == recent_files(recent).to_multiset(),
    decreases recent.len(),
{
    broadcast use vstd::seq_lib::group_to_multiset_ensures;

    let local = started_in(recent, cwd, true);
    let other = started_in(recent, cwd, false);
    let files = recent_files(recent);
    if recent.len() == 0 {
        assert(local + other == files);
    } else {
        let init = recent.drop_last();
        let last = pair(recent.last().file);
        lemma_partition(init, cwd);
        vstd::seq_lib::lemma_multiset_commutative(
            started_in(init, cwd, true),
            started_in(init, cwd, false),
        );
        vstd::seq_lib::lemma_multiset_commutative(local, other);
        assert(files == recent_files(init).push(last));
        assert(files.to_multiset() == recent_files(init).to_multiset().insert(last));
        assert((local + other).to_multiset() =~= files.to_multiset());
    }
}

/// A selection is looked up exactly when it has as many characters that count as are asked
/// for, whatever they are.
pub proof fn law_selections_of_the_least_length_are_looked_up(length: usize, least: usize)
    ensures
        length >= least ==> begun(length as nat, least) == Progress::Listing,
        length < least ==> begun(length as nat, least) == Progress::Unverified(
            Reason::TooShort { length, minimum: least },
        ),
{
}

/// The sessions are searched until one has the selection, and it is not given up before the
/// last of them.
pub proof fn law_the_session_that_has_it_is_restored(
    count: usize,
    results: Seq<Option<Match>>,
    found: Match,
)
    requires
        0 < count,
        forall|i: int| 0 <= i < results.len() ==> #[trigger] results[i] is None,
    ensures
        results.len() < count ==> after_searches(
            after_listing(Progress::Listing, count),
            results.push(Some(found)),
        ) == (Progress::Restored { session: results.len() as usize, found }),
        results.len() == count ==> after_searches(after_listing(Progress::Listing, count), results)
            == Progress::Unverified(Reason::NotFound { sessions: count }),
        after_listing(Progress::Listing, 0) == Progress::Unverified(Reason::NoSessions),
{
    let begun = after_listing(Progress::Listing, count);
    if results.len() <= count {
        law_the_first_match_wins(count, results);
    }
    if results.len() < count {
        assert(results.push(Some(found)).drop_last() == results);
        match after_searches(begun, results) {
            Progress::Restored { session, found } => {
                assert(results[session as int] == Some(found));
            },
            _ => {},
        }
    }
    if results.len() == count {
        match after_searches(begun, results) {
            Progress::Restored { session, found } => {
                assert(results[session as int] == Some(found));
            },
            _ => {},
        }
    }
}

/// What was settled stays settled.
pub proof fn law_an_ended_restoration_stays_ended(
    session: usize,
    found: Match,
    reason: Reason,
    more: Option<Match>,
    count: usize,
)
    ensures
        after_search(Progress::Restored { session, found }, more) == (Progress::Restored {
            session,
            found,
        }),
        after_search(Progress::Unverified(reason), more) == Progress::Unverified(reason),
        after_listing(Progress::Restored { session, found }, count) == (Progress::Restored {
            session,
            found,
        }),
        after_listing(Progress::Unverified(reason), count) == Progress::Unverified(reason),
{
}

/// Without a match a selection is left as it is, cleaned or rewrapped, as was asked for:
/// cleaned and rewrapped alike keep all that is not white space.
pub proof fn law_the_fallback_does_what_was_asked_for(selection: Seq<char>)
    ensures
        Fallback::Off.applied(selection) == selection,
        Fallback::Clean.applied(selection) == rewrapped(selection, false),
        Fallback::Rewrap.applied(selection) == rewrapped(selection, true),
        without_white_space(Fallback::Clean.applied(selection)) == without_white_space(
            Fallback::Rewrap.applied(selection),
        ),
{
    law_joining_only_runs_rows_together(selection);
}

/// Every session that Herdr knows of and that has a file is searched, in the order in which
/// it is listed.
pub proof fn law_every_listed_session_is_searched(
    listing: Seq<Seq<Seq<u8>>>,
    front: Seq<Seq<char>>,
    id: Seq<char>,
    back: Seq<Seq<char>>,
)
    ensures
        files_of(listing, front.push(id) + back) == files_of(listing, front) + (match file_of(
            listing,
            id,
        ) {
            Some(file) => seq![file],
            None => Seq::empty(),
        }) + files_of(listing, back),
    decreases back.len(),
{
    let one = match file_of(listing, id) {
        Some(file) => seq![file],
        None => Seq::empty(),
    };
    let head = front.push(id);
    if back.len() == 0 {
        assert(head + back == head);
        assert(head.drop_last() == front);
        assert(files_of(listing, head) == files_of(listing, front) + one);
    } else {
        let init = back.drop_last();
        law_every_listed_session_is_searched(listing, front, id, init);
        assert((head + back).drop_last() == head + init);
        assert((head + back).last() == back.last());
        assert(files_of(listing, head + back) == files_of(listing, front) + one + files_of(
            listing,
            back,
        ));
    }
}

/// Recent sessions that were started in the current directory come first and the others
/// behind them, both in the order in which they are listed.
pub proof fn law_local_sessions_come_first_in_order(recent: Seq<RecentSession>, here: Seq<char>)
    ensures
        local_first(recent, Some(here)) == recent.filter(
            |session: RecentSession| string_view(session.cwd) == Some(here),
        ).map_values(|session: RecentSession| (session.file.0 as int, session.file.1 as int))
            + recent.filter(
            |session: RecentSession| string_view(session.cwd) != Some(here),
        ).map_values(|session: RecentSession| (session.file.0 as int, session.file.1 as int)),
        local_first(recent, None) == recent.map_values(
            |session: RecentSession| (session.file.0 as int, session.file.1 as int),
        ),
{
    lemma_started_in(recent, here);
    assert(recent_files(recent) =~= recent.map_values(
        |session: RecentSession| (session.file.0 as int, session.file.1 as int),
    ));
}

proof fn lemma_started_in(recent: Seq<RecentSession>, here: Seq<char>)
    ensures
        started_in(recent, here, true) == recent.filter(
            |session: RecentSession| string_view(session.cwd) == Some(here),
        ).map_values(|session: RecentSession| (session.file.0 as int, session.file.1 as int)),
        started_in(recent, here, false) == recent.filter(
            |session: RecentSession| string_view(session.cwd) != Some(here),
        ).map_values(|session: RecentSession| (session.file.0 as int, session.file.1 as int)),
    decreases recent.len(),
{
    reveal(Seq::filter);
    let local = |session: RecentSession| string_view(session.cwd) == Some(here);
    let other = |session: RecentSession| string_view(session.cwd) != Some(here);
    let place = |session: RecentSession| (session.file.0 as int, session.file.1 as int);
    if recent.len() > 0 {
        let init = recent.drop_last();
        let last = recent.last();
        lemma_started_in(init, here);
        assert(init.filter(local).push(last).map_values(place) == init.filter(local).map_values(
            place,
        ).push(place(last)));
        assert(init.filter(other).push(last).map_values(place) == init.filter(other).map_values(
            place,
        ).push(place(last)));
    } else {
        assert(started_in(recent, here, true) =~= recent.filter(local).map_values(place));
        assert(started_in(recent, here, false) =~= recent.filter(other).map_values(place));
    }
}

/// A report names the number of characters, the session, the block and the search, and says
/// that the most recent was taken only where there was more than one to take.
pub proof fn law_a_report_says_where_the_text_came_from(id: Seq<char>, found: Match, kind: BlockKind)
    requires
        found.block == Some(kind),
    ensures
        found.candidates <= 1 ==> report_of(id, found) == "restored "@ + decimal(found.text@.len())
            + " characters from session "@ + id + " ("@ + (kind.name() + ", "@
            + found.strategy.name()) + ")"@,
        found.candidates > 1 ==> report_of(id, found) == "restored "@ + decimal(found.text@.len())
            + " characters from session "@ + id + " ("@ + (kind.name() + ", "@
            + found.strategy.name() + (", most recent of "@ + decimal(found.candidates as nat)
            + " occurrences"@)) + ")"@,
{
    let words = kind.name() + ", "@ + found.strategy.name();
    assert(words + Seq::<char>::empty() == words);
}

} // verus!
