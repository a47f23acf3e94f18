//! Locating a rendered selection inside a transcript.
//!
//! Everything happens in the dense view built by [`crate::normalize`], so line
//! wrapping, gutters and Markdown markers are already out of the way. What is
//! left is a substring search plus two tolerances: a selection can clip a
//! character at either edge, and the renderer can truncate long output in the
//! middle. The result is always a slice of the untouched transcript, which is
//! why intentional newlines, indentation and Unicode come back intact without
//! any special handling.

use vstd::prelude::*;
use vstd::string::StringExecFns;

use crate::bytes::{byte_len, lemma_byte_len_positive, lemma_encode_concat, size_of_text};
use crate::codex::{Block, BlockKind};
use crate::normalize::{
    cluster_start, dense_between, dense_text, dropped, kept, kept_before,
    law_a_slice_has_both_its_edges, law_slice_is_part_of_the_text, law_slice_reduces_to_dense_slice, lemma_counted_before,
    lemma_flatten_parts, lemma_kept, lemma_piece, pieces, text_between, written, DenseIndex,
};
use crate::search::{
    hits, law_every_occurrence_is_a_hit, law_hits_are_in_order, law_hits_are_occurrences,
    occurrences, occurs, occurs_at, ranges,
};
use crate::segment::{graphemes, line_feeds_stand_alone};
use crate::text::join;

verus! {

// The three searches

/// How a match was found, reported so a surprising result can be explained.
#[derive(Debug, Clone, Copy, PartialEq, Eq, Structural)]
pub enum Strategy {
    /// The selection appears verbatim in the transcript.
    Exact,
    /// It appears once a stray character is ignored at one or both edges.
    Trimmed,
    /// Only the head and tail could be located, so the span between them was
    /// taken from the transcript. This is what survives a status row drawn over
    /// the middle of the selection.
    Anchored,
}

impl Strategy {
    /// The words the strategy is reported by.
    pub open spec fn name(self) -> Seq<char> {
        match self {
            Strategy::Exact => "exact match"@,
            Strategy::Trimmed => "trimmed match"@,
            Strategy::Anchored => "anchored match"@,
        }
    }

    /// The words the strategy is reported by.
    pub fn label(self) -> (label: &'static str)
        ensures
            label@ == self.name(),
    {
        match self {
            Strategy::Exact => "exact match",
            Strategy::Trimmed => "trimmed match",
            Strategy::Anchored => "anchored match",
        }
    }
}

/// How much a search may tolerate.
#[derive(Debug, Clone, Copy)]
pub struct Options {
    /// Characters that may be discarded from each edge of the selection.
    pub max_trim: usize,
    /// Characters used as the head and tail anchors of the last-resort search.
    pub anchor_len: usize,
    /// Shortest span worth trusting. Below this, a match says nothing: a couple
    /// of characters turn up somewhere in any transcript.
    pub min_span: usize,
}

impl Default for Options {
    fn default() -> (options: Self)
        ensures
            options == (Options { max_trim: 3, anchor_len: 12, min_span: 4 }),
    {
        Options { max_trim: 3, anchor_len: 12, min_span: 4 }
    }
}

/// A range of parts that a search settled on, out of `candidates` places.
pub struct Place {
    pub start: int,
    pub end: int,
    pub candidates: nat,
}

/// The last occurrence, out of all of them.
pub open spec fn latest(found: Seq<(int, int)>) -> Option<Place> {
    if found.len() == 0 {
        None
    } else {
        Some(Place { start: found.last().0, end: found.last().1, candidates: found.len() })
    }
}

/// What is left of a selection once `head` parts are taken off its front and
/// `tail` off its back; nothing if that is more than there is.
pub open spec fn shaved(selection: Seq<Seq<char>>, head: int, tail: int) -> Seq<char> {
    if head + tail >= selection.len() {
        Seq::empty()
    } else {
        selection.subrange(head, selection.len() - tail).flatten()
    }
}

/// The fewest parts a trimmed selection may have: it must still dominate what
/// was selected, and be long enough to say something.
pub open spec fn trim_floor(selection: Seq<Seq<char>>, options: Options) -> int {
    let half = selection.len() as int / 2;
    if options.min_span as int > half {
        options.min_span as int
    } else {
        half
    }
}

/// Taking `head` and `tail` parts off a selection is allowed, and what is left
/// occurs.
pub open spec fn trims(
    parts: Seq<Seq<char>>,
    selection: Seq<Seq<char>>,
    options: Options,
    head: int,
    tail: int,
) -> bool {
    &&& 0 <= head <= options.max_trim
    &&& 0 <= tail <= options.max_trim
    &&& head + tail > 0
    &&& selection.len() - (head + tail) >= trim_floor(selection, options)
    &&& hits(parts, shaved(selection, head, tail)).len() > 0
}

/// One way to trim comes before another: it discards less in all, or as much
/// with less of it at the front.
pub open spec fn trims_less(head: int, tail: int, other_head: int, other_tail: int) -> bool {
    head + tail < other_head + other_tail || (head + tail == other_head + other_tail && head
        <= other_head)
}

/// The closest reading: a way to trim that comes before every other.
pub open spec fn closest_trim(
    parts: Seq<Seq<char>>,
    selection: Seq<Seq<char>>,
    options: Options,
    head: int,
    tail: int,
) -> bool {
    &&& trims(parts, selection, options, head, tail)
    &&& forall|h: int, t: int| #[trigger]
        trims(parts, selection, options, h, t) ==> trims_less(head, tail, h, t)
}

/// The place of a selection once stray characters at its edges are ignored.
pub open spec fn trimmed(
    parts: Seq<Seq<char>>,
    selection: Seq<Seq<char>>,
    options: Options,
) -> Option<Place> {
    if exists|h: int, t: int| closest_trim(parts, selection, options, h, t) {
        let (head, tail) = choose|h: int, t: int| closest_trim(parts, selection, options, h, t);
        latest(hits(parts, shaved(selection, head, tail)))
    } else {
        None
    }
}

/// A span between two anchors is close enough in length to a selection of
/// `total` parts. Growth is allowed generously because it comes from text that
/// was always there; shrinkage is kept tight because it means trusting a span
/// shorter than what was selected.
pub open spec fn span_allowed(total: int, start: int, end: int) -> bool {
    &&& start < end
    &&& end - start <= total + total / 2 + 16
    &&& end - start >= total - (total / 4 + 8)
}

/// How far the length of a span is from that of the selection.
pub open spec fn span_error(total: int, start: int, end: int) -> int {
    if end - start >= total {
        end - start - total
    } else {
        total - (end - start)
    }
}

/// The span from head `i` to tail `j` may be taken.
pub open spec fn anchors(
    heads: Seq<(int, int)>,
    tails: Seq<(int, int)>,
    total: int,
    i: int,
    j: int,
) -> bool {
    &&& 0 <= i < heads.len()
    &&& 0 <= j < tails.len()
    &&& span_allowed(total, heads[i].0, tails[j].1)
}

/// The span from head `i` to tail `j` is nearest to the selection in length, and
/// the most recent such span: the last in the order of heads and then tails.
pub open spec fn closest_anchors(
    heads: Seq<(int, int)>,
    tails: Seq<(int, int)>,
    total: int,
    i: int,
    j: int,
) -> bool {
    &&& anchors(heads, tails, total, i, j)
    &&& forall|k: int, l: int| #[trigger]
        anchors(heads, tails, total, k, l) ==> {
            let error = span_error(total, heads[i].0, tails[j].1);
            let other = span_error(total, heads[k].0, tails[l].1);
            error < other || (error == other && (k < i || (k == i && l <= j)))
        }
}

/// The place between two anchors.
pub open spec fn between_anchors(
    heads: Seq<(int, int)>,
    tails: Seq<(int, int)>,
    total: int,
) -> Option<Place> {
    if exists|i: int, j: int| closest_anchors(heads, tails, total, i, j) {
        let (i, j) = choose|i: int, j: int| closest_anchors(heads, tails, total, i, j);
        Some(
            Place {
                start: heads[i].0,
                end: tails[j].1,
                candidates: if heads.len() >= tails.len() {
                    heads.len()
                } else {
                    tails.len()
                },
            },
        )
    } else {
        None
    }
}

/// Every occurrence of the first `anchor_len` parts of a selection.
pub open spec fn head_hits(
    parts: Seq<Seq<char>>,
    selection: Seq<Seq<char>>,
    options: Options,
) -> Seq<(int, int)> {
    hits(parts, selection.subrange(0, options.anchor_len as int).flatten())
}

/// Every occurrence of the last `anchor_len` parts of a selection.
pub open spec fn tail_hits(
    parts: Seq<Seq<char>>,
    selection: Seq<Seq<char>>,
    options: Options,
) -> Seq<(int, int)> {
    let total = selection.len() as int;
    hits(parts, selection.subrange(total - options.anchor_len, total).flatten())
}

/// The place of a selection of which only the first and last `anchor_len` parts
/// could be located.
pub open spec fn anchored(
    parts: Seq<Seq<char>>,
    selection: Seq<Seq<char>>,
    options: Options,
) -> Option<Place> {
    let total = selection.len() as int;
    let anchor = options.anchor_len as int;
    if total < 2 * anchor {
        None
    } else {
        between_anchors(
            head_hits(parts, selection, options),
            tail_hits(parts, selection, options),
            total,
        )
    }
}

/// The place of a selection and the search that found it: the first one to
/// succeed of the exact, the trimmed and the anchored one.
pub open spec fn located(
    parts: Seq<Seq<char>>,
    selection: Seq<Seq<char>>,
    options: Options,
) -> Option<(Place, Strategy)> {
    match latest(hits(parts, selection.flatten())) {
        Some(place) => Some((place, Strategy::Exact)),
        None => match trimmed(parts, selection, options) {
            Some(place) => Some((place, Strategy::Trimmed)),
            None => match anchored(parts, selection, options) {
                Some(place) => Some((place, Strategy::Anchored)),
                None => None,
            },
        },
    }
}

/// A place that was found, as indices.
struct Found {
    start: usize,
    end: usize,
    candidates: usize,
}

impl Found {
    spec fn place(self) -> Place {
        Place { start: self.start as int, end: self.end as int, candidates: self.candidates as nat }
    }
}

spec fn places(found: Option<Found>) -> Option<Place> {
    match found {
        Some(found) => Some(found.place()),
        None => None,
    }
}

/// The last occurrence wins: when the same words appear more than once, the one
/// furthest down the transcript is the one most likely still on screen.
fn find_exact(index: &DenseIndex, needle: &str) -> (found: Option<Found>)
    ensures
        places(found) == latest(hits(pieces(index.clusters()), needle@)),
{
    let all = occurrences(index, needle);
    let ghost seen = ranges(all@);
    if all.len() == 0 {
        return None;
    }
    let (start, end) = all[all.len() - 1];
    assert(seen.last() == (start as int, end as int));
    Some(Found { start, end, candidates: all.len() })
}

/// Retry with a few characters shaved off each edge. A drag can pick up a
/// character the transcript has no counterpart for — a fragment of the row
/// below, part of a neighbouring pane — while everything between the edges is
/// intact.
///
/// Only the span that was actually located is returned. Putting the discarded
/// characters back would mean handing over text that was never verified, which
/// is the guesswork this library exists to avoid.
fn find_trimmed(index: &DenseIndex, selection: &DenseIndex, options: Options) -> (found: Option<
    Found,
>)
    ensures
        places(found) == trimmed(
            pieces(index.clusters()),
            pieces(selection.clusters()),
            options,
        ),
{
    let ghost parts = pieces(index.clusters());
    let ghost chosen = pieces(selection.clusters());
    let total: usize = selection.len();
    // Discarding an edge is only a minor correction when what remains still
    // dominates the selection. Without this, a six character selection could be
    // pared down to two and "verified" against a coincidence.
    let floor: usize = if options.min_span > total / 2 {
        options.min_span
    } else {
        total / 2
    };
    // Ordered by how much is being discarded, so the closest reading wins.
    let mut sum: usize = 1;
    while sum <= total && total - sum >= floor
        invariant
            1 <= sum <= total + 1,
            total == chosen.len(),
            parts == pieces(index.clusters()),
            chosen == pieces(selection.clusters()),
            floor == trim_floor(chosen, options),
            forall|h: int, t: int| #[trigger]
                trims(parts, chosen, options, h, t) ==> h + t >= sum,
        decreases total + 1 - sum,
    {
        let mut head: usize = if sum > options.max_trim {
            sum - options.max_trim
        } else {
            0
        };
        let most: usize = if sum < options.max_trim {
            sum
        } else {
            options.max_trim
        };
        while head <= most
            invariant
                1 <= sum <= total,
                total - sum >= floor,
                total == chosen.len(),
                parts == pieces(index.clusters()),
                chosen == pieces(selection.clusters()),
                floor == trim_floor(chosen, options),
                floor >= total / 2,
                most == (if sum < options.max_trim {
                    sum
                } else {
                    options.max_trim
                }),
                sum <= options.max_trim || head >= sum - options.max_trim,
                head <= sum + 1,
                forall|h: int, t: int| #[trigger]
                    trims(parts, chosen, options, h, t) ==> h + t > sum || (h + t == sum && h
                        >= head),
            decreases sum + 1 - head,
        {
            let tail: usize = sum - head;
            let rest = selection.dense_slice(head, total - tail);
            assert(rest@ == shaved(chosen, head as int, tail as int));
            let found = find_exact(index, rest);
            if found.is_some() {
                proof {
                    let (h, t) = (head as int, tail as int);
                    assert(trims(parts, chosen, options, h, t));
                    assert(closest_trim(parts, chosen, options, h, t));
                    let (a, b) = choose|a: int, b: int|
                        closest_trim(parts, chosen, options, a, b);
                    assert(trims_less(a, b, h, t) && trims_less(h, t, a, b));
                }
                return found;
            }
            head = head + 1;
        }
        sum = sum + 1;
    }
    None
}

/// Whether a span may stand for a selection of `total` parts.
fn is_span_allowed(total: usize, start: usize, end: usize) -> (yes: bool)
    ensures
        yes == span_allowed(total as int, start as int, end as int),
{
    if end <= start {
        return false;
    }
    let span: usize = end - start;
    if span > total {
        span - total <= total / 2 + 16
    } else {
        total - span <= total / 4 + 8
    }
}

/// The pair `(k, l)` comes before `(i, j)` when heads are taken in order, and tails
/// in order for each of them.
spec fn visited(i: int, j: int, k: int, l: int) -> bool {
    k < i || (k == i && l < j)
}

/// The pair `(a, b)` is the closest one of those visited before `(i, j)`.
spec fn closest_so_far(
    heads: Seq<(int, int)>,
    tails: Seq<(int, int)>,
    total: int,
    i: int,
    j: int,
    a: int,
    b: int,
) -> bool {
    &&& anchors(heads, tails, total, a, b)
    &&& visited(i, j, a, b)
    &&& forall|k: int, l: int| #[trigger]
        anchors(heads, tails, total, k, l) && visited(i, j, k, l) ==> {
            let error = span_error(total, heads[a].0, tails[b].1);
            let other = span_error(total, heads[k].0, tails[l].1);
            error < other || (error == other && (k < a || (k == a && l <= b)))
        }
}

/// The most recent span of those nearest in length to the selection.
fn closest_span(heads: &Vec<(usize, usize)>, tails: &Vec<(usize, usize)>, total: usize) -> (found:
    Option<Found>)
    ensures
        places(found) == between_anchors(ranges(heads@), ranges(tails@), total as int),
{
    let ghost hs = ranges(heads@);
    let ghost ts = ranges(tails@);
    let mut best: Option<(usize, usize, usize)> = None;
    let ghost mut a: int = 0;
    let ghost mut b: int = 0;
    let mut i: usize = 0;
    while i < heads.len()
        invariant
            i <= heads@.len(),
            hs == ranges(heads@),
            ts == ranges(tails@),
            match best {
                None => forall|k: int, l: int| #[trigger]
                    anchors(hs, ts, total as int, k, l) ==> !visited(i as int, 0, k, l),
                Some((error, start, end)) => closest_so_far(
                    hs,
                    ts,
                    total as int,
                    i as int,
                    0,
                    a,
                    b,
                ) && start == hs[a].0 && end == ts[b].1 && error == span_error(
                    total as int,
                    start as int,
                    end as int,
                ),
            },
        decreases heads@.len() - i,
    {
        let start: usize = heads[i].0;
        let mut j: usize = 0;
        while j < tails.len()
            invariant
                i < heads@.len(),
                j <= tails@.len(),
                hs == ranges(heads@),
                ts == ranges(tails@),
                start == hs[i as int].0,
                match best {
                    None => forall|k: int, l: int| #[trigger]
                        anchors(hs, ts, total as int, k, l) ==> !visited(i as int, j as int, k, l),
                    Some((error, start, end)) => closest_so_far(
                        hs,
                        ts,
                        total as int,
                        i as int,
                        j as int,
                        a,
                        b,
                    ) && start == hs[a].0 && end == ts[b].1 && error == span_error(
                        total as int,
                        start as int,
                        end as int,
                    ),
                },
            decreases tails@.len() - j,
        {
            let end: usize = tails[j].1;
            assert(end == ts[j as int].1);
            if is_span_allowed(total, start, end) {
                assert(anchors(hs, ts, total as int, i as int, j as int));
                let span: usize = end - start;
                let error: usize = if span >= total {
                    span - total
                } else {
                    total - span
                };
                let nearer = match best {
                    None => true,
                    Some((best_error, _, _)) => error <= best_error,
                };
                if nearer {
                    best = Some((error, start, end));
                    proof {
                        a = i as int;
                        b = j as int;
                    }
                }
            }
            j = j + 1;
        }
        i = i + 1;
    }
    match best {
        None => {
            proof {
                assert forall|k: int, l: int| !closest_anchors(hs, ts, total as int, k, l) by {
                    if anchors(hs, ts, total as int, k, l) {
                        assert(visited(i as int, 0, k, l));
                    }
                }
            }
            None
        },
        Some((_, start, end)) => {
            proof {
                assert(closest_anchors(hs, ts, total as int, a, b));
                let (k, l) = choose|k: int, l: int| closest_anchors(hs, ts, total as int, k, l);
                assert(anchors(hs, ts, total as int, k, l));
                assert(anchors(hs, ts, total as int, a, b));
                assert(k == a && l == b);
            }
            let candidates: usize = if heads.len() >= tails.len() {
                heads.len()
            } else {
                tails.len()
            };
            Some(Found { start, end, candidates })
        },
    }
}

/// Locate the head and tail separately and keep the transcript text between
/// them, for selections whose middle has no direct counterpart.
///
/// That happens in both directions. The renderer rewrites some things rather
/// than merely styling them — a Markdown link becomes a short relative path, so
/// the transcript holds *more* characters than were on screen. And a drag can
/// cross a row the TUI drew over the transcript, a spinner or a status line,
/// putting characters in the selection that belong to no message at all.
///
/// The span has to stay near the length of the selection, so a head anchor that
/// also appears far away cannot drag in a large stretch of unrelated transcript.
/// Of several spans that are equally near, the most recent is taken.
fn find_anchored(index: &DenseIndex, selection: &DenseIndex, options: Options) -> (found: Option<
    Found,
>)
    ensures
        places(found) == anchored(
            pieces(index.clusters()),
            pieces(selection.clusters()),
            options,
        ),
{
    let total: usize = selection.len();
    if options.anchor_len > total / 2 {
        return None;
    }
    let ghost chosen = pieces(selection.clusters());
    let ghost anchor = options.anchor_len as int;
    proof {
        if anchor == 0 {
            assert(chosen.subrange(0, 0).flatten() == Seq::<char>::empty());
            assert(chosen.subrange(total as int, total as int).flatten() == Seq::<char>::empty());
        }
    }
    let head = occurrences(index, selection.dense_slice(0, options.anchor_len));
    let tail = occurrences(index, selection.dense_slice(total - options.anchor_len, total));
    closest_span(&head, &tail, total)
}

// The haystack

/// A transcript flattened into one searchable body of text.
///
/// Blocks are concatenated rather than searched one by one so that a selection
/// running from the end of one message into the next still has somewhere to
/// match, and so a single search covers every block.
pub struct Haystack {
    index: DenseIndex,
    spans: Vec<Span>,
}

/// The graphemes that come from one block.
#[derive(Debug, Clone, Copy)]
pub struct Span {
    pub kind: BlockKind,
    pub start: usize,
    pub end: usize,
}

/// What stands between two blocks.
pub const BLOCK_SEPARATOR: &'static str = "\n\n";

/// A text with a separator behind it, unless it is empty.
pub open spec fn separated(front: Seq<char>) -> Seq<char> {
    if front.len() == 0 {
        front
    } else {
        front + BLOCK_SEPARATOR@
    }
}

/// The blocks in a row with a separator between them.
pub open spec fn joined(blocks: Seq<Block>) -> Seq<char>
    decreases blocks.len(),
{
    if blocks.len() == 0 {
        Seq::empty()
    } else {
        separated(joined(blocks.drop_last())) + blocks.last().text@
    }
}

/// Byte offset at which block `i` starts in the joined text.
pub open spec fn block_start(blocks: Seq<Block>, i: int) -> nat {
    byte_len(separated(joined(blocks.take(i))))
}

/// Byte offset at which block `i` ends in the joined text.
pub open spec fn block_end(blocks: Seq<Block>, i: int) -> nat {
    byte_len(joined(blocks.take(i + 1)))
}

/// Every block has a span with its kind and the kept clusters that start in it.
pub open spec fn spans_match(
    blocks: Seq<Block>,
    clusters: Seq<Seq<char>>,
    spans: Seq<Span>,
) -> bool {
    &&& spans.len() == blocks.len()
    &&& forall|i: int|
        0 <= i < spans.len() ==> {
            &&& (#[trigger] spans[i]).kind == blocks[i].kind
            &&& spans[i].start == kept_before(clusters, block_start(blocks, i))
            &&& spans[i].end == kept_before(clusters, block_end(blocks, i))
        }
}

/// The kind of the first span that a kept cluster lies in.
pub open spec fn kind_at(spans: Seq<Span>, grapheme: int) -> Option<BlockKind>
    decreases spans.len(),
{
    if spans.len() == 0 {
        None
    } else if spans[0].start <= grapheme < spans[0].end {
        Some(spans[0].kind)
    } else {
        kind_at(spans.drop_first(), grapheme)
    }
}

/// The blocks in a row, and the byte range of each.
fn lay_out(blocks: &[Block]) -> (layout: (String, Vec<(usize, usize)>))
    ensures
        layout.0@ == joined(blocks@),
        layout.1@.len() == blocks@.len(),
        forall|i: int|
            0 <= i < blocks@.len() ==> (#[trigger] layout.1@[i]).0 == block_start(blocks@, i)
                && layout.1@[i].1 == block_end(blocks@, i),
{
    let mut source = String::new();
    let mut bounds: Vec<(usize, usize)> = Vec::new();
    let mut i: usize = 0;
    assert(blocks@.take(0) == Seq::<Block>::empty());
    while i < blocks.len()
        invariant
            i <= blocks@.len(),
            source@ == joined(blocks@.take(i as int)),
            bounds@.len() == i,
            forall|k: int|
                0 <= k < i ==> (#[trigger] bounds@[k]).0 == block_start(blocks@, k)
                    && bounds@[k].1 == block_end(blocks@, k),
        decreases blocks@.len() - i,
    {
        proof {
            assert(blocks@.take(i + 1).drop_last() == blocks@.take(i as int));
        }
        if !source.as_str().is_empty() {
            source.append(BLOCK_SEPARATOR);
        }
        let start: usize = size_of_text(source.as_str());
        source.append(blocks[i].text.as_str());
        let end: usize = size_of_text(source.as_str());
        bounds.push((start, end));
        i = i + 1;
    }
    assert(blocks@.take(blocks@.len() as int) == blocks@);
    (source, bounds)
}

impl Haystack {
    /// The grapheme clusters of the joined blocks.
    pub closed spec fn clusters(&self) -> Seq<Seq<char>> {
        self.index.clusters()
    }

    /// The span of each block.
    pub closed spec fn spans(&self) -> Seq<Span> {
        self.spans@
    }

    /// Join the blocks of a transcript and index the result.
    pub fn build(blocks: &[Block]) -> (haystack: Self)
        ensures
            haystack.clusters() == graphemes(joined(blocks@)),
            haystack.clusters().flatten() == joined(blocks@),
            line_feeds_stand_alone(haystack.clusters()),
            spans_match(blocks@, haystack.clusters(), haystack.spans()),
    {
        let (source, _) = lay_out(blocks);
        let index = DenseIndex::build(source.as_str());
        Self::with_index(blocks, index)
    }

    /// The haystack of blocks whose joined text has been indexed.
    pub fn with_index(blocks: &[Block], index: DenseIndex) -> (haystack: Self)
        ensures
            haystack.clusters() == index.clusters(),
            spans_match(blocks@, haystack.clusters(), haystack.spans()),
    {
        let (_, bounds) = lay_out(blocks);
        // Byte bounds become grapheme bounds by counting how many kept
        // graphemes start before each block.
        let mut spans: Vec<Span> = Vec::new();
        let mut i: usize = 0;
        while i < blocks.len()
            invariant
                i <= blocks@.len(),
                bounds@.len() == blocks@.len(),
                forall|k: int|
                    0 <= k < blocks@.len() ==> (#[trigger] bounds@[k]).0 == block_start(blocks@, k)
                        && bounds@[k].1 == block_end(blocks@, k),
                spans@.len() == i,
                forall|k: int|
                    0 <= k < i ==> {
                        &&& (#[trigger] spans@[k]).kind == blocks@[k].kind
                        &&& spans@[k].start == kept_before(
                            index.clusters(),
                            block_start(blocks@, k),
                        )
                        &&& spans@[k].end == kept_before(index.clusters(), block_end(blocks@, k))
                    },
            decreases blocks@.len() - i,
        {
            let (start, end) = bounds[i];
            spans.push(
                Span {
                    kind: blocks[i].kind,
                    start: index.graphemes_before(start),
                    end: index.graphemes_before(end),
                },
            );
            i = i + 1;
        }
        Haystack { index, spans }
    }

    /// Whether there is nothing to search.
    pub fn is_empty(&self) -> (yes: bool)
        ensures
            yes == (kept(self.clusters()).len() == 0),
    {
        self.index.is_empty()
    }

    /// The kind of the block that a grapheme lies in.
    fn block_at(&self, grapheme: usize) -> (kind: Option<BlockKind>)
        ensures
            kind == kind_at(self.spans(), grapheme as int),
    {
        let ghost spans = self.spans@;
        let mut i: usize = 0;
        assert(spans.skip(0) == spans);
        while i < self.spans.len()
            invariant
                i <= spans.len(),
                spans == self.spans@,
                kind_at(spans, grapheme as int) == kind_at(
                    spans.skip(i as int),
                    grapheme as int,
                ),
            decreases spans.len() - i,
        {
            let span = self.spans[i];
            assert(spans.skip(i as int).drop_first() == spans.skip(i + 1));
            assert(spans.skip(i as int)[0] == spans[i as int]);
            if grapheme >= span.start && grapheme < span.end {
                return Some(span.kind);
            }
            i = i + 1;
        }
        None
    }

    /// The match for a place that was found.
    fn finish(&self, found: Found, strategy: Strategy) -> (matched: Match)
        ensures
            matched.describes(self.clusters(), self.spans(), found.place(), strategy),
    {
        Match {
            text: self.index.slice(found.start, found.end).to_string(),
            strategy,
            candidates: found.candidates,
            block: self.block_at(found.start),
        }
    }
}

/// A selection that was located, with the transcript text it stands for.
#[derive(Debug)]
pub struct Match {
    pub text: String,
    pub strategy: Strategy,
    /// Number of places the selection could have come from. More than one means
    /// the most recent was chosen.
    pub candidates: usize,
    pub block: Option<BlockKind>,
}

impl Clone for Match {
    fn clone(&self) -> (copy: Self)
        ensures
            copy == *self,
    {
        Match {
            text: self.text.clone(),
            strategy: self.strategy,
            candidates: self.candidates,
            block: self.block,
        }
    }
}

impl Match {
    /// The match holds the transcript text at `place`, untouched, and reports
    /// where it came from.
    pub open spec fn describes(
        self,
        clusters: Seq<Seq<char>>,
        spans: Seq<Span>,
        place: Place,
        strategy: Strategy,
    ) -> bool {
        &&& self.text@ == text_between(clusters, place.start, place.end)
        &&& self.strategy == strategy
        &&& self.candidates == place.candidates
        &&& self.block == kind_at(spans, place.start)
    }
}

/// Find `selection` inside `haystack`, returning the untouched transcript text.
pub fn find(haystack: &Haystack, selection: &DenseIndex, options: Options) -> (found: Option<Match>)
    ensures
        match (
            found,
            located(pieces(haystack.clusters()), pieces(selection.clusters()), options),
        ) {
            (Some(matched), Some((place, strategy))) => matched.describes(
                haystack.clusters(),
                haystack.spans(),
                place,
                strategy,
            ),
            (None, None) => true,
            _ => false,
        },
{
    if haystack.is_empty() || selection.is_empty() {
        proof {
            lemma_nothing_to_find(
                pieces(haystack.clusters()),
                pieces(selection.clusters()),
                options,
            );
        }
        return None;
    }
    if let Some(found) = find_exact(&haystack.index, selection.dense()) {
        return Some(haystack.finish(found, Strategy::Exact));
    }
    if let Some(found) = find_trimmed(&haystack.index, selection, options) {
        return Some(haystack.finish(found, Strategy::Trimmed));
    }
    if let Some(found) = find_anchored(&haystack.index, selection, options) {
        return Some(haystack.finish(found, Strategy::Anchored));
    }
    None
}

/// In an empty transcript, and of an empty selection, nothing is found.
proof fn lemma_nothing_to_find(
    parts: Seq<Seq<char>>,
    selection: Seq<Seq<char>>,
    options: Options,
)
    requires
        parts.len() == 0 || selection.len() == 0,
    ensures
        located(parts, selection, options) is None,
{
    if parts.len() == 0 {
        assert forall|needle: Seq<char>| #[trigger] hits(parts, needle).len() == 0 by {}
    } else {
        assert(selection.subrange(0, 0).flatten() == Seq::<char>::empty());
    }
}

// Laws

/// Whatever is found, its text is a contiguous part of the joined transcript and
/// nothing was put in, left out or changed.
pub proof fn law_found_text_is_part_of_the_transcript(
    clusters: Seq<Seq<char>>,
    selection: Seq<Seq<char>>,
    options: Options,
)
    requires
        located(pieces(clusters), pieces(selection), options) is Some,
    ensures
        ({
            let (place, _) = located(pieces(clusters), pieces(selection), options)->0;
            &&& 0 <= place.start < place.end <= kept(clusters).len()
            &&& place.candidates > 0
            &&& exists|front: Seq<char>, back: Seq<char>|
                clusters.flatten() == #[trigger] (front + text_between(
                    clusters,
                    place.start,
                    place.end,
                ) + back)
        }),
{
    let parts = pieces(clusters);
    let chosen = pieces(selection);
    let (place, strategy) = located(parts, chosen, options)->0;
    law_hits_are_occurrences(clusters, chosen.flatten());
    if strategy == Strategy::Trimmed {
        let (h, t) = choose|h: int, t: int| closest_trim(parts, chosen, options, h, t);
        law_hits_are_occurrences(clusters, shaved(chosen, h, t));
    }
    if strategy == Strategy::Anchored {
        let total = chosen.len() as int;
        let anchor = options.anchor_len as int;
        law_hits_are_occurrences(clusters, chosen.subrange(0, anchor).flatten());
        law_hits_are_occurrences(clusters, chosen.subrange(total - anchor, total).flatten());
    }
    law_slice_is_part_of_the_text(clusters, place.start, place.end);
}

/// An exact match reduces to exactly the dense form of the selection: the
/// clusters whose text is returned have that dense form.
pub proof fn law_exact_match_has_the_dense_form_of_the_selection(
    clusters: Seq<Seq<char>>,
    selection: Seq<Seq<char>>,
    options: Options,
)
    requires
        located(pieces(clusters), pieces(selection), options) matches Some((_, strategy))
            && strategy == Strategy::Exact,
    ensures
        ({
            let (place, _) = located(pieces(clusters), pieces(selection), options)->0;
            let returned = clusters.subrange(
                kept(clusters)[place.start],
                kept(clusters)[place.end - 1] + 1,
            );
            &&& text_between(clusters, place.start, place.end) == returned.flatten()
            &&& dense_text(returned) == dense_text(selection)
        }),
{
    law_hits_are_occurrences(clusters, pieces(selection).flatten());
    let (place, _) = located(pieces(clusters), pieces(selection), options)->0;
    law_slice_reduces_to_dense_slice(clusters, place.start, place.end);
}

/// The selection is found exactly whenever its dense form occurs anywhere in the
/// transcript, and the place is the last one: no occurrence starts after it.
pub proof fn law_the_last_exact_occurrence_wins(
    clusters: Seq<Seq<char>>,
    selection: Seq<Seq<char>>,
    options: Options,
    start: int,
    end: int,
)
    requires
        pieces(selection).flatten().len() > 0,
        occurs(pieces(clusters), pieces(selection).flatten(), start, end),
    ensures
        located(pieces(clusters), pieces(selection), options) matches Some((place, strategy))
            && strategy == Strategy::Exact && start <= place.start,
{
    let needle = pieces(selection).flatten();
    let found = hits(pieces(clusters), needle);
    law_every_occurrence_is_a_hit(clusters, needle, start, end);
    law_hits_are_in_order(clusters, needle);
    let k = choose|k: int| 0 <= k < found.len() && found[k] == (start, end);
    if k < found.len() - 1 {
        assert(found[k].0 < found[found.len() - 1].0);
    }
}

/// A selection is found exactly when and only when its dense form occurs, and every
/// start counts as a candidate, those of occurrences that overlap among them.
pub proof fn law_every_start_is_a_candidate(
    clusters: Seq<Seq<char>>,
    selection: Seq<Seq<char>>,
    options: Options,
)
    requires
        pieces(selection).flatten().len() > 0,
    ensures
        ({
            let parts = pieces(clusters);
            let needle = pieces(selection).flatten();
            let starts = Set::new(|s: int| occurs_at(parts, needle, s));
            match located(parts, pieces(selection), options) {
                Some((place, Strategy::Exact)) => {
                    &&& starts.finite()
                    &&& starts.len() == place.candidates
                    &&& starts.contains(place.start)
                    &&& forall|s: int| #[trigger] starts.contains(s) ==> s <= place.start
                },
                _ => forall|s: int| !#[trigger] starts.contains(s),
            }
        }),
{
    let parts = pieces(clusters);
    let needle = pieces(selection).flatten();
    let found = hits(parts, needle);
    let starts = Set::new(|s: int| occurs_at(parts, needle, s));
    law_hits_are_occurrences(clusters, needle);
    law_hits_are_in_order(clusters, needle);
    let firsts = found.map_values(|hit: (int, int)| hit.0);
    assert forall|s: int| #[trigger] starts.contains(s) <==> firsts.contains(s) by {
        if starts.contains(s) {
            let e = choose|e: int| occurs(parts, needle, s, e);
            law_every_occurrence_is_a_hit(clusters, needle, s, e);
            let k = choose|k: int| 0 <= k < found.len() && found[k] == (s, e);
            assert(firsts[k] == s);
        }
        if firsts.contains(s) {
            let k = choose|k: int| 0 <= k < firsts.len() && firsts[k] == s;
            assert(occurs(parts, needle, found[k].0, found[k].1));
        }
    }
    assert(firsts.no_duplicates());
    firsts.unique_seq_to_set();
    assert(starts == firsts.to_set());
    if found.len() > 0 {
        assert(firsts[found.len() - 1] == found.last().0);
        assert forall|s: int| #[trigger] starts.contains(s) implies s <= found.last().0 by {
            let k = choose|k: int| 0 <= k < firsts.len() && firsts[k] == s;
            if k < found.len() - 1 {
                assert(found[k].0 < found[found.len() - 1].0);
            }
        }
    }
}

/// Any stretch of a transcript, selected, is found exactly, whatever the options: where
/// it stands or where its dense form occurs again further down.
pub proof fn law_a_selected_stretch_is_found(
    clusters: Seq<Seq<char>>,
    start: int,
    end: int,
    options: Options,
    other: Options,
)
    requires
        0 <= start < end <= kept(clusters).len(),
    ensures
        ({
            let selection = clusters.subrange(
                kept(clusters)[start],
                kept(clusters)[end - 1] + 1,
            );
            let found = located(pieces(clusters), pieces(selection), options);
            &&& found == located(pieces(clusters), pieces(selection), other)
            &&& found matches Some((place, strategy)) && {
                &&& strategy == Strategy::Exact
                &&& start <= place.start
                &&& dense_between(clusters, place.start, place.end) == dense_between(
                    clusters,
                    start,
                    end,
                )
            }
        }),
{
    let parts = pieces(clusters);
    let selection = clusters.subrange(kept(clusters)[start], kept(clusters)[end - 1] + 1);
    let needle = pieces(selection).flatten();
    law_slice_reduces_to_dense_slice(clusters, start, end);
    assert(occurs(parts, needle, start, end));
    lemma_piece(clusters, start);
    assert(parts.subrange(start, end)[0] == parts[start]);
    assert(needle == parts[start] + parts.subrange(start, end).drop_first().flatten());
    law_the_last_exact_occurrence_wins(clusters, selection, options, start, end);
    law_hits_are_occurrences(clusters, needle);
}

/// A passage that occurs once is found exactly there.
pub proof fn law_a_unique_passage_is_found_where_it_stands(
    clusters: Seq<Seq<char>>,
    selection: Seq<Seq<char>>,
    options: Options,
    start: int,
    end: int,
)
    requires
        pieces(selection).flatten().len() > 0,
        occurs(pieces(clusters), pieces(selection).flatten(), start, end),
        forall|s: int, e: int| #[trigger]
            occurs(pieces(clusters), pieces(selection).flatten(), s, e) ==> s == start,
    ensures
        located(pieces(clusters), pieces(selection), options) == Some(
            (Place { start, end, candidates: 1 }, Strategy::Exact),
        ),
{
    let needle = pieces(selection).flatten();
    let found = hits(pieces(clusters), needle);
    law_every_occurrence_is_a_hit(clusters, needle, start, end);
    law_hits_are_occurrences(clusters, needle);
    law_hits_are_in_order(clusters, needle);
    let k = choose|k: int| 0 <= k < found.len() && found[k] == (start, end);
    if found.len() > 1 {
        assert(occurs(pieces(clusters), needle, found[0].0, found[0].1));
        assert(occurs(pieces(clusters), needle, found[1].0, found[1].1));
        assert(found[0].0 < found[1].0);
    }
}

/// The whole transcript, selected, is found as the whole transcript, and in one
/// place only.
pub proof fn law_the_whole_transcript_finds_itself(
    clusters: Seq<Seq<char>>,
    options: Options,
)
    requires
        kept(clusters).len() > 0,
    ensures
        located(pieces(clusters), pieces(clusters), options) == Some(
            (
                Place { start: 0, end: kept(clusters).len() as int, candidates: 1 },
                Strategy::Exact,
            ),
        ),
{
    let parts = pieces(clusters);
    let needle = parts.flatten();
    let n = parts.len() as int;
    assert(parts.subrange(0, n) == parts);
    assert(occurs(parts, needle, 0, n));
    lemma_occurs_only_whole(clusters);
    law_hits_are_occurrences(clusters, needle);
    law_hits_are_in_order(clusters, needle);
    lemma_piece(clusters, 0);
    assert(needle == parts[0] + parts.drop_first().flatten());
    law_every_occurrence_is_a_hit(clusters, needle, 0, n);
    let found = hits(parts, needle);
    assert(found[0] == (0int, n));
    if found.len() > 1 {
        assert(found[1] == (0int, n));
        assert(found[0].0 < found[1].0);
    }
}

proof fn lemma_occurs_only_whole(clusters: Seq<Seq<char>>)
    ensures
        forall|start: int, end: int| #[trigger]
            occurs(pieces(clusters), pieces(clusters).flatten(), start, end) ==> start == 0 && end
                == pieces(clusters).len(),
{
    let parts = pieces(clusters);
    let n = parts.len() as int;
    assert forall|start: int, end: int| #[trigger]
        occurs(parts, parts.flatten(), start, end) implies start == 0 && end == n by {
        lemma_flatten_parts(parts, start, end);
        let front = parts.take(start);
        let back = parts.skip(end);
        assert(front.flatten().len() == 0 && back.flatten().len() == 0);
        if start > 0 {
            lemma_piece(clusters, 0);
            assert(front.flatten() == front[0] + front.drop_first().flatten());
            assert(front[0] == parts[0]);
        }
        if end < n {
            lemma_piece(clusters, end);
            assert(back.flatten() == back[0] + back.drop_first().flatten());
            assert(back[0] == parts[end]);
        }
    }
}

/// A trimmed match keeps at least half of the selection and at least `min_span`
/// parts of it, takes off no more than `max_trim` at either edge, and what it
/// returns reduces to exactly what was kept.
pub proof fn law_trimmed_match_dominates_the_selection(
    clusters: Seq<Seq<char>>,
    selection: Seq<Seq<char>>,
    options: Options,
)
    requires
        located(pieces(clusters), pieces(selection), options) matches Some((_, strategy))
            && strategy == Strategy::Trimmed,
    ensures
        ({
            let (place, _) = located(pieces(clusters), pieces(selection), options)->0;
            let total = kept(selection).len() as int;
            exists|head: int, tail: int|
                {
                    &&& 0 <= head <= options.max_trim
                    &&& 0 <= tail <= options.max_trim
                    &&& total - head - tail >= options.min_span
                    &&& total - head - tail >= total / 2
                    &&& dense_between(clusters, place.start, place.end) == #[trigger] shaved(
                        pieces(selection),
                        head,
                        tail,
                    )
                }
        }),
{
    let parts = pieces(clusters);
    let chosen = pieces(selection);
    let (h, t) = choose|h: int, t: int| closest_trim(parts, chosen, options, h, t);
    law_hits_are_occurrences(clusters, shaved(chosen, h, t));
    let (place, _) = located(parts, chosen, options)->0;
    assert(dense_between(clusters, place.start, place.end) == shaved(chosen, h, t));
}

/// Whenever some allowed trim makes the selection occur, and it does not occur as
/// it is, the search succeeds with the least such trim.
pub proof fn law_an_allowed_trim_is_found(
    clusters: Seq<Seq<char>>,
    selection: Seq<Seq<char>>,
    options: Options,
    head: int,
    tail: int,
)
    requires
        hits(pieces(clusters), pieces(selection).flatten()).len() == 0,
        trims(pieces(clusters), pieces(selection), options, head, tail),
    ensures
        located(pieces(clusters), pieces(selection), options) matches Some((place, strategy))
            && strategy == Strategy::Trimmed && exists|h: int, t: int|
            trims_less(h, t, head, tail) && latest(
                hits(pieces(clusters), #[trigger] shaved(pieces(selection), h, t)),
            ) == Some(place),
{
    let parts = pieces(clusters);
    let chosen = pieces(selection);
    lemma_closest_trim_exists(parts, chosen, options, head, tail);
    let (h, t) = choose|h: int, t: int| closest_trim(parts, chosen, options, h, t);
    assert(trims_less(h, t, head, tail));
    assert(latest(hits(parts, shaved(chosen, h, t))) is Some);
}

proof fn lemma_closest_trim_exists(
    parts: Seq<Seq<char>>,
    selection: Seq<Seq<char>>,
    options: Options,
    head: int,
    tail: int,
)
    requires
        trims(parts, selection, options, head, tail),
    ensures
        exists|h: int, t: int| closest_trim(parts, selection, options, h, t),
    decreases head + tail, head,
{
    if !closest_trim(parts, selection, options, head, tail) {
        let (h, t) = choose|h: int, t: int| #[trigger]
            trims(parts, selection, options, h, t) && !trims_less(head, tail, h, t);
        lemma_closest_trim_exists(parts, selection, options, h, t);
    }
}

/// An anchored match starts with the first `anchor_len` parts of the selection
/// and ends with the last `anchor_len`, and its length stays near that of the
/// selection.
pub proof fn law_anchored_match_stays_near_the_selection(
    clusters: Seq<Seq<char>>,
    selection: Seq<Seq<char>>,
    options: Options,
)
    requires
        located(pieces(clusters), pieces(selection), options) matches Some((_, strategy))
            && strategy == Strategy::Anchored,
    ensures
        ({
            let (place, _) = located(pieces(clusters), pieces(selection), options)->0;
            let parts = pieces(clusters);
            let chosen = pieces(selection);
            let total = chosen.len() as int;
            let anchor = options.anchor_len as int;
            &&& 0 < 2 * anchor <= total
            &&& place.end - place.start <= total + total / 2 + 16
            &&& place.end - place.start >= total - (total / 4 + 8)
            &&& exists|end: int|
                #[trigger] occurs(parts, chosen.subrange(0, anchor).flatten(), place.start, end)
            &&& exists|start: int|
                #[trigger] occurs(
                    parts,
                    chosen.subrange(total - anchor, total).flatten(),
                    start,
                    place.end,
                )
        }),
{
    let parts = pieces(clusters);
    let chosen = pieces(selection);
    let total = chosen.len() as int;
    let anchor = options.anchor_len as int;
    let heads = hits(parts, chosen.subrange(0, anchor).flatten());
    let tails = hits(parts, chosen.subrange(total - anchor, total).flatten());
    law_hits_are_occurrences(clusters, chosen.subrange(0, anchor).flatten());
    law_hits_are_occurrences(clusters, chosen.subrange(total - anchor, total).flatten());
    let (i, j) = choose|i: int, j: int| closest_anchors(heads, tails, total, i, j);
    assert(closest_anchors(heads, tails, total, i, j));
    assert(occurs(parts, chosen.subrange(0, anchor).flatten(), heads[i].0, heads[i].1));
    assert(occurs(
        parts,
        chosen.subrange(total - anchor, total).flatten(),
        tails[j].0,
        tails[j].1,
    ));
    if anchor == 0 {
        assert(chosen.subrange(0, 0).flatten() == Seq::<char>::empty());
    }
}

/// Of the allowed spans that are nearest to the selection in length, the most
/// recent wins: one that is as near as the match does not start after it.
pub proof fn law_the_last_nearest_span_wins(
    clusters: Seq<Seq<char>>,
    selection: Seq<Seq<char>>,
    options: Options,
    i: int,
    j: int,
)
    requires
        located(pieces(clusters), pieces(selection), options) matches Some((_, strategy))
            && strategy == Strategy::Anchored,
        anchors(
            head_hits(pieces(clusters), pieces(selection), options),
            tail_hits(pieces(clusters), pieces(selection), options),
            pieces(selection).len() as int,
            i,
            j,
        ),
    ensures
        ({
            let (place, _) = located(pieces(clusters), pieces(selection), options)->0;
            let total = pieces(selection).len() as int;
            let start = head_hits(pieces(clusters), pieces(selection), options)[i].0;
            let end = tail_hits(pieces(clusters), pieces(selection), options)[j].1;
            let nearest = span_error(total, place.start, place.end);
            &&& nearest <= span_error(total, start, end)
            &&& nearest == span_error(total, start, end) ==> start <= place.start
        }),
{
    let parts = pieces(clusters);
    let chosen = pieces(selection);
    let total = chosen.len() as int;
    let heads = head_hits(parts, chosen, options);
    let tails = tail_hits(parts, chosen, options);
    law_hits_are_in_order(clusters, chosen.subrange(0, options.anchor_len as int).flatten());
    let (a, b) = choose|a: int, b: int| closest_anchors(heads, tails, total, a, b);
    assert(closest_anchors(heads, tails, total, a, b));
    if i < a {
        assert(heads[i].0 < heads[a].0);
    }
}

/// Whenever some pair of anchors leaves an allowed span between them, the search
/// between anchors succeeds.
pub proof fn law_an_allowed_span_is_found(
    heads: Seq<(int, int)>,
    tails: Seq<(int, int)>,
    total: int,
    i: int,
    j: int,
)
    requires
        anchors(heads, tails, total, i, j),
    ensures
        between_anchors(heads, tails, total) matches Some(place) && span_error(
            total,
            place.start,
            place.end,
        ) <= span_error(total, heads[i].0, tails[j].1),
{
    lemma_closest_anchors_exist(heads, tails, total, i, j);
    let (a, b) = choose|a: int, b: int| closest_anchors(heads, tails, total, a, b);
    assert(closest_anchors(heads, tails, total, a, b));
}

proof fn lemma_closest_anchors_exist(
    heads: Seq<(int, int)>,
    tails: Seq<(int, int)>,
    total: int,
    i: int,
    j: int,
)
    requires
        anchors(heads, tails, total, i, j),
    ensures
        exists|a: int, b: int| closest_anchors(heads, tails, total, a, b),
    decreases span_error(total, heads[i].0, tails[j].1), heads.len() - i, tails.len() - j,
{
    if !closest_anchors(heads, tails, total, i, j) {
        let (k, l) = choose|k: int, l: int| #[trigger]
            anchors(heads, tails, total, k, l) && !({
                let error = span_error(total, heads[i].0, tails[j].1);
                let other = span_error(total, heads[k].0, tails[l].1);
                error < other || (error == other && (k < i || (k == i && l <= j)))
            });
        lemma_closest_anchors_exist(heads, tails, total, k, l);
    }
}

/// The kind of the first block, from block `i` on, in which a kept cluster starts.
pub open spec fn block_holding(
    blocks: Seq<Block>,
    clusters: Seq<Seq<char>>,
    grapheme: int,
    i: int,
) -> Option<BlockKind>
    decreases blocks.len() - i,
{
    if i < 0 || i >= blocks.len() {
        None
    } else if kept_before(clusters, block_start(blocks, i)) <= grapheme < kept_before(
        clusters,
        block_end(blocks, i),
    ) {
        Some(blocks[i].kind)
    } else {
        block_holding(blocks, clusters, grapheme, i + 1)
    }
}

/// The block that is reported is the first one whose byte range holds the start
/// of the kept cluster that the match begins with.
pub proof fn law_reported_block_holds_the_match(
    blocks: Seq<Block>,
    clusters: Seq<Seq<char>>,
    spans: Seq<Span>,
    grapheme: int,
)
    requires
        spans_match(blocks, clusters, spans),
    ensures
        kind_at(spans, grapheme) == block_holding(blocks, clusters, grapheme, 0),
{
    assert(spans.skip(0) == spans);
    lemma_kind_from(blocks, clusters, spans, grapheme, 0);
}

proof fn lemma_kind_from(
    blocks: Seq<Block>,
    clusters: Seq<Seq<char>>,
    spans: Seq<Span>,
    grapheme: int,
    i: int,
)
    requires
        spans_match(blocks, clusters, spans),
        0 <= i <= spans.len(),
    ensures
        kind_at(spans.skip(i), grapheme) == block_holding(blocks, clusters, grapheme, i),
    decreases spans.len() - i,
{
    if i < spans.len() {
        assert(spans.skip(i)[0] == spans[i]);
        assert(spans.skip(i).drop_first() == spans.skip(i + 1));
        lemma_kind_from(blocks, clusters, spans, grapheme, i + 1);
    }
}

/// Every match lies in a block: a kept cluster starts in one, never in what stands
/// between two, as that is line feeds and they are dropped.
pub proof fn law_every_kept_cluster_is_in_a_block(
    blocks: Seq<Block>,
    clusters: Seq<Seq<char>>,
    grapheme: int,
)
    requires
        clusters.flatten() == joined(blocks),
        line_feeds_stand_alone(clusters),
        0 <= grapheme < kept(clusters).len(),
    ensures
        block_holding(blocks, clusters, grapheme, 0) is Some,
{
    let c = kept(clusters)[grapheme];
    let front = clusters.take(c).flatten();
    let at = front.len() as int;
    let whole = joined(blocks);
    lemma_kept(clusters);
    lemma_kept_cluster_has_no_line_feed(clusters, c);
    lemma_flatten_parts(clusters, c, c + 1);
    assert(clusters.subrange(c, c + 1) == seq![clusters[c]]);
    seq![clusters[c]].lemma_flatten_one_element();
    assert(whole == front + clusters[c] + clusters.skip(c + 1).flatten());
    assert(whole[at] == clusters[c][0]);
    assert(whole.take(at) == front);
    let i = lemma_block_at(blocks, at);
    law_blocks_stand_in_the_joined_text(blocks, i);
    let start = separated(joined(blocks.take(i)));
    let end = joined(blocks.take(i + 1));
    assert(blocks.take(i + 1).drop_last() == blocks.take(i));
    assert(whole.take(start.len() as int) == start);
    assert(whole.take(end.len() as int) == end);
    lemma_longer_takes_more(whole, start.len() as int, at);
    lemma_longer_takes_more(whole, at, end.len() as int);
    lemma_counted_before(clusters, block_start(blocks, i), grapheme);
    lemma_counted_before(clusters, block_end(blocks, i), grapheme);
    assert(cluster_start(clusters, c) == byte_len(front));
    lemma_held_from(blocks, clusters, grapheme, 0, i);
}

/// A cluster that is kept holds no line feed.
proof fn lemma_kept_cluster_has_no_line_feed(clusters: Seq<Seq<char>>, c: int)
    requires
        line_feeds_stand_alone(clusters),
        0 <= c < clusters.len(),
        !dropped(clusters[c]),
    ensures
        clusters[c].len() > 0,
        clusters[c][0] != '\n',
{
    if clusters[c][0] == '\n' {
        assert(clusters[c].contains('\n'));
    }
}

/// A character of the joined text that is no line feed stands in a block.
proof fn lemma_block_at(blocks: Seq<Block>, at: int) -> (i: int)
    requires
        0 <= at < joined(blocks).len(),
        joined(blocks)[at] != '\n',
    ensures
        0 <= i < blocks.len(),
        separated(joined(blocks.take(i))).len() <= at < joined(blocks.take(i + 1)).len(),
    decreases blocks.len(),
{
    let init = blocks.drop_last();
    let front = joined(init);
    let last = blocks.len() - 1;
    assert(blocks.take(last) == init);
    assert(blocks.take(last + 1) == blocks);
    if at >= separated(front).len() {
        last
    } else {
        reveal_strlit("\n\n");
        assert(joined(blocks)[at] == separated(front)[at]);
        let i = lemma_block_at(init, at);
        assert(init.take(i) == blocks.take(i));
        assert(init.take(i + 1) == blocks.take(i + 1));
        i
    }
}

/// The longer a front of a text is, the more bytes it takes.
proof fn lemma_longer_takes_more(text: Seq<char>, a: int, b: int)
    requires
        0 <= a <= b <= text.len(),
    ensures
        byte_len(text.take(a)) <= byte_len(text.take(b)),
        a < b ==> byte_len(text.take(a)) < byte_len(text.take(b)),
{
    let between = text.subrange(a, b);
    assert(text.take(b) == text.take(a) + between);
    lemma_encode_concat(text.take(a), between);
    lemma_byte_len_positive(between);
}

/// A block that holds a cluster is found from any block before it on, or another
/// one before it.
proof fn lemma_held_from(
    blocks: Seq<Block>,
    clusters: Seq<Seq<char>>,
    grapheme: int,
    from: int,
    i: int,
)
    requires
        0 <= from <= i < blocks.len(),
        kept_before(clusters, block_start(blocks, i)) <= grapheme < kept_before(
            clusters,
            block_end(blocks, i),
        ),
    ensures
        block_holding(blocks, clusters, grapheme, from) is Some,
    decreases i - from,
{
    if from < i {
        lemma_held_from(blocks, clusters, grapheme, from + 1, i);
    }
}

/// The text of every block stands in the joined transcript, at the byte offsets
/// that its span was counted from.
pub proof fn law_blocks_stand_in_the_joined_text(blocks: Seq<Block>, i: int)
    requires
        0 <= i < blocks.len(),
    ensures
        exists|back: Seq<char>|
            joined(blocks) == #[trigger] (separated(joined(blocks.take(i))) + blocks[i].text@
                + back),
        block_end(blocks, i) == block_start(blocks, i) + byte_len(blocks[i].text@),
    decreases blocks.len(),
{
    let upto = blocks.take(i + 1);
    assert(upto.drop_last() == blocks.take(i));
    lemma_encode_concat(separated(joined(blocks.take(i))), blocks[i].text@);
    if i == blocks.len() - 1 {
        assert(upto == blocks);
        assert(joined(blocks) == separated(joined(blocks.take(i))) + blocks[i].text@
            + Seq::<char>::empty());
    } else {
        let init = blocks.drop_last();
        law_blocks_stand_in_the_joined_text(init, i);
        assert(init.take(i) == blocks.take(i));
        let back = choose|back: Seq<char>|
            joined(init) == #[trigger] (separated(joined(init.take(i))) + init[i].text@ + back);
        let more = if joined(init).len() == 0 {
            back + blocks.last().text@
        } else {
            back + BLOCK_SEPARATOR@ + blocks.last().text@
        };
        assert(joined(blocks) == separated(joined(blocks.take(i))) + blocks[i].text@ + more);
    }
}

/// Selected whole, a transcript that begins and ends with something readable comes back
/// whole, both its edges among it.
pub proof fn law_a_whole_text_keeps_both_its_edges(
    clusters: Seq<Seq<char>>,
    options: Options,
    first: int,
    last: int,
)
    requires
        clusters.len() > 0,
        0 <= first < clusters[0].len(),
        0 <= last < clusters.last().len(),
        written(clusters[0][first] as int),
        written(clusters.last()[last] as int),
    ensures
        located(pieces(clusters), pieces(clusters), options) matches Some((place, strategy))
            && strategy == Strategy::Exact && text_between(clusters, place.start, place.end)
            == clusters.flatten(),
{
    law_a_slice_has_both_its_edges(clusters);
    law_the_whole_transcript_finds_itself(clusters, options);
}

/// A text that begins and ends with printable ASCII other than the Markdown markers, such
/// as a command with a quote at its end, comes back whole when it is selected whole.
pub proof fn law_a_quoted_command_comes_back_whole(clusters: Seq<Seq<char>>, options: Options)
    requires
        clusters.len() > 0,
        clusters[0].len() > 0,
        clusters.last().len() > 0,
        '!' <= clusters[0][0] <= '}',
        '!' <= clusters.last()[0] <= '}',
        clusters[0][0] != '#' && clusters[0][0] != '*' && clusters[0][0] != '_' && clusters[0][0]
            != '`',
        clusters.last()[0] != '#' && clusters.last()[0] != '*' && clusters.last()[0] != '_'
            && clusters.last()[0] != '`',
    ensures
        located(pieces(clusters), pieces(clusters), options) matches Some((place, strategy))
            && strategy == Strategy::Exact && text_between(clusters, place.start, place.end)
            == clusters.flatten(),
{
    law_a_whole_text_keeps_both_its_edges(clusters, options, 0, 0);
}

/// A selection with stray parts at its edges is found: where it does not occur as it is,
/// but does with no more than `max_trim` parts off either edge, and what is left is at
/// least half of it and at least `min_span` parts, the match is what is left after some
/// such trim that takes off no more.
pub proof fn law_a_selection_with_stray_edges_is_found(
    clusters: Seq<Seq<char>>,
    selection: Seq<Seq<char>>,
    options: Options,
    head: int,
    tail: int,
    start: int,
    end: int,
)
    requires
        forall|s: int, e: int|
            !#[trigger] occurs(pieces(clusters), pieces(selection).flatten(), s, e),
        0 <= head <= options.max_trim,
        0 <= tail <= options.max_trim,
        0 < head + tail < pieces(selection).len(),
        pieces(selection).len() - head - tail >= options.min_span,
        pieces(selection).len() - head - tail >= pieces(selection).len() as int / 2,
        occurs(
            pieces(clusters),
            pieces(selection).subrange(head, pieces(selection).len() - tail).flatten(),
            start,
            end,
        ),
    ensures
        located(pieces(clusters), pieces(selection), options) matches Some((place, strategy))
            && strategy == Strategy::Trimmed && exists|h: int, t: int|
            {
                &&& 0 <= h <= options.max_trim
                &&& 0 <= t <= options.max_trim
                &&& h + t < head + tail || (h + t == head + tail && h <= head)
                &&& (h, t) == (head, tail) ==> start <= place.start
                &&& dense_between(clusters, place.start, place.end) == #[trigger] pieces(
                    selection,
                ).subrange(h, pieces(selection).len() - t).flatten()
                &&& place.candidates == hits(
                    pieces(clusters),
                    pieces(selection).subrange(h, pieces(selection).len() - t).flatten(),
                ).len()
            },
{
    let parts = pieces(clusters);
    let chosen = pieces(selection);
    let needle = shaved(chosen, head, tail);
    law_hits_are_occurrences(clusters, chosen.flatten());
    let whole = hits(parts, chosen.flatten());
    if whole.len() > 0 {
        assert(occurs(parts, chosen.flatten(), whole[0].0, whole[0].1));
    }
    let middle = chosen.subrange(head, chosen.len() - tail);
    lemma_piece(selection, head);
    assert(middle[0] == chosen[head]);
    assert(middle.flatten() == middle[0] + middle.drop_first().flatten());
    law_every_occurrence_is_a_hit(clusters, needle, start, end);
    law_hits_are_in_order(clusters, needle);
    assert(trims(parts, chosen, options, head, tail));
    lemma_closest_trim_exists(parts, chosen, options, head, tail);
    let (h, t) = choose|h: int, t: int| closest_trim(parts, chosen, options, h, t);
    assert(trims_less(h, t, head, tail));
    assert(trims(parts, chosen, options, h, t));
    let found = hits(parts, shaved(chosen, h, t));
    law_hits_are_occurrences(clusters, shaved(chosen, h, t));
    assert(h + t < chosen.len());
    let place = latest(found)->0;
    assert(occurs(parts, shaved(chosen, h, t), found.last().0, found.last().1));
    if (h, t) == (head, tail) {
        let k = choose|k: int| 0 <= k < found.len() && found[k] == (start, end);
        if k < found.len() - 1 {
            assert(found[k].0 < found[found.len() - 1].0);
        }
    }
    assert(dense_between(clusters, place.start, place.end) == chosen.subrange(
        h,
        chosen.len() - t,
    ).flatten());
}

/// A selection whose middle has no counterpart is found by its edges: where neither it nor
/// what an allowed trim leaves occurs, but its first and last `anchor_len` parts do, with a
/// span between them that is at most half as long again and sixteen parts, and at least
/// three quarters less eight parts, such a span is returned, as near in length as any, and
/// the most recent of those.
pub proof fn law_a_selection_is_found_by_its_edges(
    clusters: Seq<Seq<char>>,
    selection: Seq<Seq<char>>,
    options: Options,
    start: int,
    head_end: int,
    tail_start: int,
    end: int,
)
    requires
        forall|s: int, e: int|
            !#[trigger] occurs(pieces(clusters), pieces(selection).flatten(), s, e),
        forall|h: int, t: int, s: int, e: int|
            0 <= h <= options.max_trim && 0 <= t <= options.max_trim && 0 < h + t
                < pieces(selection).len() && pieces(selection).len() - h - t >= options.min_span
                && pieces(selection).len() - h - t >= pieces(selection).len() as int / 2
                ==> !#[trigger] occurs(
                pieces(clusters),
                pieces(selection).subrange(h, pieces(selection).len() - t).flatten(),
                s,
                e,
            ),
        0 < 2 * options.anchor_len <= pieces(selection).len(),
        occurs(
            pieces(clusters),
            pieces(selection).subrange(0, options.anchor_len as int).flatten(),
            start,
            head_end,
        ),
        occurs(
            pieces(clusters),
            pieces(selection).subrange(
                pieces(selection).len() - options.anchor_len,
                pieces(selection).len() as int,
            ).flatten(),
            tail_start,
            end,
        ),
        start < end,
        end - start <= pieces(selection).len() + pieces(selection).len() as int / 2 + 16,
        end - start >= pieces(selection).len() - (pieces(selection).len() as int / 4 + 8),
    ensures
        located(pieces(clusters), pieces(selection), options) matches Some((place, strategy)) && {
            let total = pieces(selection).len() as int;
            let length = place.end - place.start;
            let off = if length >= total {
                length - total
            } else {
                total - length
            };
            let other = if end - start >= total {
                end - start - total
            } else {
                total - (end - start)
            };
            let heads = hits(
                pieces(clusters),
                pieces(selection).subrange(0, options.anchor_len as int).flatten(),
            ).len();
            let tails = hits(
                pieces(clusters),
                pieces(selection).subrange(total - options.anchor_len, total).flatten(),
            ).len();
            &&& strategy == Strategy::Anchored
            &&& off <= other
            &&& off == other ==> start <= place.start
            &&& place.candidates >= heads && place.candidates >= tails
            &&& place.candidates == heads || place.candidates == tails
        },
{
    let parts = pieces(clusters);
    let chosen = pieces(selection);
    let total = chosen.len() as int;
    let anchor = options.anchor_len as int;
    law_hits_are_occurrences(clusters, chosen.flatten());
    let whole = hits(parts, chosen.flatten());
    if whole.len() > 0 {
        assert(occurs(parts, chosen.flatten(), whole[0].0, whole[0].1));
    }
    if trimmed(parts, chosen, options) is Some {
        let (h, t) = choose|h: int, t: int| closest_trim(parts, chosen, options, h, t);
        assert(trims(parts, chosen, options, h, t));
        let found = hits(parts, shaved(chosen, h, t));
        law_hits_are_occurrences(clusters, shaved(chosen, h, t));
        assert(h + t < total);
        assert(occurs(
            parts,
            chosen.subrange(h, total - t).flatten(),
            found[0].0,
            found[0].1,
        ));
    }
    let heads = head_hits(parts, chosen, options);
    let tails = tail_hits(parts, chosen, options);
    let front = chosen.subrange(0, anchor);
    let back = chosen.subrange(total - anchor, total);
    lemma_piece(selection, 0);
    lemma_piece(selection, total - anchor);
    assert(front[0] == chosen[0]);
    assert(back[0] == chosen[total - anchor]);
    assert(front.flatten() == front[0] + front.drop_first().flatten());
    assert(back.flatten() == back[0] + back.drop_first().flatten());
    law_every_occurrence_is_a_hit(clusters, front.flatten(), start, head_end);
    law_every_occurrence_is_a_hit(clusters, back.flatten(), tail_start, end);
    let i = choose|i: int| 0 <= i < heads.len() && heads[i] == (start, head_end);
    let j = choose|j: int| 0 <= j < tails.len() && tails[j] == (tail_start, end);
    assert(anchors(heads, tails, total, i, j));
    law_an_allowed_span_is_found(heads, tails, total, i, j);
    assert(anchored(parts, chosen, options) is Some);
    law_the_last_nearest_span_wins(clusters, selection, options, i, j);
}

/// Blocks that are not empty are searched as one text with a blank line between any two.
pub proof fn law_blocks_are_joined_by_blank_lines(blocks: Seq<Block>)
    requires
        forall|i: int| 0 <= i < blocks.len() ==> (#[trigger] blocks[i]).text@.len() > 0,
    ensures
        joined(blocks) == join(
            blocks.map_values(|block: Block| block.text@),
            seq!['\n', '\n'],
        ),
        blocks.len() > 0 ==> joined(blocks).len() > 0,
    decreases blocks.len(),
{
    let text_of = |block: Block| block.text@;
    if blocks.len() > 0 {
        let init = blocks.drop_last();
        assert(blocks[blocks.len() - 1] == blocks.last());
        assert forall|i: int| 0 <= i < init.len() implies (#[trigger] init[i]).text@.len() > 0 by {
            assert(init[i] == blocks[i]);
        }
        law_blocks_are_joined_by_blank_lines(init);
        reveal_strlit("\n\n");
        assert(BLOCK_SEPARATOR@ == seq!['\n', '\n']);
        let texts = blocks.map_values(text_of);
        assert(texts.drop_last() == init.map_values(text_of));
        assert(texts.last() == blocks.last().text@);
        if init.len() == 0 {
            assert(init == Seq::<Block>::empty());
            assert(texts[0] == blocks.last().text@);
        }
    }
}

/// The kind that is reported is that of a block in whose text the match begins.
pub proof fn law_the_reported_kind_is_that_of_the_block(
    blocks: Seq<Block>,
    clusters: Seq<Seq<char>>,
    grapheme: int,
)
    requires
        clusters.flatten() == joined(blocks),
        0 <= grapheme < kept(clusters).len(),
        block_holding(blocks, clusters, grapheme, 0) is Some,
    ensures
        exists|i: int|
            {
                let at = clusters.take(kept(clusters)[grapheme]).flatten().len();
                let from = separated(joined(blocks.take(i))).len();
                &&& 0 <= i < blocks.len()
                &&& block_holding(blocks, clusters, grapheme, 0) == Some((#[trigger] blocks[i]).kind)
                &&& from <= at < from + blocks[i].text@.len()
            },
{
    let i = lemma_holding_block(blocks, clusters, grapheme, 0);
    let c = kept(clusters)[grapheme];
    let front = clusters.take(c).flatten();
    let at = front.len() as int;
    let whole = joined(blocks);
    lemma_kept(clusters);
    lemma_flatten_parts(clusters, c, c);
    assert(clusters.subrange(c, c).flatten() == Seq::<char>::empty());
    assert(whole == front + clusters.skip(c).flatten());
    assert(whole.take(at) == front);
    law_blocks_stand_in_the_joined_text(blocks, i);
    let start = separated(joined(blocks.take(i)));
    let end = joined(blocks.take(i + 1));
    assert(blocks.take(i + 1).drop_last() == blocks.take(i));
    assert(blocks.take(i + 1).last() == blocks[i]);
    assert(end == start + blocks[i].text@);
    assert(whole.take(start.len() as int) == start);
    assert(whole.take(end.len() as int) == end);
    lemma_counted_before(clusters, block_start(blocks, i), grapheme);
    lemma_counted_before(clusters, block_end(blocks, i), grapheme);
    assert(cluster_start(clusters, c) == byte_len(front));
    if at < start.len() {
        lemma_longer_takes_more(whole, at, start.len() as int);
    }
    if at >= end.len() {
        lemma_longer_takes_more(whole, end.len() as int, at);
    }
    assert(block_holding(blocks, clusters, grapheme, 0) == Some(blocks[i].kind));
}

/// The block that was found to hold a cluster.
proof fn lemma_holding_block(
    blocks: Seq<Block>,
    clusters: Seq<Seq<char>>,
    grapheme: int,
    from: int,
) -> (i: int)
    requires
        0 <= from <= blocks.len(),
        block_holding(blocks, clusters, grapheme, from) is Some,
    ensures
        0 <= i < blocks.len(),
        block_holding(blocks, clusters, grapheme, from) == Some(blocks[i].kind),
        kept_before(clusters, block_start(blocks, i)) <= grapheme < kept_before(
            clusters,
            block_end(blocks, i),
        ),
    decreases blocks.len() - from,
{
    if kept_before(clusters, block_start(blocks, from)) <= grapheme < kept_before(
        clusters,
        block_end(blocks, from),
    ) {
        from
    } else {
        lemma_holding_block(blocks, clusters, grapheme, from + 1)
    }
}

/// A match returns the transcript from the cluster that its place begins with up to and with
/// the one that it ends with, and reports what the place says.
pub proof fn law_a_match_returns_its_place(
    found: Match,
    clusters: Seq<Seq<char>>,
    spans: Seq<Span>,
    place: Place,
    strategy: Strategy,
)
    requires
        found.describes(clusters, spans, place, strategy),
        0 <= place.start < place.end <= kept(clusters).len(),
    ensures
        found.text@ == clusters.subrange(
            kept(clusters)[place.start],
            kept(clusters)[place.end - 1] + 1,
        ).flatten(),
        found.strategy == strategy,
        found.candidates == place.candidates,
        found.block == kind_at(spans, place.start),
{
}

} // verus!
