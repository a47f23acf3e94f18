//! The dense view: text stripped down to the characters that survive rendering,
//! plus a map back into the untouched bytes.
//!
//! Matching a terminal selection against a transcript cannot compare the two
//! directly. The renderer inserts line breaks at the pane width, prefixes rows
//! with gutters and indentation, and drops Markdown markers. So both sides are
//! reduced to the same "dense" form — no whitespace, no markers, no decoration —
//! and compared there. Because the reduction is identical on both sides, being
//! aggressive about what to drop can only cost discriminating power, never
//! correctness: the answer is always sliced out of the untouched text.
//!
//! The model of an index is the sequence of grapheme clusters of its text.
//! Everything an index answers is said in terms of those clusters: which are
//! kept, where they stand, and what lies between them.

use vstd::prelude::*;
use vstd::seq_lib::lemma_flatten_concat;
use vstd::string::StringExecFns;

use crate::bytes::{byte_len, lemma_byte_len_positive, lemma_encode_concat, part, size_of_text};
use crate::segment::{graphemes, line_feeds_stand_alone, split_graphemes};
use crate::text::{
    ascii_digit, bounds_match, chars_of, control, is_ascii_digit, is_control, is_white_space,
    law_rows_begin_anew_behind_a_mark, leading, lemma_filter_nothing, lemma_leading,
    lemma_leading_bounds, lemma_rows_join, lemma_single_row, line_bounds, lines_inclusive,
    push_chars, str_views, white_space,
};

verus! {

// What is dropped

/// Characters that carry no signal because the renderer adds, removes or
/// reflows them.
pub open spec fn droppable(ch: char) -> bool {
    ||| white_space(ch)
    ||| control(ch)
    // Markdown markers, which the TUI renders as styling rather than text.
    ||| ch == '`' || ch == '*' || ch == '_' || ch == '~' || ch == '#'
    // Gutters and bullets the TUI draws beside content.
    ||| ch == '•' || ch == '·' || ch == '›' || ch == '‹'
    ||| ch == '▌' || ch == '⏺' || ch == '↳' || ch == '⎿'
    // Truncation and elision markers, and the glyph a clipped wide character
    // leaves behind.
    ||| ch == '…' || ch == '⋮' || ch == '\u{FFFD}'
    // Box drawing and block elements used for frames, rules and tables.
    ||| '\u{2500}' <= ch <= '\u{259F}'
    // Zero-width joiners and marks that vary with how text was captured.
    ||| '\u{200B}' <= ch <= '\u{200F}'
    ||| ch == '\u{FEFF}'
}

/// A cluster is dropped when every character of it is.
pub open spec fn dropped(cluster: Seq<char>) -> bool {
    forall|i: int| 0 <= i < cluster.len() ==> droppable(#[trigger] cluster[i])
}

/// Positions of the clusters that are kept, in order.
pub open spec fn kept(clusters: Seq<Seq<char>>) -> Seq<int>
    decreases clusters.len(),
{
    if clusters.len() == 0 {
        Seq::empty()
    } else {
        let before = kept(clusters.drop_last());
        if dropped(clusters.last()) {
            before
        } else {
            before.push(clusters.len() - 1)
        }
    }
}

/// The clusters that are kept, in order.
pub open spec fn pieces(clusters: Seq<Seq<char>>) -> Seq<Seq<char>> {
    kept(clusters).map_values(|i: int| clusters[i])
}

/// The dense form of a text, given by its clusters.
pub open spec fn dense_text(clusters: Seq<Seq<char>>) -> Seq<char> {
    pieces(clusters).flatten()
}

/// Byte offset in the text at which cluster `i` starts.
pub open spec fn cluster_start(clusters: Seq<Seq<char>>, i: int) -> nat {
    byte_len(clusters.take(i).flatten())
}

/// Byte offset in the dense form at which kept cluster `k` starts. The number of
/// kept clusters gives the end of the dense form.
pub open spec fn dense_start(clusters: Seq<Seq<char>>, k: int) -> nat {
    byte_len(pieces(clusters).take(k).flatten())
}

/// How many kept clusters start before a byte offset in the text.
pub open spec fn kept_before(clusters: Seq<Seq<char>>, byte: nat) -> nat
    decreases clusters.len(),
{
    if clusters.len() == 0 {
        0
    } else {
        let before = kept_before(clusters.drop_last(), byte);
        if !dropped(clusters.last()) && cluster_start(clusters, clusters.len() - 1) < byte {
            before + 1
        } else {
            before
        }
    }
}

/// The text from kept cluster `start` up to and with kept cluster `end - 1`, all
/// that was dropped between them among it.
pub open spec fn text_between(clusters: Seq<Seq<char>>, start: int, end: int) -> Seq<char> {
    if start >= end || end > kept(clusters).len() {
        Seq::empty()
    } else {
        clusters.subrange(kept(clusters)[start], kept(clusters)[end - 1] + 1).flatten()
    }
}

/// The dense form of the kept clusters `start..end`.
pub open spec fn dense_between(clusters: Seq<Seq<char>>, start: int, end: int) -> Seq<char> {
    if start >= end || end > kept(clusters).len() {
        Seq::empty()
    } else {
        pieces(clusters).subrange(start, end).flatten()
    }
}

/// Whether a character carries no signal.
pub fn is_droppable(ch: char) -> (yes: bool)
    ensures
        yes == droppable(ch),
{
    if is_white_space(ch) || is_control(ch) {
        return true;
    }
    match ch {
        '`' | '*' | '_' | '~' | '#' => true,
        '•' | '·' | '›' | '‹' | '▌' | '⏺' | '↳' | '⎿' => true,
        '…' | '⋮' | '\u{FFFD}' => true,
        '\u{2500}'..='\u{259F}' => true,
        '\u{200B}'..='\u{200F}' | '\u{FEFF}' => true,
        _ => false,
    }
}

/// Whether every character of a cluster is dropped.
fn is_dropped(cluster: &str) -> (yes: bool)
    ensures
        yes == dropped(cluster@),
{
    for ch in it: cluster.chars()
        invariant
            it.seq() == cluster@,
            forall|i: int| 0 <= i < it.index() ==> droppable(#[trigger] cluster@[i]),
    {
        if !is_droppable(ch) {
            assert(!droppable(cluster@[it.index() as int]));
            return false;
        }
    }
    true
}

// Facts about kept clusters

/// Kept clusters are inside the text, in order, none of them is dropped, and
/// none that is not dropped is missing.
pub proof fn lemma_kept(clusters: Seq<Seq<char>>)
    ensures
        kept(clusters).len() <= clusters.len(),
        forall|k: int|
            0 <= k < kept(clusters).len() ==> 0 <= #[trigger] kept(clusters)[k] < clusters.len()
                && !dropped(clusters[kept(clusters)[k]]),
        forall|k: int, l: int|
            0 <= k < l < kept(clusters).len() ==> kept(clusters)[k] < kept(clusters)[l],
        forall|i: int|
            0 <= i < clusters.len() && !dropped(#[trigger] clusters[i]) ==> kept(clusters).contains(
                i,
            ),
    decreases clusters.len(),
{
    if clusters.len() > 0 {
        let init = clusters.drop_last();
        lemma_kept(init);
        assert forall|i: int|
            0 <= i < clusters.len() && !dropped(#[trigger] clusters[i]) implies kept(
            clusters,
        ).contains(i) by {
            if i < init.len() {
                assert(init[i] == clusters[i]);
                let k = choose|k: int| 0 <= k < kept(init).len() && kept(init)[k] == i;
                assert(kept(clusters)[k] == i);
            } else {
                assert(kept(clusters).last() == i);
            }
        }
    }
}

/// A kept cluster is never empty.
pub proof fn lemma_piece(clusters: Seq<Seq<char>>, k: int)
    requires
        0 <= k < kept(clusters).len(),
    ensures
        pieces(clusters)[k] == clusters[kept(clusters)[k]],
        pieces(clusters)[k].len() > 0,
{
    lemma_kept(clusters);
}

/// One more cluster adds itself to the kept ones, or nothing.
proof fn lemma_kept_push(clusters: Seq<Seq<char>>, cluster: Seq<char>)
    ensures
        kept(clusters.push(cluster)) == (if dropped(cluster) {
            kept(clusters)
        } else {
            kept(clusters).push(clusters.len() as int)
        }),
        pieces(clusters.push(cluster)) == (if dropped(cluster) {
            pieces(clusters)
        } else {
            pieces(clusters).push(cluster)
        }),
{
    let longer = clusters.push(cluster);
    assert(longer.drop_last() == clusters);
    lemma_kept(clusters);
}

/// A joined sequence may be cut in three.
pub proof fn lemma_flatten_parts(parts: Seq<Seq<char>>, from: int, to: int)
    requires
        0 <= from <= to <= parts.len(),
    ensures
        parts.flatten() == parts.take(from).flatten() + parts.subrange(from, to).flatten()
            + parts.skip(to).flatten(),
        parts.take(to).flatten() == parts.take(from).flatten() + parts.subrange(
            from,
            to,
        ).flatten(),
{
    assert(parts.take(to) == parts.take(from) + parts.subrange(from, to));
    lemma_flatten_concat(parts.take(from), parts.subrange(from, to));
    assert(parts == parts.take(to) + parts.skip(to));
    lemma_flatten_concat(parts.take(to), parts.skip(to));
}

/// Clusters start one after the other.
pub proof fn lemma_cluster_start(clusters: Seq<Seq<char>>, i: int, j: int)
    requires
        0 <= i <= j <= clusters.len(),
    ensures
        cluster_start(clusters, i) <= cluster_start(clusters, j),
        cluster_start(clusters, j) <= byte_len(clusters.flatten()),
{
    lemma_flatten_parts(clusters, i, j);
    lemma_encode_concat(clusters.take(i).flatten(), clusters.subrange(i, j).flatten());
    lemma_encode_concat(clusters.take(j).flatten(), clusters.skip(j).flatten());
}

/// In the dense form, kept clusters start at ever larger offsets.
pub proof fn lemma_dense_start(clusters: Seq<Seq<char>>, k: int, l: int)
    requires
        0 <= k < l <= kept(clusters).len(),
    ensures
        dense_start(clusters, k) < dense_start(clusters, l),
{
    let all = pieces(clusters);
    let between = all.subrange(k, l);
    lemma_flatten_parts(all, k, l);
    lemma_encode_concat(all.take(k).flatten(), between.flatten());
    lemma_piece(clusters, k);
    assert(between[0] == all[k]);
    assert(between.flatten() == between[0] + between.drop_first().flatten());
    lemma_byte_len_positive(between.flatten());
}

/// The count of kept clusters before an offset is where the sorted list of their
/// starts passes it.
proof fn lemma_kept_before(clusters: Seq<Seq<char>>, byte: nat, n: int)
    requires
        0 <= n <= kept(clusters).len(),
        forall|k: int|
            0 <= k < n ==> cluster_start(clusters, #[trigger] kept(clusters)[k]) < byte,
        forall|k: int|
            n <= k < kept(clusters).len() ==> cluster_start(clusters, #[trigger] kept(clusters)[k])
                >= byte,
    ensures
        kept_before(clusters, byte) == n,
    decreases clusters.len(),
{
    if clusters.len() > 0 {
        let init = clusters.drop_last();
        lemma_kept(clusters);
        lemma_kept(init);
        assert forall|i: int| 0 <= i <= init.len() implies #[trigger] cluster_start(clusters, i)
            == cluster_start(init, i) by {
            assert(clusters.take(i) == init.take(i));
        }
        assert forall|k: int| 0 <= k < kept(init).len() implies #[trigger] kept(init)[k] == kept(
            clusters,
        )[k] by {}
        if dropped(clusters.last()) || n < kept(clusters).len() {
            lemma_kept_before(init, byte, n);
        } else {
            lemma_kept_before(init, byte, n - 1);
        }
        if !dropped(clusters.last()) {
            assert(kept(clusters)[kept(clusters).len() - 1] == clusters.len() - 1);
        }
    }
}

/// A kept cluster is among those that start before an offset when it starts before
/// it.
pub proof fn lemma_counted_before(clusters: Seq<Seq<char>>, byte: nat, k: int)
    requires
        0 <= k < kept(clusters).len(),
    ensures
        k < kept_before(clusters, byte) <==> cluster_start(clusters, kept(clusters)[k]) < byte,
        kept_before(clusters, byte) <= kept(clusters).len(),
    decreases clusters.len(),
{
    let init = clusters.drop_last();
    let last = clusters.len() - 1;
    lemma_kept(clusters);
    lemma_cluster_start(clusters, kept(clusters)[k], last);
    assert(init.take(last) == clusters.take(last));
    if kept(init).len() == 0 {
        lemma_kept_before(init, byte, 0);
    } else {
        let j = if k < kept(init).len() {
            k
        } else {
            k - 1
        };
        lemma_counted_before(init, byte, j);
        lemma_kept(init);
        lemma_cluster_start(clusters, kept(clusters)[j], last);
        assert(init.take(kept(init)[j]) == clusters.take(kept(init)[j]));
    }
}

// Diff gutters

/// Blanks that may stand before the line number of a diff.
pub open spec fn indent(line: Seq<char>) -> nat {
    leading(line, |ch: char| ch == ' ' || ch == '\t')
}

/// The run of digits at the front of a text.
pub open spec fn digits(text: Seq<char>) -> nat {
    leading(text, |ch: char| ascii_digit(ch))
}

/// A line opens with the line number of a diff: blanks, digits, one space, and a
/// plus or minus sign.
pub open spec fn diff_row(line: Seq<char>) -> bool {
    let rest = line.skip(indent(line) as int);
    let n = digits(rest) as int;
    &&& n > 0
    &&& n + 1 < rest.len()
    &&& rest[n] == ' '
    &&& (rest[n + 1] == '+' || rest[n + 1] == '-')
}

/// A line without the digits of the diff gutter it opens with, if it does.
pub open spec fn without_diff_number(line: Seq<char>) -> Seq<char> {
    if diff_row(line) {
        let blank = indent(line) as int;
        line.take(blank) + line.skip(blank + digits(line.skip(blank)))
    } else {
        line
    }
}

/// A text without the digits of the diff gutters of its lines.
pub open spec fn without_diff_numbers(rendered: Seq<char>) -> Seq<char> {
    lines_inclusive(rendered).map_values(|line: Seq<char>| without_diff_number(line)).flatten()
}

/// Strip the line-number gutter Codex draws down the left of a diff.
///
/// The numbers belong to the renderer, not the file, so a selection taken from
/// a diff carries digits the transcript has no counterpart for:
///
/// ```text
///     187 +            if [ "$old_mode" != "$current_mode" ]; then
/// ```
///
/// Only `123 +` and `123 -` count as a gutter. A bare leading number is left
/// alone — it is far more likely to be content, and removing it would take the
/// number off the front of whatever came back.
pub fn strip_diff_line_numbers(rendered: &str) -> (plain: String)
    ensures
        plain@ == without_diff_numbers(rendered@),
{
    let chars = chars_of(rendered);
    let rows = line_bounds(&chars);
    let ghost all = lines_inclusive(rendered@);
    let ghost stripped = all.map_values(|line: Seq<char>| without_diff_number(line));
    let mut plain = String::new();
    let mut i: usize = 0;
    while i < rows.len()
        invariant
            i <= rows@.len(),
            all == lines_inclusive(chars@),
            bounds_match(chars@, all, rows@),
            stripped == all.map_values(|line: Seq<char>| without_diff_number(line)),
            plain@ == stripped.take(i as int).flatten(),
        decreases rows@.len() - i,
    {
        let (from, to) = rows[i];
        push_without_diff_number(&mut plain, &chars, from, to);
        proof {
            assert(stripped.take(i + 1) == stripped.take(i as int).push(stripped[i as int]));
            stripped.take(i as int).lemma_flatten_push(stripped[i as int]);
        }
        i = i + 1;
    }
    assert(stripped.take(rows@.len() as int) == stripped);
    plain
}

/// Append the line `from..to` without the digits of its diff gutter.
fn push_without_diff_number(plain: &mut String, chars: &Vec<char>, from: usize, to: usize)
    requires
        from <= to <= chars@.len(),
    ensures
        final(plain)@ == old(plain)@ + without_diff_number(
            chars@.subrange(from as int, to as int),
        ),
{
    let ghost line = chars@.subrange(from as int, to as int);
    let mut blank: usize = from;
    while blank < to && (chars[blank] == ' ' || chars[blank] == '\t')
        invariant
            from <= blank <= to <= chars@.len(),
            forall|i: int| from <= i < blank ==> chars@[i] == ' ' || chars@[i] == '\t',
        decreases to - blank,
    {
        blank = blank + 1;
    }
    let mut number: usize = blank;
    while number < to && is_ascii_digit(chars[number])
        invariant
            from <= blank <= number <= to <= chars@.len(),
            forall|i: int| blank <= i < number ==> ascii_digit(#[trigger] chars@[i]),
        decreases to - number,
    {
        number = number + 1;
    }
    let gutter = number > blank && to - number >= 2 && chars[number] == ' ' && (chars[number + 1]
        == '+' || chars[number + 1] == '-');
    push_chars(plain, chars, from, blank);
    push_chars(plain, chars, if gutter { number } else { blank }, to);
    proof {
        let rest = line.skip(blank - from);
        lemma_leading(line, |ch: char| ch == ' ' || ch == '\t', blank - from);
        assert forall|i: int| 0 <= i < number - blank implies ascii_digit(#[trigger] rest[i]) by {
            assert(rest[i] == chars@[blank + i]);
        }
        lemma_leading(rest, |ch: char| ascii_digit(ch), number - blank);
        assert(line.take(blank - from) == chars@.subrange(from as int, blank as int));
        assert(line.skip(number - from) == chars@.subrange(number as int, to as int));
        assert(line == line.take(blank - from) + chars@.subrange(blank as int, to as int));
    }
}

// The index

/// Text alongside its dense form and a grapheme-level map between the two.
pub struct DenseIndex {
    source: String,
    dense: String,
    /// For each kept cluster: where it starts in `dense`.
    dense_offsets: Vec<usize>,
    /// For each kept cluster: the byte range it occupies in `source`.
    source_starts: Vec<usize>,
    source_ends: Vec<usize>,
    /// The clusters of the text, the model of the index.
    clusters: Ghost<Seq<Seq<char>>>,
}

impl DenseIndex {
    /// The grapheme clusters of the text, in order.
    pub closed spec fn clusters(&self) -> Seq<Seq<char>> {
        self.clusters@
    }

    #[verifier::type_invariant]
    spec fn consistent(&self) -> bool {
        let clusters = self.clusters@;
        &&& self.source@ == clusters.flatten()
        &&& self.dense@ == dense_text(clusters)
        &&& offsets_match(
            clusters,
            clusters,
            self.dense_offsets@,
            self.source_starts@,
            self.source_ends@,
        )
    }

    /// Build from text as the terminal drew it, removing what the renderer put
    /// there. Use this for a selection; the transcript side wants [`build`].
    ///
    /// [`build`]: DenseIndex::build
    pub fn from_rendered(rendered: &str) -> (index: Self)
        ensures
            index.clusters() == graphemes(without_diff_numbers(rendered@)),
            index.clusters().flatten() == without_diff_numbers(rendered@),
    {
        let plain = strip_diff_line_numbers(rendered);
        Self::build(plain.as_str())
    }

    /// Build from text as it is stored.
    pub fn build(source: &str) -> (index: Self)
        ensures
            index.clusters() == graphemes(source@),
            index.clusters().flatten() == source@,
            line_feeds_stand_alone(index.clusters()),
    {
        let clusters = split_graphemes(source);
        Self::from_clusters(&clusters)
    }

    /// Build from a text that has been cut into grapheme clusters.
    pub fn from_clusters(clusters: &Vec<&str>) -> (index: Self)
        ensures
            index.clusters() == str_views(clusters@),
    {
        let ghost all = str_views(clusters@);
        let mut source = String::new();
        let mut dense = String::new();
        let mut dense_offsets: Vec<usize> = Vec::new();
        let mut source_starts: Vec<usize> = Vec::new();
        let mut source_ends: Vec<usize> = Vec::new();
        let mut start: usize = 0;
        let mut i: usize = 0;
        assert(all.take(0).flatten() == Seq::<char>::empty());
        while i < clusters.len()
            invariant
                i <= clusters@.len(),
                all == str_views(clusters@),
                source@ == all.take(i as int).flatten(),
                start == byte_len(source@),
                dense@ == dense_text(all.take(i as int)),
                offsets_match(
                    all.take(i as int),
                    all,
                    dense_offsets@,
                    source_starts@,
                    source_ends@,
                ),
            decreases clusters@.len() - i,
        {
            let ghost done = all.take(i as int);
            let cluster: &str = clusters[i];
            proof {
                assert(all.take(i + 1) == done.push(cluster@));
                done.lemma_flatten_push(cluster@);
                lemma_kept_push(done, cluster@);
                pieces(done).lemma_flatten_push(cluster@);
            }
            source.append(cluster);
            let end: usize = size_of_text(source.as_str());
            if !is_dropped(cluster) {
                let ghost before = (dense_offsets@, source_starts@, source_ends@);
                dense_offsets.push(size_of_text(dense.as_str()));
                source_starts.push(start);
                source_ends.push(end);
                dense.append(cluster);
                proof {
                    let more = done.push(cluster@);
                    let n = pieces(done).len() as int;
                    assert(pieces(more).take(n) == pieces(done));
                    assert forall|k: int| 0 <= k < n implies #[trigger] dense_start(more, k)
                        == dense_start(done, k) by {
                        assert(pieces(more).take(k) == pieces(done).take(k));
                    }
                }
            }
            start = end;
            i = i + 1;
        }
        assert(all.take(clusters@.len() as int) == all);
        DenseIndex {
            source,
            dense,
            dense_offsets,
            source_starts,
            source_ends,
            clusters: Ghost(all),
        }
    }

    /// The text itself.
    pub fn source(&self) -> (text: &str)
        ensures
            text@ == self.clusters().flatten(),
    {
        proof {
            use_type_invariant(self);
        }
        self.source.as_str()
    }

    /// The dense form of the text.
    pub fn dense(&self) -> (text: &str)
        ensures
            text@ == dense_text(self.clusters()),
    {
        proof {
            use_type_invariant(self);
        }
        self.dense.as_str()
    }

    /// Number of kept graphemes.
    pub fn len(&self) -> (n: usize)
        ensures
            n == kept(self.clusters()).len(),
    {
        proof {
            use_type_invariant(self);
        }
        self.dense_offsets.len()
    }

    /// Whether no grapheme is kept.
    pub fn is_empty(&self) -> (yes: bool)
        ensures
            yes == (kept(self.clusters()).len() == 0),
    {
        proof {
            use_type_invariant(self);
        }
        self.dense_offsets.len() == 0
    }

    /// Byte offset in the dense form where the given grapheme starts.
    pub fn dense_offset(&self, grapheme: usize) -> (offset: Option<usize>)
        ensures
            match offset {
                Some(at) => grapheme < kept(self.clusters()).len() && at == dense_start(
                    self.clusters(),
                    grapheme as int,
                ),
                None => grapheme >= kept(self.clusters()).len(),
            },
    {
        proof {
            use_type_invariant(self);
        }
        if grapheme < self.dense_offsets.len() {
            Some(self.dense_offsets[grapheme])
        } else {
            None
        }
    }

    /// Grapheme position of a byte offset in the dense form, or `None` if the
    /// offset falls inside a grapheme or past the end. Substring searches work on
    /// bytes and can land mid-grapheme, which must never be treated as a match.
    pub fn grapheme_at(&self, dense_byte: usize) -> (position: Option<usize>)
        ensures
            match position {
                Some(k) => k <= kept(self.clusters()).len() && dense_start(
                    self.clusters(),
                    k as int,
                ) == dense_byte,
                None => forall|k: int|
                    0 <= k <= kept(self.clusters()).len() ==> #[trigger] dense_start(
                        self.clusters(),
                        k,
                    ) != dense_byte,
            },
    {
        proof {
            use_type_invariant(self);
        }
        let ghost clusters = self.clusters@;
        let ghost all = pieces(clusters);
        let n: usize = self.dense_offsets.len();
        proof {
            assert(all.take(n as int) == all);
            assert forall|k: int, l: int| 0 <= k < l <= n implies #[trigger] dense_start(
                clusters,
                k,
            ) < #[trigger] dense_start(clusters, l) by {
                lemma_dense_start(clusters, k, l);
            }
        }
        if dense_byte == size_of_text(self.dense.as_str()) {
            return Some(n);
        }
        let mut low: usize = 0;
        let mut high: usize = n;
        while low < high
            invariant
                low <= high <= n == self.dense_offsets@.len() == kept(clusters).len(),
                forall|k: int|
                    0 <= k < n ==> #[trigger] self.dense_offsets@[k] == dense_start(clusters, k),
                forall|k: int, l: int|
                    0 <= k < l <= n ==> #[trigger] dense_start(clusters, k)
                        < #[trigger] dense_start(clusters, l),
                forall|k: int|
                    0 <= k < low ==> #[trigger] dense_start(clusters, k) < dense_byte,
                forall|k: int|
                    high <= k < n ==> #[trigger] dense_start(clusters, k) > dense_byte,
                dense_start(clusters, n as int) != dense_byte,
                clusters == self.clusters(),
            decreases high - low,
        {
            let middle: usize = low + (high - low) / 2;
            let offset: usize = self.dense_offsets[middle];
            assert(offset == dense_start(clusters, middle as int));
            if offset == dense_byte {
                return Some(middle);
            } else if offset < dense_byte {
                low = middle + 1;
            } else {
                high = middle;
            }
        }
        None
    }

    /// How many kept graphemes start before a byte offset in the text. Converts
    /// positions expressed in the untouched text into dense positions.
    pub fn graphemes_before(&self, source_byte: usize) -> (n: usize)
        ensures
            n == kept_before(self.clusters(), source_byte as nat),
            n <= kept(self.clusters()).len(),
    {
        proof {
            use_type_invariant(self);
        }
        let ghost clusters = self.clusters@;
        let ghost starts = self.source_starts@;
        proof {
            lemma_kept(clusters);
            assert forall|k: int, l: int| 0 <= k < l < starts.len() implies #[trigger] starts[k]
                <= #[trigger] starts[l] by {
                lemma_cluster_start(clusters, kept(clusters)[k], kept(clusters)[l]);
            }
        }
        let mut low: usize = 0;
        let mut high: usize = self.source_starts.len();
        while low < high
            invariant
                low <= high <= starts.len(),
                starts == self.source_starts@,
                forall|k: int, l: int|
                    0 <= k < l < starts.len() ==> #[trigger] starts[k] <= #[trigger] starts[l],
                forall|k: int| 0 <= k < low ==> #[trigger] starts[k] < source_byte,
                forall|k: int| high <= k < starts.len() ==> #[trigger] starts[k] >= source_byte,
            decreases high - low,
        {
            let middle: usize = low + (high - low) / 2;
            if self.source_starts[middle] < source_byte {
                low = middle + 1;
            } else {
                high = middle;
            }
        }
        proof {
            assert forall|k: int| 0 <= k < low implies cluster_start(
                clusters,
                #[trigger] kept(clusters)[k],
            ) < source_byte by {
                assert(starts[k] < source_byte);
            }
            assert forall|k: int| low <= k < kept(clusters).len() implies cluster_start(
                clusters,
                #[trigger] kept(clusters)[k],
            ) >= source_byte by {
                assert(starts[k] >= source_byte);
            }
            lemma_kept_before(clusters, source_byte as nat, low as int);
        }
        low
    }

    /// The text spanned by graphemes `start..end`, with any whitespace and
    /// markers that were dropped between them.
    pub fn slice(&self, start: usize, end: usize) -> (text: &str)
        ensures
            text@ == text_between(self.clusters(), start as int, end as int),
    {
        proof {
            use_type_invariant(self);
        }
        if start >= end || end > self.source_starts.len() {
            proof {
                reveal_strlit("");
            }
            return "";
        }
        let ghost clusters = self.clusters@;
        let ghost from = kept(clusters)[start as int];
        let ghost to = kept(clusters)[end - 1] + 1;
        proof {
            lemma_kept(clusters);
            if start < end - 1 {
                assert(from < kept(clusters)[end - 1]);
            }
            lemma_flatten_parts(clusters, from, to);
        }
        part(
            self.source.as_str(),
            self.source_starts[start],
            self.source_ends[end - 1],
            Ghost(clusters.take(from).flatten()),
            Ghost(clusters.subrange(from, to).flatten()),
            Ghost(clusters.skip(to).flatten()),
        )
    }

    /// The dense form of graphemes `start..end`.
    pub fn dense_slice(&self, start: usize, end: usize) -> (text: &str)
        ensures
            text@ == dense_between(self.clusters(), start as int, end as int),
    {
        proof {
            use_type_invariant(self);
        }
        if start >= end || end > self.dense_offsets.len() {
            proof {
                reveal_strlit("");
            }
            return "";
        }
        let from: usize = self.dense_offsets[start];
        let to: usize = if end < self.dense_offsets.len() {
            self.dense_offsets[end]
        } else {
            size_of_text(self.dense.as_str())
        };
        let ghost all = pieces(self.clusters@);
        proof {
            assert(all.take(all.len() as int) == all);
            lemma_flatten_parts(all, start as int, end as int);
        }
        part(
            self.dense.as_str(),
            from,
            to,
            Ghost(all.take(start as int).flatten()),
            Ghost(all.subrange(start as int, end as int).flatten()),
            Ghost(all.skip(end as int).flatten()),
        )
    }
}

impl Default for DenseIndex {
    fn default() -> (index: Self)
        ensures
            index.clusters() == Seq::<Seq<char>>::empty(),
    {
        let none: Vec<&str> = Vec::new();
        let index = DenseIndex::from_clusters(&none);
        assert(str_views(none@) == Seq::<Seq<char>>::empty());
        index
    }
}

impl Clone for DenseIndex {
    fn clone(&self) -> (copy: Self)
        ensures
            copy.clusters() == self.clusters(),
    {
        proof {
            use_type_invariant(self);
        }
        let dense_offsets = self.dense_offsets.clone();
        let source_starts = self.source_starts.clone();
        let source_ends = self.source_ends.clone();
        proof {
            assert(dense_offsets@ == self.dense_offsets@);
            assert(source_starts@ == self.source_starts@);
            assert(source_ends@ == self.source_ends@);
        }
        DenseIndex {
            source: self.source.clone(),
            dense: self.dense.clone(),
            dense_offsets,
            source_starts,
            source_ends,
            clusters: Ghost(self.clusters@),
        }
    }
}

/// The three offset lists of an index over `clusters`, the first part of `all`.
spec fn offsets_match(
    clusters: Seq<Seq<char>>,
    all: Seq<Seq<char>>,
    dense_offsets: Seq<usize>,
    source_starts: Seq<usize>,
    source_ends: Seq<usize>,
) -> bool {
    &&& dense_offsets.len() == kept(clusters).len()
    &&& source_starts.len() == kept(clusters).len()
    &&& source_ends.len() == kept(clusters).len()
    &&& forall|k: int|
        0 <= k < kept(clusters).len() ==> #[trigger] dense_offsets[k] == dense_start(clusters, k)
    &&& forall|k: int|
        0 <= k < kept(clusters).len() ==> #[trigger] source_starts[k] == cluster_start(
            all,
            kept(clusters)[k],
        )
    &&& forall|k: int|
        0 <= k < kept(clusters).len() ==> #[trigger] source_ends[k] == cluster_start(
            all,
            kept(clusters)[k] + 1,
        )
}

// Laws

/// What [`DenseIndex::slice`] returns is a contiguous part of the untouched text.
pub proof fn law_slice_is_part_of_the_text(clusters: Seq<Seq<char>>, start: int, end: int)
    requires
        0 <= start,
    ensures
        exists|front: Seq<char>, back: Seq<char>|
            clusters.flatten() == #[trigger] (front + text_between(clusters, start, end) + back),
{
    lemma_kept(clusters);
    if start >= end || end > kept(clusters).len() {
        assert(clusters.flatten() == Seq::empty() + text_between(clusters, start, end)
            + clusters.flatten());
    } else {
        let from = kept(clusters)[start];
        let to = kept(clusters)[end - 1] + 1;
        if start < end - 1 {
            assert(from < kept(clusters)[end - 1]);
        }
        lemma_flatten_parts(clusters, from, to);
        assert(clusters.flatten() == clusters.take(from).flatten() + text_between(
            clusters,
            start,
            end,
        ) + clusters.skip(to).flatten());
    }
}

/// Reducing a slice gives the dense slice: the clusters between two kept ones
/// have the dense form that lies between them.
pub proof fn law_slice_reduces_to_dense_slice(clusters: Seq<Seq<char>>, start: int, end: int)
    requires
        0 <= start < end <= kept(clusters).len(),
    ensures
        dense_text(clusters.subrange(kept(clusters)[start], kept(clusters)[end - 1] + 1))
            == dense_between(clusters, start, end),
    decreases clusters.len(),
{
    lemma_kept(clusters);
    let from = kept(clusters)[start];
    let last = kept(clusters)[end - 1];
    if start < end - 1 {
        assert(from < last);
    }
    lemma_kept_concat(clusters.take(from), clusters.subrange(from, last + 1));
    assert(clusters.take(from) + clusters.subrange(from, last + 1) == clusters.take(last + 1));
    lemma_kept_concat(clusters.take(last + 1), clusters.skip(last + 1));
    assert(clusters.take(last + 1) + clusters.skip(last + 1) == clusters);
    let front = kept(clusters.take(from));
    let middle = kept(clusters.subrange(from, last + 1));
    let whole = kept(clusters);
    lemma_kept(clusters.take(from));
    lemma_kept(clusters.subrange(from, last + 1));
    // The kept clusters before `from` are the first `start` ones.
    assert(front.len() == start) by {
        if front.len() > start {
            assert(front[start] == whole[start]);
        }
        if front.len() < start {
            let at = front.len() as int;
            assert(whole[at] < from);
            assert(clusters.take(from)[whole[at]] == clusters[whole[at]]);
            assert(front.contains(whole[at]));
            let k = choose|k: int| 0 <= k < front.len() && front[k] == whole[at];
            assert(whole[k] == whole[at]);
        }
    }
    assert(middle.len() == end - start) by {
        let n = middle.len() as int;
        if n > end - start {
            assert(whole[start + (end - start)] == middle[end - start] + from);
            assert(whole[end] > whole[end - 1]);
        }
        if n < end - start {
            let at = start + n;
            assert(from <= whole[at] <= last) by {
                if at > start {
                    assert(whole[start] < whole[at]);
                }
                if at < end - 1 {
                    assert(whole[at] < whole[end - 1]);
                }
            }
            let i = whole[at] - from;
            assert(clusters.subrange(from, last + 1)[i] == clusters[whole[at]]);
            assert(middle.contains(i));
            let k = choose|k: int| 0 <= k < middle.len() && middle[k] == i;
            assert(whole[start + k] == whole[at]);
        }
    }
    assert(pieces(clusters.subrange(from, last + 1)) == pieces(clusters).subrange(start, end)) by {
        assert forall|k: int| 0 <= k < end - start implies #[trigger] pieces(
            clusters.subrange(from, last + 1),
        )[k] == pieces(clusters).subrange(start, end)[k] by {
            assert(whole[start + k] == middle[k] + from);
        }
    }
}

/// The kept clusters of two texts in a row are those of the first, and behind
/// them those of the second.
proof fn lemma_kept_concat(a: Seq<Seq<char>>, b: Seq<Seq<char>>)
    ensures
        kept(a + b) == kept(a) + kept(b).map_values(|i: int| i + a.len()),
        pieces(a + b) == pieces(a) + pieces(b),
    decreases b.len(),
{
    if b.len() == 0 {
        assert(a + b == a);
    } else {
        let init = b.drop_last();
        lemma_kept_concat(a, init);
        assert((a + b).drop_last() == a + init);
    }
    lemma_kept(a);
    lemma_kept(b);
    assert(kept(a + b) == kept(a) + kept(b).map_values(|i: int| i + a.len()));
}

/// What the renderer adds does not matter: a cluster that is dropped, put in
/// anywhere or taken out, leaves the dense form as it is.
pub proof fn law_dropped_clusters_do_not_matter(
    before: Seq<Seq<char>>,
    cluster: Seq<char>,
    after: Seq<Seq<char>>,
)
    requires
        dropped(cluster),
    ensures
        dense_text(before.push(cluster) + after) == dense_text(before + after),
        kept(before.push(cluster) + after).len() == kept(before + after).len(),
{
    lemma_kept_push(before, cluster);
    lemma_kept_concat(before.push(cluster), after);
    lemma_kept_concat(before, after);
    assert(pieces(before.push(cluster) + after) == pieces(before + after));
}

/// Texts with a dropped cluster between them, such as a line feed, are reduced each
/// for itself: their dense forms and their lengths add up, and the kept clusters that
/// start before the second are those of the first.
pub proof fn law_a_dropped_cluster_keeps_texts_apart(
    before: Seq<Seq<char>>,
    cluster: Seq<char>,
    after: Seq<Seq<char>>,
)
    requires
        dropped(cluster),
    ensures
        dense_text(before.push(cluster) + after) == dense_text(before) + dense_text(after),
        kept(before.push(cluster) + after).len() == kept(before).len() + kept(after).len(),
        kept_before(
            before.push(cluster) + after,
            byte_len(before.push(cluster).flatten()),
        ) == kept(before).len(),
{
    let front = before.push(cluster);
    let whole = front + after;
    let byte = byte_len(front.flatten());
    let n = kept(before).len() as int;
    lemma_kept_push(before, cluster);
    lemma_kept_concat(front, after);
    lemma_flatten_concat(pieces(before), pieces(after));
    lemma_kept(before);
    lemma_kept(after);
    assert(whole.take(front.len() as int) == front);
    assert forall|k: int| 0 <= k < n implies cluster_start(whole, #[trigger] kept(whole)[k])
        < byte by {
        let i = kept(before)[k];
        assert(kept(whole)[k] == i);
        lemma_flatten_parts(whole, i, i + 1);
        assert(whole.subrange(i, i + 1) == seq![before[i]]);
        seq![before[i]].lemma_flatten_one_element();
        lemma_piece(before, k);
        lemma_encode_concat(whole.take(i).flatten(), before[i]);
        lemma_byte_len_positive(before[i]);
        lemma_cluster_start(whole, i + 1, front.len() as int);
    }
    assert forall|k: int| n <= k < kept(whole).len() implies cluster_start(
        whole,
        #[trigger] kept(whole)[k],
    ) >= byte by {
        assert(kept(whole)[k] == kept(after)[k - n] + front.len());
        lemma_cluster_start(whole, front.len() as int, kept(whole)[k]);
    }
    lemma_kept_before(whole, byte, n);
}

/// The count of kept clusters before an offset is zero at the start of the text, grows
/// with the offset, and comes to all of them at the end.
pub proof fn law_counts_grow_with_the_offset(clusters: Seq<Seq<char>>, byte: nat, more: nat)
    requires
        byte <= more,
    ensures
        kept_before(clusters, 0) == 0,
        kept_before(clusters, byte) <= kept_before(clusters, more) <= kept(clusters).len(),
        byte >= byte_len(clusters.flatten()) ==> kept_before(clusters, byte) == kept(
            clusters,
        ).len(),
    decreases clusters.len(),
{
    if clusters.len() > 0 {
        let init = clusters.drop_last();
        let last = clusters.len() - 1;
        law_counts_grow_with_the_offset(init, byte, more);
        assert(clusters.take(last) == init);
        assert(clusters == init.push(clusters.last()));
        init.lemma_flatten_push(clusters.last());
        lemma_encode_concat(init.flatten(), clusters.last());
        lemma_byte_len_positive(clusters.last());
    }
}

/// A text with no diff gutter comes back unchanged.
pub proof fn law_text_without_diff_rows_is_unchanged(rendered: Seq<char>)
    requires
        forall|i: int|
            0 <= i < lines_inclusive(rendered).len() ==> !diff_row(
                #[trigger] lines_inclusive(rendered)[i],
            ),
    ensures
        without_diff_numbers(rendered) == rendered,
{
    lemma_rows_join(rendered, '\n');
    assert(lines_inclusive(rendered).map_values(|line: Seq<char>| without_diff_number(line))
        == lines_inclusive(rendered));
}

/// Stripping diff gutters removes ASCII digits and nothing else.
pub proof fn law_only_digits_are_stripped(rendered: Seq<char>)
    ensures
        without_diff_numbers(rendered).filter(|ch: char| !ascii_digit(ch)) == rendered.filter(
            |ch: char| !ascii_digit(ch),
        ),
{
    lemma_rows_join(rendered, '\n');
    lemma_only_digits(lines_inclusive(rendered));
}

proof fn lemma_only_digits(rows: Seq<Seq<char>>)
    ensures
        rows.map_values(|line: Seq<char>| without_diff_number(line)).flatten().filter(
            |ch: char| !ascii_digit(ch),
        ) == rows.flatten().filter(|ch: char| !ascii_digit(ch)),
    decreases rows.len(),
{
    let strip = |line: Seq<char>| without_diff_number(line);
    let keep = |ch: char| !ascii_digit(ch);
    if rows.len() > 0 {
        let line = rows[0];
        let rest = rows.drop_first();
        lemma_only_digits(rest);
        assert(rows.map_values(strip).drop_first() == rest.map_values(strip));
        Seq::filter_distributes_over_add(
            without_diff_number(line),
            rest.map_values(strip).flatten(),
            keep,
        );
        Seq::filter_distributes_over_add(line, rest.flatten(), keep);
        if diff_row(line) {
            let blank = indent(line) as int;
            let tail = line.skip(blank);
            let n = digits(tail) as int;
            lemma_leading_bounds(line, |ch: char| ch == ' ' || ch == '\t');
            lemma_leading_bounds(tail, |ch: char| ascii_digit(ch));
            assert(line == line.take(blank) + tail.take(n) + line.skip(blank + n));
            Seq::filter_distributes_over_add(
                line.take(blank) + tail.take(n),
                line.skip(blank + n),
                keep,
            );
            Seq::filter_distributes_over_add(line.take(blank), tail.take(n), keep);
            Seq::filter_distributes_over_add(line.take(blank), line.skip(blank + n), keep);
            assert(tail.take(n).filter(keep) == Seq::<char>::empty()) by {
                lemma_filter_nothing(tail.take(n), keep);
            }
            assert(line.take(blank).filter(keep) + Seq::<char>::empty() == line.take(blank).filter(
                keep,
            ));
        }
    }
}

/// A code point that something readable was written with: it is no white space and no
/// control character, no backtick, asterisk, underscore, tilde or hash, no gutter or
/// bullet, no elision mark, no part of a frame and no zero-width mark.
pub open spec fn written(code: int) -> bool {
    &&& 0x21 <= code && !(0x7F <= code <= 0xA0)
    &&& code != 0x60 && code != 0x2A && code != 0x5F && code != 0x7E && code != 0x23
    &&& code != 0x1680 && !(0x2000 <= code <= 0x200F) && !(0x2028 <= code <= 0x2029)
    &&& code != 0x202F && code != 0x205F && code != 0x3000
    &&& code != 0x2022 && code != 0xB7 && code != 0x203A && code != 0x2039
    &&& code != 0x23FA && code != 0x21B3 && code != 0x23BF
    &&& code != 0x2026 && code != 0x22EE && code != 0xFFFD
    &&& !(0x2500 <= code <= 0x259F)
    &&& code != 0xFEFF
}

/// Whatever carries signal is compared: a cluster is kept exactly when something
/// readable stands anywhere in it.
pub proof fn law_what_was_written_is_kept(clusters: Seq<Seq<char>>, i: int)
    requires
        0 <= i < clusters.len(),
    ensures
        kept(clusters).contains(i) <==> exists|k: int|
            0 <= k < clusters[i].len() && written(#[trigger] clusters[i][k] as int),
{
    lemma_kept(clusters);
    let cluster = clusters[i];
    if !dropped(cluster) {
        let k = choose|k: int| 0 <= k < cluster.len() && !droppable(#[trigger] cluster[k]);
        assert(written(cluster[k] as int));
    }
    if exists|k: int| 0 <= k < cluster.len() && written(#[trigger] cluster[k] as int) {
        let k = choose|k: int| 0 <= k < cluster.len() && written(#[trigger] cluster[k] as int);
        assert(!droppable(cluster[k]));
        assert(!dropped(cluster));
    }
    if kept(clusters).contains(i) {
        let k = choose|k: int| 0 <= k < kept(clusters).len() && kept(clusters)[k] == i;
        assert(!dropped(clusters[kept(clusters)[k]]));
    }
}

/// Every printable ASCII character but the five Markdown markers, quotes and brackets
/// among them, keeps its cluster in the dense form.
pub proof fn law_printable_ascii_is_kept(clusters: Seq<Seq<char>>, i: int, k: int)
    requires
        0 <= i < clusters.len(),
        0 <= k < clusters[i].len(),
        '!' <= clusters[i][k] <= '}',
        clusters[i][k] != '#',
        clusters[i][k] != '*',
        clusters[i][k] != '_',
        clusters[i][k] != '`',
    ensures
        kept(clusters).contains(i),
{
    lemma_kept(clusters);
    assert(!droppable(clusters[i][k]));
}

/// A text between two readable clusters is sliced out with both of them.
pub proof fn law_a_slice_has_both_its_edges(clusters: Seq<Seq<char>>)
    requires
        clusters.len() > 0,
        exists|k: int| 0 <= k < clusters[0].len() && written(#[trigger] clusters[0][k] as int),
        exists|k: int|
            0 <= k < clusters.last().len() && written(#[trigger] clusters.last()[k] as int),
    ensures
        kept(clusters).len() > 0,
        text_between(clusters, 0, kept(clusters).len() as int) == clusters.flatten(),
{
    let last = clusters.len() - 1;
    let n = kept(clusters).len() as int;
    law_what_was_written_is_kept(clusters, 0);
    law_what_was_written_is_kept(clusters, last);
    lemma_kept(clusters);
    let a = choose|k: int| 0 <= k < n && kept(clusters)[k] == 0;
    let b = choose|k: int| 0 <= k < n && kept(clusters)[k] == last;
    if a > 0 {
        assert(kept(clusters)[0] < kept(clusters)[a]);
    }
    if b < n - 1 {
        assert(kept(clusters)[b] < kept(clusters)[n - 1]);
    }
    assert(clusters.subrange(0, last + 1) == clusters);
}

/// The number of a diff gutter goes, and nothing else: blanks before it, the space and
/// the sign behind it and the content stay.
pub proof fn law_a_diff_number_is_taken_off(
    blanks: Seq<char>,
    number: Seq<char>,
    sign: char,
    rest: Seq<char>,
)
    requires
        forall|i: int| 0 <= i < blanks.len() ==> #[trigger] blanks[i] == ' ' || blanks[i] == '\t',
        number.len() > 0,
        forall|i: int| 0 <= i < number.len() ==> '0' <= #[trigger] number[i] <= '9',
        sign == '+' || sign == '-',
        forall|i: int| 0 <= i < rest.len() - 1 ==> #[trigger] rest[i] != '\n',
    ensures
        without_diff_numbers(blanks + number + seq![' ', sign] + rest) == blanks + seq![' ', sign]
            + rest,
{
    let tail = seq![' ', sign] + rest;
    let line = blanks + number + seq![' ', sign] + rest;
    assert(line == blanks + (number + tail));
    lemma_diff_parts(blanks, number, tail);
    lemma_single_line_stripped(line);
    assert(line.take(blanks.len() as int) + line.skip((blanks.len() + number.len()) as int)
        == blanks + seq![' ', sign] + rest);
}

/// A line that does not open with digits, or whose digits are not followed by a space and
/// a sign, stays as it is.
pub proof fn law_other_numbers_stay(blanks: Seq<char>, number: Seq<char>, rest: Seq<char>)
    requires
        forall|i: int| 0 <= i < blanks.len() ==> #[trigger] blanks[i] == ' ' || blanks[i] == '\t',
        forall|i: int| 0 <= i < number.len() ==> '0' <= #[trigger] number[i] <= '9',
        rest.len() > 0 ==> !('0' <= rest[0] <= '9'),
        number.len() == 0 && rest.len() > 0 ==> rest[0] != ' ' && rest[0] != '\t',
        number.len() > 0 && rest.len() >= 2 && rest[0] == ' ' ==> rest[1] != '+' && rest[1] != '-',
        forall|i: int| 0 <= i < rest.len() - 1 ==> #[trigger] rest[i] != '\n',
    ensures
        without_diff_numbers(blanks + number + rest) == blanks + number + rest,
{
    let line = blanks + number + rest;
    assert(line == blanks + (number + rest));
    lemma_diff_parts(blanks, number, rest);
    if line.len() > 0 {
        lemma_single_line_stripped(line);
    } else {
        assert(without_diff_numbers(line) == line);
    }
}

/// Lines are stripped one by one, whatever stands before or behind them.
pub proof fn law_lines_are_stripped_one_by_one(front: Seq<char>, back: Seq<char>)
    ensures
        without_diff_numbers(front.push('\n') + back) == without_diff_numbers(front.push('\n'))
            + without_diff_numbers(back),
{
    let strip = |line: Seq<char>| without_diff_number(line);
    law_rows_begin_anew_behind_a_mark(front, '\n', back);
    let a = lines_inclusive(front.push('\n'));
    let b = lines_inclusive(back);
    assert((a + b).map_values(strip) == a.map_values(strip) + b.map_values(strip));
    lemma_flatten_concat(a.map_values(strip), b.map_values(strip));
}

/// The blanks and the digits that a line opens with.
proof fn lemma_diff_parts(blanks: Seq<char>, number: Seq<char>, tail: Seq<char>)
    requires
        forall|i: int| 0 <= i < blanks.len() ==> #[trigger] blanks[i] == ' ' || blanks[i] == '\t',
        forall|i: int| 0 <= i < number.len() ==> '0' <= #[trigger] number[i] <= '9',
        tail.len() > 0 ==> !('0' <= tail[0] <= '9'),
        number.len() == 0 && tail.len() > 0 ==> tail[0] != ' ' && tail[0] != '\t',
    ensures
        indent(blanks + (number + tail)) == blanks.len(),
        (blanks + (number + tail)).skip(blanks.len() as int) == number + tail,
        digits(number + tail) == number.len(),
        forall|i: int|
            0 <= i < tail.len() ==> (number + tail)[number.len() + i] == #[trigger] tail[i],
{
    let line = blanks + (number + tail);
    let n = blanks.len() as int;
    let space = |ch: char| ch == ' ' || ch == '\t';
    assert forall|i: int| 0 <= i < n implies space(#[trigger] line[i]) by {
        assert(line[i] == blanks[i]);
    }
    if n < line.len() {
        assert(line[n] == (number + tail)[0]);
        if number.len() > 0 {
            assert(line[n] == number[0]);
        } else {
            assert(line[n] == tail[0]);
        }
    }
    lemma_leading(line, space, n);
    assert(line.skip(n) == number + tail);
    let digit = |ch: char| ascii_digit(ch);
    assert forall|i: int| 0 <= i < number.len() implies digit(#[trigger] (number + tail)[i]) by {
        assert((number + tail)[i] == number[i]);
    }
    lemma_leading(number + tail, digit, number.len() as int);
}

/// A text of one line is stripped as that line.
proof fn lemma_single_line_stripped(line: Seq<char>)
    requires
        line.len() > 0,
        forall|i: int| 0 <= i < line.len() - 1 ==> #[trigger] line[i] != '\n',
    ensures
        without_diff_numbers(line) == without_diff_number(line),
{
    lemma_single_row(line, '\n');
    let stripped = lines_inclusive(line).map_values(|line: Seq<char>| without_diff_number(line));
    assert(stripped == seq![without_diff_number(line)]);
    seq![without_diff_number(line)].lemma_flatten_one_element();
}

/// A text whose first and last characters are readable is sliced out whole, however it is
/// cut into clusters.
pub proof fn law_a_readable_text_is_sliced_whole(clusters: Seq<Seq<char>>)
    requires
        clusters.flatten().len() > 0,
        written(clusters.flatten()[0] as int),
        written(clusters.flatten().last() as int),
    ensures
        kept(clusters).len() > 0,
        text_between(clusters, 0, kept(clusters).len() as int) == clusters.flatten(),
{
    let whole = clusters.flatten();
    let n = kept(clusters).len() as int;
    lemma_kept(clusters);
    let a = lemma_cluster_at(clusters, 0);
    let b = lemma_cluster_at(clusters, whole.len() - 1);
    assert(written(clusters[a][0 - clusters.take(a).flatten().len()] as int));
    law_what_was_written_is_kept(clusters, a);
    assert(written(
        clusters[b][whole.len() - 1 - clusters.take(b).flatten().len()] as int,
    ));
    law_what_was_written_is_kept(clusters, b);
    let i = choose|i: int| 0 <= i < n && kept(clusters)[i] == a;
    let j = choose|j: int| 0 <= j < n && kept(clusters)[j] == b;
    let from = kept(clusters)[0];
    let last = kept(clusters)[n - 1];
    if i > 0 {
        assert(from < a);
    }
    if j < n - 1 {
        assert(b < last);
    }
    if n > 1 {
        assert(from < last);
    }
    lemma_flatten_parts(clusters, from, last + 1);
    lemma_flatten_parts(clusters, from, a);
    lemma_flatten_parts(clusters, b + 1, last + 1);
    lemma_flatten_parts(clusters, b, b + 1);
    assert(clusters.subrange(b, b + 1) == seq![clusters[b]]);
    seq![clusters[b]].lemma_flatten_one_element();
    assert(clusters.take(a).flatten().len() == 0);
    assert(clusters.take(b + 1).flatten().len() == whole.len());
    assert(clusters.take(from).flatten().len() == 0);
    lemma_flatten_parts(clusters, b + 1, clusters.len() as int);
    assert(clusters.take(clusters.len() as int) == clusters);
    assert(clusters.skip(last + 1).flatten().len() == 0);
    assert(clusters.take(from).flatten() == Seq::<char>::empty());
    assert(clusters.skip(last + 1).flatten() == Seq::<char>::empty());
    assert(whole == clusters.subrange(from, last + 1).flatten());
}

/// The cluster that a character of the text stands in.
proof fn lemma_cluster_at(clusters: Seq<Seq<char>>, at: int) -> (i: int)
    requires
        0 <= at < clusters.flatten().len(),
    ensures
        0 <= i < clusters.len(),
        clusters.take(i).flatten().len() <= at < clusters.take(i).flatten().len()
            + clusters[i].len(),
        clusters[i][at - clusters.take(i).flatten().len()] == clusters.flatten()[at],
    decreases clusters.len(),
{
    if clusters.len() == 0 {
        assert(clusters == Seq::<Seq<char>>::empty());
        0
    } else {
        let init = clusters.drop_last();
        let last = clusters.len() - 1;
        assert(clusters == init.push(clusters.last()));
        init.lemma_flatten_push(clusters.last());
        assert(clusters.take(last) == init);
        if at < init.flatten().len() {
            let i = lemma_cluster_at(init, at);
            assert(clusters.take(i) == init.take(i));
            i
        } else {
            last
        }
    }
}

} // verus!
