//! Searching the dense form of a text for every place where a needle stands.

use vstd::prelude::*;
use vstd::slice::slice_subrange;
use vstd::utf8::encode_utf8;

use crate::bytes::{
    byte_len, lemma_byte_len_positive, lemma_encode_concat, lemma_encode_injective, size_of_text,
};
use crate::normalize::{
    dense_start, dense_text, kept, lemma_dense_start, lemma_flatten_parts, pieces, DenseIndex,
};

verus! {

/// `memchr::memmem::find` returns the first position at which the bytes of
/// `needle` stand in `haystack`, or `None` if they stand nowhere in it.
pub assume_specification[ memchr::memmem::find ](haystack: &[u8], needle: &[u8]) -> (at: Option<
    usize,
>)
    ensures
        match at {
            Some(i) => bytes_at(haystack@, needle@, i as int) && forall|j: int|
                0 <= j < i ==> !#[trigger] bytes_at(haystack@, needle@, j),
            None => forall|j: int| !#[trigger] bytes_at(haystack@, needle@, j),
        },
;

/// The bytes of `needle` stand in `haystack` at position `at`.
pub open spec fn bytes_at(haystack: Seq<u8>, needle: Seq<u8>, at: int) -> bool {
    &&& 0 <= at
    &&& at + needle.len() <= haystack.len()
    &&& haystack.subrange(at, at + needle.len()) == needle
}

// Occurrences

/// `needle` is what the parts `start..end` make when joined.
pub open spec fn occurs(parts: Seq<Seq<char>>, needle: Seq<char>, start: int, end: int) -> bool {
    0 <= start <= end <= parts.len() && parts.subrange(start, end).flatten() == needle
}

/// `needle` occurs from part `start` on.
pub open spec fn occurs_at(parts: Seq<Seq<char>>, needle: Seq<char>, start: int) -> bool {
    exists|end: int| occurs(parts, needle, start, end)
}

/// Where the occurrence of `needle` from part `start` on ends. With a needle and
/// parts that are not empty there is one such end at most.
pub open spec fn end_of(parts: Seq<Seq<char>>, needle: Seq<char>, start: int) -> int {
    choose|end: int| occurs(parts, needle, start, end)
}

/// The occurrences of `needle` that start before part `limit`, in order.
pub open spec fn hits_before(parts: Seq<Seq<char>>, needle: Seq<char>, limit: int) -> Seq<
    (int, int),
>
    decreases limit,
{
    if limit <= 0 {
        Seq::empty()
    } else {
        let before = hits_before(parts, needle, limit - 1);
        if occurs_at(parts, needle, limit - 1) {
            before.push((limit - 1, end_of(parts, needle, limit - 1)))
        } else {
            before
        }
    }
}

/// Every occurrence of `needle` as a range of parts, in order, overlapping ones
/// among them. An empty needle occurs nowhere.
pub open spec fn hits(parts: Seq<Seq<char>>, needle: Seq<char>) -> Seq<(int, int)> {
    if needle.len() == 0 {
        Seq::empty()
    } else {
        hits_before(parts, needle, parts.len() as int)
    }
}

/// Ranges as pairs of mathematical integers.
pub open spec fn ranges(found: Seq<(usize, usize)>) -> Seq<(int, int)> {
    found.map_values(|range: (usize, usize)| (range.0 as int, range.1 as int))
}

/// The bytes of a dense form between two kept clusters are those of the clusters
/// between them.
proof fn lemma_dense_bytes(clusters: Seq<Seq<char>>, start: int, end: int)
    requires
        0 <= start <= end <= kept(clusters).len(),
    ensures
        dense_start(clusters, start) <= dense_start(clusters, end) <= byte_len(
            dense_text(clusters),
        ),
        encode_utf8(dense_text(clusters)).subrange(
            dense_start(clusters, start) as int,
            dense_start(clusters, end) as int,
        ) == encode_utf8(pieces(clusters).subrange(start, end).flatten()),
{
    let all = pieces(clusters);
    lemma_flatten_parts(all, start, end);
    let front = all.take(start).flatten();
    let middle = all.subrange(start, end).flatten();
    let back = all.skip(end).flatten();
    lemma_encode_concat(front + middle, back);
    lemma_encode_concat(front, middle);
}

/// An occurrence as a range of kept clusters is a place in the dense form where
/// the bytes of the needle stand, from one cluster boundary to another.
proof fn lemma_occurs(clusters: Seq<Seq<char>>, needle: Seq<char>, start: int, end: int)
    requires
        0 <= start <= end <= kept(clusters).len(),
    ensures
        occurs(pieces(clusters), needle, start, end) <==> dense_start(clusters, end)
            == dense_start(clusters, start) + byte_len(needle) && bytes_at(
            encode_utf8(dense_text(clusters)),
            encode_utf8(needle),
            dense_start(clusters, start) as int,
        ),
{
    lemma_dense_bytes(clusters, start, end);
    let found = pieces(clusters).subrange(start, end).flatten();
    if encode_utf8(found) == encode_utf8(needle) {
        lemma_encode_injective(found, needle);
    }
}

/// Kept clusters are never empty, so a needle has one end for each start.
proof fn lemma_one_end(
    clusters: Seq<Seq<char>>,
    needle: Seq<char>,
    start: int,
    end: int,
    other: int,
)
    requires
        occurs(pieces(clusters), needle, start, end),
        occurs(pieces(clusters), needle, start, other),
    ensures
        end == other,
{
    lemma_occurs(clusters, needle, start, end);
    lemma_occurs(clusters, needle, start, other);
    if end < other {
        lemma_dense_start(clusters, end, other);
    }
    if other < end {
        lemma_dense_start(clusters, other, end);
    }
}

/// The occurrences among the first `limit` kept clusters that start before a
/// byte offset in the dense form.
spec fn hits_below(clusters: Seq<Seq<char>>, needle: Seq<char>, limit: int, byte: int) -> Seq<
    (int, int),
>
    decreases limit,
{
    if limit <= 0 {
        Seq::empty()
    } else {
        let before = hits_below(clusters, needle, limit - 1, byte);
        if dense_start(clusters, limit - 1) < byte && occurs_at(
            pieces(clusters),
            needle,
            limit - 1,
        ) {
            before.push((limit - 1, end_of(pieces(clusters), needle, limit - 1)))
        } else {
            before
        }
    }
}

/// Nothing starts below offset zero.
proof fn lemma_hits_below_zero(clusters: Seq<Seq<char>>, needle: Seq<char>, limit: int)
    ensures
        hits_below(clusters, needle, limit, 0) == Seq::<(int, int)>::empty(),
    decreases limit,
{
    if limit > 0 {
        lemma_hits_below_zero(clusters, needle, limit - 1);
    }
}

/// A stretch of offsets in which nothing starts may be skipped.
proof fn lemma_hits_skip(
    clusters: Seq<Seq<char>>,
    needle: Seq<char>,
    limit: int,
    from: int,
    to: int,
)
    requires
        limit <= kept(clusters).len(),
        from <= to,
        forall|k: int|
            0 <= k < limit && from <= #[trigger] dense_start(clusters, k) < to ==> !occurs_at(
                pieces(clusters),
                needle,
                k,
            ),
    ensures
        hits_below(clusters, needle, limit, from) == hits_below(clusters, needle, limit, to),
    decreases limit,
{
    if limit > 0 {
        lemma_hits_skip(clusters, needle, limit - 1, from, to);
    }
}

/// An occurrence at the offset that the search has reached comes last.
proof fn lemma_hits_step(
    clusters: Seq<Seq<char>>,
    needle: Seq<char>,
    limit: int,
    start: int,
    end: int,
)
    requires
        0 <= start < limit <= kept(clusters).len(),
        occurs(pieces(clusters), needle, start, end),
    ensures
        hits_below(clusters, needle, limit, dense_start(clusters, start) as int + 1) == hits_below(
            clusters,
            needle,
            limit,
            dense_start(clusters, start) as int,
        ).push((start, end)),
    decreases limit,
{
    let at = dense_start(clusters, start) as int;
    if limit - 1 == start {
        assert forall|k: int| 0 <= k < limit - 1 implies !(at <= #[trigger] dense_start(
            clusters,
            k,
        ) < at + 1) by {
            lemma_dense_start(clusters, k, start);
        }
        lemma_hits_skip(clusters, needle, limit - 1, at, at + 1);
        lemma_one_end(
            clusters,
            needle,
            start,
            end,
            end_of(pieces(clusters), needle, start),
        );
    } else {
        lemma_hits_step(clusters, needle, limit - 1, start, end);
        lemma_dense_start(clusters, start, limit - 1);
    }
}

/// All kept clusters start below the end of the dense form.
proof fn lemma_hits_all(clusters: Seq<Seq<char>>, needle: Seq<char>, limit: int, byte: int)
    requires
        limit <= kept(clusters).len(),
        forall|k: int| 0 <= k < limit ==> #[trigger] dense_start(clusters, k) < byte,
    ensures
        hits_below(clusters, needle, limit, byte) == hits_before(pieces(clusters), needle, limit),
    decreases limit,
{
    if limit > 0 {
        lemma_hits_all(clusters, needle, limit - 1, byte);
        assert(dense_start(clusters, limit - 1) < byte);
    }
}

/// Every position where `needle` occurs on grapheme boundaries, as grapheme
/// ranges into the index, in order.
///
/// Overlapping occurrences are all there: skipping them would both undercount
/// the candidates and hide the most recent occurrence, the one this library
/// deliberately prefers.
pub fn occurrences(index: &DenseIndex, needle: &str) -> (found: Vec<(usize, usize)>)
    ensures
        ranges(found@) == hits(pieces(index.clusters()), needle@),
{
    let mut found: Vec<(usize, usize)> = Vec::new();
    let size: usize = size_of_text(needle);
    proof {
        lemma_byte_len_positive(needle@);
    }
    if size == 0 {
        assert(ranges(found@) == Seq::<(int, int)>::empty());
        return found;
    }
    let hay = index.dense().as_bytes();
    let ghost clusters = index.clusters();
    let ghost n = kept(clusters).len() as int;
    let mut from: usize = 0;
    proof {
        lemma_hits_below_zero(clusters, needle@, n);
        assert(ranges(found@) == Seq::<(int, int)>::empty());
    }
    while from < hay.len()
        invariant
            from <= hay@.len(),
            hay@ == encode_utf8(dense_text(clusters)),
            clusters == index.clusters(),
            n == kept(clusters).len(),
            size == byte_len(needle@) > 0,
            ranges(found@) == hits_below(clusters, needle@, n, from as int),
        decreases hay@.len() - from,
    {
        match memchr::memmem::find(
            slice_subrange(hay, from, hay.len()),
            needle.as_bytes(),
        ) {
            None => {
                proof {
                    lemma_no_bytes(clusters, needle@, n, from as int, hay@.len() as int);
                    lemma_hits_skip(clusters, needle@, n, from as int, hay@.len() as int);
                }
                from = hay.len();
            },
            Some(offset) => {
                let at: usize = from + offset;
                let ghost tail = hay@.subrange(from as int, hay@.len() as int);
                proof {
                    assert(tail.subrange(offset as int, offset + size) == hay@.subrange(
                        at as int,
                        at + size,
                    ));
                    assert(bytes_at(hay@, encode_utf8(needle@), at as int));
                    lemma_no_bytes(clusters, needle@, n, from as int, at as int);
                    lemma_hits_skip(clusters, needle@, n, from as int, at as int);
                }
                // A byte offset can land inside a character; those are not matches.
                let start = index.grapheme_at(at);
                let end = index.grapheme_at(at + size);
                match (start, end) {
                    (Some(start), Some(end)) => {
                        proof {
                            if end < start {
                                lemma_dense_start(clusters, end as int, start as int);
                            }
                            lemma_occurs(clusters, needle@, start as int, end as int);
                            if start == n {
                                lemma_dense_bytes(clusters, 0, n);
                            }
                            lemma_hits_step(clusters, needle@, n, start as int, end as int);
                        }
                        found.push((start, end));
                    },
                    _ => {
                        proof {
                            assert forall|k: int|
                                0 <= k < n && at <= #[trigger] dense_start(clusters, k) < at
                                    + 1 implies !occurs_at(pieces(clusters), needle@, k) by {
                                if occurs_at(pieces(clusters), needle@, k) {
                                    let e = end_of(pieces(clusters), needle@, k);
                                    lemma_occurs(clusters, needle@, k, e);
                                    assert(dense_start(clusters, e) == at + size);
                                }
                            }
                            lemma_hits_skip(clusters, needle@, n, at as int, at + 1);
                        }
                    },
                }
                from = at + 1;
            },
        }
    }
    proof {
        assert forall|k: int| 0 <= k < n implies #[trigger] dense_start(clusters, k) < from by {
            lemma_dense_start(clusters, k, n);
            lemma_dense_bytes(clusters, k, n);
        }
        lemma_hits_all(clusters, needle@, n, from as int);
    }
    found
}

/// Where the bytes of a needle do not stand, it does not occur.
proof fn lemma_no_bytes(
    clusters: Seq<Seq<char>>,
    needle: Seq<char>,
    n: int,
    from: int,
    to: int,
)
    requires
        n == kept(clusters).len(),
        0 <= from <= to <= byte_len(dense_text(clusters)),
        forall|j: int|
            0 <= j < to - from ==> !#[trigger] bytes_at(
                encode_utf8(dense_text(clusters)).subrange(
                    from,
                    byte_len(dense_text(clusters)) as int,
                ),
                encode_utf8(needle),
                j,
            ),
    ensures
        forall|k: int|
            0 <= k < n && from <= #[trigger] dense_start(clusters, k) < to ==> !occurs_at(
                pieces(clusters),
                needle,
                k,
            ),
{
    let hay = encode_utf8(dense_text(clusters));
    let tail = hay.subrange(from, hay.len() as int);
    let bytes = encode_utf8(needle);
    assert forall|k: int|
        0 <= k < n && from <= #[trigger] dense_start(clusters, k) < to implies !occurs_at(
        pieces(clusters),
        needle,
        k,
    ) by {
        if occurs_at(pieces(clusters), needle, k) {
            let end = end_of(pieces(clusters), needle, k);
            lemma_occurs(clusters, needle, k, end);
            let at = dense_start(clusters, k) as int;
            assert(tail.subrange(at - from, at - from + bytes.len()) == hay.subrange(
                at,
                at + bytes.len(),
            ));
            assert(bytes_at(tail, bytes, at - from));
        }
    }
}

// Laws

/// Every reported occurrence is one.
pub proof fn law_hits_are_occurrences(clusters: Seq<Seq<char>>, needle: Seq<char>)
    ensures
        forall|i: int|
            0 <= i < hits(pieces(clusters), needle).len() ==> {
                let (start, end) = #[trigger] hits(pieces(clusters), needle)[i];
                start < end && occurs(pieces(clusters), needle, start, end)
            },
{
    if needle.len() > 0 {
        lemma_hits_before(clusters, needle, pieces(clusters).len() as int);
    }
}

/// Every occurrence is reported, those that overlap others among them.
pub proof fn law_every_occurrence_is_a_hit(
    clusters: Seq<Seq<char>>,
    needle: Seq<char>,
    start: int,
    end: int,
)
    requires
        needle.len() > 0,
        occurs(pieces(clusters), needle, start, end),
    ensures
        hits(pieces(clusters), needle).contains((start, end)),
{
    if start == end {
        assert(pieces(clusters).subrange(start, end).flatten() == Seq::<char>::empty());
    }
    lemma_hit(clusters, needle, pieces(clusters).len() as int, start, end);
}

/// Occurrences are reported once each, in the order in which they start.
pub proof fn law_hits_are_in_order(clusters: Seq<Seq<char>>, needle: Seq<char>)
    ensures
        forall|i: int, j: int|
            0 <= i < j < hits(pieces(clusters), needle).len() ==> (#[trigger] hits(
                pieces(clusters),
                needle,
            )[i]).0 < (#[trigger] hits(pieces(clusters), needle)[j]).0,
{
    if needle.len() > 0 {
        lemma_hits_before(clusters, needle, pieces(clusters).len() as int);
    }
}

proof fn lemma_hits_before(clusters: Seq<Seq<char>>, needle: Seq<char>, limit: int)
    requires
        needle.len() > 0,
        limit <= pieces(clusters).len(),
    ensures
        forall|i: int|
            0 <= i < hits_before(pieces(clusters), needle, limit).len() ==> {
                let (start, end) = #[trigger] hits_before(pieces(clusters), needle, limit)[i];
                start < limit && start < end && occurs(pieces(clusters), needle, start, end)
            },
        forall|i: int, j: int|
            0 <= i < j < hits_before(pieces(clusters), needle, limit).len() ==> (
            #[trigger] hits_before(pieces(clusters), needle, limit)[i]).0 < (#[trigger] hits_before(
                pieces(clusters),
                needle,
                limit,
            )[j]).0,
    decreases limit,
{
    if limit > 0 {
        lemma_hits_before(clusters, needle, limit - 1);
        let parts = pieces(clusters);
        let start = limit - 1;
        let shorter = hits_before(parts, needle, limit - 1);
        let longer = hits_before(parts, needle, limit);
        if occurs_at(parts, needle, start) {
            let end = end_of(parts, needle, start);
            if start == end {
                assert(parts.subrange(start, end).flatten() == Seq::<char>::empty());
            }
            assert(longer[shorter.len() as int] == (start, end));
        }
        assert forall|i: int| 0 <= i < shorter.len() implies #[trigger] longer[i] == shorter[i] by {}
    }
}

proof fn lemma_hit(
    clusters: Seq<Seq<char>>,
    needle: Seq<char>,
    limit: int,
    start: int,
    end: int,
)
    requires
        start < limit <= pieces(clusters).len(),
        occurs(pieces(clusters), needle, start, end),
    ensures
        hits_before(pieces(clusters), needle, limit).contains((start, end)),
    decreases limit,
{
    let parts = pieces(clusters);
    if limit - 1 == start {
        lemma_one_end(clusters, needle, start, end, end_of(parts, needle, start));
        assert(hits_before(parts, needle, limit).last() == (start, end));
    } else {
        lemma_hit(clusters, needle, limit - 1, start, end);
        let shorter = hits_before(parts, needle, limit - 1);
        let k = choose|k: int| 0 <= k < shorter.len() && shorter[k] == (start, end);
        assert(hits_before(parts, needle, limit)[k] == (start, end));
    }
}

} // verus!
