//! Choosing among the rollout files of the Codex home directory.
//!
//! Sessions live at `$CODEX_HOME/sessions/YYYY/MM/DD/rollout-<local-iso>-<uuid>.jsonl`
//! with older ones moved to `$CODEX_HOME/archived_sessions/`. File names embed a
//! zero-padded local timestamp, so sorting the directory and file names in
//! reverse lexical order is the same as sorting by start time and avoids
//! stat-ing several thousand files.
//!
//! The functions here take names as directories list them, in any order, and
//! answer with positions in those lists.

use vstd::prelude::*;
use vstd::string::StringExecFns;
use vstd::utf8::{encode_utf8, valid_utf8};

use crate::bytes::{decode, decoded, law_texts_read_back, same_bytes};
use crate::text::{chars_of, ends_with, starts_at};

verus! {

// The order of names

/// Byte strings in lexical order.
pub open spec fn bytes_at_most(a: Seq<u8>, b: Seq<u8>) -> bool
    decreases a.len(),
{
    if a.len() == 0 {
        true
    } else if b.len() == 0 {
        false
    } else if a[0] != b[0] {
        a[0] < b[0]
    } else {
        bytes_at_most(a.drop_first(), b.drop_first())
    }
}

/// Paths in lexical order of their components.
pub open spec fn path_at_most(a: Seq<Seq<u8>>, b: Seq<Seq<u8>>) -> bool
    decreases a.len(),
{
    if a.len() == 0 {
        true
    } else if b.len() == 0 {
        false
    } else if a[0] != b[0] {
        bytes_at_most(a[0], b[0])
    } else {
        path_at_most(a.drop_first(), b.drop_first())
    }
}

proof fn lemma_bytes_order(a: Seq<u8>, b: Seq<u8>, c: Seq<u8>)
    ensures
        bytes_at_most(a, b) || bytes_at_most(b, a),
        bytes_at_most(a, b) && bytes_at_most(b, a) ==> a == b,
        bytes_at_most(a, b) && bytes_at_most(b, c) ==> bytes_at_most(a, c),
    decreases a.len() + b.len() + c.len(),
{
    if a.len() > 0 && b.len() > 0 {
        let rest = if c.len() > 0 {
            c.drop_first()
        } else {
            c
        };
        lemma_bytes_order(a.drop_first(), b.drop_first(), rest);
        if a[0] == b[0] && a.drop_first() == b.drop_first() {
            assert(a == seq![a[0]] + a.drop_first());
            assert(b == seq![b[0]] + b.drop_first());
        }
    } else if a.len() == 0 && b.len() == 0 {
        assert(a == b);
    }
}

proof fn lemma_path_order(a: Seq<Seq<u8>>, b: Seq<Seq<u8>>, c: Seq<Seq<u8>>)
    ensures
        path_at_most(a, b) || path_at_most(b, a),
        path_at_most(a, b) && path_at_most(b, a) ==> a == b,
        path_at_most(a, b) && path_at_most(b, c) ==> path_at_most(a, c),
    decreases a.len() + b.len() + c.len(),
{
    if a.len() > 0 && b.len() > 0 {
        let rest = if c.len() > 0 {
            c.drop_first()
        } else {
            c
        };
        lemma_path_order(a.drop_first(), b.drop_first(), rest);
        if c.len() > 0 {
            lemma_bytes_order(a[0], b[0], c[0]);
            lemma_bytes_order(b[0], c[0], a[0]);
        }
        lemma_bytes_order(a[0], b[0], b[0]);
        if a[0] == b[0] && a.drop_first() == b.drop_first() {
            assert(a == seq![a[0]] + a.drop_first());
            assert(b == seq![b[0]] + b.drop_first());
        }
    } else if a.len() == 0 && b.len() == 0 {
        assert(a == b);
    }
}

/// Whether one byte string comes before another, or is the same.
fn is_at_most(a: &Vec<u8>, b: &Vec<u8>) -> (yes: bool)
    ensures
        yes == bytes_at_most(a@, b@),
{
    let mut i: usize = 0;
    assert(a@.skip(0) == a@ && b@.skip(0) == b@);
    while i < a.len()
        invariant
            i <= a@.len(),
            i <= b@.len(),
            bytes_at_most(a@, b@) == bytes_at_most(a@.skip(i as int), b@.skip(i as int)),
        decreases a@.len() - i,
    {
        if i >= b.len() {
            return false;
        }
        if a[i] != b[i] {
            return a[i] < b[i];
        }
        proof {
            assert(a@.skip(i as int).drop_first() == a@.skip(i + 1));
            assert(b@.skip(i as int).drop_first() == b@.skip(i + 1));
        }
        i = i + 1;
    }
    true
}

/// Whether two byte strings are the same.
fn is_same(a: &Vec<u8>, b: &Vec<u8>) -> (yes: bool)
    ensures
        yes == (a@ == b@),
{
    same_bytes(a.as_slice(), b.as_slice())
}

/// Whether one path comes before another, or is the same.
fn is_path_at_most(a: &Vec<Vec<u8>>, b: &Vec<Vec<u8>>) -> (yes: bool)
    ensures
        yes == path_at_most(a.deep_view(), b.deep_view()),
{
    let ghost x = a.deep_view();
    let ghost y = b.deep_view();
    let mut i: usize = 0;
    assert(x.skip(0) == x && y.skip(0) == y);
    while i < a.len()
        invariant
            i <= a@.len(),
            i <= b@.len(),
            x == a.deep_view(),
            y == b.deep_view(),
            path_at_most(x, y) == path_at_most(x.skip(i as int), y.skip(i as int)),
        decreases a@.len() - i,
    {
        if i >= b.len() {
            return false;
        }
        proof {
            assert(x[i as int] == a@[i as int]@);
            assert(y[i as int] == b@[i as int]@);
            assert(x.skip(i as int).drop_first() == x.skip(i + 1));
            assert(y.skip(i as int).drop_first() == y.skip(i + 1));
        }
        if !is_same(&a[i], &b[i]) {
            return is_at_most(&a[i], &b[i]);
        }
        i = i + 1;
    }
    true
}

// Newest first

/// One more path put where it belongs in a list that has the last ones in lexical
/// order first.
pub open spec fn placed(order: Seq<int>, paths: Seq<Seq<Seq<u8>>>, i: int) -> Seq<int>
    decreases order.len(),
{
    if order.len() == 0 {
        seq![i]
    } else if path_at_most(paths[i], paths[order.last()]) {
        order.push(i)
    } else {
        placed(order.drop_last(), paths, i).push(order.last())
    }
}

/// The candidates among the paths, the last ones in lexical order first. Of the
/// same path, the one listed first comes first.
pub open spec fn ranked(paths: Seq<Seq<Seq<u8>>>, candidates: Seq<int>) -> Seq<int>
    decreases candidates.len(),
{
    if candidates.len() == 0 {
        Seq::empty()
    } else {
        placed(ranked(paths, candidates.drop_last()), paths, candidates.last())
    }
}

/// A list that has the last ones in lexical order first.
pub open spec fn descending(paths: Seq<Seq<Seq<u8>>>, order: Seq<int>) -> bool {
    forall|i: int, j: int|
        0 <= i < j < order.len() ==> path_at_most(
            paths[#[trigger] order[j]],
            paths[#[trigger] order[i]],
        )
}

/// Positions as mathematical integers.
pub open spec fn positions(order: Seq<usize>) -> Seq<int> {
    order.map_values(|i: usize| i as int)
}

/// All positions of a list of the given length, in order.
pub open spec fn all_positions(len: nat) -> Seq<int> {
    Seq::new(len, |i: int| i)
}

/// A path goes behind the ones that it does not come after.
proof fn lemma_placed(order: Seq<int>, paths: Seq<Seq<Seq<u8>>>, i: int, at: int)
    requires
        0 <= at <= order.len(),
        forall|k: int| 0 <= k < at ==> path_at_most(paths[i], paths[#[trigger] order[k]]),
        forall|k: int|
            at <= k < order.len() ==> !path_at_most(paths[i], paths[#[trigger] order[k]]),
    ensures
        placed(order, paths, i) == order.insert(at, i),
    decreases order.len(),
{
    if order.len() > 0 {
        if at < order.len() {
            let init = order.drop_last();
            lemma_placed(init, paths, i, at);
            assert(init.insert(at, i).push(order.last()) == order.insert(at, i));
        } else {
            assert(path_at_most(paths[i], paths[order[order.len() - 1]]));
            assert(order.push(i) == order.insert(at, i));
        }
    } else {
        assert(seq![i] == order.insert(at, i));
    }
}

/// Putting a path in its place keeps a list in order.
proof fn lemma_placed_descending(order: Seq<int>, paths: Seq<Seq<Seq<u8>>>, i: int)
    requires
        descending(paths, order),
    ensures
        descending(paths, placed(order, paths, i)),
        placed(order, paths, i).to_multiset() == order.to_multiset().insert(i),
    decreases order.len(),
{
    broadcast use vstd::seq_lib::group_to_multiset_ensures;

    if order.len() == 0 {
        assert(seq![i] == order.push(i));
    } else if !path_at_most(paths[i], paths[order.last()]) {
        let init = order.drop_last();
        let rest = placed(init, paths, i);
        lemma_placed_descending(init, paths, i);
        assert(order == init.push(order.last()));
        assert(rest.push(order.last()).to_multiset() == rest.to_multiset().insert(order.last()));
        assert forall|k: int| 0 <= k < rest.len() implies path_at_most(
            paths[order.last()],
            paths[#[trigger] rest[k]],
        ) by {
            lemma_placed_members(init, paths, i, k);
            lemma_path_order(paths[order.last()], paths[i], paths[i]);
            if rest[k] != i {
                let j = choose|j: int| 0 <= j < init.len() && init[j] == rest[k];
                assert(order[j] == rest[k]);
                assert(order[order.len() - 1] == order.last());
            }
        }
    } else {
        assert forall|k: int| 0 <= k < order.len() implies path_at_most(
            paths[i],
            paths[#[trigger] order[k]],
        ) by {
            if k < order.len() - 1 {
                assert(path_at_most(paths[order[order.len() - 1]], paths[order[k]]));
                lemma_path_order(paths[i], paths[order.last()], paths[order[k]]);
            }
        }
    }
}

proof fn lemma_placed_members(order: Seq<int>, paths: Seq<Seq<Seq<u8>>>, i: int, k: int)
    requires
        0 <= k < placed(order, paths, i).len(),
    ensures
        placed(order, paths, i)[k] == i || order.contains(placed(order, paths, i)[k]),
    decreases order.len(),
{
    if order.len() > 0 {
        if path_at_most(paths[i], paths[order.last()]) {
            if k < order.len() {
                assert(order[k] == placed(order, paths, i)[k]);
            }
        } else {
            let init = order.drop_last();
            let rest = placed(init, paths, i);
            if k < rest.len() {
                lemma_placed_members(init, paths, i, k);
                if rest[k] != i {
                    let j = choose|j: int| 0 <= j < init.len() && init[j] == rest[k];
                    assert(order[j] == rest[k]);
                }
            } else {
                assert(order[order.len() - 1] == order.last());
            }
        }
    }
}

/// Ranking keeps every candidate, once, and puts the last in lexical order first.
pub proof fn law_ranking_sorts_the_candidates(paths: Seq<Seq<Seq<u8>>>, candidates: Seq<int>)
    ensures
        descending(paths, ranked(paths, candidates)),
        ranked(paths, candidates).to_multiset() == candidates.to_multiset(),
    decreases candidates.len(),
{
    broadcast use vstd::seq_lib::group_to_multiset_ensures;

    if candidates.len() > 0 {
        let init = candidates.drop_last();
        law_ranking_sorts_the_candidates(paths, init);
        lemma_placed_descending(ranked(paths, init), paths, candidates.last());
        assert(candidates == init.push(candidates.last()));
    } else {
        assert(candidates == Seq::<int>::empty());
    }
}

/// The candidates among the paths, the last ones in lexical order first.
fn newest_first(paths: &Vec<Vec<Vec<u8>>>, candidates: &Vec<usize>) -> (order: Vec<usize>)
    requires
        forall|k: int| 0 <= k < candidates@.len() ==> #[trigger] candidates@[k] < paths@.len(),
    ensures
        positions(order@) == ranked(paths.deep_view(), positions(candidates@)),
{
    let ghost keys = paths.deep_view();
    let ghost chosen = positions(candidates@);
    let mut order: Vec<usize> = Vec::new();
    let mut i: usize = 0;
    proof {
        assert(chosen.take(0) == Seq::<int>::empty());
        assert(positions(order@) == Seq::<int>::empty());
    }
    while i < candidates.len()
        invariant
            i <= candidates@.len(),
            keys == paths.deep_view(),
            chosen == positions(candidates@),
            forall|k: int| 0 <= k < candidates@.len() ==> #[trigger] candidates@[k] < paths@.len(),
            forall|k: int| 0 <= k < order@.len() ==> #[trigger] order@[k] < paths@.len(),
            positions(order@) == ranked(keys, chosen.take(i as int)),
        decreases candidates@.len() - i,
    {
        let candidate: usize = candidates[i];
        let ghost before = positions(order@);
        proof {
            assert(chosen.take(i + 1).drop_last() == chosen.take(i as int));
            assert(chosen.take(i + 1).last() == candidate);
            law_ranking_sorts_the_candidates(keys, chosen.take(i as int));
        }
        let mut low: usize = 0;
        let mut high: usize = order.len();
        while low < high
            invariant
                low <= high <= order@.len(),
                candidate < paths@.len(),
                keys == paths.deep_view(),
                before == positions(order@),
                descending(keys, before),
                forall|k: int| 0 <= k < order@.len() ==> #[trigger] order@[k] < paths@.len(),
                forall|k: int|
                    0 <= k < low ==> path_at_most(
                        keys[candidate as int],
                        keys[#[trigger] before[k]],
                    ),
                forall|k: int|
                    high <= k < before.len() ==> !path_at_most(
                        keys[candidate as int],
                        keys[#[trigger] before[k]],
                    ),
            decreases high - low,
        {
            let middle: usize = low + (high - low) / 2;
            let other: usize = order[middle];
            assert(before[middle as int] == other);
            if is_path_at_most(&paths[candidate], &paths[other]) {
                proof {
                    assert forall|k: int| 0 <= k < middle + 1 implies path_at_most(
                        keys[candidate as int],
                        keys[#[trigger] before[k]],
                    ) by {
                        if k < middle {
                            assert(path_at_most(keys[before[middle as int]], keys[before[k]]));
                            lemma_path_order(
                                keys[candidate as int],
                                keys[other as int],
                                keys[before[k]],
                            );
                        }
                    }
                }
                low = middle + 1;
            } else {
                proof {
                    assert forall|k: int| middle <= k < before.len() implies !path_at_most(
                        keys[candidate as int],
                        keys[#[trigger] before[k]],
                    ) by {
                        if k > middle && path_at_most(keys[candidate as int], keys[before[k]]) {
                            assert(path_at_most(keys[before[k]], keys[before[middle as int]]));
                            lemma_path_order(
                                keys[candidate as int],
                                keys[before[k]],
                                keys[other as int],
                            );
                        }
                    }
                }
                high = middle;
            }
        }
        proof {
            lemma_placed(before, keys, candidate as int, low as int);
        }
        order.insert(low, candidate);
        assert(positions(order@) == before.insert(low as int, candidate as int));
        i = i + 1;
    }
    assert(chosen.take(chosen.len() as int) == chosen);
    order
}

/// All positions of a list, in order.
fn every(len: usize) -> (all: Vec<usize>)
    ensures
        positions(all@) == all_positions(len as nat),
{
    let mut all: Vec<usize> = Vec::new();
    let mut i: usize = 0;
    while i < len
        invariant
            i <= len,
            all@.len() == i,
            forall|k: int| 0 <= k < i ==> #[trigger] all@[k] == k,
        decreases len - i,
    {
        all.push(i);
        i = i + 1;
    }
    all
}

/// The directories, given by the components of their paths, newest first.
pub fn sorted_dirs_desc(dirs: &Vec<Vec<Vec<u8>>>) -> (order: Vec<usize>)
    ensures
        positions(order@) == ranked(dirs.deep_view(), all_positions(dirs@.len())),
{
    let all = every(dirs.len());
    assert forall|k: int| 0 <= k < all@.len() implies #[trigger] all@[k] < dirs@.len() by {
        assert(positions(all@).len() == dirs@.len());
        assert(positions(all@)[k] == all_positions(dirs@.len())[k]);
    }
    newest_first(dirs, &all)
}

/// A directory that sessions are kept in.
#[derive(Debug, Clone, Copy, PartialEq, Eq, Structural)]
pub enum SessionDir {
    /// The day directory at this position of the list.
    Day(usize),
    /// The directory of archived sessions.
    Archived,
}

/// The position of a day directory, or `None` for the archived ones.
pub open spec fn dir_position(dir: SessionDir) -> Option<int> {
    match dir {
        SessionDir::Day(day) => Some(day as int),
        SessionDir::Archived => None,
    }
}

/// The day directories in order, and behind them the archived sessions if there
/// are any.
pub open spec fn dirs_in_order(order: Seq<int>, archived: bool) -> Seq<Option<int>> {
    let days = order.map_values(|day: int| Some(day));
    if archived {
        days.push(None)
    } else {
        days
    }
}

/// Every `sessions/YYYY/MM/DD` directory plus `archived_sessions`, newest first.
/// Day directories are given as year, month and day names.
pub fn session_dirs(days: &Vec<Vec<Vec<u8>>>, archived: bool) -> (dirs: Vec<SessionDir>)
    ensures
        dirs@.map_values(|dir: SessionDir| dir_position(dir)) == dirs_in_order(
            ranked(days.deep_view(), all_positions(days@.len())),
            archived,
        ),
{
    let order = sorted_dirs_desc(days);
    let mut dirs: Vec<SessionDir> = Vec::new();
    let mut i: usize = 0;
    while i < order.len()
        invariant
            i <= order@.len(),
            dirs@.len() == i,
            forall|k: int| 0 <= k < i ==> #[trigger] dirs@[k] == SessionDir::Day(order@[k]),
        decreases order@.len() - i,
    {
        dirs.push(SessionDir::Day(order[i]));
        i = i + 1;
    }
    if archived {
        dirs.push(SessionDir::Archived);
    }
    assert(dirs@.map_values(|dir: SessionDir| dir_position(dir)) == dirs_in_order(
        positions(order@),
        archived,
    ));
    dirs
}

// Rollout files

/// The name of a rollout file.
pub open spec fn rollout_name(name: Seq<u8>) -> bool {
    match decoded(name) {
        Some(text) => "rollout-"@.is_prefix_of(text) && ".jsonl"@.is_suffix_of(text),
        None => false,
    }
}

/// Names as paths of one component.
pub open spec fn single(names: Seq<Seq<u8>>) -> Seq<Seq<Seq<u8>>> {
    names.map_values(|name: Seq<u8>| seq![name])
}

/// Positions of the rollout files among the names, in order.
pub open spec fn rollouts(names: Seq<Seq<u8>>) -> Seq<int>
    decreases names.len(),
{
    if names.len() == 0 {
        Seq::empty()
    } else {
        let before = rollouts(names.drop_last());
        if rollout_name(names.last()) {
            before.push(names.len() - 1)
        } else {
            before
        }
    }
}

/// Positions of the rollout files among the names, newest first.
pub open spec fn files_in_order(names: Seq<Seq<u8>>) -> Seq<int> {
    ranked(single(names), rollouts(names))
}

/// Rollout files are found inside the list, and only they are.
pub proof fn lemma_rollouts(names: Seq<Seq<u8>>, k: int)
    requires
        0 <= k < rollouts(names).len(),
    ensures
        0 <= rollouts(names)[k] < names.len(),
        rollout_name(names[rollouts(names)[k]]),
    decreases names.len(),
{
    if names.len() > 0 && k < rollouts(names.drop_last()).len() {
        lemma_rollouts(names.drop_last(), k);
    }
}

/// Only rollout files are listed, and every one of them is.
pub proof fn law_files_in_order_are_the_rollouts(names: Seq<Seq<u8>>, i: int)
    ensures
        files_in_order(names).contains(i) <==> 0 <= i < names.len() && rollout_name(names[i]),
        descending(single(names), files_in_order(names)),
{
    broadcast use vstd::seq_lib::group_to_multiset_ensures;

    law_ranking_sorts_the_candidates(single(names), rollouts(names));
    let found = files_in_order(names);
    lemma_rollouts_contains(names, i);
    assert(found.contains(i) <==> found.to_multiset().count(i) > 0);
    assert(rollouts(names).contains(i) <==> rollouts(names).to_multiset().count(i) > 0);
}

proof fn lemma_rollouts_contains(names: Seq<Seq<u8>>, i: int)
    ensures
        rollouts(names).contains(i) <==> 0 <= i < names.len() && rollout_name(names[i]),
    decreases names.len(),
{
    if names.len() > 0 {
        let init = names.drop_last();
        lemma_rollouts_contains(init, i);
        let found = rollouts(names);
        if rollouts(init).contains(i) {
            let k = choose|k: int| 0 <= k < rollouts(init).len() && rollouts(init)[k] == i;
            assert(found[k] == i);
        }
        if i == names.len() - 1 && rollout_name(names.last()) {
            assert(found[found.len() - 1] == i);
        }
        if found.contains(i) {
            let k = choose|k: int| 0 <= k < found.len() && found[k] == i;
            lemma_rollouts(names, k);
        }
    }
}

/// Whether a name is that of a rollout file.
fn is_rollout_name(name: &Vec<u8>) -> (yes: bool)
    ensures
        yes == rollout_name(name@),
{
    match decode(name.as_slice()) {
        Some(text) => {
            let chars = chars_of(text);
            assert(chars@.skip(0) == text@);
            starts_at(&chars, 0, "rollout-") && ends_with(text, ".jsonl")
        },
        None => false,
    }
}

/// The rollout files among the names of a directory, newest first.
pub fn rollout_files(names: &Vec<Vec<u8>>) -> (files: Vec<usize>)
    ensures
        positions(files@) == files_in_order(names.deep_view()),
{
    let ghost all = names.deep_view();
    let mut paths: Vec<Vec<Vec<u8>>> = Vec::new();
    let mut candidates: Vec<usize> = Vec::new();
    let mut i: usize = 0;
    assert(all.take(0) == Seq::<Seq<u8>>::empty());
    assert(positions(candidates@) == Seq::<int>::empty());
    while i < names.len()
        invariant
            i <= names@.len(),
            all == names.deep_view(),
            positions(candidates@) == rollouts(all.take(i as int)),
            forall|k: int| 0 <= k < candidates@.len() ==> #[trigger] candidates@[k] < i,
            paths@.len() == i,
            forall|k: int|
                0 <= k < i ==> (#[trigger] paths@[k]).deep_view() == seq![all[k]],
        decreases names@.len() - i,
    {
        proof {
            assert(all.take(i + 1).drop_last() == all.take(i as int));
            assert(all.take(i + 1).last() == names@[i as int]@);
        }
        let mut path: Vec<Vec<u8>> = Vec::new();
        let name = names[i].clone();
        assert(name@ == names@[i as int]@);
        path.push(name);
        assert(path.deep_view() == seq![all[i as int]]);
        paths.push(path);
        if is_rollout_name(&names[i]) {
            let ghost before = positions(candidates@);
            candidates.push(i);
            assert(positions(candidates@) == before.push(i as int));
        }
        i = i + 1;
    }
    assert(all.take(all.len() as int) == all);
    assert(paths.deep_view() == single(all));
    newest_first(&paths, &candidates)
}

// Choosing sessions

/// A rollout file: the position of its directory, and its position there.
pub open spec fn pair(file: (usize, usize)) -> (int, int) {
    (file.0 as int, file.1 as int)
}

/// Every rollout file of a list of directories, in the order of the directories
/// and newest first in each.
pub open spec fn all_files(listing: Seq<Seq<Seq<u8>>>) -> Seq<(int, int)>
    decreases listing.len(),
{
    if listing.len() == 0 {
        Seq::empty()
    } else {
        all_files(listing.drop_last()) + files_in_order(listing.last()).map_values(
            |file: int| (listing.len() - 1, file),
        )
    }
}

/// The first `limit` items of a sequence, or all of them if there are fewer.
pub open spec fn first_few<A>(items: Seq<A>, limit: int) -> Seq<A> {
    if limit < items.len() {
        items.take(limit)
    } else {
        items
    }
}

/// Pairs of positions as mathematical integers.
pub open spec fn pairs(files: Seq<(usize, usize)>) -> Seq<(int, int)> {
    files.map_values(|file: (usize, usize)| pair(file))
}

/// Every rollout file of a list of directories, in order.
fn every_file(listing: &Vec<Vec<Vec<u8>>>) -> (files: Vec<(usize, usize)>)
    ensures
        pairs(files@) == all_files(listing.deep_view()),
{
    let ghost all = listing.deep_view();
    let mut files: Vec<(usize, usize)> = Vec::new();
    let mut d: usize = 0;
    assert(all.take(0) == Seq::<Seq<Seq<u8>>>::empty());
    assert(pairs(files@) == Seq::<(int, int)>::empty());
    while d < listing.len()
        invariant
            d <= listing@.len(),
            all == listing.deep_view(),
            pairs(files@) == all_files(all.take(d as int)),
        decreases listing@.len() - d,
    {
        let here = rollout_files(&listing[d]);
        let ghost before = pairs(files@);
        let ghost order = positions(here@);
        proof {
            assert(all.take(d + 1).drop_last() == all.take(d as int));
            assert(all.take(d + 1).last() == listing@[d as int].deep_view());
        }
        let mut i: usize = 0;
        assert(pairs(files@) == before + order.take(0).map_values(|file: int| (d as int, file)));
        while i < here.len()
            invariant
                i <= here@.len(),
                order == positions(here@),
                pairs(files@) == before + order.take(i as int).map_values(
                    |file: int| (d as int, file),
                ),
            decreases here@.len() - i,
        {
            let ghost so_far = pairs(files@);
            files.push((d, here[i]));
            proof {
                assert(pairs(files@) == so_far.push((d as int, here@[i as int] as int)));
                assert(order.take(i + 1) == order.take(i as int).push(order[i as int]));
                assert(order.take(i + 1).map_values(|file: int| (d as int, file)) == order.take(
                    i as int,
                ).map_values(|file: int| (d as int, file)).push((d as int, order[i as int])));
            }
            i = i + 1;
        }
        assert(order.take(order.len() as int) == order);
        d = d + 1;
    }
    assert(all.take(all.len() as int) == all);
    files
}

/// The `limit` most recently started sessions, newest first, of directories that
/// are themselves listed newest first.
pub fn recent(listing: &Vec<Vec<Vec<u8>>>, limit: usize) -> (files: Vec<(usize, usize)>)
    ensures
        pairs(files@) == first_few(all_files(listing.deep_view()), limit as int),
{
    let mut files = every_file(listing);
    if limit < files.len() {
        let ghost before = files@;
        files.truncate(limit);
        assert(pairs(files@) == pairs(before).take(limit as int));
    }
    files
}

/// The end of the name of the rollout file of a session.
pub open spec fn id_suffix(id: Seq<char>) -> Seq<char> {
    "-"@ + id + ".jsonl"@
}

/// A name ends with the given text.
pub open spec fn name_ends_with(name: Seq<u8>, suffix: Seq<char>) -> bool {
    match decoded(name) {
        Some(text) => suffix.is_suffix_of(text),
        None => false,
    }
}

/// The first of some rollout files whose name ends with the given text.
pub open spec fn first_ending(
    listing: Seq<Seq<Seq<u8>>>,
    files: Seq<(int, int)>,
    suffix: Seq<char>,
) -> Option<(int, int)>
    decreases files.len(),
{
    if files.len() == 0 {
        None
    } else {
        let (dir, file) = files[0];
        if name_ends_with(listing[dir][file], suffix) {
            Some((dir, file))
        } else {
            first_ending(listing, files.drop_first(), suffix)
        }
    }
}

/// The rollout file of a session: the first one whose name ends with its id.
pub open spec fn file_of(listing: Seq<Seq<Seq<u8>>>, id: Seq<char>) -> Option<(int, int)> {
    first_ending(listing, all_files(listing), id_suffix(id))
}

/// The view of an optional pair of positions.
pub open spec fn optional_pair(file: Option<(usize, usize)>) -> Option<(int, int)> {
    match file {
        Some(file) => Some(pair(file)),
        None => None,
    }
}

/// Every listed file is there.
pub proof fn lemma_all_files(listing: Seq<Seq<Seq<u8>>>, k: int)
    requires
        0 <= k < all_files(listing).len(),
    ensures
        ({
            let (dir, file) = all_files(listing)[k];
            &&& 0 <= dir < listing.len()
            &&& 0 <= file < listing[dir].len()
            &&& rollout_name(listing[dir][file])
        }),
    decreases listing.len(),
{
    if listing.len() > 0 {
        let before = all_files(listing.drop_last());
        if k < before.len() {
            lemma_all_files(listing.drop_last(), k);
        } else {
            let order = files_in_order(listing.last());
            let i = k - before.len();
            assert(all_files(listing)[k] == (listing.len() - 1, order[i]));
            assert(order.contains(order[i]));
            law_files_in_order_are_the_rollouts(listing.last(), order[i]);
        }
    }
}

/// Find the rollout file whose name ends with `-<id>.jsonl`: the first one that does
/// of all recent sessions.
pub fn find_by_id(listing: &Vec<Vec<Vec<u8>>>, id: &str) -> (file: Option<(usize, usize)>)
    ensures
        optional_pair(file) == file_of(listing.deep_view(), id@),
        optional_pair(file) == first_ending(
            listing.deep_view(),
            first_few(all_files(listing.deep_view()), usize::MAX as int),
            id_suffix(id@),
        ),
{
    let mut suffix = String::new();
    suffix.append("-");
    suffix.append(id);
    suffix.append(".jsonl");
    let files = every_file(listing);
    let ghost all = pairs(files@);
    let ghost names = listing.deep_view();
    assert(suffix@ == id_suffix(id@));
    assert(all.len() == files.len());
    let mut i: usize = 0;
    assert(all.skip(0) == all);
    while i < files.len()
        invariant
            i <= files@.len(),
            all == pairs(files@),
            all == all_files(names),
            names == listing.deep_view(),
            first_ending(names, all, suffix@) == first_ending(
                names,
                all.skip(i as int),
                suffix@,
            ),
            suffix@ == id_suffix(id@),
            first_few(all, usize::MAX as int) == all,
        decreases files@.len() - i,
    {
        let (dir, file) = files[i];
        proof {
            lemma_all_files(names, i as int);
            assert(all[i as int] == (dir as int, file as int));
            assert(all.skip(i as int)[0] == all[i as int]);
            assert(all.skip(i as int).drop_first() == all.skip(i + 1));
            assert(names[dir as int] == listing@[dir as int].deep_view());
            assert(names[dir as int][file as int] == listing@[dir as int]@[file as int]@);
        }
        let ending = match decode(listing[dir][file].as_slice()) {
            Some(text) => ends_with(text, suffix.as_str()),
            None => false,
        };
        if ending {
            return Some((dir, file));
        }
        i = i + 1;
    }
    None
}

/// The `limit` most recently started sessions, of directories that are read one after
/// the other, newest first, as soon as those read so far settle which they are. Until
/// that, and while directories are left, one more has to be read.
pub fn recent_if_settled(
    listing: &Vec<Vec<Vec<u8>>>,
    limit: usize,
    all_read: bool,
) -> (files: Option<Vec<(usize, usize)>>)
    ensures
        match files {
            Some(files) => {
                &&& all_read || limit <= all_files(listing.deep_view()).len()
                &&& pairs(files@) == first_few(all_files(listing.deep_view()), limit as int)
                &&& !all_read ==> forall|more: Seq<Seq<Seq<u8>>>|
                    pairs(files@) == first_few(
                        #[trigger] all_files(listing.deep_view() + more),
                        limit as int,
                    )
            },
            None => !all_read && limit > all_files(listing.deep_view()).len(),
        },
{
    let files = recent(listing, limit);
    assert(pairs(files@).len() == files.len());
    if !all_read && files.len() < limit {
        return None;
    }
    proof {
        if !all_read {
            assert forall|more: Seq<Seq<Seq<u8>>>| pairs(files@) == first_few(
                #[trigger] all_files(listing.deep_view() + more),
                limit as int,
            ) by {
                law_recent_needs_no_more_directories(listing.deep_view(), more, limit as int);
            }
        }
    }
    Some(files)
}

/// The rollout file of a session, or that there is none, of directories that are read
/// one after the other, as soon as those read so far settle it. Until that, and while
/// directories are left, one more has to be read.
pub fn find_if_settled(
    listing: &Vec<Vec<Vec<u8>>>,
    id: &str,
    all_read: bool,
) -> (file: Option<Option<(usize, usize)>>)
    ensures
        match file {
            Some(file) => {
                &&& all_read || file is Some
                &&& optional_pair(file) == file_of(listing.deep_view(), id@)
                &&& !all_read ==> forall|more: Seq<Seq<Seq<u8>>>|
                    optional_pair(file) == #[trigger] file_of(listing.deep_view() + more, id@)
            },
            None => !all_read && file_of(listing.deep_view(), id@) is None,
        },
{
    let file = find_by_id(listing, id);
    if !all_read && file.is_none() {
        return None;
    }
    proof {
        if !all_read {
            assert forall|more: Seq<Seq<Seq<u8>>>|
                optional_pair(file) == #[trigger] file_of(listing.deep_view() + more, id@) by {
                law_a_found_session_stays_found(listing.deep_view(), more, id@);
            }
        }
    }
    Some(file)
}

/// What a session argument stands for.
#[derive(Debug, Clone, Copy, PartialEq, Eq, Structural)]
pub enum SessionRef {
    /// The argument is itself the path of a file.
    Path,
    /// The rollout file at these positions.
    Listed(usize, usize),
}

/// A session argument that stands for nothing.
#[derive(Debug)]
pub struct UnknownSession {
    pub reference: String,
}

impl UnknownSession {
    /// The error in words, given the directory that was searched.
    pub fn message(&self, home: &str) -> (text: String)
        ensures
            text@ == "no rollout file found for session `"@ + self.reference@ + "` under "@ + home@,
    {
        let mut text = String::new();
        text.append("no rollout file found for session `");
        text.append(self.reference.as_str());
        text.append("` under ");
        text.append(home);
        text
    }
}

/// Resolve a `--session` argument, which is either a path to a rollout file or a
/// session UUID.
pub fn resolve_session_ref(
    is_file: bool,
    listing: &Vec<Vec<Vec<u8>>>,
    reference: &str,
) -> (found: Result<SessionRef, UnknownSession>)
    ensures
        match found {
            Ok(SessionRef::Path) => is_file,
            Ok(SessionRef::Listed(dir, file)) => !is_file && file_of(
                listing.deep_view(),
                reference@,
            ) == Some((dir as int, file as int)),
            Err(error) => !is_file && file_of(listing.deep_view(), reference@) is None
                && error.reference@ == reference@,
        },
{
    if is_file {
        return Ok(SessionRef::Path);
    }
    match find_by_id(listing, reference) {
        Some((dir, file)) => Ok(SessionRef::Listed(dir, file)),
        None => Err(UnknownSession { reference: reference.to_string() }),
    }
}

// Laws

/// Directories further down the list only add files behind those of the ones
/// before them.
proof fn lemma_all_files_prefix(listing: Seq<Seq<Seq<u8>>>, more: Seq<Seq<Seq<u8>>>)
    ensures
        all_files(listing).is_prefix_of(all_files(listing + more)),
    decreases more.len(),
{
    if more.len() == 0 {
        assert(listing + more == listing);
        assert(all_files(listing).is_prefix_of(all_files(listing)));
    } else {
        lemma_all_files_prefix(listing, more.drop_last());
        assert((listing + more).drop_last() == listing + more.drop_last());
    }
}

/// Reading may stop early: once `limit` sessions have been found, directories
/// further down the list change nothing.
pub proof fn law_recent_needs_no_more_directories(
    listing: Seq<Seq<Seq<u8>>>,
    more: Seq<Seq<Seq<u8>>>,
    limit: int,
)
    requires
        0 <= limit <= all_files(listing).len(),
    ensures
        first_few(all_files(listing + more), limit) == first_few(all_files(listing), limit),
{
    lemma_all_files_prefix(listing, more);
    assert(all_files(listing + more).take(limit) == all_files(listing).take(limit));
    assert(all_files(listing).take(all_files(listing).len() as int) == all_files(listing));
    assert(all_files(listing + more).take(all_files(listing + more).len() as int) == all_files(
        listing + more,
    ));
}

/// A smaller limit gives the first sessions of a larger one.
pub proof fn law_a_smaller_limit_gives_a_prefix(
    listing: Seq<Seq<Seq<u8>>>,
    limit: int,
    more: int,
)
    requires
        0 <= limit <= more,
    ensures
        first_few(all_files(listing), limit).is_prefix_of(first_few(all_files(listing), more)),
{
}

/// The paths of directories that are listed newest first, each once.
pub open spec fn newest_dirs_first(dirs: Seq<Seq<Seq<u8>>>) -> bool {
    forall|i: int, j: int|
        0 <= i < j < dirs.len() ==> path_at_most(#[trigger] dirs[j], #[trigger] dirs[i]) && dirs[i]
            != dirs[j]
}

/// The path of a session directory: year, month and day. The archived sessions have
/// the empty path, and so count as older than every day.
pub open spec fn dir_path(days: Seq<Seq<Seq<u8>>>, dir: Option<int>) -> Seq<Seq<u8>> {
    match dir {
        Some(day) => days[day],
        None => Seq::empty(),
    }
}

/// Session directories are listed newest first, each once.
pub proof fn law_session_dirs_are_newest_first(days: Seq<Seq<Seq<u8>>>, archived: bool)
    requires
        days.no_duplicates(),
        forall|i: int| 0 <= i < days.len() ==> (#[trigger] days[i]).len() > 0,
    ensures
        newest_dirs_first(
            dirs_in_order(ranked(days, all_positions(days.len())), archived).map_values(
                |dir: Option<int>| dir_path(days, dir),
            ),
        ),
{
    let all = all_positions(days.len());
    let order = ranked(days, all);
    law_ranking_sorts_the_candidates(days, all);
    lemma_same_items(all, order);
    let paths = dirs_in_order(order, archived).map_values(
        |dir: Option<int>| dir_path(days, dir),
    );
    assert forall|i: int, j: int| 0 <= i < j < paths.len() implies path_at_most(
        #[trigger] paths[j],
        #[trigger] paths[i],
    ) && paths[i] != paths[j] by {
        assert(paths[i] == days[order[i]]);
        assert(all.contains(order[i]));
        if j < order.len() {
            assert(paths[j] == days[order[j]]);
            assert(all.contains(order[j]));
        }
    }
}

/// What is counted the same holds the same, and each item once if the other does.
proof fn lemma_same_items(all: Seq<int>, order: Seq<int>)
    requires
        all.no_duplicates(),
        order.to_multiset() == all.to_multiset(),
    ensures
        order.no_duplicates(),
        order.len() == all.len(),
        forall|k: int| 0 <= k < order.len() ==> all.contains(#[trigger] order[k]),
{
    broadcast use vstd::seq_lib::group_to_multiset_ensures;

    all.lemma_multiset_has_no_duplicates();
    assert(all.to_multiset().len() == all.len());
    assert(order.to_multiset().len() == order.len());
    order.lemma_multiset_has_no_duplicates_conv();
    assert forall|k: int| 0 <= k < order.len() implies all.contains(#[trigger] order[k]) by {
        assert(order.contains(order[k]));
        assert(order.to_multiset().count(order[k]) > 0);
    }
}

/// A rollout file is no newer than another: its directory is older, or the same and
/// its name does not come after the other one in lexical order.
pub open spec fn no_newer(
    dirs: Seq<Seq<Seq<u8>>>,
    listing: Seq<Seq<Seq<u8>>>,
    file: (int, int),
    other: (int, int),
) -> bool {
    &&& path_at_most(dirs[file.0], dirs[other.0])
    &&& dirs[file.0] == dirs[other.0] ==> bytes_at_most(
        listing[file.0][file.1],
        listing[other.0][other.1],
    )
}

/// A rollout file is listed.
pub open spec fn is_listed(listing: Seq<Seq<Seq<u8>>>, file: (int, int)) -> bool {
    &&& 0 <= file.0 < listing.len()
    &&& 0 <= file.1 < listing[file.0].len()
    &&& rollout_name(listing[file.0][file.1])
}

/// Of directories that are listed newest first, the most recent sessions come newest
/// first and each once, and one that is left out is no newer than any of them, nor is
/// any left out below the limit.
pub proof fn law_recent_sessions_are_the_newest(
    dirs: Seq<Seq<Seq<u8>>>,
    listing: Seq<Seq<Seq<u8>>>,
    limit: int,
)
    requires
        dirs.len() == listing.len(),
        newest_dirs_first(dirs),
        0 <= limit,
    ensures
        ({
            let files = first_few(all_files(listing), limit);
            &&& files.no_duplicates()
            &&& forall|i: int| 0 <= i < files.len() ==> is_listed(listing, #[trigger] files[i])
            &&& forall|i: int, j: int|
                0 <= i < j < files.len() ==> no_newer(
                    dirs,
                    listing,
                    #[trigger] files[j],
                    #[trigger] files[i],
                )
            &&& forall|file: (int, int)| #[trigger]
                is_listed(listing, file) && !files.contains(file) ==> files.len() == limit && forall|
                    i: int,
                |
                    0 <= i < files.len() ==> no_newer(dirs, listing, file, #[trigger] files[i])
        }),
{
    let all = all_files(listing);
    let files = first_few(all, limit);
    assert forall|i: int, j: int| 0 <= i < j < all.len() implies #[trigger] all[i]
        != #[trigger] all[j] && no_newer(dirs, listing, all[j], all[i]) by {
        lemma_files_in_turn(listing, i, j);
        lemma_all_files(listing, i);
        lemma_all_files(listing, j);
        lemma_path_order(dirs[all[i].0], dirs[all[i].0], dirs[all[i].0]);
    }
    assert forall|i: int| 0 <= i < files.len() implies is_listed(listing, #[trigger] files[i]) by {
        lemma_all_files(listing, i);
    }
    assert forall|file: (int, int)| #[trigger]
        is_listed(listing, file) && !files.contains(file) implies files.len() == limit && forall|
        i: int,
    | 0 <= i < files.len() ==> no_newer(dirs, listing, file, #[trigger] files[i]) by {
        let k = lemma_every_file(listing, file);
        if k < files.len() {
            assert(files[k] == file);
        }
        assert forall|i: int| 0 <= i < files.len() implies no_newer(
            dirs,
            listing,
            file,
            #[trigger] files[i],
        ) by {
            assert(files[i] == all[i]);
            assert(no_newer(dirs, listing, all[k], all[i]));
        }
    }
}

/// Files are listed by directory, and the names in each in reverse lexical order.
proof fn lemma_files_in_turn(listing: Seq<Seq<Seq<u8>>>, i: int, j: int)
    requires
        0 <= i < j < all_files(listing).len(),
    ensures
        ({
            let (dir, file) = all_files(listing)[i];
            let (later_dir, later_file) = all_files(listing)[j];
            ||| dir < later_dir
            ||| dir == later_dir && file != later_file && bytes_at_most(
                listing[later_dir][later_file],
                listing[dir][file],
            )
        }),
    decreases listing.len(),
{
    let init = listing.drop_last();
    let before = all_files(init);
    if j < before.len() {
        lemma_files_in_turn(init, i, j);
        lemma_all_files(init, i);
    } else {
        let names = listing.last();
        let order = files_in_order(names);
        let n = before.len() as int;
        assert(all_files(listing)[j] == (listing.len() - 1, order[j - n]));
        if i < n {
            assert(all_files(listing)[i] == before[i]);
            lemma_all_files(init, i);
        } else {
            assert(all_files(listing)[i] == (listing.len() - 1, order[i - n]));
            law_ranking_sorts_the_candidates(single(names), rollouts(names));
            lemma_rollouts_are_distinct(names);
            lemma_same_items(rollouts(names), order);
            assert forall|k: int| 0 <= k < order.len() implies 0 <= #[trigger] order[k]
                < names.len() by {
                let r = choose|r: int| 0 <= r < rollouts(names).len() && rollouts(names)[r]
                    == order[k];
                lemma_rollouts(names, r);
            }
            let late = single(names)[order[j - n]];
            let early = single(names)[order[i - n]];
            assert(path_at_most(late, early));
            lemma_bytes_order(late[0], early[0], early[0]);
        }
    }
}

/// No position stands twice among those of the rollout files.
proof fn lemma_rollouts_are_distinct(names: Seq<Seq<u8>>)
    ensures
        rollouts(names).no_duplicates(),
    decreases names.len(),
{
    if names.len() > 0 {
        let init = names.drop_last();
        lemma_rollouts_are_distinct(init);
        assert forall|k: int| 0 <= k < rollouts(init).len() implies #[trigger] rollouts(init)[k]
            < init.len() by {
            lemma_rollouts(init, k);
        }
    }
}

/// Every rollout file is among all of them.
proof fn lemma_every_file(listing: Seq<Seq<Seq<u8>>>, file: (int, int)) -> (k: int)
    requires
        is_listed(listing, file),
    ensures
        0 <= k < all_files(listing).len(),
        all_files(listing)[k] == file,
    decreases listing.len(),
{
    let init = listing.drop_last();
    let before = all_files(init);
    if file.0 < init.len() {
        assert(init[file.0] == listing[file.0]);
        lemma_every_file(init, file)
    } else {
        let order = files_in_order(listing.last());
        law_files_in_order_are_the_rollouts(listing.last(), file.1);
        let i = choose|i: int| 0 <= i < order.len() && order[i] == file.1;
        assert(all_files(listing)[before.len() + i] == (listing.len() - 1, order[i]));
        before.len() + i
    }
}

/// A session that was found in the directories read so far is found there again
/// when more are read.
pub proof fn law_a_found_session_stays_found(
    listing: Seq<Seq<Seq<u8>>>,
    more: Seq<Seq<Seq<u8>>>,
    id: Seq<char>,
)
    requires
        file_of(listing, id) is Some,
    ensures
        file_of(listing + more, id) == file_of(listing, id),
{
    lemma_all_files_prefix(listing, more);
    let files = all_files(listing);
    let longer = all_files(listing + more);
    assert forall|k: int| 0 <= k < files.len() implies {
        let (dir, file) = #[trigger] files[k];
        0 <= dir < listing.len()
    } by {
        lemma_all_files(listing, k);
    }
    lemma_first_ending_stays(listing, listing + more, files, longer, id_suffix(id));
}

proof fn lemma_first_ending_stays(
    listing: Seq<Seq<Seq<u8>>>,
    whole: Seq<Seq<Seq<u8>>>,
    files: Seq<(int, int)>,
    longer: Seq<(int, int)>,
    suffix: Seq<char>,
)
    requires
        listing.is_prefix_of(whole),
        files.is_prefix_of(longer),
        first_ending(listing, files, suffix) is Some,
        forall|k: int|
            0 <= k < files.len() ==> {
                let (dir, file) = #[trigger] files[k];
                0 <= dir < listing.len()
            },
    ensures
        first_ending(whole, longer, suffix) == first_ending(listing, files, suffix),
    decreases files.len(),
{
    let (dir, file) = files[0];
    assert(longer[0] == files[0]);
    assert(whole[dir] == listing[dir]);
    if !name_ends_with(listing[dir][file], suffix) {
        let rest = files.drop_first();
        assert forall|k: int| 0 <= k < rest.len() implies {
            let (dir, file) = #[trigger] rest[k];
            0 <= dir < listing.len()
        } by {
            assert(rest[k] == files[k + 1]);
        }
        assert(rest.is_prefix_of(longer.drop_first()));
        lemma_first_ending_stays(listing, whole, rest, longer.drop_first(), suffix);
    }
}

/// A session that is found is a rollout file whose name ends with the id.
pub proof fn law_a_found_session_has_the_id(listing: Seq<Seq<Seq<u8>>>, id: Seq<char>)
    requires
        file_of(listing, id) is Some,
    ensures
        ({
            let (dir, file) = file_of(listing, id)->0;
            &&& 0 <= dir < listing.len()
            &&& 0 <= file < listing[dir].len()
            &&& rollout_name(listing[dir][file])
            &&& name_ends_with(listing[dir][file], id_suffix(id))
        }),
{
    let files = all_files(listing);
    lemma_comes_first(listing, files, id_suffix(id));
    let k = choose|k: int| #[trigger]
        comes_first(listing, files, id_suffix(id), k) && files[k] == file_of(listing, id)->0;
    lemma_all_files(listing, k);
}

/// The file at position `k` of some rollout files is the first one whose name ends
/// with the given text.
pub open spec fn comes_first(
    listing: Seq<Seq<Seq<u8>>>,
    files: Seq<(int, int)>,
    suffix: Seq<char>,
    k: int,
) -> bool {
    &&& 0 <= k < files.len()
    &&& name_ends_with(listing[files[k].0][files[k].1], suffix)
    &&& forall|j: int|
        0 <= j < k ==> !name_ends_with(listing[(#[trigger] files[j]).0][files[j].1], suffix)
}

/// A session is found exactly where it comes first among the most recent ones, as
/// long as none of them is left out, and it is not found only if none of them has
/// its id.
pub proof fn law_a_session_is_found_where_it_comes_first(
    listing: Seq<Seq<Seq<u8>>>,
    id: Seq<char>,
    limit: int,
)
    requires
        all_files(listing).len() <= limit,
    ensures
        ({
            let files = first_few(all_files(listing), limit);
            match file_of(listing, id) {
                Some(found) => exists|k: int| #[trigger]
                    comes_first(listing, files, id_suffix(id), k) && files[k] == found,
                None => forall|k: int|
                    0 <= k < files.len() ==> !name_ends_with(
                        listing[(#[trigger] files[k]).0][files[k].1],
                        id_suffix(id),
                    ),
            }
        }),
{
    lemma_comes_first(listing, all_files(listing), id_suffix(id));
}

proof fn lemma_comes_first(
    listing: Seq<Seq<Seq<u8>>>,
    files: Seq<(int, int)>,
    suffix: Seq<char>,
)
    ensures
        match first_ending(listing, files, suffix) {
            Some(found) => exists|k: int| #[trigger]
                comes_first(listing, files, suffix, k) && files[k] == found,
            None => forall|k: int|
                0 <= k < files.len() ==> !name_ends_with(
                    listing[(#[trigger] files[k]).0][files[k].1],
                    suffix,
                ),
        },
    decreases files.len(),
{
    if files.len() > 0 {
        let rest = files.drop_first();
        lemma_comes_first(listing, rest, suffix);
        if name_ends_with(listing[files[0].0][files[0].1], suffix) {
            assert(comes_first(listing, files, suffix, 0));
        } else if let Some(found) = first_ending(listing, rest, suffix) {
            let k = choose|k: int| #[trigger]
                comes_first(listing, rest, suffix, k) && rest[k] == found;
            assert forall|j: int| 0 <= j < k + 1 implies !name_ends_with(
                listing[(#[trigger] files[j]).0][files[j].1],
                suffix,
            ) by {
                if j > 0 {
                    assert(rest[j - 1] == files[j]);
                }
            }
            assert(comes_first(listing, files, suffix, k + 1));
        } else {
            assert forall|j: int| 0 <= j < files.len() implies !name_ends_with(
                listing[(#[trigger] files[j]).0][files[j].1],
                suffix,
            ) by {
                if j > 0 {
                    assert(rest[j - 1] == files[j]);
                }
            }
        }
    }
}

/// A listed name is a rollout file exactly when it is a text that starts with `rollout-`
/// and ends with `.jsonl`, whatever stands between.
pub proof fn law_rollout_files_are_told_by_their_names(
    names: Seq<Seq<u8>>,
    i: int,
    text: Seq<char>,
)
    requires
        0 <= i < names.len(),
    ensures
        names[i] == encode_utf8(text) ==> (files_in_order(names).contains(i) <==> (
        "rollout-"@.is_prefix_of(text) && ".jsonl"@.is_suffix_of(text))),
        names[i] == encode_utf8("rollout-"@ + text + ".jsonl"@) ==> files_in_order(names).contains(
            i,
        ),
        !valid_utf8(names[i]) ==> !files_in_order(names).contains(i),
{
    law_files_in_order_are_the_rollouts(names, i);
    law_texts_read_back(text, names[i]);
    let name = "rollout-"@ + text + ".jsonl"@;
    law_texts_read_back(name, names[i]);
    assert(name.take("rollout-"@.len() as int) == "rollout-"@);
    assert(name.skip(name.len() - ".jsonl"@.len()) == ".jsonl"@);
    lemma_ends(name, "rollout-"@, ".jsonl"@);
}

/// A text begins and ends with what it was put together from.
proof fn lemma_ends(text: Seq<char>, prefix: Seq<char>, suffix: Seq<char>)
    requires
        text.len() >= prefix.len(),
        text.len() >= suffix.len(),
        text.take(prefix.len() as int) == prefix,
        text.skip(text.len() - suffix.len()) == suffix,
    ensures
        prefix.is_prefix_of(text),
        suffix.is_suffix_of(text),
{
    assert(text.subrange(0, prefix.len() as int) == text.take(prefix.len() as int));
    assert(text.subrange(text.len() - suffix.len(), text.len() as int) == text.skip(
        text.len() - suffix.len(),
    ));
}

/// A session whose file is named by a time and its id is among all recent ones and is
/// found by the id; what is found bears the id, and it is that file unless another bears
/// the id too.
pub proof fn law_a_session_is_found_by_its_id(
    listing: Seq<Seq<Seq<u8>>>,
    dir: int,
    file: int,
    time: Seq<char>,
    id: Seq<char>,
)
    requires
        0 <= dir < listing.len(),
        0 <= file < listing[dir].len(),
        listing[dir][file] == encode_utf8("rollout-"@ + time + "-"@ + id + ".jsonl"@),
    ensures
        all_files(listing).contains((dir, file)),
        file_of(listing, id) matches Some(found) && exists|text: Seq<char>|
            listing[found.0][found.1] == #[trigger] encode_utf8(text) && ("-"@ + id
                + ".jsonl"@).is_suffix_of(text),
        (forall|d: int, f: int, text: Seq<char>|
            0 <= d < listing.len() && 0 <= f < listing[d].len() && #[trigger] listing[d][f]
                == #[trigger] encode_utf8(text) && ("-"@ + id + ".jsonl"@).is_suffix_of(text) ==> d
                == dir && f == file) ==> file_of(listing, id) == Some((dir, file)),
{
    let name = "rollout-"@ + time + "-"@ + id + ".jsonl"@;
    let suffix = "-"@ + id + ".jsonl"@;
    law_texts_read_back(name, listing[dir][file]);
    assert(name.take("rollout-"@.len() as int) == "rollout-"@);
    assert(name.skip(name.len() - ".jsonl"@.len()) == ".jsonl"@);
    lemma_ends(name, "rollout-"@, ".jsonl"@);
    assert(name.skip(name.len() - suffix.len()) == suffix);
    lemma_ends(name, "rollout-"@, suffix);
    let k = lemma_every_file(listing, (dir, file));
    let files = all_files(listing);
    lemma_comes_first(listing, files, id_suffix(id));
    assert(name_ends_with(listing[files[k].0][files[k].1], id_suffix(id)));
    let found = file_of(listing, id)->0;
    law_a_found_session_has_the_id(listing, id);
    let text = decoded(listing[found.0][found.1])->0;
    law_texts_read_back(text, listing[found.0][found.1]);
    assert(listing[found.0][found.1] == encode_utf8(text) && suffix.is_suffix_of(text));
}

/// Names are compared byte by byte: the first byte in which they differ decides, and of a
/// name and a longer one that begins with it, the longer one comes after.
pub proof fn law_the_first_difference_decides(
    common: Seq<u8>,
    a: u8,
    b: u8,
    rest: Seq<u8>,
    other: Seq<u8>,
)
    requires
        a < b,
    ensures
        bytes_at_most(common.push(a) + rest, common.push(b) + other),
        !bytes_at_most(common.push(b) + other, common.push(a) + rest),
        bytes_at_most(common, common + rest),
        rest.len() > 0 ==> !bytes_at_most(common + rest, common),
    decreases common.len(),
{
    if common.len() > 0 {
        let tail = common.drop_first();
        law_the_first_difference_decides(tail, a, b, rest, other);
        assert((common.push(a) + rest).drop_first() == tail.push(a) + rest);
        assert((common.push(b) + other).drop_first() == tail.push(b) + other);
        assert((common + rest).drop_first() == tail + rest);
    }
}

/// Directories are compared component by component: the first one in which they differ
/// decides, and it is compared byte by byte.
pub proof fn law_the_first_component_decides(
    common: Seq<Seq<u8>>,
    a: Seq<u8>,
    b: Seq<u8>,
    rest: Seq<Seq<u8>>,
    other: Seq<Seq<u8>>,
)
    requires
        a != b,
    ensures
        path_at_most(common.push(a) + rest, common.push(b) + other) == bytes_at_most(a, b),
        path_at_most(common, common + rest),
    decreases common.len(),
{
    if common.len() > 0 {
        let tail = common.drop_first();
        law_the_first_component_decides(tail, a, b, rest, other);
        assert((common.push(a) + rest).drop_first() == tail.push(a) + rest);
        assert((common.push(b) + other).drop_first() == tail.push(b) + other);
        assert((common + rest).drop_first() == tail + rest);
    }
}

/// Every day directory is looked into, and the archived sessions behind them exactly when
/// there are any.
pub proof fn law_every_directory_is_looked_into(
    days: Seq<Seq<Seq<u8>>>,
    archived: bool,
    day: int,
)
    ensures
        ({
            let dirs = dirs_in_order(ranked(days, all_positions(days.len())), archived);
            &&& dirs.contains(Some(day)) <==> 0 <= day < days.len()
            &&& archived ==> dirs.len() == days.len() + 1 && dirs.last() is None
            &&& !archived ==> dirs.len() == days.len() && !dirs.contains(None)
        }),
{
    broadcast use vstd::seq_lib::group_to_multiset_ensures;

    let all = all_positions(days.len());
    let order = ranked(days, all);
    law_ranking_sorts_the_candidates(days, all);
    lemma_same_items(all, order);
    let dirs = dirs_in_order(order, archived);
    if 0 <= day < days.len() {
        assert(all[day] == day);
        assert(all.contains(day));
        assert(all.to_multiset().count(day) > 0);
        assert(order.contains(day));
        let k = choose|k: int| 0 <= k < order.len() && order[k] == day;
        assert(dirs[k] == Some(day));
    }
    if dirs.contains(Some(day)) {
        let k = choose|k: int| 0 <= k < dirs.len() && dirs[k] == Some(day);
        assert(order[k] == day);
        assert(all.contains(order[k]));
    }
}

} // verus!
