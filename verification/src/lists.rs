//! Lists that hold every item once.

use vstd::prelude::*;

verus! {

/// A list with every item once, where it stood first.
pub open spec fn distinct<A>(items: Seq<A>) -> Seq<A>
    decreases items.len(),
{
    if items.len() == 0 {
        Seq::empty()
    } else {
        let before = distinct(items.drop_last());
        if before.contains(items.last()) {
            before
        } else {
            before.push(items.last())
        }
    }
}

/// Keeping every item once leaves no item twice and loses none.
pub proof fn lemma_distinct<A>(items: Seq<A>)
    ensures
        distinct(items).no_duplicates(),
        forall|item: A| distinct(items).contains(item) <==> #[trigger] items.contains(item),
    decreases items.len(),
{
    if items.len() > 0 {
        let init = items.drop_last();
        let last = items.last();
        lemma_distinct(init);
        let before = distinct(init);
        let after = distinct(items);
        assert forall|item: A|
            after.contains(item) <==> #[trigger] items.contains(item) by {
            assert(init.contains(item) <==> before.contains(item));
            if init.contains(item) {
                let k = choose|k: int| 0 <= k < init.len() && init[k] == item;
                assert(items[k] == item);
                let l = choose|l: int| 0 <= l < before.len() && before[l] == item;
                assert(after[l] == item);
            }
            if item == last {
                assert(items[items.len() - 1] == item);
                if !before.contains(last) {
                    assert(after[before.len() as int] == item);
                }
            }
            if items.contains(item) && item != last {
                let k = choose|k: int| 0 <= k < items.len() && items[k] == item;
                assert(init[k] == item);
            }
            if after.contains(item) && item != last {
                let l = choose|l: int| 0 <= l < after.len() && after[l] == item;
                assert(before[l] == item);
            }
        }
    }
}

/// Wherever a listed item stands, every item listed before it stands earlier.
pub proof fn lemma_distinct_order<A>(items: Seq<A>, i: int, j: int, k: int)
    requires
        0 <= i < j < distinct(items).len(),
        0 <= k < items.len(),
        items[k] == distinct(items)[j],
    ensures
        exists|a: int| 0 <= a < k && #[trigger] items[a] == distinct(items)[i],
    decreases items.len(),
{
    let init = items.drop_last();
    let before = distinct(init);
    lemma_distinct(init);
    let known = distinct(items)[i];
    assert(i < before.len());
    assert(before[i] == known);
    if k < init.len() {
        assert(init.contains(init[k]));
        assert(before.contains(items[k]));
        if j < before.len() {
            lemma_distinct_order(init, i, j, k);
            let a = choose|a: int| 0 <= a < k && #[trigger] init[a] == known;
            assert(items[a] == known);
        }
    } else {
        assert(before.contains(known));
        assert(init.contains(known));
        let a = choose|a: int| 0 <= a < init.len() && init[a] == known;
        assert(items[a] == known);
    }
}

} // verus!
