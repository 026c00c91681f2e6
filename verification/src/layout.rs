//! How index entries lie in the byte buffer.
//!
//! An arrangement is a sequence of index entries, some of them vacant, together
//! with the order in which the occupied slots follow each other in the buffer.

use crate::index::IndexEntry;
use vstd::prelude::*;

verus! {

/// Slot `s` exists and holds an entry.
pub open spec fn occupied(entries: Seq<Option<IndexEntry>>, s: int) -> bool {
    0 <= s < entries.len() && entries[s] is Some
}

/// Offset of the first byte of the entry in slot `s`.
pub open spec fn start_of(entries: Seq<Option<IndexEntry>>, s: int) -> int {
    entries[s]->0.start as int
}

/// Number of bytes of the entry in slot `s`.
pub open spec fn length_of(entries: Seq<Option<IndexEntry>>, s: int) -> int {
    entries[s]->0.length as int
}

/// Total length of the first `k` entries of `order`.
pub open spec fn offset(entries: Seq<Option<IndexEntry>>, order: Seq<int>, k: int) -> int
    decreases k,
{
    if k <= 0 {
        0
    } else {
        offset(entries, order, k - 1) + length_of(entries, order[k - 1])
    }
}

/// `order` lists each occupied slot once, and no other.
pub open spec fn lists_occupied(entries: Seq<Option<IndexEntry>>, order: Seq<int>) -> bool {
    &&& order.no_duplicates()
    &&& forall|k: int| 0 <= k < order.len() ==> occupied(entries, #[trigger] order[k])
    &&& forall|s: int| #[trigger] occupied(entries, s) ==> order.contains(s)
}

/// No entry is empty.
pub open spec fn none_empty(entries: Seq<Option<IndexEntry>>) -> bool {
    forall|s: int| #[trigger] occupied(entries, s) ==> length_of(entries, s) > 0
}

/// The entries fill the buffer from offset 0 to `usage`, each directly behind
/// the one before it in `order`.
#[verifier::opaque]
pub open spec fn tiled(entries: Seq<Option<IndexEntry>>, order: Seq<int>, usage: int) -> bool {
    &&& lists_occupied(entries, order)
    &&& none_empty(entries)
    &&& forall|k: int|
        0 <= k < order.len() ==> start_of(entries, #[trigger] order[k]) == offset(entries, order, k)
    &&& usage == offset(entries, order, order.len() as int)
}

/// The entries lie below `usage` and follow each other in `order` without
/// overlap, possibly with gaps between them.
pub open spec fn spaced(entries: Seq<Option<IndexEntry>>, order: Seq<int>, usage: int) -> bool {
    &&& lists_occupied(entries, order)
    &&& none_empty(entries)
    &&& forall|i: int, j: int|
        0 <= i < j < order.len() ==> start_of(entries, #[trigger] order[i]) + length_of(
            entries,
            order[i],
        ) <= start_of(entries, #[trigger] order[j])
    &&& forall|i: int|
        0 <= i < order.len() ==> start_of(entries, #[trigger] order[i]) + length_of(
            entries,
            order[i],
        ) <= usage
}

/// Offsets grow along the order, each by at least the length of its entry.
pub proof fn lemma_offset_monotone(
    entries: Seq<Option<IndexEntry>>,
    order: Seq<int>,
    i: int,
    j: int,
)
    requires
        0 <= i <= j <= order.len(),
    ensures
        0 <= offset(entries, order, i) <= offset(entries, order, j),
        i < j ==> offset(entries, order, i) + length_of(entries, order[i]) <= offset(
            entries,
            order,
            j,
        ),
    decreases j,
{
    if i < j {
        lemma_offset_monotone(entries, order, i, j - 1);
    } else if 0 < j {
        lemma_offset_monotone(entries, order, j - 1, j - 1);
    }
}

/// Offsets depend only on the lengths of the entries along the order.
pub proof fn lemma_offset_congruent(
    entries: Seq<Option<IndexEntry>>,
    order: Seq<int>,
    entries2: Seq<Option<IndexEntry>>,
    order2: Seq<int>,
    k: int,
)
    requires
        k <= order.len(),
        k <= order2.len(),
        forall|i: int|
            #![trigger order[i]]
            #![trigger order2[i]]
            0 <= i < k ==> length_of(entries, order[i]) == length_of(entries2, order2[i]),
    ensures
        offset(entries, order, k) == offset(entries2, order2, k),
    decreases k,
{
    if k > 0 {
        lemma_offset_congruent(entries, order, entries2, order2, k - 1);
        assert(length_of(entries, order[k - 1]) == length_of(entries2, order2[k - 1]));
    }
}

/// Entries that tile the buffer lie in it without overlap.
pub proof fn lemma_tiled_is_spaced(
    entries: Seq<Option<IndexEntry>>,
    order: Seq<int>,
    usage: int,
)
    requires
        tiled(entries, order, usage),
    ensures
        spaced(entries, order, usage),
{
    reveal(tiled);
    assert forall|i: int, j: int| 0 <= i < j < order.len() implies start_of(
        entries,
        #[trigger] order[i],
    ) + length_of(entries, order[i]) <= start_of(entries, #[trigger] order[j]) by {
        lemma_offset_monotone(entries, order, i, j);
    }
    assert forall|i: int| 0 <= i < order.len() implies start_of(entries, #[trigger] order[i])
        + length_of(entries, order[i]) <= usage by {
        lemma_offset_monotone(entries, order, i, order.len() as int);
    }
}

/// Every entry has bytes, and they lie below `limit`.
pub open spec fn in_bounds(entries: Seq<Option<IndexEntry>>, limit: int) -> bool {
    forall|s: int| #[trigger]
        occupied(entries, s) ==> 0 < length_of(entries, s) && start_of(entries, s) + length_of(
            entries,
            s,
        ) <= limit
}

/// Entries that tile the buffer lie below the usage.
pub proof fn lemma_tiled_in_bounds(
    entries: Seq<Option<IndexEntry>>,
    order: Seq<int>,
    usage: int,
)
    requires
        tiled(entries, order, usage),
    ensures
        in_bounds(entries, usage),
{
    reveal(tiled);
    lemma_tiled_is_spaced(entries, order, usage);
    assert forall|s: int| #[trigger] occupied(entries, s) implies 0 < length_of(entries, s)
        && start_of(entries, s) + length_of(entries, s) <= usage by {
        let k = choose|k: int| 0 <= k < order.len() && order[k] == s;
        assert(start_of(entries, order[k]) + length_of(entries, order[k]) <= usage);
    }
}

/// Where entries lie spaced, none starts before the total length of those
/// before it.
pub proof fn lemma_offset_below_start(
    entries: Seq<Option<IndexEntry>>,
    order: Seq<int>,
    usage: int,
    k: int,
)
    requires
        spaced(entries, order, usage),
        0 <= k < order.len(),
    ensures
        0 <= offset(entries, order, k) <= start_of(entries, order[k]),
    decreases k,
{
    if k > 0 {
        lemma_offset_below_start(entries, order, usage, k - 1);
        assert(occupied(entries, order[k - 1]));
        assert(start_of(entries, order[k - 1]) + length_of(entries, order[k - 1]) <= start_of(
            entries,
            order[k],
        ));
    } else {
        assert(occupied(entries, order[k]));
    }
}

/// `a` stands before `b` in `order`.
pub open spec fn stands_before(order: Seq<int>, a: int, b: int) -> bool {
    exists|p: int, q: int|
        0 <= p < q < order.len() && #[trigger] order[p] == a && #[trigger] order[q] == b
}

/// Filtering an order keeps exactly the wanted slots, each once and in order.
pub proof fn lemma_filter_keeps_order(order: Seq<int>, keep: spec_fn(int) -> bool)
    requires
        order.no_duplicates(),
    ensures
        order.filter(keep).no_duplicates(),
        forall|s: int| #[trigger]
            order.filter(keep).contains(s) <==> order.contains(s) && keep(s),
        forall|i: int, j: int|
            0 <= i < j < order.filter(keep).len() ==> stands_before(
                order,
                #[trigger] order.filter(keep)[i],
                #[trigger] order.filter(keep)[j],
            ),
    decreases order.len(),
{
    reveal(Seq::filter);
    let kept = order.filter(keep);
    if order.len() > 0 {
        let front = order.drop_last();
        let last = order.last();
        let kept_front = front.filter(keep);
        lemma_filter_keeps_order(front, keep);
        assert(order =~= front.push(last));
        assert(forall|i: int| 0 <= i < front.len() ==> order[i] == front[i]);
        assert(!front.contains(last));
        assert forall|s: int| #[trigger] kept.contains(s) <==> order.contains(s) && keep(s) by {
            if kept.contains(s) {
                let i = choose|i: int| 0 <= i < kept.len() && kept[i] == s;
                if i < kept_front.len() {
                    assert(kept_front[i] == s);
                    assert(kept_front.contains(s));
                    let p = choose|p: int| 0 <= p < front.len() && front[p] == s;
                    assert(order[p] == s);
                } else {
                    assert(order[order.len() - 1] == s);
                }
            }
            if order.contains(s) && keep(s) {
                let p = choose|p: int| 0 <= p < order.len() && order[p] == s;
                if p < front.len() {
                    assert(front[p] == s);
                    assert(kept_front.contains(s));
                    let i = choose|i: int| 0 <= i < kept_front.len() && kept_front[i] == s;
                    assert(kept[i] == s);
                } else {
                    assert(kept[kept.len() - 1] == s);
                }
            }
        }
        assert forall|i: int, j: int| 0 <= i < j < kept.len() implies stands_before(
            order,
            #[trigger] kept[i],
            #[trigger] kept[j],
        ) by {
            assert(kept_front[i] == kept[i]);
            if j < kept_front.len() {
                assert(kept_front[j] == kept[j]);
                assert(stands_before(front, kept_front[i], kept_front[j]));
                let (p, q) = choose|p: int, q: int|
                    0 <= p < q < front.len() && #[trigger] front[p] == kept[i]
                        && #[trigger] front[q] == kept[j];
                assert(order[p] == kept[i] && order[q] == kept[j]);
            } else {
                assert(kept_front.contains(kept_front[i]));
                let p = choose|p: int| 0 <= p < front.len() && front[p] == kept[i];
                assert(order[p] == kept[i] && order[order.len() - 1] == kept[j]);
            }
        }
        assert(kept.no_duplicates()) by {
            assert forall|i: int, j: int| 0 <= i < j < kept.len() implies kept[i] != kept[j] by {
                assert(stands_before(order, kept[i], kept[j]));
            }
        }
    }
}

/// Two filters that agree on the slots of an order give the same.
pub proof fn lemma_filter_congruent(
    order: Seq<int>,
    keep: spec_fn(int) -> bool,
    keep2: spec_fn(int) -> bool,
)
    requires
        forall|s: int| order.contains(s) ==> #[trigger] keep(s) == keep2(s),
    ensures
        order.filter(keep) == order.filter(keep2),
    decreases order.len(),
{
    reveal(Seq::filter);
    if order.len() > 0 {
        let front = order.drop_last();
        assert forall|s: int| front.contains(s) implies #[trigger] keep(s) == keep2(s) by {
            let p = choose|p: int| 0 <= p < front.len() && front[p] == s;
            assert(order[p] == s);
        }
        lemma_filter_congruent(front, keep, keep2);
        assert(order[order.len() - 1] == order.last());
        assert(order.contains(order.last()));
        assert(keep(order.last()) == keep2(order.last()));
    }
}

/// Filtering twice is filtering by both conditions.
pub proof fn lemma_filter_twice(
    order: Seq<int>,
    keep: spec_fn(int) -> bool,
    keep2: spec_fn(int) -> bool,
    both: spec_fn(int) -> bool,
)
    requires
        forall|s: int| order.contains(s) ==> #[trigger] both(s) == (keep(s) && keep2(s)),
    ensures
        order.filter(keep).filter(keep2) == order.filter(both),
    decreases order.len(),
{
    reveal(Seq::filter);
    if order.len() > 0 {
        let front = order.drop_last();
        assert forall|s: int| front.contains(s) implies #[trigger] both(s) == (keep(s) && keep2(
            s,
        )) by {
            let p = choose|p: int| 0 <= p < front.len() && front[p] == s;
            assert(order[p] == s);
        }
        lemma_filter_twice(front, keep, keep2, both);
        assert(order.contains(order.last()));
        assert(both(order.last()) == (keep(order.last()) && keep2(order.last())));
        if keep(order.last()) {
            assert(order.filter(keep).drop_last() =~= front.filter(keep));
        }
    }
}

/// A filter that wants every slot of an order leaves it as it is.
pub proof fn lemma_filter_all(order: Seq<int>, keep: spec_fn(int) -> bool)
    requires
        forall|s: int| order.contains(s) ==> #[trigger] keep(s),
    ensures
        order.filter(keep) == order,
    decreases order.len(),
{
    reveal(Seq::filter);
    if order.len() > 0 {
        let front = order.drop_last();
        assert forall|s: int| front.contains(s) implies #[trigger] keep(s) by {
            let p = choose|p: int| 0 <= p < front.len() && front[p] == s;
            assert(order[p] == s);
        }
        lemma_filter_all(front, keep);
        assert(order[order.len() - 1] == order.last());
        assert(order.contains(order.last()));
        assert(keep(order.last()));
        assert(order =~= front.push(order.last()));
    }
}

/// Vacating slots leaves the others spaced, in their old order.
pub proof fn lemma_vacating_keeps_spaced(
    entries: Seq<Option<IndexEntry>>,
    order: Seq<int>,
    usage: int,
    rest: Seq<Option<IndexEntry>>,
)
    requires
        spaced(entries, order, usage),
        rest.len() == entries.len(),
        forall|s: int| 0 <= s < rest.len() ==> #[trigger] rest[s] is None || rest[s] == entries[s],
    ensures
        spaced(rest, order.filter(|s: int| rest[s] is Some), usage),
{
    let keep = |s: int| rest[s] is Some;
    let kept = order.filter(keep);
    lemma_filter_keeps_order(order, keep);
    assert forall|k: int| 0 <= k < kept.len() implies occupied(rest, #[trigger] kept[k])
        && occupied(entries, kept[k]) by {
        assert(kept.contains(kept[k]));
        let p = choose|p: int| 0 <= p < order.len() && order[p] == kept[k];
        assert(occupied(entries, order[p]));
        assert(keep(kept[k]));
    }
    assert forall|s: int| #[trigger] occupied(rest, s) implies kept.contains(s) && occupied(
        entries,
        s,
    ) by {
        assert(rest[s] == entries[s]);
        assert(occupied(entries, s));
        assert(keep(s));
    }
    assert forall|s: int| #[trigger] occupied(rest, s) implies length_of(rest, s) > 0 by {
        assert(occupied(entries, s));
    }
    assert forall|i: int, j: int| 0 <= i < j < kept.len() implies start_of(
        rest,
        #[trigger] kept[i],
    ) + length_of(rest, kept[i]) <= start_of(rest, #[trigger] kept[j]) by {
        assert(stands_before(order, kept[i], kept[j]));
        let (p, q) = choose|p: int, q: int|
            0 <= p < q < order.len() && #[trigger] order[p] == kept[i] && #[trigger] order[q]
                == kept[j];
        assert(occupied(rest, kept[i]) && occupied(rest, kept[j]));
        assert(start_of(entries, order[p]) + length_of(entries, order[p]) <= start_of(
            entries,
            order[q],
        ));
    }
    assert forall|i: int| 0 <= i < kept.len() implies start_of(rest, #[trigger] kept[i])
        + length_of(rest, kept[i]) <= usage by {
        assert(kept.contains(kept[i]));
        let p = choose|p: int| 0 <= p < order.len() && order[p] == kept[i];
        assert(occupied(rest, kept[i]));
        assert(start_of(entries, order[p]) + length_of(entries, order[p]) <= usage);
    }
}

/// Number of occupied slots among the first `n`.
pub open spec fn occupied_count(entries: Seq<Option<IndexEntry>>, n: int) -> nat
    decreases n,
{
    if n <= 0 {
        0
    } else {
        occupied_count(entries, n - 1) + (if entries[n - 1] is Some {
            1nat
        } else {
            0nat
        })
    }
}

/// The occupied slots below `n`.
spec fn occupied_below(entries: Seq<Option<IndexEntry>>, n: int) -> Set<int> {
    Set::new(|s: int| 0 <= s < n && entries[s] is Some)
}

proof fn lemma_occupied_below(entries: Seq<Option<IndexEntry>>, n: int)
    requires
        0 <= n <= entries.len(),
    ensures
        occupied_below(entries, n).finite(),
        occupied_below(entries, n).len() == occupied_count(entries, n),
    decreases n,
{
    if n == 0 {
        assert(occupied_below(entries, n) =~= Set::empty());
    } else {
        lemma_occupied_below(entries, n - 1);
        let below = occupied_below(entries, n - 1);
        if entries[n - 1] is Some {
            assert(occupied_below(entries, n) =~= below.insert(n - 1));
        } else {
            assert(occupied_below(entries, n) =~= below);
        }
    }
}

/// An order that lists the occupied slots is as long as there are such slots.
pub proof fn lemma_order_counts(entries: Seq<Option<IndexEntry>>, order: Seq<int>)
    requires
        lists_occupied(entries, order),
    ensures
        occupied_count(entries, entries.len() as int) == order.len(),
{
    let n = entries.len() as int;
    lemma_occupied_below(entries, n);
    order.unique_seq_to_set();
    assert(order.to_set() =~= occupied_below(entries, n)) by {
        assert forall|s: int| order.to_set().contains(s) == occupied_below(entries, n).contains(
            s,
        ) by {
            if order.contains(s) {
                let k = choose|k: int| 0 <= k < order.len() && order[k] == s;
                assert(occupied(entries, order[k]));
            }
            if occupied_below(entries, n).contains(s) {
                assert(occupied(entries, s));
            }
        }
    }
}

/// There are at most as many occupied slots as slots, and exactly as many only
/// where every slot is occupied.
pub proof fn lemma_count_bounds(entries: Seq<Option<IndexEntry>>, n: int)
    requires
        0 <= n <= entries.len(),
    ensures
        occupied_count(entries, n) <= n,
        (forall|s: int| 0 <= s < n ==> entries[s] is Some) <==> occupied_count(entries, n) == n,
    decreases n,
{
    if n > 0 {
        lemma_count_bounds(entries, n - 1);
        if occupied_count(entries, n) == n {
            assert(entries[n - 1] is Some);
            assert forall|s: int| 0 <= s < n implies entries[s] is Some by {
                if s < n - 1 {
                    assert(occupied_count(entries, n - 1) == n - 1);
                }
            }
        }
        if forall|s: int| 0 <= s < n ==> entries[s] is Some {
            assert(entries[n - 1] is Some);
        }
    }
}

/// Putting an entry directly behind the last one into a vacant slot keeps the
/// buffer tiled.
pub proof fn lemma_append_keeps_tiled(
    entries: Seq<Option<IndexEntry>>,
    order: Seq<int>,
    usage: int,
    slot: int,
    entry: IndexEntry,
)
    requires
        tiled(entries, order, usage),
        0 <= slot < entries.len(),
        entries[slot] is None,
        entry.start as int == usage,
        entry.length > 0,
    ensures
        tiled(entries.update(slot, Some(entry)), order.push(slot), usage + entry.length),
{
    reveal(tiled);
    let more = entries.update(slot, Some(entry));
    let longer = order.push(slot);
    let n = order.len() as int;
    assert forall|k: int| 0 <= k < n implies order[k] != slot && #[trigger] longer[k] == order[k]
        && more[order[k]] == entries[order[k]] by {
        assert(occupied(entries, order[k]));
    }
    assert forall|k: int| 0 <= k <= n implies offset(more, longer, k) == #[trigger] offset(
        entries,
        order,
        k,
    ) by {
        assert forall|i: int|
            #![trigger order[i]]
            #![trigger longer[i]]
            0 <= i < k implies length_of(more, longer[i]) == length_of(entries, order[i]) by {
            assert(longer[i] == order[i]);
        }
        lemma_offset_congruent(more, longer, entries, order, k);
    }
    assert(offset(more, longer, n) == offset(entries, order, n));
    assert(longer[n] == slot);
    assert forall|k: int| 0 <= k < longer.len() implies occupied(more, #[trigger] longer[k]) by {
        if k < n {
            assert(occupied(entries, order[k]));
        }
    }
    assert forall|s: int| #[trigger] occupied(more, s) implies longer.contains(s) && length_of(
        more,
        s,
    ) > 0 by {
        if s == slot {
            assert(longer[n] == s);
        } else {
            assert(occupied(entries, s));
            let k = choose|k: int| 0 <= k < order.len() && order[k] == s;
            assert(longer[k] == s);
        }
    }
    assert forall|k: int| 0 <= k < longer.len() implies start_of(more, #[trigger] longer[k])
        == offset(more, longer, k) by {
        if k < n {
            assert(offset(more, longer, k) == offset(entries, order, k));
            assert(start_of(entries, order[k]) == offset(entries, order, k));
        }
    }
}

} // verus!
