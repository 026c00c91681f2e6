//! Laws of confirmation by accepted blocks.

use crate::mempool::Mempool;
use crate::transaction::BlockView;
use vstd::prelude::*;
#[allow(unused_imports)]
use crate::index::is_first_free;
#[allow(unused_imports)]
use crate::laws::storage::{law_capacities_are_kept, law_usage_is_the_total_length};
#[allow(unused_imports)]
use crate::layout::{
    lemma_filter_all, lemma_filter_keeps_order, lemma_filter_twice, lemma_tiled_is_spaced,
    length_of, occupied, stands_before, start_of,
};
#[allow(unused_imports)]
use crate::model::{total_length, MempoolView, StoredTransaction};

verus! {

/// What a block accepts is what it lists: each of its transactions, and nothing
/// else.
pub proof fn law_block_accepts_what_it_lists(block: BlockView<'_>, bytes: Seq<u8>)
    ensures
        match block.transactions {
            Some(list) => {
                &&& block.accepted().contains(bytes) <==> exists|i: int|
                    0 <= i < list@.len() && #[trigger] list@[i]@ == bytes
                &&& forall|i: int|
                    0 <= i < list@.len() ==> block.accepted().contains(#[trigger] list@[i]@)
            },
            None => !block.accepted().contains(bytes),
        },
{
}

/// After a block is confirmed, no slot holds the bytes of any transaction that
/// the block lists.
pub proof fn law_listed_transactions_leave<const C: usize, const E: usize>(
    before: Mempool<C, E>,
    after: Mempool<C, E>,
    block: BlockView<'_>,
    list: Seq<&[u8]>,
    i: int,
    slot: int,
)
    requires
        before.wf(),
        after.wf(),
        after@ == before@.confirm(block.accepted()),
        block.transactions is Some,
        block.transactions->0@ == list,
        0 <= i < list.len(),
        0 <= slot < E,
        after.entries()[slot] is Some,
    ensures
        after.buffer().subrange(
            after.entries()[slot]->0.start as int,
            after.entries()[slot]->0.start + after.entries()[slot]->0.length,
        ) != list[i]@,
{
    law_block_accepts_what_it_lists(block, list[i]@);
    assert(after@.holds(slot));
    law_confirmed_leave(before@, block.accepted(), slot);
}

/// What a confirmation does to the index and the buffer. A slot is vacated
/// exactly where the block lists its bytes. Every other entry keeps its fields
/// but for the start, which points at the same bytes, and the entries keep the
/// order in which they lie in the buffer.
pub proof fn law_confirmation_of_entries<const C: usize, const E: usize>(
    before: Mempool<C, E>,
    after: Mempool<C, E>,
    block: BlockView<'_>,
)
    requires
        before.wf(),
        after.wf(),
        after@ == before@.confirm(block.accepted()),
    ensures
        forall|s: int|
            0 <= s < E ==> ((#[trigger] after.entries()[s] is Some) == (before.entries()[s] is Some
                && !(block.transactions is Some && exists|i: int|
                0 <= i < block.transactions->0@.len()
                    && #[trigger] block.transactions->0@[i]@ == before.buffer().subrange(
                    before.entries()[s]->0.start as int,
                    before.entries()[s]->0.start + before.entries()[s]->0.length,
                )))),
        forall|s: int|
            0 <= s < E && #[trigger] after.entries()[s] is Some ==> {
                let (e, f) = (before.entries()[s]->0, after.entries()[s]->0);
                &&& f.length == e.length
                &&& f.hash_crc32 == e.hash_crc32
                &&& f.transaction_fee == e.transaction_fee
                &&& f.expiry_sequence == e.expiry_sequence
                &&& f.is_deferred == e.is_deferred
                &&& f.is_own == e.is_own
                &&& after.buffer().subrange(f.start as int, f.start + f.length)
                    == before.buffer().subrange(e.start as int, e.start + e.length)
            },
        forall|s: int, t: int|
            0 <= s < E && 0 <= t < E && #[trigger] after.entries()[s] is Some
                && #[trigger] after.entries()[t] is Some && before.entries()[s]->0.start
                < before.entries()[t]->0.start ==> after.entries()[s]->0.start
                < after.entries()[t]->0.start,
{
    let accepted = block.accepted();
    assert forall|s: int| 0 <= s < E implies ((#[trigger] after.entries()[s] is Some) == (
    before.entries()[s] is Some && !(block.transactions is Some && exists|i: int|
        0 <= i < block.transactions->0@.len() && #[trigger] block.transactions->0@[i]@
            == before.buffer().subrange(
            before.entries()[s]->0.start as int,
            before.entries()[s]->0.start + before.entries()[s]->0.length,
        )))) by {
        law_block_accepts_what_it_lists(block, before@.bytes(s));
        law_survivors_stay(before@, accepted, s);
    }
    assert forall|s: int| 0 <= s < E && #[trigger] after.entries()[s] is Some implies {
        let (e, f) = (before.entries()[s]->0, after.entries()[s]->0);
        &&& f.length == e.length
        &&& f.hash_crc32 == e.hash_crc32
        &&& f.transaction_fee == e.transaction_fee
        &&& f.expiry_sequence == e.expiry_sequence
        &&& f.is_deferred == e.is_deferred
        &&& f.is_own == e.is_own
        &&& after.buffer().subrange(f.start as int, f.start + f.length)
            == before.buffer().subrange(e.start as int, e.start + e.length)
    } by {
        assert(after@.holds(s));
        law_survivors_stay(before@, accepted, s);
        after.lemma_entry_in_bounds(s);
        before.lemma_entry_in_bounds(s);
    }
    assert forall|s: int, t: int|
        0 <= s < E && 0 <= t < E && #[trigger] after.entries()[s] is Some
            && #[trigger] after.entries()[t] is Some && before.entries()[s]->0.start
            < before.entries()[t]->0.start implies after.entries()[s]->0.start
        < after.entries()[t]->0.start by {
        lemma_starts_keep_their_order(before, after, accepted, s, t);
    }
}

/// Survivors lie in the buffer in the order in which they lay in it before.
proof fn lemma_starts_keep_their_order<const C: usize, const E: usize>(
    before: Mempool<C, E>,
    after: Mempool<C, E>,
    accepted: Set<Seq<u8>>,
    s: int,
    t: int,
)
    requires
        before.wf(),
        after.wf(),
        after@ == before@.confirm(accepted),
        after@.holds(s),
        after@.holds(t),
        before.entries()[s]->0.start < before.entries()[t]->0.start,
    ensures
        after.entries()[s]->0.start < after.entries()[t]->0.start,
{
    law_capacities_are_kept(before);
    law_capacities_are_kept(after);
    law_survivors_keep_their_order(before@, accepted);
    let order = before@.order;
    let kept = after@.order;
    assert(after@.order.contains(s) && after@.order.contains(t));
    let m = choose|m: int| 0 <= m < kept.len() && kept[m] == s;
    let n = choose|n: int| 0 <= n < kept.len() && kept[n] == t;
    lemma_tiled_is_spaced(after.entries(), after.order(), after.usage());
    lemma_tiled_is_spaced(before.entries(), before.order(), before.usage());
    if n < m {
        assert(stands_before(order, kept[n], kept[m]));
        let (p, q) = choose|p: int, q: int|
            0 <= p < q < order.len() && #[trigger] order[p] == t && #[trigger] order[q] == s;
        assert(start_of(before.entries(), order[p]) + length_of(before.entries(), order[p])
            <= start_of(before.entries(), order[q]));
        assert(false);
    }
    assert(m != n);
    assert(occupied(after.entries(), kept[m]));
    assert(start_of(after.entries(), kept[m]) + length_of(after.entries(), kept[m]) <= start_of(
        after.entries(),
        kept[n],
    ));
}

/// No confirmed transaction stays.
pub proof fn law_confirmed_leave(view: MempoolView, accepted: Set<Seq<u8>>, slot: int)
    requires
        view.confirm(accepted).holds(slot),
    ensures
        !accepted.contains(view.confirm(accepted).bytes(slot)),
{
}

/// Every other transaction stays in its slot as it was, and nothing is added.
pub proof fn law_survivors_stay(view: MempoolView, accepted: Set<Seq<u8>>, slot: int)
    ensures
        view.confirm(accepted).holds(slot) <==> view.holds(slot) && !accepted.contains(
            view.bytes(slot),
        ),
        view.confirm(accepted).holds(slot) ==> view.confirm(accepted).slots[slot]
            == view.slots[slot],
{
}

/// The survivors keep their order, and the order keeps listing what is held.
pub proof fn law_survivors_keep_their_order(view: MempoolView, accepted: Set<Seq<u8>>)
    requires
        view.is_consistent(),
    ensures
        view.confirm(accepted).is_consistent(),
        forall|i: int, j: int|
            0 <= i < j < view.confirm(accepted).order.len() ==> stands_before(
                view.order,
                #[trigger] view.confirm(accepted).order[i],
                #[trigger] view.confirm(accepted).order[j],
            ),
{
    lemma_filter_keeps_order(view.order, |s: int| !view.confirmed(accepted, s));
    let after = view.confirm(accepted);
    assert forall|s: int| after.order.contains(s) <==> #[trigger] after.holds(s) by {
        assert(view.order.contains(s) <==> view.holds(s));
    }
}

/// Confirming two blocks one after the other is confirming all their
/// transactions at once.
pub proof fn law_confirmations_combine(
    view: MempoolView,
    first: Set<Seq<u8>>,
    second: Set<Seq<u8>>,
)
    ensures
        view.confirm(first).confirm(second) == view.confirm(first.union(second)),
{
    let mid = view.confirm(first);
    let both = first.union(second);
    lemma_filter_twice(
        view.order,
        |s: int| !view.confirmed(first, s),
        |s: int| !mid.confirmed(second, s),
        |s: int| !view.confirmed(both, s),
    );
    assert(mid.confirm(second) =~= view.confirm(both));
}

/// Confirming the same block again changes nothing.
pub proof fn law_confirmation_is_idempotent(view: MempoolView, accepted: Set<Seq<u8>>)
    ensures
        view.confirm(accepted).confirm(accepted) == view.confirm(accepted),
{
    law_confirmations_combine(view, accepted, accepted);
    assert(accepted.union(accepted) =~= accepted);
}

/// The order in which two blocks are confirmed does not matter.
pub proof fn law_confirmations_commute(
    view: MempoolView,
    first: Set<Seq<u8>>,
    second: Set<Seq<u8>>,
)
    ensures
        view.confirm(first).confirm(second) == view.confirm(second).confirm(first),
{
    law_confirmations_combine(view, first, second);
    law_confirmations_combine(view, second, first);
    assert(first.union(second) =~= second.union(first));
}

/// A block with none of the stored transactions changes nothing.
pub proof fn law_unrelated_block_changes_nothing(view: MempoolView, accepted: Set<Seq<u8>>)
    requires
        forall|s: int| #[trigger] view.holds(s) ==> !accepted.contains(view.bytes(s)),
    ensures
        view.confirm(accepted) == view,
{
    lemma_filter_all(view.order, |s: int| !view.confirmed(accepted, s));
    assert(view.confirm(accepted) =~= view);
}

/// Confirming a transaction undoes its admission, where no other copy of it is
/// stored.
pub proof fn law_confirmation_undoes_admission(
    view: MempoolView,
    slot: int,
    tx: StoredTransaction,
)
    requires
        view.is_consistent(),
        is_first_free(view.slots, slot),
        forall|s: int| #[trigger] view.holds(s) ==> view.bytes(s) != tx.bytes,
    ensures
        view.add_last(slot, tx).confirm(set![tx.bytes]) == view,
{
    let added = view.add_last(slot, tx);
    let keep = |s: int| !added.confirmed(set![tx.bytes], s);
    assert forall|s: int| view.order.contains(s) implies #[trigger] keep(s) by {
        assert(view.holds(s));
        assert(!view.holds(slot));
        assert(added.bytes(s) == view.bytes(s));
    }
    lemma_filter_all(view.order, keep);
    assert(added.confirmed(set![tx.bytes], slot));
    assert(added.order.filter(keep) =~= view.order) by {
        reveal(Seq::filter);
        assert(added.order.drop_last() =~= view.order);
    }
    assert(added.confirm(set![tx.bytes]) =~= view) by {
        assert forall|s: int| 0 <= s < view.slots.len() implies added.confirm(
            set![tx.bytes],
        ).slots[s] == view.slots[s] by {
            if s != slot && view.slots[s] is Some {
                assert(view.holds(s));
                assert(added.bytes(s) == view.bytes(s));
            }
        }
    }
}

/// The lengths of the transactions that stay and of those that leave add up to
/// the lengths before.
pub proof fn law_confirmation_frees_what_leaves(view: MempoolView, accepted: Set<Seq<u8>>)
    requires
        view.is_consistent(),
    ensures
        ({
            let after = view.confirm(accepted);
            let leaving = view.order.filter(|s: int| view.confirmed(accepted, s));
            &&& total_length(after.slots, after.order) + total_length(view.slots, leaving)
                == total_length(view.slots, view.order)
            &&& after.order.len() + leaving.len() == view.order.len()
        }),
{
    let leave = |s: int| view.confirmed(accepted, s);
    let stay = |s: int| !view.confirmed(accepted, s);
    let after = view.confirm(accepted);
    lemma_lengths_split(view.slots, view.order, leave, stay);
    assert forall|k: int| 0 <= k < after.order.len() implies #[trigger] after.slots[after.order[k]]
        == view.slots[after.order[k]] by {
        law_survivors_keep_their_order(view, accepted);
        assert(after.order.contains(after.order[k]));
        assert(after.holds(after.order[k]));
    }
    lemma_total_length_congruent(after.slots, view.slots, after.order);
}

/// Splitting the listed transactions in two splits their total length.
proof fn lemma_lengths_split(
    slots: Seq<Option<StoredTransaction>>,
    order: Seq<int>,
    leave: spec_fn(int) -> bool,
    stay: spec_fn(int) -> bool,
)
    requires
        forall|s: int| #[trigger] leave(s) == !stay(s),
    ensures
        total_length(slots, order.filter(stay)) + total_length(slots, order.filter(leave))
            == total_length(slots, order),
        order.filter(stay).len() + order.filter(leave).len() == order.len(),
    decreases order.len(),
{
    reveal(Seq::filter);
    if order.len() > 0 {
        let front = order.drop_last();
        lemma_lengths_split(slots, front, leave, stay);
        if leave(order.last()) {
            assert(order.filter(leave).drop_last() =~= front.filter(leave));
        } else {
            assert(order.filter(stay).drop_last() =~= front.filter(stay));
        }
    }
}

/// The total length depends on the listed slots only.
proof fn lemma_total_length_congruent(
    slots: Seq<Option<StoredTransaction>>,
    slots2: Seq<Option<StoredTransaction>>,
    order: Seq<int>,
)
    requires
        forall|k: int| 0 <= k < order.len() ==> #[trigger] slots[order[k]] == slots2[order[k]],
    ensures
        total_length(slots, order) == total_length(slots2, order),
    decreases order.len(),
{
    if order.len() > 0 {
        let front = order.drop_last();
        assert forall|k: int| 0 <= k < front.len() implies #[trigger] slots[front[k]]
            == slots2[front[k]] by {
            assert(slots[order[k]] == slots2[order[k]]);
        }
        lemma_total_length_congruent(slots, slots2, front);
        assert(slots[order[order.len() - 1]] == slots2[order[order.len() - 1]]);
    }
}

/// What leaves makes room: the buffer gives back exactly the bytes of the
/// confirmed transactions, the index exactly their slots, and what could be
/// admitted before can be admitted afterwards.
pub proof fn law_confirmation_makes_room<const C: usize, const E: usize>(
    before: Mempool<C, E>,
    after: Mempool<C, E>,
    accepted: Set<Seq<u8>>,
    length: int,
)
    requires
        before.wf(),
        after.wf(),
        after@ == before@.confirm(accepted),
    ensures
        ({
            let leaving = before@.order.filter(|s: int| before@.confirmed(accepted, s));
            &&& after.usage() == before.usage() - total_length(before@.slots, leaving)
            &&& after.count() == before.count() - leaving.len()
        }),
        before.has_room(length) ==> after.has_room(length),
{
    law_capacities_are_kept(before);
    law_capacities_are_kept(after);
    law_usage_is_the_total_length(before);
    law_usage_is_the_total_length(after);
    law_confirmation_frees_what_leaves(before@, accepted);
    let leaving = before@.order.filter(|s: int| before@.confirmed(accepted, s));
    lemma_total_length_is_not_negative(before@.slots, leaving);
}

/// A total length is never negative.
proof fn lemma_total_length_is_not_negative(
    slots: Seq<Option<StoredTransaction>>,
    order: Seq<int>,
)
    ensures
        total_length(slots, order) >= 0,
    decreases order.len(),
{
    if order.len() > 0 {
        lemma_total_length_is_not_negative(slots, order.drop_last());
    }
}

} // verus!
