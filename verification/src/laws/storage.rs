//! Laws of storage: what the buffer holds, and where.

use crate::mempool::Mempool;
use vstd::prelude::*;
#[allow(unused_imports)]
use crate::layout::{
    lemma_offset_monotone, lemma_tiled_is_spaced, length_of, occupied, offset, start_of, tiled,
};
#[allow(unused_imports)]
use crate::model::{total_length, StoredTransaction};

verus! {

/// What the mempool holds is what its index and its buffer say: a slot holds a
/// transaction exactly where the index has an entry, with the fields of the entry
/// and the bytes that it points at.
pub proof fn law_contents_are_what_the_index_says<const C: usize, const E: usize>(
    pool: Mempool<C, E>,
    s: int,
)
    requires
        pool.wf(),
        0 <= s < E,
    ensures
        pool@.slots.len() == E,
        pool.entries().len() == E,
        (pool@.slots[s] is Some) == (pool.entries()[s] is Some),
        pool.entries()[s] is Some ==> {
            let (tx, e) = (pool@.slots[s]->0, pool.entries()[s]->0);
            &&& tx.bytes == pool.buffer().subrange(e.start as int, e.start + e.length)
            &&& tx.hash_crc32 == e.hash_crc32
            &&& tx.transaction_fee == e.transaction_fee
            &&& tx.expiry_sequence == e.expiry_sequence
            &&& tx.is_deferred == e.is_deferred
            &&& tx.is_own == e.is_own
            &&& tx.bytes.len() == e.length
            &&& pool@.holds(s)
            &&& pool@.bytes(s) == tx.bytes
            &&& pool@.eligible(s) == !e.is_deferred
        },
{
    if pool.entries()[s] is Some {
        pool.lemma_entry_in_bounds(s);
    }
}

/// Every used byte of the buffer belongs to an entry.
pub proof fn law_used_byte_belongs_to_an_entry<const C: usize, const E: usize>(
    pool: Mempool<C, E>,
    p: int,
)
    requires
        pool.wf(),
        0 <= p < pool.usage(),
    ensures
        exists|s: int|
            0 <= s < E && #[trigger] pool.entries()[s] is Some && pool.entries()[s]->0.start <= p
                < pool.entries()[s]->0.start + pool.entries()[s]->0.length,
{
    law_storage_is_gap_free(pool, p);
    let s = choose|s: int| #[trigger] covers(pool, s, p);
    assert(pool.entries()[s] is Some);
}

/// Every entry has bytes and lies within the used part of the buffer, no two
/// entries share a byte, and behind the used part there are zeros.
pub proof fn law_entries_are_apart<const C: usize, const E: usize>(pool: Mempool<C, E>)
    requires
        pool.wf(),
    ensures
        pool.buffer().len() == C,
        pool.entries().len() == E,
        pool.usage() <= C,
        forall|s: int|
            0 <= s < E && #[trigger] pool.entries()[s] is Some ==> pool.entries()[s]->0.length > 0
                && pool.entries()[s]->0.start + pool.entries()[s]->0.length <= pool.usage(),
        forall|s: int, t: int|
            0 <= s < E && 0 <= t < E && s != t && #[trigger] pool.entries()[s] is Some
                && #[trigger] pool.entries()[t] is Some ==> {
                ||| pool.entries()[s]->0.start + pool.entries()[s]->0.length
                    <= pool.entries()[t]->0.start
                ||| pool.entries()[t]->0.start + pool.entries()[t]->0.length
                    <= pool.entries()[s]->0.start
            },
        forall|i: int| pool.usage() <= i < C ==> #[trigger] pool.buffer()[i] == 0,
{
    law_capacities_are_kept(pool);
    lemma_tiled_is_spaced(pool.entries(), pool.order(), pool.usage());
    assert forall|s: int| 0 <= s < E && #[trigger] pool.entries()[s] is Some implies {
        &&& pool.entries()[s]->0.length > 0
        &&& pool.entries()[s]->0.start + pool.entries()[s]->0.length <= pool.usage()
    } by {
        pool.lemma_entry_in_bounds(s);
    }
    assert forall|s: int, t: int|
        0 <= s < E && 0 <= t < E && s != t && #[trigger] pool.entries()[s] is Some
            && #[trigger] pool.entries()[t] is Some implies {
        ||| pool.entries()[s]->0.start + pool.entries()[s]->0.length <= pool.entries()[t]->0.start
        ||| pool.entries()[t]->0.start + pool.entries()[t]->0.length <= pool.entries()[s]->0.start
    } by {
        assert(pool@.holds(s) && pool@.holds(t));
        let i = choose|i: int| 0 <= i < pool.order().len() && pool.order()[i] == s;
        let j = choose|j: int| 0 <= j < pool.order().len() && pool.order()[j] == t;
        if i < j {
            assert(start_of(pool.entries(), pool.order()[i]) + length_of(
                pool.entries(),
                pool.order()[i],
            ) <= start_of(pool.entries(), pool.order()[j]));
        } else {
            assert(start_of(pool.entries(), pool.order()[j]) + length_of(
                pool.entries(),
                pool.order()[j],
            ) <= start_of(pool.entries(), pool.order()[i]));
        }
    }
}

/// The count is the number of slots with an entry.
pub proof fn law_count_is_the_number_of_entries<const C: usize, const E: usize>(
    pool: Mempool<C, E>,
)
    requires
        pool.wf(),
    ensures
        pool.count() == Set::new(|s: int| 0 <= s < E && pool.entries()[s] is Some).len(),
{
    law_capacities_are_kept(pool);
    pool.order().unique_seq_to_set();
    let held = Set::new(|s: int| 0 <= s < E && pool.entries()[s] is Some);
    assert forall|s: int| pool.order().to_set().contains(s) == held.contains(s) by {
        assert(pool@.order.contains(s) <==> pool@.holds(s));
    }
    assert(pool.order().to_set() =~= held);
}

/// The order lists the slots as their bytes follow each other in the buffer.
pub proof fn law_order_follows_the_buffer<const C: usize, const E: usize>(
    pool: Mempool<C, E>,
    i: int,
    j: int,
)
    requires
        pool.wf(),
        0 <= i < j < pool@.order.len(),
    ensures
        0 <= pool@.order[i] < E,
        0 <= pool@.order[j] < E,
        pool.entries()[pool@.order[i]] is Some,
        pool.entries()[pool@.order[j]] is Some,
        pool.entries()[pool@.order[i]]->0.start < pool.entries()[pool@.order[j]]->0.start,
{
    lemma_tiled_is_spaced(pool.entries(), pool.order(), pool.usage());
    assert(occupied(pool.entries(), pool.order()[i]) && occupied(pool.entries(), pool.order()[j]));
    assert(start_of(pool.entries(), pool.order()[i]) + length_of(pool.entries(), pool.order()[i])
        <= start_of(pool.entries(), pool.order()[j]));
}

/// There is room for a transaction exactly where the buffer has the bytes and
/// the index a slot, whatever the length.
pub proof fn law_room_is_bytes_and_a_slot<const C: usize, const E: usize>(
    pool: Mempool<C, E>,
    length: int,
)
    ensures
        pool.has_room(length) <==> pool.usage() + length <= C && pool.count() < E,
{
}

/// The byte at offset `p` belongs to the entry in slot `s`.
pub open spec fn covers<const C: usize, const E: usize>(
    pool: Mempool<C, E>,
    s: int,
    p: int,
) -> bool {
    &&& occupied(pool.entries(), s)
    &&& start_of(pool.entries(), s) <= p < start_of(pool.entries(), s) + length_of(
        pool.entries(),
        s,
    )
}

/// Storage is contiguous: every used byte of the buffer belongs to exactly one
/// entry.
pub proof fn law_storage_is_gap_free<const C: usize, const E: usize>(pool: Mempool<C, E>, p: int)
    requires
        pool.wf(),
        0 <= p < pool.usage(),
    ensures
        exists|s: int| #[trigger] covers(pool, s, p),
        forall|s: int, t: int| #[trigger]
            covers(pool, s, p) && #[trigger] covers(pool, t, p) ==> s == t,
{
    reveal(tiled);
    let k = lemma_tile_of(pool, p, pool.order().len() as int);
    assert(covers(pool, pool.order()[k], p));
    assert forall|s: int, t: int| #[trigger]
        covers(pool, s, p) && #[trigger] covers(pool, t, p) implies s == t by {
        let i = choose|i: int| 0 <= i < pool.order().len() && pool.order()[i] == s;
        let j = choose|j: int| 0 <= j < pool.order().len() && pool.order()[j] == t;
        if i < j {
            lemma_offset_monotone(pool.entries(), pool.order(), i, j);
        } else if j < i {
            lemma_offset_monotone(pool.entries(), pool.order(), j, i);
        }
        assert(start_of(pool.entries(), pool.order()[i]) == offset(
            pool.entries(),
            pool.order(),
            i,
        ));
        assert(start_of(pool.entries(), pool.order()[j]) == offset(
            pool.entries(),
            pool.order(),
            j,
        ));
    }
}

/// The tile that the byte at offset `p` belongs to.
proof fn lemma_tile_of<const C: usize, const E: usize>(
    pool: Mempool<C, E>,
    p: int,
    n: int,
) -> (k: int)
    requires
        pool.wf(),
        0 <= n <= pool.order().len(),
        0 <= p < offset(pool.entries(), pool.order(), n),
    ensures
        0 <= k < n,
        covers(pool, pool.order()[k], p),
    decreases n,
{
    reveal(tiled);
    assert(start_of(pool.entries(), pool.order()[n - 1]) == offset(
        pool.entries(),
        pool.order(),
        n - 1,
    ));
    if p < offset(pool.entries(), pool.order(), n - 1) {
        lemma_tile_of(pool, p, n - 1)
    } else {
        assert(occupied(pool.entries(), pool.order()[n - 1]));
        n - 1
    }
}

/// No entry reaches beyond the used part of the buffer.
pub proof fn law_entries_lie_within_usage<const C: usize, const E: usize>(
    pool: Mempool<C, E>,
    s: int,
    p: int,
)
    requires
        pool.wf(),
        covers(pool, s, p),
    ensures
        0 <= p < pool.usage(),
{
    pool.lemma_entry_in_bounds(s);
}

/// The bytes of the transactions that `order` lists, one behind the other.
pub open spec fn concatenated(
    slots: Seq<Option<StoredTransaction>>,
    order: Seq<int>,
) -> Seq<u8>
    decreases order.len(),
{
    if order.len() == 0 {
        Seq::empty()
    } else {
        concatenated(slots, order.drop_last()) + slots[order.last()]->0.bytes
    }
}

/// The buffer holds the stored transactions in the order of their admission,
/// one directly behind the other, and behind them nothing but zeros.
pub proof fn law_buffer_is_the_stored_bytes<const C: usize, const E: usize>(pool: Mempool<C, E>)
    requires
        pool.wf(),
    ensures
        pool.buffer().len() == C,
        pool.buffer().subrange(0, pool.usage()) == concatenated(pool@.slots, pool@.order),
        forall|i: int| pool.usage() <= i < C ==> pool.buffer()[i] == 0,
{
    reveal(tiled);
    let n = pool.order().len() as int;
    lemma_prefix_is_stored(pool, n);
    assert(pool.order().take(n) =~= pool.order());
}

proof fn lemma_prefix_is_stored<const C: usize, const E: usize>(pool: Mempool<C, E>, k: int)
    requires
        pool.wf(),
        0 <= k <= pool.order().len(),
    ensures
        0 <= offset(pool.entries(), pool.order(), k) <= pool.usage(),
        pool.buffer().subrange(0, offset(pool.entries(), pool.order(), k)) == concatenated(
            pool@.slots,
            pool.order().take(k),
        ),
        offset(pool.entries(), pool.order(), k) == total_length(pool@.slots, pool.order().take(k)),
    decreases k,
{
    reveal(tiled);
    let entries = pool.entries();
    let order = pool.order();
    lemma_offset_monotone(entries, order, k, order.len() as int);
    if k > 0 {
        lemma_prefix_is_stored(pool, k - 1);
        let slot = order[k - 1];
        assert(occupied(entries, slot));
        pool.lemma_entry_in_bounds(slot);
        assert(start_of(entries, order[k - 1]) == offset(entries, order, k - 1));
        assert(order.take(k).drop_last() =~= order.take(k - 1));
        assert(order.take(k).last() == slot);
        assert(pool.buffer().subrange(0, offset(entries, order, k)) =~= pool.buffer().subrange(
            0,
            offset(entries, order, k - 1),
        ) + pool@.bytes(slot));
    } else {
        assert(pool.buffer().subrange(0, 0) =~= Seq::<u8>::empty());
        assert(order.take(0) =~= Seq::<int>::empty());
    }
}

/// The usage is the total length of the stored transactions.
pub proof fn law_usage_is_the_total_length<const C: usize, const E: usize>(pool: Mempool<C, E>)
    requires
        pool.wf(),
    ensures
        pool.usage() == total_length(pool@.slots, pool@.order),
{
    reveal(tiled);
    let n = pool.order().len() as int;
    lemma_prefix_is_stored(pool, n);
    assert(pool.order().take(n) =~= pool.order());
}

/// Usage and count never exceed the capacities, and the order lists each slot
/// that holds a transaction exactly once.
pub proof fn law_capacities_are_kept<const C: usize, const E: usize>(pool: Mempool<C, E>)
    requires
        pool.wf(),
    ensures
        0 <= pool.usage() <= C,
        0 <= pool.count() <= E,
        pool.count() == pool@.order.len(),
        pool@.is_consistent(),
{
    reveal(tiled);
    pool.lemma_count_within_limit();
    assert forall|s: int| pool@.order.contains(s) <==> #[trigger] pool@.holds(s) by {
        if pool@.order.contains(s) {
            let k = choose|k: int| 0 <= k < pool.order().len() && pool.order()[k] == s;
            assert(occupied(pool.entries(), pool.order()[k]));
        }
        if pool@.holds(s) {
            assert(occupied(pool.entries(), s));
        }
    }
}

} // verus!
