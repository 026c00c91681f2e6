//! Closing the gaps that removed entries leave in the buffer.

use crate::index::IndexEntry;
use vstd::prelude::*;
#[allow(unused_imports)]
use crate::buffer::overwritten;
#[allow(unused_imports)]
use crate::layout::{
    lemma_offset_below_start, lemma_offset_congruent, lemma_offset_monotone,
    lemma_tiled_is_spaced, length_of, occupied, occupied_count, offset, spaced, start_of, tiled,
};
#[allow(unused_imports)]
use crate::model::stored_in;

verus! {

/// The entry in slot `t` starts behind `last`.
pub(crate) open spec fn starts_behind(
    entries: Seq<Option<IndexEntry>>,
    last: Option<u16>,
    t: int,
) -> bool {
    occupied(entries, t) && (last matches Some(l) ==> start_of(entries, t) > l)
}

/// Among the entries that start behind `last`, the slot of one that starts first.
pub(crate) fn next_behind<const N: usize>(
    index: &[Option<IndexEntry>; N],
    last: Option<u16>,
) -> (next: Option<usize>)
    ensures
        match next {
            Some(s) => {
                &&& starts_behind(index@, last, s as int)
                &&& forall|t: int| #[trigger]
                    starts_behind(index@, last, t) ==> start_of(index@, s as int) <= start_of(
                        index@,
                        t,
                    )
            },
            None => forall|t: int| #[trigger]
                starts_behind(index@, last, t) ==> start_of(index@, t) == u16::MAX,
        },
{
    let mut next_slot: Option<usize> = None;
    let mut next_start: u16 = u16::MAX;
    let mut slot: usize = 0;
    while slot < N
        invariant
            slot <= N,
            match next_slot {
                Some(s) => {
                    &&& starts_behind(index@, last, s as int)
                    &&& start_of(index@, s as int) == next_start
                    &&& next_start < u16::MAX
                },
                None => next_start == u16::MAX,
            },
            forall|t: int|
                t < slot && #[trigger] starts_behind(index@, last, t) ==> next_start <= start_of(
                    index@,
                    t,
                ),
        decreases N - slot,
    {
        if let Some(entry) = index[slot] {
            let passed = match last {
                Some(l) => entry.start <= l,
                None => false,
            };
            if !passed && entry.start < next_start {
                next_start = entry.start;
                next_slot = Some(slot);
            }
        }
        slot += 1;
    }
    next_slot
}

/// The number of occupied slots.
pub(crate) fn count_occupied<const N: usize>(index: &[Option<IndexEntry>; N]) -> (count: usize)
    ensures
        count == occupied_count(index@, N as int),
        count <= N,
{
    let mut count: usize = 0;
    let mut slot: usize = 0;
    while slot < N
        invariant
            slot <= N,
            count <= slot,
            count == occupied_count(index@, slot as int),
        decreases N - slot,
    {
        if index[slot].is_some() {
            count += 1;
        }
        slot += 1;
    }
    count
}

/// Entry `e` moved to offset `start`.
pub(crate) open spec fn moved(e: Option<IndexEntry>, start: int) -> Option<IndexEntry> {
    Some(IndexEntry { start: start as u16, ..e->0 })
}

/// The index while the buffer is being compacted: the first `k` entries of
/// `order` have moved down to their offsets, the others are as they were.
#[verifier::opaque]
pub(crate) open spec fn index_moved(
    before: Seq<Option<IndexEntry>>,
    order: Seq<int>,
    k: int,
    now: Seq<Option<IndexEntry>>,
) -> bool {
    &&& now.len() == before.len()
    &&& forall|s: int| 0 <= s < now.len() && before[s] is None ==> #[trigger] now[s] is None
    &&& forall|j: int|
        0 <= j < k ==> now[#[trigger] order[j]] == moved(before[order[j]], offset(before, order, j))
    &&& forall|j: int| k <= j < order.len() ==> now[#[trigger] order[j]] == before[order[j]]
}

/// The buffer while it is being compacted: the bytes of the first `k` entries
/// lie at their offsets, and from there on nothing has changed.
#[verifier::opaque]
pub(crate) open spec fn buffer_moved(
    entries: Seq<Option<IndexEntry>>,
    before: Seq<u8>,
    order: Seq<int>,
    k: int,
    now: Seq<u8>,
) -> bool {
    &&& now.len() == before.len()
    &&& forall|p: int| offset(entries, order, k) <= p < now.len() ==> #[trigger] now[p] == before[p]
    &&& forall|j: int|
        0 <= j < k ==> now.subrange(
            offset(entries, order, j),
            offset(entries, order, j) + length_of(entries, #[trigger] order[j]),
        ) == before.subrange(
            start_of(entries, order[j]),
            start_of(entries, order[j]) + length_of(entries, order[j]),
        )
}

/// Before the first move nothing has moved.
pub(crate) proof fn lemma_none_moved(
    entries: Seq<Option<IndexEntry>>,
    buffer: Seq<u8>,
    order: Seq<int>,
)
    ensures
        index_moved(entries, order, 0, entries),
        buffer_moved(entries, buffer, order, 0, buffer),
{
    reveal(index_moved);
    reveal(buffer_moved);
}

/// While the buffer is being compacted, the entry that starts first behind the
/// last one moved is the next one of the order.
pub(crate) proof fn lemma_next_is_next_in_order(
    before: Seq<Option<IndexEntry>>,
    order: Seq<int>,
    usage: int,
    k: int,
    now: Seq<Option<IndexEntry>>,
    last: Option<u16>,
)
    requires
        spaced(before, order, usage),
        usage <= u16::MAX,
        0 <= k < order.len(),
        index_moved(before, order, k, now),
        last == (if k == 0 {
            None
        } else {
            Some(before[order[k - 1]]->0.start)
        }),
    ensures
        now.len() == before.len(),
        now[order[k]] == before[order[k]],
        starts_behind(now, last, order[k]),
        start_of(now, order[k]) < u16::MAX,
        forall|t: int| #[trigger]
            starts_behind(now, last, t) && t != order[k] ==> start_of(now, order[k]) < start_of(
                now,
                t,
            ),
{
    reveal(index_moved);
    let slot = order[k];
    assert(occupied(before, slot));
    assert(start_of(before, slot) + length_of(before, slot) <= usage);
    if k > 0 {
        assert(occupied(before, order[k - 1]));
        assert(start_of(before, order[k - 1]) + length_of(before, order[k - 1]) <= start_of(
            before,
            slot,
        ));
    }
    assert forall|t: int| #[trigger] starts_behind(now, last, t) && t != slot implies start_of(
        now,
        slot,
    ) < start_of(now, t) by {
        assert(before[t] is Some);
        assert(occupied(before, t));
        let j = choose|j: int| 0 <= j < order.len() && order[j] == t;
        assert(order[j] == t);
        if j < k {
            lemma_offset_below_start(before, order, usage, j);
            assert(start_of(before, order[j]) + length_of(before, order[j]) <= usage);
            assert(start_of(now, t) <= start_of(before, t));
            if j < k - 1 {
                assert(start_of(before, order[j]) + length_of(before, order[j]) <= start_of(
                    before,
                    order[k - 1],
                ));
            }
            assert(false);
        } else {
            assert(start_of(before, order[k]) + length_of(before, order[k]) <= start_of(
                before,
                order[j],
            ));
        }
    }
}

/// Moving one more entry down keeps the account of moved index entries.
pub(crate) proof fn lemma_index_step(
    before: Seq<Option<IndexEntry>>,
    order: Seq<int>,
    usage: int,
    k: int,
    now: Seq<Option<IndexEntry>>,
)
    requires
        spaced(before, order, usage),
        0 <= k < order.len(),
        index_moved(before, order, k, now),
    ensures
        index_moved(
            before,
            order,
            k + 1,
            now.update(order[k], moved(before[order[k]], offset(before, order, k))),
        ),
{
    reveal(index_moved);
    let next = now.update(order[k], moved(before[order[k]], offset(before, order, k)));
    assert(occupied(before, order[k]));
    assert forall|j: int| 0 <= j < order.len() && j != k implies next[#[trigger] order[j]]
        == now[order[j]] by {
        assert(occupied(before, order[j]));
        assert(order[j] != order[k]);
    }
}

/// Moving the bytes of one more entry down keeps the account of moved bytes.
pub(crate) proof fn lemma_buffer_step(
    entries: Seq<Option<IndexEntry>>,
    before: Seq<u8>,
    order: Seq<int>,
    usage: int,
    k: int,
    now: Seq<u8>,
)
    requires
        spaced(entries, order, usage),
        usage <= before.len(),
        0 <= k < order.len(),
        buffer_moved(entries, before, order, k, now),
    ensures
        ({
            let start = start_of(entries, order[k]);
            let length = length_of(entries, order[k]);
            buffer_moved(
                entries,
                before,
                order,
                k + 1,
                overwritten(now, offset(entries, order, k), now.subrange(start, start + length)),
            )
        }),
{
    reveal(buffer_moved);
    let start = start_of(entries, order[k]);
    let length = length_of(entries, order[k]);
    let to = offset(entries, order, k);
    let next = overwritten(now, to, now.subrange(start, start + length));
    lemma_offset_below_start(entries, order, usage, k);
    assert(start + length <= usage);
    assert forall|j: int| 0 <= j < k + 1 implies next.subrange(
        offset(entries, order, j),
        offset(entries, order, j) + length_of(entries, #[trigger] order[j]),
    ) == before.subrange(
        start_of(entries, order[j]),
        start_of(entries, order[j]) + length_of(entries, order[j]),
    ) by {
        let at = offset(entries, order, j);
        let n = length_of(entries, order[j]);
        assert(start_of(entries, order[j]) + n <= usage);
        if j < k {
            lemma_offset_monotone(entries, order, j, k);
            assert(next.subrange(at, at + n) =~= now.subrange(at, at + n));
        } else {
            assert(next.subrange(at, at + n) =~= before.subrange(start, start + n));
        }
    }
}

/// When every entry has moved, the entries tile the buffer, and each slot
/// stands for what it stood for.
pub(crate) proof fn lemma_all_moved(
    entries: Seq<Option<IndexEntry>>,
    before: Seq<u8>,
    order: Seq<int>,
    usage: int,
    now_entries: Seq<Option<IndexEntry>>,
    now: Seq<u8>,
)
    requires
        spaced(entries, order, usage),
        0 <= usage <= before.len(),
        usage <= u16::MAX,
        index_moved(entries, order, order.len() as int, now_entries),
        buffer_moved(entries, before, order, order.len() as int, now),
    ensures
        tiled(now_entries, order, offset(entries, order, order.len() as int)),
        now_entries.len() == entries.len(),
        now.len() == before.len(),
        0 <= offset(entries, order, order.len() as int) <= usage,
        forall|p: int| usage <= p < now.len() ==> now[p] == before[p],
        forall|s: int|
            0 <= s < entries.len() ==> stored_in(#[trigger] now_entries[s], now) == stored_in(
                entries[s],
                before,
            ),
{
    reveal(tiled);
    reveal(index_moved);
    reveal(buffer_moved);
    let n = order.len() as int;
    assert forall|j: int| 0 <= j < n implies {
        &&& now_entries[#[trigger] order[j]] == moved(entries[order[j]], offset(entries, order, j))
        &&& start_of(now_entries, order[j]) == offset(entries, order, j)
        &&& length_of(now_entries, order[j]) == length_of(entries, order[j])
        &&& stored_in(now_entries[order[j]], now) == stored_in(entries[order[j]], before)
        &&& occupied(now_entries, order[j])
    } by {
        assert(occupied(entries, order[j]));
        lemma_offset_below_start(entries, order, usage, j);
        assert(start_of(entries, order[j]) + length_of(entries, order[j]) <= usage);
        let at = offset(entries, order, j);
        let len = length_of(entries, order[j]);
        assert(now.subrange(at, at + len) == before.subrange(
            start_of(entries, order[j]),
            start_of(entries, order[j]) + len,
        ));
    }
    lemma_offset_monotone(entries, order, 0, n);
    if n > 0 {
        lemma_offset_below_start(entries, order, usage, n - 1);
        assert(start_of(entries, order[n - 1]) + length_of(entries, order[n - 1]) <= usage);
    }
    assert forall|s: int| #[trigger] occupied(now_entries, s) implies order.contains(s)
        && length_of(now_entries, s) > 0 by {
        assert(entries[s] is Some);
        assert(occupied(entries, s));
        let j = choose|j: int| 0 <= j < n && order[j] == s;
        assert(length_of(now_entries, order[j]) == length_of(entries, order[j]));
    }
    assert forall|s: int| 0 <= s < entries.len() implies stored_in(#[trigger] now_entries[s], now)
        == stored_in(entries[s], before) by {
        if entries[s] is Some {
            assert(occupied(entries, s));
            let j = choose|j: int| 0 <= j < n && order[j] == s;
            assert(stored_in(now_entries[order[j]], now) == stored_in(entries[order[j]], before));
        }
    }
    assert forall|k: int| 0 <= k <= n implies offset(now_entries, order, k) == #[trigger] offset(
        entries,
        order,
        k,
    ) by {
        lemma_offset_congruent(now_entries, order, entries, order, k);
    }
    assert(offset(now_entries, order, n) == offset(entries, order, n));
    assert forall|k: int| 0 <= k < n implies start_of(now_entries, #[trigger] order[k]) == offset(
        now_entries,
        order,
        k,
    ) by {
        assert(offset(now_entries, order, k) == offset(entries, order, k));
    }
}

/// What the slots stand for does not depend on the bytes behind the usage.
pub(crate) proof fn lemma_tail_does_not_matter(
    entries: Seq<Option<IndexEntry>>,
    order: Seq<int>,
    usage: int,
    buffer: Seq<u8>,
    buffer2: Seq<u8>,
)
    requires
        tiled(entries, order, usage),
        usage <= buffer.len(),
        usage <= buffer2.len(),
        forall|i: int| 0 <= i < usage ==> buffer[i] == buffer2[i],
    ensures
        forall|s: int|
            0 <= s < entries.len() ==> stored_in(#[trigger] entries[s], buffer) == stored_in(
                entries[s],
                buffer2,
            ),
{
    reveal(tiled);
    lemma_tiled_is_spaced(entries, order, usage);
    assert forall|s: int| 0 <= s < entries.len() implies stored_in(#[trigger] entries[s], buffer)
        == stored_in(entries[s], buffer2) by {
        if entries[s] is Some {
            assert(occupied(entries, s));
            let j = choose|j: int| 0 <= j < order.len() && order[j] == s;
            assert(start_of(entries, order[j]) + length_of(entries, order[j]) <= usage);
            let e = entries[s]->0;
            assert(buffer.subrange(e.start as int, e.start + e.length) =~= buffer2.subrange(
                e.start as int,
                e.start + e.length,
            ));
        }
    }
}

} // verus!
