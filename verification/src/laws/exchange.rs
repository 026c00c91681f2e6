//! Laws of the exchange order.

use crate::top_n::TopNIter;
use crate::transaction::TransactionBody;
use vstd::prelude::*;
#[allow(unused_imports)]
use crate::laws::eligibility::parses_consistently;
#[allow(unused_imports)]
use crate::model::decodes_to;
#[allow(unused_imports)]
use crate::priority::{
    law_greater_fee_per_byte_comes_first, law_priority_is_asymmetric, precedes,
};

verus! {

/// `slots` are the slots that the calls of [`TopNIter::next`] that handed
/// something out have handed out, and `states` the iterator before the first
/// call and after each.
pub open spec fn is_offer<
    'a,
    D: Fn(&[u8]) -> Option<TransactionBody>,
    const C: usize,
    const E: usize,
>(states: Seq<TopNIter<'a, D, C, E>>, slots: Seq<int>) -> bool {
    &&& states.len() == slots.len() + 1
    &&& states[0].yielded() == Set::<int>::empty()
    &&& forall|i: int|
        #![trigger slots[i]]
        0 <= i < slots.len() ==> {
            &&& states[i].quota() > 0
            &&& states[i].is_best(slots[i])
            &&& readable(states[i], slots[i])
            &&& states[i].advanced(states[i + 1], slots[i])
        }
}

/// The bytes in the slot parsed.
pub open spec fn readable<
    'a,
    D: Fn(&[u8]) -> Option<TransactionBody>,
    const C: usize,
    const E: usize,
>(iter: TopNIter<'a, D, C, E>, slot: int) -> bool {
    exists|body: TransactionBody| #[trigger]
        decodes_to(iter.decoder(), iter.pool()@.bytes(slot), Some(body))
}

/// The state after `k` steps: the same mempool and parser, a quota smaller by
/// `k`, and the first `k` slots handed out.
pub(crate) proof fn lemma_state<
    'a,
    D: Fn(&[u8]) -> Option<TransactionBody>,
    const C: usize,
    const E: usize,
>(states: Seq<TopNIter<'a, D, C, E>>, slots: Seq<int>, k: int)
    requires
        is_offer(states, slots),
        0 <= k <= slots.len(),
    ensures
        states[k].pool() == states[0].pool(),
        states[k].decoder() == states[0].decoder(),
        states[k].quota() == states[0].quota() - k,
        states[k].yielded() == Set::new(|s: int| slots.take(k).contains(s)),
    decreases k,
{
    if k > 0 {
        lemma_state(states, slots, k - 1);
        assert(states[k - 1].advanced(states[k], slots[k - 1]));
        assert forall|s: int|
            states[k].yielded().contains(s) == slots.take(k).contains(s) by {
            if slots.take(k).contains(s) {
                let i = choose|i: int| 0 <= i < k && slots.take(k)[i] == s;
                if i < k - 1 {
                    assert(slots.take(k - 1)[i] == s);
                }
            }
            let earlier = slots.take(k - 1);
            if earlier.contains(s) {
                let i = choose|i: int| 0 <= i < earlier.len() && earlier[i] == s;
                assert(slots.take(k)[i] == s);
            }
            if s == slots[k - 1] {
                assert(slots.take(k)[k - 1] == s);
            }
        }
        assert(states[k].yielded() =~= Set::new(|s: int| slots.take(k).contains(s)));
    } else {
        assert(states[0].yielded() =~= Set::new(|s: int| slots.take(0).contains(s)));
    }
}

/// No slot is handed out twice.
pub proof fn law_offer_has_no_repeats<
    'a,
    D: Fn(&[u8]) -> Option<TransactionBody>,
    const C: usize,
    const E: usize,
>(states: Seq<TopNIter<'a, D, C, E>>, slots: Seq<int>)
    requires
        is_offer(states, slots),
    ensures
        slots.no_duplicates(),
{
    assert forall|i: int, j: int| 0 <= i < j < slots.len() implies slots[i] != slots[j] by {
        lemma_state(states, slots, j);
        assert(states[j].is_best(slots[j]));
        assert(slots.take(j)[i] == slots[i]);
    }
}

/// No more is handed out than was asked for, and only what is eligible.
pub proof fn law_offer_is_bounded<
    'a,
    D: Fn(&[u8]) -> Option<TransactionBody>,
    const C: usize,
    const E: usize,
>(states: Seq<TopNIter<'a, D, C, E>>, slots: Seq<int>)
    requires
        is_offer(states, slots),
        states[0].quota() >= 0,
    ensures
        slots.len() <= states[0].quota(),
        forall|i: int|
            0 <= i < slots.len() ==> states[0].pool()@.eligible(#[trigger] slots[i]),
{
    if slots.len() > 0 {
        lemma_state(states, slots, slots.len() - 1);
        assert(states[slots.len() - 1].is_best(slots[slots.len() - 1]));
    }
    assert forall|i: int| 0 <= i < slots.len() implies states[0].pool()@.eligible(
        #[trigger] slots[i],
    ) by {
        lemma_state(states, slots, i);
        assert(states[i].is_best(slots[i]));
    }
}

/// What is handed out descends strictly in priority, and everything eligible
/// that parses and is not handed out comes behind all of it.
pub proof fn law_offer_is_the_top_in_order<
    'a,
    D: Fn(&[u8]) -> Option<TransactionBody>,
    const C: usize,
    const E: usize,
>(states: Seq<TopNIter<'a, D, C, E>>, slots: Seq<int>)
    requires
        is_offer(states, slots),
        parses_consistently(states[0].decoder()),
    ensures
        forall|i: int, j: int|
            0 <= i < j < slots.len() ==> precedes(
                states[0].candidate(#[trigger] slots[i]),
                states[0].candidate(#[trigger] slots[j]),
            ),
        forall|i: int, t: int|
            0 <= i < slots.len() && #[trigger] states[0].pool()@.eligible(t) && !slots.contains(t)
                && !states[0].unreadable(t) ==> precedes(
                states[0].candidate(#[trigger] slots[i]),
                states[0].candidate(t),
            ),
{
    law_offer_has_no_repeats(states, slots);
    assert forall|i: int, j: int| 0 <= i < j < slots.len() implies precedes(
        states[0].candidate(#[trigger] slots[i]),
        states[0].candidate(#[trigger] slots[j]),
    ) by {
        lemma_state(states, slots, i);
        lemma_state(states, slots, j);
        assert(states[j].is_best(slots[j]) && readable(states[j], slots[j]));
        lemma_not_handed_out_earlier(slots, i, j);
        assert(states[i].available(slots[j]));
        assert(states[i].is_best(slots[i]));
    }
    assert forall|i: int, t: int|
        0 <= i < slots.len() && #[trigger] states[0].pool()@.eligible(t) && !slots.contains(t)
            && !states[0].unreadable(t) implies precedes(
        states[0].candidate(#[trigger] slots[i]),
        states[0].candidate(t),
    ) by {
        lemma_state(states, slots, i);
        if slots.take(i).contains(t) {
            let k = choose|k: int| 0 <= k < i && slots.take(i)[k] == t;
            assert(slots[k] == t);
        }
        assert(states[i].available(t));
        assert(states[i].is_best(slots[i]));
    }
}

/// Along an offer the fee per byte never rises, and nothing eligible that parses
/// and is not handed out has a greater one than anything that is.
pub proof fn law_offer_descends_in_fee_per_byte<
    'a,
    D: Fn(&[u8]) -> Option<TransactionBody>,
    const C: usize,
    const E: usize,
>(states: Seq<TopNIter<'a, D, C, E>>, slots: Seq<int>)
    requires
        states[0].pool().wf(),
        is_offer(states, slots),
        parses_consistently(states[0].decoder()),
    ensures
        forall|i: int, j: int|
            #![trigger slots[i], slots[j]]
            0 <= i < j < slots.len() ==> {
                let (e, f) = (
                    states[0].pool().entries()[slots[i]]->0,
                    states[0].pool().entries()[slots[j]]->0,
                );
                e.transaction_fee * f.length >= f.transaction_fee * e.length
            },
        forall|i: int, t: int|
            #![trigger slots[i], states[0].pool().entries()[t]]
            0 <= i < slots.len() && 0 <= t < E && states[0].pool().entries()[t] is Some
                && !states[0].pool().entries()[t]->0.is_deferred && !slots.contains(t)
                && !states[0].unreadable(t) ==> {
                let (e, f) = (
                    states[0].pool().entries()[slots[i]]->0,
                    states[0].pool().entries()[t]->0,
                );
                e.transaction_fee * f.length >= f.transaction_fee * e.length
            },
{
    let first = states[0];
    let pool = first.pool();
    law_offer_is_the_top_in_order(states, slots);
    assert forall|i: int| 0 <= i < slots.len() implies pool@.eligible(#[trigger] slots[i]) by {
        lemma_state(states, slots, i);
        assert(states[i].is_best(slots[i]));
    }
    assert forall|i: int, j: int|
        #![trigger slots[i], slots[j]]
        0 <= i < j < slots.len() implies {
        let (e, f) = (pool.entries()[slots[i]]->0, pool.entries()[slots[j]]->0);
        e.transaction_fee * f.length >= f.transaction_fee * e.length
    } by {
        assert(pool@.eligible(slots[i]) && pool@.eligible(slots[j]));
        lemma_earlier_pays_no_less(first, slots[i], slots[j]);
    }
    assert forall|i: int, t: int|
        #![trigger slots[i], pool.entries()[t]]
        0 <= i < slots.len() && 0 <= t < E && pool.entries()[t] is Some
            && !pool.entries()[t]->0.is_deferred && !slots.contains(t) && !first.unreadable(
            t,
        ) implies {
        let (e, f) = (pool.entries()[slots[i]]->0, pool.entries()[t]->0);
        e.transaction_fee * f.length >= f.transaction_fee * e.length
    } by {
        assert(pool@.eligible(slots[i]) && pool@.eligible(t));
        lemma_earlier_pays_no_less(first, slots[i], t);
    }
}

/// What comes first pays no less per byte.
proof fn lemma_earlier_pays_no_less<
    'a,
    D: Fn(&[u8]) -> Option<TransactionBody>,
    const C: usize,
    const E: usize,
>(iter: TopNIter<'a, D, C, E>, s: int, t: int)
    requires
        iter.pool().wf(),
        iter.pool()@.eligible(s),
        iter.pool()@.eligible(t),
        precedes(iter.candidate(s), iter.candidate(t)),
    ensures
        iter.pool().entries()[s]->0.transaction_fee * iter.pool().entries()[t]->0.length
            >= iter.pool().entries()[t]->0.transaction_fee * iter.pool().entries()[s]->0.length,
{
    iter.pool().lemma_entry_in_bounds(s);
    iter.pool().lemma_entry_in_bounds(t);
    let (a, b) = (iter.candidate(s), iter.candidate(t));
    if b.fee * a.length > a.fee * b.length {
        law_greater_fee_per_byte_comes_first(b, a);
    }
}

/// What is handed out later is not among what was handed out before.
proof fn lemma_not_handed_out_earlier(slots: Seq<int>, i: int, j: int)
    requires
        slots.no_duplicates(),
        0 <= i <= j < slots.len(),
    ensures
        !slots.take(i).contains(slots[j]),
{
    if slots.take(i).contains(slots[j]) {
        let k = choose|k: int| 0 <= k < i && slots.take(i)[k] == slots[j];
        assert(slots[k] == slots[j]);
    }
}

/// An offer that ends before its quota is used up has handed out every eligible
/// transaction that parses.
pub proof fn law_short_offer_is_complete<
    'a,
    D: Fn(&[u8]) -> Option<TransactionBody>,
    const C: usize,
    const E: usize,
>(states: Seq<TopNIter<'a, D, C, E>>, slots: Seq<int>, t: int)
    requires
        is_offer(states, slots),
        forall|s: int| #[trigger]
            states[slots.len() as int].available(s) ==> states[slots.len() as int].unreadable(s),
        states[0].pool()@.eligible(t),
        !states[0].unreadable(t),
    ensures
        slots.contains(t),
{
    let n = slots.len() as int;
    lemma_state(states, slots, n);
    assert(slots.take(n) =~= slots);
    if !slots.contains(t) {
        assert(states[n].available(t));
    }
}

/// The offer is deterministic: two walks over the same mempool with the same
/// parser hand out the same slots, as far as both have come.
pub proof fn law_offer_is_deterministic<
    'a,
    D: Fn(&[u8]) -> Option<TransactionBody>,
    const C: usize,
    const E: usize,
>(
    states: Seq<TopNIter<'a, D, C, E>>,
    slots: Seq<int>,
    states2: Seq<TopNIter<'a, D, C, E>>,
    slots2: Seq<int>,
    k: int,
)
    requires
        is_offer(states, slots),
        is_offer(states2, slots2),
        states2[0].pool() == states[0].pool(),
        states2[0].decoder() == states[0].decoder(),
        parses_consistently(states[0].decoder()),
        0 <= k <= slots.len(),
        k <= slots2.len(),
    ensures
        slots.take(k) == slots2.take(k),
    decreases k,
{
    if k > 0 {
        law_offer_is_deterministic(states, slots, states2, slots2, k - 1);
        lemma_state(states, slots, k - 1);
        lemma_state(states2, slots2, k - 1);
        let s = slots[k - 1];
        let t = slots2[k - 1];
        let a = states[k - 1];
        let b = states2[k - 1];
        assert(a.is_best(s) && readable(a, s));
        assert(b.is_best(t) && readable(b, t));
        if s != t {
            assert(a.available(t) && b.available(s));
            assert(precedes(a.candidate(s), a.candidate(t)));
            assert(precedes(b.candidate(t), b.candidate(s)));
            law_priority_is_asymmetric(a.candidate(s), a.candidate(t));
        }
        assert(slots.take(k) =~= slots.take(k - 1).push(s));
        assert(slots2.take(k) =~= slots2.take(k - 1).push(t));
    } else {
        assert(slots.take(0) =~= slots2.take(0));
    }
}

} // verus!
