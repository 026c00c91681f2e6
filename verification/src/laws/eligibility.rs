//! Laws of eligibility: rechecking it, and walking the eligible transactions.

use crate::eligible::EligibleIter;
use crate::transaction::TransactionBody;
use vstd::prelude::*;
#[allow(unused_imports)]
use crate::model::{
    decodes_to, deferral, recheck, rechecked, slot_rechecked, MempoolView, StoredTransaction,
};
#[allow(unused_imports)]
use crate::transaction::BodyView;

verus! {

/// The same bytes always parse to the same body, or never parse.
pub open spec fn parses_consistently<D: Fn(&[u8]) -> Option<TransactionBody>>(decode: D) -> bool {
    forall|bytes: Seq<u8>, b1: Option<TransactionBody>, b2: Option<TransactionBody>| #[trigger]
        decodes_to(decode, bytes, b1) && #[trigger] decodes_to(decode, bytes, b2) ==> {
            &&& (b1 is Some) == (b2 is Some)
            &&& b1 is Some ==> b1->0@ == b2->0@
        }
}

/// The balance of a node is always the same.
pub open spec fn balances_are_fixed<F: FnMut(u32) -> u64>(balance_check: F) -> bool {
    forall|node: u32, b1: u64, b2: u64| #[trigger]
        call_ensures(balance_check, (node,), b1) && #[trigger] call_ensures(
            balance_check,
            (node,),
            b2,
        ) ==> b1 == b2
}

/// A recheck changes nothing but deferral flags: it keeps what every slot
/// holds and the order.
pub proof fn law_recheck_keeps_contents<
    D: Fn(&[u8]) -> Option<TransactionBody>,
    F: FnMut(u32) -> u64,
>(before: MempoolView, after: MempoolView, decode: D, balance_check: F, slot: int)
    requires
        recheck(before, after, decode, balance_check),
    ensures
        after.order == before.order,
        after.holds(slot) == before.holds(slot),
        after.holds(slot) ==> after.slots[slot]->0 == (StoredTransaction {
            is_deferred: after.slots[slot]->0.is_deferred,
            ..before.slots[slot]->0
        }),
{
    if 0 <= slot < before.slots.len() {
        assert(slot_rechecked(before.slots[slot], after.slots[slot], decode, balance_check));
    }
}

/// With the same balances a second recheck changes nothing.
pub proof fn law_recheck_is_idempotent<
    D: Fn(&[u8]) -> Option<TransactionBody>,
    F: FnMut(u32) -> u64,
>(before: MempoolView, once: MempoolView, twice: MempoolView, decode: D, balance_check: F)
    requires
        parses_consistently(decode),
        balances_are_fixed(balance_check),
        recheck(before, once, decode, balance_check),
        recheck(once, twice, decode, balance_check),
    ensures
        twice == once,
{
    assert forall|s: int| 0 <= s < once.slots.len() implies twice.slots[s] == once.slots[s] by {
        assert(slot_rechecked(before.slots[s], once.slots[s], decode, balance_check));
        assert(slot_rechecked(once.slots[s], twice.slots[s], decode, balance_check));
        if before.slots[s] is Some {
            lemma_flag_is_fixed(
                before.slots[s]->0,
                once.slots[s]->0,
                once.slots[s]->0,
                twice.slots[s]->0,
                decode,
                balance_check,
            );
        }
    }
    assert(twice =~= once);
}

/// Where the bytes parse, the flag that a recheck gives does not depend on the
/// flag before.
pub proof fn law_recheck_forgets_the_flag<
    D: Fn(&[u8]) -> Option<TransactionBody>,
    F: FnMut(u32) -> u64,
>(
    a: StoredTransaction,
    b: StoredTransaction,
    after_a: StoredTransaction,
    after_b: StoredTransaction,
    decode: D,
    balance_check: F,
)
    requires
        parses_consistently(decode),
        balances_are_fixed(balance_check),
        !decodes_to(decode, a.bytes, None),
        b == (StoredTransaction { is_deferred: b.is_deferred, ..a }),
        rechecked(a, after_a, decode, balance_check),
        rechecked(b, after_b, decode, balance_check),
    ensures
        after_a == after_b,
{
    lemma_flag_is_fixed(a, after_a, b, after_b, decode, balance_check);
}

/// Two rechecks of the same transaction give the same flag, where the bytes
/// parse or the second starts from the flag that the first gave.
proof fn lemma_flag_is_fixed<D: Fn(&[u8]) -> Option<TransactionBody>, F: FnMut(u32) -> u64>(
    a: StoredTransaction,
    after_a: StoredTransaction,
    b: StoredTransaction,
    after_b: StoredTransaction,
    decode: D,
    balance_check: F,
)
    requires
        parses_consistently(decode),
        balances_are_fixed(balance_check),
        b == (StoredTransaction { is_deferred: b.is_deferred, ..a }),
        rechecked(a, after_a, decode, balance_check),
        rechecked(b, after_b, decode, balance_check),
        !decodes_to(decode, a.bytes, None) || b.is_deferred == after_a.is_deferred,
    ensures
        after_a == after_b,
{
    let fee = a.transaction_fee;
    let body_a = choose|body: Option<TransactionBody>|
        #[trigger] decodes_to(decode, a.bytes, body) && match body {
            Some(x) => deferral(x@, fee, balance_check, after_a.is_deferred),
            None => after_a.is_deferred == a.is_deferred,
        };
    let body_b = choose|body: Option<TransactionBody>|
        #[trigger] decodes_to(decode, b.bytes, body) && match body {
            Some(x) => deferral(x@, fee, balance_check, after_b.is_deferred),
            None => after_b.is_deferred == b.is_deferred,
        };
    assert(decodes_to(decode, a.bytes, body_a) && decodes_to(decode, a.bytes, body_b));
    assert(after_a.is_deferred == after_b.is_deferred);
}

/// After a recheck a stored node transfer or registration is deferred exactly
/// where the balance of its initializer is smaller than the price and the stored
/// fee together, whoever owns it and whatever its flag was. A stored transaction
/// of any other kind is not deferred.
pub proof fn law_recheck_follows_the_balance<
    D: Fn(&[u8]) -> Option<TransactionBody>,
    F: FnMut(u32) -> u64,
>(
    before: MempoolView,
    after: MempoolView,
    decode: D,
    balance_check: F,
    slot: int,
    bytes: &[u8],
    body: TransactionBody,
    balance: u64,
)
    requires
        parses_consistently(decode),
        balances_are_fixed(balance_check),
        recheck(before, after, decode, balance_check),
        0 <= slot < before.slots.len(),
        before.slots[slot] is Some,
        bytes@ == before.slots[slot]->0.bytes,
        call_ensures(decode, (bytes,), Some(body)),
    ensures
        after.slots[slot] is Some,
        match body {
            TransactionBody::NodeTransfer { initializer, amount, .. } => call_ensures(
                balance_check,
                (initializer,),
                balance,
            ) ==> after.slots[slot]->0.is_deferred == (balance < amount
                + before.slots[slot]->0.transaction_fee),
            TransactionBody::Registration { initializer, registration_price } => call_ensures(
                balance_check,
                (initializer,),
                balance,
            ) ==> after.slots[slot]->0.is_deferred == (balance < registration_price
                + before.slots[slot]->0.transaction_fee),
            TransactionBody::Complex { .. } => !after.slots[slot]->0.is_deferred,
            TransactionBody::Unrecognized => !after.slots[slot]->0.is_deferred,
        },
{
    assert(slot_rechecked(before.slots[slot], after.slots[slot], decode, balance_check));
    let (b, a) = (before.slots[slot]->0, after.slots[slot]->0);
    assert(decodes_to(decode, b.bytes, Some(body)));
    let other = choose|other: Option<TransactionBody>|
        #[trigger] decodes_to(decode, b.bytes, other) && match other {
            Some(x) => deferral(x@, b.transaction_fee, balance_check, a.is_deferred),
            None => a.is_deferred == b.is_deferred,
        };
    assert(other is Some && other->0@ == body@);
    assert(deferral(body@, b.transaction_fee, balance_check, a.is_deferred));
}

/// Where the bytes of a stored transaction do not parse, a recheck leaves its
/// flag.
pub proof fn law_recheck_leaves_what_does_not_parse<
    D: Fn(&[u8]) -> Option<TransactionBody>,
    F: FnMut(u32) -> u64,
>(
    before: MempoolView,
    after: MempoolView,
    decode: D,
    balance_check: F,
    slot: int,
    bytes: &[u8],
)
    requires
        parses_consistently(decode),
        recheck(before, after, decode, balance_check),
        0 <= slot < before.slots.len(),
        before.slots[slot] is Some,
        bytes@ == before.slots[slot]->0.bytes,
        call_ensures(decode, (bytes,), None),
    ensures
        after.slots[slot] is Some,
        after.slots[slot]->0.is_deferred == before.slots[slot]->0.is_deferred,
{
    assert(slot_rechecked(before.slots[slot], after.slots[slot], decode, balance_check));
    assert(decodes_to(decode, before.slots[slot]->0.bytes, None));
}

/// A complex transaction is never deferred by a recheck.
pub proof fn law_complex_is_always_eligible<F: FnMut(u32) -> u64>(
    body: BodyView,
    fee: u64,
    balance_check: F,
    deferred: bool,
)
    requires
        body is Complex,
        deferral(body, fee, balance_check, deferred),
    ensures
        !deferred,
{
}

/// A node transfer or registration is deferred exactly where the balance of its
/// initializer is smaller than the price and the fee together.
pub proof fn law_eligible_iff_covered<F: FnMut(u32) -> u64>(
    body: BodyView,
    fee: u64,
    balance_check: F,
    balance: u64,
    deferred: bool,
)
    requires
        balances_are_fixed(balance_check),
        deferral(body, fee, balance_check, deferred),
    ensures
        body matches BodyView::NodeTransfer { initializer, amount, .. } ==> call_ensures(
            balance_check,
            (initializer,),
            balance,
        ) ==> deferred == (balance < amount + fee),
        body matches BodyView::Registration { initializer, registration_price } ==> call_ensures(
            balance_check,
            (initializer,),
            balance,
        ) ==> deferred == (balance < registration_price + fee),
{
}

/// `slots` are the slots that repeated calls of [`EligibleIter::next`] visit,
/// and `states` the iterator before the first call and after each.
pub open spec fn is_walk<
    'a,
    D: Fn(&[u8]) -> Option<TransactionBody>,
    const C: usize,
    const E: usize,
>(states: Seq<EligibleIter<'a, D, C, E>>, slots: Seq<int>) -> bool {
    &&& states.len() == slots.len() + 1
    &&& states[0].position() == 0
    &&& forall|i: int| 0 <= i < states.len() ==> (#[trigger] states[i]).pool() == states[0].pool()
    &&& forall|i: int|
        0 <= i < slots.len() ==> states[i].is_next(#[trigger] slots[i]) && states[i
            + 1].position() == slots[i] + 1
}

/// A walk goes strictly upwards through the slots and meets no slot that is not
/// eligible. Behind it no eligible slot is left out.
pub proof fn law_walk_meets_each_eligible_slot<
    'a,
    D: Fn(&[u8]) -> Option<TransactionBody>,
    const C: usize,
    const E: usize,
>(states: Seq<EligibleIter<'a, D, C, E>>, slots: Seq<int>)
    requires
        is_walk(states, slots),
    ensures
        forall|i: int, j: int|
            0 <= i < j < slots.len() ==> #[trigger] slots[i] < #[trigger] slots[j],
        forall|s: int|
            0 <= s < states[slots.len() as int].position() ==> (slots.contains(s)
                <==> #[trigger] states[0].pool()@.eligible(s)),
    decreases slots.len(),
{
    if slots.len() > 0 {
        let n = slots.len() as int;
        let fewer = slots.drop_last();
        let before = states.drop_last();
        assert(is_walk(before, fewer)) by {
            assert forall|i: int| 0 <= i < before.len() implies (#[trigger] before[i]).pool()
                == before[0].pool() by {
                assert(states[i].pool() == states[0].pool());
            }
            assert forall|i: int| 0 <= i < fewer.len() implies before[i].is_next(
                #[trigger] fewer[i],
            ) && before[i + 1].position() == fewer[i] + 1 by {
                assert(states[i].is_next(slots[i]));
            }
        }
        law_walk_meets_each_eligible_slot(before, fewer);
        assert(states[n - 1].is_next(slots[n - 1]));
        assert(states[n - 1].pool() == states[0].pool());
        assert forall|i: int| 0 <= i < n - 1 implies #[trigger] slots[i] < slots[n - 1] by {
            lemma_walk_is_behind(before, fewer, i);
            assert(fewer[i] == slots[i]);
        }
        assert forall|i: int, j: int| 0 <= i < j < slots.len() implies #[trigger] slots[i]
            < #[trigger] slots[j] by {
            if j < n - 1 {
                assert(fewer[i] < fewer[j]);
            }
        }
        assert forall|s: int| 0 <= s < states[n].position() implies (slots.contains(s)
            <==> #[trigger] states[0].pool()@.eligible(s)) by {
            let p = states[n - 1].position();
            if s < p {
                assert(fewer.contains(s) <==> before[0].pool()@.eligible(s));
                if fewer.contains(s) {
                    let k = choose|k: int| 0 <= k < fewer.len() && fewer[k] == s;
                    assert(slots[k] == s);
                }
                if slots.contains(s) {
                    let k = choose|k: int| 0 <= k < slots.len() && slots[k] == s;
                    assert(k < n - 1);
                    assert(fewer[k] == s);
                }
            } else if s < slots[n - 1] {
                assert(!states[n - 1].pool()@.eligible(s));
                if slots.contains(s) {
                    let k = choose|k: int| 0 <= k < slots.len() && slots[k] == s;
                    lemma_walk_is_behind(before, fewer, k);
                    assert(fewer[k] == slots[k]);
                }
            } else {
                assert(slots[n - 1] == s);
            }
        }
    }
}

/// Every slot visited so far lies below the position.
proof fn lemma_walk_is_behind<
    'a,
    D: Fn(&[u8]) -> Option<TransactionBody>,
    const C: usize,
    const E: usize,
>(states: Seq<EligibleIter<'a, D, C, E>>, slots: Seq<int>, i: int)
    requires
        is_walk(states, slots),
        0 <= i < slots.len(),
    ensures
        slots[i] < states[slots.len() as int].position(),
    decreases slots.len() - i,
{
    lemma_positions_grow(states, slots, i + 1, slots.len() as int);
    assert(states[i].is_next(slots[i]));
}

/// The position never goes back.
proof fn lemma_positions_grow<
    'a,
    D: Fn(&[u8]) -> Option<TransactionBody>,
    const C: usize,
    const E: usize,
>(states: Seq<EligibleIter<'a, D, C, E>>, slots: Seq<int>, i: int, j: int)
    requires
        is_walk(states, slots),
        0 <= i <= j <= slots.len(),
    ensures
        states[i].position() <= states[j].position(),
    decreases j - i,
{
    if i < j {
        lemma_positions_grow(states, slots, i, j - 1);
        assert(states[j - 1].is_next(slots[j - 1]));
    }
}

/// A walk that finds nothing more has met every eligible slot, in ascending
/// order and each once.
pub proof fn law_finished_walk_is_complete<
    'a,
    D: Fn(&[u8]) -> Option<TransactionBody>,
    const C: usize,
    const E: usize,
>(states: Seq<EligibleIter<'a, D, C, E>>, slots: Seq<int>)
    requires
        is_walk(states, slots),
        forall|j: int|
            states[slots.len() as int].position() <= j ==> !#[trigger] states[slots.len() as
                int].pool()@.eligible(j),
    ensures
        forall|i: int, j: int|
            0 <= i < j < slots.len() ==> #[trigger] slots[i] < #[trigger] slots[j],
        forall|s: int| slots.contains(s) <==> #[trigger] states[0].pool()@.eligible(s),
{
    let last = states[slots.len() as int];
    law_walk_meets_each_eligible_slot(states, slots);
    assert(last.pool() == states[0].pool());
    assert forall|s: int| slots.contains(s) <==> #[trigger] states[0].pool()@.eligible(s) by {
        if s >= last.position() {
            assert(!last.pool()@.eligible(s));
            if slots.contains(s) {
                let k = choose|k: int| 0 <= k < slots.len() && slots[k] == s;
                lemma_walk_is_behind(states, slots, k);
            }
        } else if slots.contains(s) {
            let k = choose|k: int| 0 <= k < slots.len() && slots[k] == s;
            assert(states[k].is_next(slots[k]));
            assert(states[k].pool() == states[0].pool());
        }
    }
}

} // verus!
