//! The exchange order depends on what is stored, not on where or since when.

use crate::top_n::TopNIter;
use crate::transaction::TransactionBody;
use vstd::multiset::Multiset;
use vstd::prelude::*;
#[allow(unused_imports)]
use crate::crc32::crc32;
#[allow(unused_imports)]
use crate::laws::eligibility::parses_consistently;
#[allow(unused_imports)]
use crate::laws::exchange::{is_offer, lemma_state, readable};
#[allow(unused_imports)]
use crate::laws::lookup::{all_fingerprinted, is_deterministic, is_fingerprinted};
#[allow(unused_imports)]
use crate::model::{decodes_to, hashes_to, MempoolView, StoredTransaction};
#[allow(unused_imports)]
use crate::priority::{law_priority_is_asymmetric, precedes, Candidate};

verus! {

/// What a caller puts into the mempool, or sets there, for one transaction: the
/// bytes, the fee and the flags.
pub ghost struct Listing {
    pub bytes: Seq<u8>,
    pub transaction_fee: u64,
    pub is_deferred: bool,
    pub is_own: bool,
}

/// The listing of a stored transaction.
pub open spec fn listing(tx: StoredTransaction) -> Listing {
    Listing {
        bytes: tx.bytes,
        transaction_fee: tx.transaction_fee,
        is_deferred: tx.is_deferred,
        is_own: tx.is_own,
    }
}

/// The listings of the transactions in the first `n` slots.
pub open spec fn listings_below(view: MempoolView, n: int) -> Multiset<Listing>
    decreases n,
{
    if n <= 0 {
        Multiset::empty()
    } else if view.holds(n - 1) {
        listings_below(view, n - 1).insert(listing(view.slots[n - 1]->0))
    } else {
        listings_below(view, n - 1)
    }
}

/// The listings of all stored transactions, with their multiplicities and
/// without any order.
pub open spec fn listings(view: MempoolView) -> Multiset<Listing> {
    listings_below(view, view.slots.len() as int)
}

/// The eligible transaction in the slot as a candidate, its slot left out.
pub open spec fn entrant(view: MempoolView, slot: int) -> Candidate {
    view.slots[slot]->0.candidate(0)
}

/// The eligible transactions in the first `n` slots as candidates, those of
/// `taken` left out.
pub open spec fn entrants_below(view: MempoolView, taken: Set<int>, n: int) -> Multiset<Candidate>
    decreases n,
{
    if n <= 0 {
        Multiset::empty()
    } else if view.eligible(n - 1) && !taken.contains(n - 1) {
        entrants_below(view, taken, n - 1).insert(entrant(view, n - 1))
    } else {
        entrants_below(view, taken, n - 1)
    }
}

/// The eligible transactions as candidates, those of `taken` left out: bytes,
/// fees, own flags and fingerprints, with their multiplicities and without any
/// order.
pub open spec fn entrants(view: MempoolView, taken: Set<int>) -> Multiset<Candidate> {
    entrants_below(view, taken, view.slots.len() as int)
}

/// The bytes and fees that are handed out from `slots`, in their order.
pub open spec fn offered(view: MempoolView, slots: Seq<int>) -> Seq<(Seq<u8>, u64)> {
    Seq::new(
        slots.len(),
        |i: int| (view.bytes(slots[i]), view.slots[slots[i]]->0.transaction_fee),
    )
}

/// Every candidate among the entrants has a slot that enters it.
proof fn lemma_entrant_has_slot(view: MempoolView, taken: Set<int>, n: int, x: Candidate) -> (slot:
    int)
    requires
        n <= view.slots.len(),
        entrants_below(view, taken, n).count(x) > 0,
    ensures
        0 <= slot < n,
        view.eligible(slot),
        !taken.contains(slot),
        entrant(view, slot) == x,
    decreases n,
{
    broadcast use vstd::multiset::group_multiset_axioms;

    if view.eligible(n - 1) && !taken.contains(n - 1) && entrant(view, n - 1) == x {
        n - 1
    } else {
        lemma_entrant_has_slot(view, taken, n - 1, x)
    }
}

/// Taking one more slot takes its candidate from the entrants.
proof fn lemma_taking_removes_entrant(view: MempoolView, taken: Set<int>, slot: int, n: int)
    requires
        0 <= slot,
        n <= view.slots.len(),
        view.eligible(slot),
        !taken.contains(slot),
    ensures
        entrants_below(view, taken, n) == (if slot < n {
            entrants_below(view, taken.insert(slot), n).insert(entrant(view, slot))
        } else {
            entrants_below(view, taken.insert(slot), n)
        }),
    decreases n,
{
    broadcast use vstd::multiset::group_multiset_axioms;

    if n > 0 {
        lemma_taking_removes_entrant(view, taken, slot, n - 1);
        assert(entrants_below(view, taken, n) =~= (if slot < n {
            entrants_below(view, taken.insert(slot), n).insert(entrant(view, slot))
        } else {
            entrants_below(view, taken.insert(slot), n)
        }));
    }
}

/// The candidate with its slot left out.
spec fn slotless(c: Candidate) -> Candidate {
    Candidate { slot: 0, ..c }
}

/// Between two candidates that differ in more than their slots, the slots play
/// no part.
proof fn lemma_different_entrants(a: Candidate, b: Candidate)
    requires
        a.length == a.bytes.len(),
        b.length == b.bytes.len(),
        slotless(a) != slotless(b),
        a.length > 0,
        b.length > 0,
    ensures
        precedes(a, b) == precedes(slotless(a), slotless(b)),
{
    if a.bytes == b.bytes && a.fee != b.fee {
        let (fa, fb, n) = (a.fee as int, b.fee as int, a.length as int);
        assert(fa * n > fb * n || fb * n > fa * n) by (nonlinear_arith)
            requires
                fa != fb,
                n > 0,
        ;
    }
}

/// Of the same entrants, two iterators hand out the same one next.
proof fn lemma_same_best<
    'a,
    'b,
    D: Fn(&[u8]) -> Option<TransactionBody>,
    const C: usize,
    const E: usize,
    const C2: usize,
    const E2: usize,
>(a: TopNIter<'a, D, C, E>, b: TopNIter<'b, D, C2, E2>, s: int, t: int)
    requires
        a.pool().wf(),
        b.pool().wf(),
        a.decoder() == b.decoder(),
        parses_consistently(a.decoder()),
        entrants(a.pool()@, a.yielded()) == entrants(b.pool()@, b.yielded()),
        a.is_best(s),
        readable(a, s),
        b.is_best(t),
        readable(b, t),
    ensures
        entrant(a.pool()@, s) == entrant(b.pool()@, t),
        entrants(a.pool()@, a.yielded().insert(s)) == entrants(b.pool()@, b.yielded().insert(t)),
{
    broadcast use vstd::multiset::group_multiset_axioms;

    let (va, vb) = (a.pool()@, b.pool()@);
    let x = entrant(va, s);
    let y = entrant(vb, t);
    lemma_taking_removes_entrant(va, a.yielded(), s, va.slots.len() as int);
    lemma_taking_removes_entrant(vb, b.yielded(), t, vb.slots.len() as int);
    assert(entrants(va, a.yielded()).count(x) > 0);
    assert(entrants(va, a.yielded()).count(y) > 0);
    let s2 = lemma_entrant_has_slot(va, a.yielded(), va.slots.len() as int, y);
    let t2 = lemma_entrant_has_slot(vb, b.yielded(), vb.slots.len() as int, x);
    a.pool().lemma_entry_in_bounds(s);
    b.pool().lemma_entry_in_bounds(t);
    if x != y {
        assert(a.available(s2) && b.available(t2));
        assert(va.bytes(s2) == vb.bytes(t) && vb.bytes(t2) == va.bytes(s));
        assert(!a.unreadable(s2)) by {
            let body = choose|body: TransactionBody| #[trigger]
                decodes_to(b.decoder(), vb.bytes(t), Some(body));
            assert(decodes_to(a.decoder(), va.bytes(s2), Some(body)));
        }
        assert(!b.unreadable(t2)) by {
            let body = choose|body: TransactionBody| #[trigger]
                decodes_to(a.decoder(), va.bytes(s), Some(body));
            assert(decodes_to(b.decoder(), vb.bytes(t2), Some(body)));
        }
        assert(precedes(a.candidate(s), a.candidate(s2)));
        assert(precedes(b.candidate(t), b.candidate(t2)));
        lemma_different_entrants(a.candidate(s), a.candidate(s2));
        lemma_different_entrants(b.candidate(t), b.candidate(t2));
        law_priority_is_asymmetric(x, y);
        assert(false);
    }
    assert(entrants(va, a.yielded().insert(s)) =~= entrants(va, a.yielded()).remove(x));
    assert(entrants(vb, b.yielded().insert(t)) =~= entrants(vb, b.yielded()).remove(y));
}

/// Two walks that started with the same entrants have the same left after `k`
/// steps, and have handed out the same.
proof fn lemma_walks_agree<
    'a,
    'b,
    D: Fn(&[u8]) -> Option<TransactionBody>,
    const C: usize,
    const E: usize,
    const C2: usize,
    const E2: usize,
>(
    states: Seq<TopNIter<'a, D, C, E>>,
    slots: Seq<int>,
    states2: Seq<TopNIter<'b, D, C2, E2>>,
    slots2: Seq<int>,
    k: int,
)
    requires
        states[0].pool().wf(),
        states2[0].pool().wf(),
        is_offer(states, slots),
        is_offer(states2, slots2),
        states[0].decoder() == states2[0].decoder(),
        parses_consistently(states[0].decoder()),
        entrants(states[0].pool()@, Set::empty()) == entrants(states2[0].pool()@, Set::empty()),
        0 <= k <= slots.len(),
        k <= slots2.len(),
    ensures
        entrants(states[k].pool()@, states[k].yielded()) == entrants(
            states2[k].pool()@,
            states2[k].yielded(),
        ),
        forall|i: int|
            0 <= i < k ==> #[trigger] entrant(states[0].pool()@, slots[i]) == entrant(
                states2[0].pool()@,
                slots2[i],
            ),
    decreases k,
{
    if k > 0 {
        lemma_walks_agree(states, slots, states2, slots2, k - 1);
        lemma_state(states, slots, k - 1);
        lemma_state(states2, slots2, k - 1);
        lemma_state(states, slots, k);
        lemma_state(states2, slots2, k);
        let (s, t) = (slots[k - 1], slots2[k - 1]);
        assert(states[k - 1].is_best(s) && readable(states[k - 1], s));
        assert(states2[k - 1].is_best(t) && readable(states2[k - 1], t));
        assert(states[k - 1].advanced(states[k], s));
        assert(states2[k - 1].advanced(states2[k], t));
        lemma_same_best(states[k - 1], states2[k - 1], s, t);
    }
}

/// The offer depends on nothing but the eligible transactions, each by its
/// bytes, fee, own flag and fingerprint: two mempools, of whatever sizes, that
/// hold the same of them hand out the same bytes and fees in the same order, as
/// far as both walks have come. Slots, order of admission and deferred
/// transactions play no part.
pub proof fn law_offer_depends_on_eligible_contents_only<
    'a,
    'b,
    D: Fn(&[u8]) -> Option<TransactionBody>,
    const C: usize,
    const E: usize,
    const C2: usize,
    const E2: usize,
>(
    states: Seq<TopNIter<'a, D, C, E>>,
    slots: Seq<int>,
    states2: Seq<TopNIter<'b, D, C2, E2>>,
    slots2: Seq<int>,
    k: int,
)
    requires
        states[0].pool().wf(),
        states2[0].pool().wf(),
        is_offer(states, slots),
        is_offer(states2, slots2),
        states[0].decoder() == states2[0].decoder(),
        parses_consistently(states[0].decoder()),
        entrants(states[0].pool()@, Set::empty()) == entrants(states2[0].pool()@, Set::empty()),
        0 <= k <= slots.len(),
        k <= slots2.len(),
    ensures
        offered(states[0].pool()@, slots).take(k) == offered(states2[0].pool()@, slots2).take(k),
{
    lemma_walks_agree(states, slots, states2, slots2, k);
    let (va, vb) = (states[0].pool()@, states2[0].pool()@);
    assert forall|i: int| 0 <= i < k implies offered(va, slots)[i] == offered(vb, slots2)[i] by {
        assert(entrant(va, slots[i]) == entrant(vb, slots2[i]));
    }
    assert(offered(va, slots).take(k) =~= offered(vb, slots2).take(k));
}

/// The iterator hands out nothing more: its quota is used up, or nothing that
/// parses is left.
pub open spec fn is_finished<
    'a,
    D: Fn(&[u8]) -> Option<TransactionBody>,
    const C: usize,
    const E: usize,
>(iter: TopNIter<'a, D, C, E>) -> bool {
    iter.quota() == 0 || forall|t: int| #[trigger] iter.available(t) ==> iter.unreadable(t)
}

/// A walk goes on as long as one over the same entrants with the same quota
/// does.
proof fn lemma_goes_on<
    'a,
    'b,
    D: Fn(&[u8]) -> Option<TransactionBody>,
    const C: usize,
    const E: usize,
    const C2: usize,
    const E2: usize,
>(
    states: Seq<TopNIter<'a, D, C, E>>,
    slots: Seq<int>,
    states2: Seq<TopNIter<'b, D, C2, E2>>,
    slots2: Seq<int>,
)
    requires
        states[0].pool().wf(),
        states2[0].pool().wf(),
        is_offer(states, slots),
        is_offer(states2, slots2),
        states[0].decoder() == states2[0].decoder(),
        parses_consistently(states[0].decoder()),
        entrants(states[0].pool()@, Set::empty()) == entrants(states2[0].pool()@, Set::empty()),
        states[0].quota() == states2[0].quota(),
        is_finished(states[slots.len() as int]),
    ensures
        slots2.len() <= slots.len(),
{
    broadcast use vstd::multiset::group_multiset_axioms;

    if slots.len() < slots2.len() {
        let n = slots.len() as int;
        lemma_walks_agree(states, slots, states2, slots2, n);
        lemma_state(states, slots, n);
        lemma_state(states2, slots2, n);
        let (a, b) = (states[n], states2[n]);
        let (va, vb) = (a.pool()@, b.pool()@);
        let t = slots2[n];
        assert(b.quota() > 0 && b.is_best(t) && readable(b, t));
        lemma_taking_removes_entrant(vb, b.yielded(), t, vb.slots.len() as int);
        assert(entrants(va, a.yielded()).count(entrant(vb, t)) > 0);
        let s = lemma_entrant_has_slot(va, a.yielded(), va.slots.len() as int, entrant(vb, t));
        assert(a.available(s));
        assert(va.bytes(s) == vb.bytes(t));
        let body = choose|body: TransactionBody| #[trigger]
            decodes_to(b.decoder(), vb.bytes(t), Some(body));
        assert(decodes_to(a.decoder(), va.bytes(s), Some(body)));
        assert(false);
    }
}

/// Two walks of the same quota that have both come to their end have handed out
/// the same bytes and fees in the same order, where the mempools hold the same
/// eligible transactions.
pub proof fn law_finished_offers_are_equal<
    'a,
    'b,
    D: Fn(&[u8]) -> Option<TransactionBody>,
    const C: usize,
    const E: usize,
    const C2: usize,
    const E2: usize,
>(
    states: Seq<TopNIter<'a, D, C, E>>,
    slots: Seq<int>,
    states2: Seq<TopNIter<'b, D, C2, E2>>,
    slots2: Seq<int>,
)
    requires
        states[0].pool().wf(),
        states2[0].pool().wf(),
        is_offer(states, slots),
        is_offer(states2, slots2),
        states[0].decoder() == states2[0].decoder(),
        parses_consistently(states[0].decoder()),
        entrants(states[0].pool()@, Set::empty()) == entrants(states2[0].pool()@, Set::empty()),
        states[0].quota() == states2[0].quota(),
        is_finished(states[slots.len() as int]),
        is_finished(states2[slots2.len() as int]),
    ensures
        offered(states[0].pool()@, slots) == offered(states2[0].pool()@, slots2),
{
    lemma_goes_on(states, slots, states2, slots2);
    lemma_goes_on(states2, slots2, states, slots);
    let n = slots.len() as int;
    let (a, b) = (offered(states[0].pool()@, slots), offered(states2[0].pool()@, slots2));
    law_offer_depends_on_eligible_contents_only(states, slots, states2, slots2, n);
    assert(a.take(n) =~= a);
    assert(b.take(n) =~= b);
}

/// The fingerprint is the one that the hash gives for the bytes.
spec fn is_genuine<H: Fn(&[u8]) -> [u8; 32]>(x: Candidate, hash: H) -> bool {
    exists|digest: Seq<u8>| #[trigger]
        hashes_to(hash, x.bytes, digest) && x.hash_crc32 == crc32(digest)
}

/// Of the candidates in the first `n` slots, each is entered as often as its
/// listing occurs.
proof fn lemma_entrants_follow_listings<H: Fn(&[u8]) -> [u8; 32]>(
    view: MempoolView,
    hash: H,
    x: Candidate,
    n: int,
)
    requires
        is_deterministic(hash),
        all_fingerprinted(view, hash),
        n <= view.slots.len(),
    ensures
        entrants_below(view, Set::empty(), n).count(x) == (if is_genuine(x, hash) && x.slot == 0
            && x.length == x.bytes.len() && x.fee <= u64::MAX {
            listings_below(view, n).count(
                Listing {
                    bytes: x.bytes,
                    transaction_fee: x.fee as u64,
                    is_deferred: false,
                    is_own: x.is_own,
                },
            )
        } else {
            0
        }),
    decreases n,
{
    broadcast use vstd::multiset::group_multiset_axioms;

    if n > 0 {
        lemma_entrants_follow_listings(view, hash, x, n - 1);
        if view.holds(n - 1) {
            let tx = view.slots[n - 1]->0;
            assert(is_fingerprinted(tx, hash));
            let digest = choose|digest: Seq<u8>| #[trigger]
                hashes_to(hash, tx.bytes, digest) && tx.hash_crc32 == crc32(digest);
            assert(hashes_to(hash, entrant(view, n - 1).bytes, digest));
            assert(is_genuine(entrant(view, n - 1), hash));
            if is_genuine(x, hash) && x.bytes == tx.bytes {
                assert(x.hash_crc32 == tx.hash_crc32);
            }
        }
    }
}

/// The entrants follow from the listings, since fingerprints follow from bytes.
proof fn lemma_same_listings_same_entrants<H: Fn(&[u8]) -> [u8; 32]>(
    a: MempoolView,
    b: MempoolView,
    hash: H,
)
    requires
        is_deterministic(hash),
        all_fingerprinted(a, hash),
        all_fingerprinted(b, hash),
        listings(a) == listings(b),
    ensures
        entrants(a, Set::empty()) == entrants(b, Set::empty()),
{
    broadcast use vstd::multiset::group_multiset_axioms;

    assert forall|x: Candidate|
        entrants(a, Set::empty()).count(x) == entrants(b, Set::empty()).count(x) by {
        lemma_entrants_follow_listings(a, hash, x, a.slots.len() as int);
        lemma_entrants_follow_listings(b, hash, x, b.slots.len() as int);
    }
    assert(entrants(a, Set::empty()) =~= entrants(b, Set::empty()));
}

/// The order of exchange is deterministic: it depends on nothing but the
/// multiset of stored bytes, fees and flags. Two mempools, of whatever sizes,
/// that hold the same of them hand out the same bytes and fees in the same
/// order, as far as both walks have come, and in all where both have come to
/// their end with the same quota.
pub proof fn law_offer_depends_on_contents_only<
    'a,
    'b,
    D: Fn(&[u8]) -> Option<TransactionBody>,
    H: Fn(&[u8]) -> [u8; 32],
    const C: usize,
    const E: usize,
    const C2: usize,
    const E2: usize,
>(
    states: Seq<TopNIter<'a, D, C, E>>,
    slots: Seq<int>,
    states2: Seq<TopNIter<'b, D, C2, E2>>,
    slots2: Seq<int>,
    hash: H,
)
    requires
        states[0].pool().wf(),
        states2[0].pool().wf(),
        is_offer(states, slots),
        is_offer(states2, slots2),
        states[0].decoder() == states2[0].decoder(),
        parses_consistently(states[0].decoder()),
        is_deterministic(hash),
        all_fingerprinted(states[0].pool()@, hash),
        all_fingerprinted(states2[0].pool()@, hash),
        listings(states[0].pool()@) == listings(states2[0].pool()@),
    ensures
        forall|k: int|
            0 <= k <= slots.len() && k <= slots2.len() ==> #[trigger] offered(
                states[0].pool()@,
                slots,
            ).take(k) == offered(states2[0].pool()@, slots2).take(k),
        states[0].quota() == states2[0].quota() && is_finished(states[slots.len() as int])
            && is_finished(states2[slots2.len() as int]) ==> offered(states[0].pool()@, slots)
            == offered(states2[0].pool()@, slots2),
{
    lemma_same_listings_same_entrants(states[0].pool()@, states2[0].pool()@, hash);
    assert forall|k: int| 0 <= k <= slots.len() && k <= slots2.len() implies #[trigger] offered(
        states[0].pool()@,
        slots,
    ).take(k) == offered(states2[0].pool()@, slots2).take(k) by {
        law_offer_depends_on_eligible_contents_only(states, slots, states2, slots2, k);
    }
    if states[0].quota() == states2[0].quota() && is_finished(states[slots.len() as int])
        && is_finished(states2[slots2.len() as int]) {
        law_finished_offers_are_equal(states, slots, states2, slots2);
    }
}

} // verus!
