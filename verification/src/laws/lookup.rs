//! Laws of lookup by hash.

use crate::mempool::Mempool;
use vstd::prelude::*;
#[allow(unused_imports)]
use crate::crc32::crc32;
#[allow(unused_imports)]
use crate::index::is_first_free;
#[allow(unused_imports)]
use crate::model::{
    answers, balances_any, decodes_any, differs, hands_out, hashes_any, hashes_to, lookup, recheck,
    slot_rechecked, MempoolView, StoredTransaction,
};
#[allow(unused_imports)]
use crate::transaction::{TransactionBody, TransactionView};

verus! {

/// The same bytes always hash to the same digest.
pub open spec fn is_deterministic<H: Fn(&[u8]) -> [u8; 32]>(hash: H) -> bool {
    forall|bytes: Seq<u8>, d1: Seq<u8>, d2: Seq<u8>| #[trigger]
        hashes_to(hash, bytes, d1) && #[trigger] hashes_to(hash, bytes, d2) ==> d1 == d2
}

/// Different bytes never hash to the same digest.
pub open spec fn is_collision_free<H: Fn(&[u8]) -> [u8; 32]>(hash: H) -> bool {
    forall|b1: Seq<u8>, b2: Seq<u8>, digest: Seq<u8>| #[trigger]
        hashes_to(hash, b1, digest) && #[trigger] hashes_to(hash, b2, digest) ==> b1 == b2
}

/// The fingerprint of a stored transaction is the CRC-32 of its hash.
pub open spec fn is_fingerprinted<H: Fn(&[u8]) -> [u8; 32]>(
    tx: StoredTransaction,
    hash: H,
) -> bool {
    exists|digest: Seq<u8>| #[trigger]
        hashes_to(hash, tx.bytes, digest) && tx.hash_crc32 == crc32(digest)
}

/// So it is of every stored transaction.
pub open spec fn all_fingerprinted<H: Fn(&[u8]) -> [u8; 32]>(view: MempoolView, hash: H) -> bool {
    forall|s: int| #[trigger] view.holds(s) ==> is_fingerprinted(view.slots[s]->0, hash)
}

/// An empty mempool has no fingerprint that could be wrong.
pub proof fn law_empty_is_fingerprinted<H: Fn(&[u8]) -> [u8; 32]>(view: MempoolView, hash: H)
    requires
        forall|s: int| 0 <= s < view.slots.len() ==> #[trigger] view.slots[s] is None,
    ensures
        all_fingerprinted(view, hash),
{
}

/// Admission records the fingerprint of the new transaction and leaves those of
/// the others.
pub proof fn law_admission_keeps_fingerprints<H: Fn(&[u8]) -> [u8; 32]>(
    view: MempoolView,
    hash: H,
    slot: int,
    tx: StoredTransaction,
    digest: Seq<u8>,
)
    requires
        all_fingerprinted(view, hash),
        is_first_free(view.slots, slot),
        hashes_to(hash, tx.bytes, digest),
        tx.hash_crc32 == crc32(digest),
    ensures
        all_fingerprinted(view.add_last(slot, tx), hash),
{
    let after = view.add_last(slot, tx);
    assert forall|s: int| #[trigger] after.holds(s) implies is_fingerprinted(
        after.slots[s]->0,
        hash,
    ) by {
        if s != slot {
            assert(view.holds(s));
        }
    }
}

/// Confirmation leaves the fingerprints of the transactions that stay.
pub proof fn law_confirmation_keeps_fingerprints<H: Fn(&[u8]) -> [u8; 32]>(
    view: MempoolView,
    hash: H,
    accepted: Set<Seq<u8>>,
)
    requires
        all_fingerprinted(view, hash),
    ensures
        all_fingerprinted(view.confirm(accepted), hash),
{
    let after = view.confirm(accepted);
    assert forall|s: int| #[trigger] after.holds(s) implies is_fingerprinted(
        after.slots[s]->0,
        hash,
    ) by {
        assert(view.holds(s));
    }
}

/// A recheck of eligibility leaves all fingerprints.
pub proof fn law_recheck_keeps_fingerprints<
    H: Fn(&[u8]) -> [u8; 32],
    D: Fn(&[u8]) -> Option<TransactionBody>,
    F: FnMut(u32) -> u64,
>(before: MempoolView, after: MempoolView, hash: H, decode: D, balance_check: F)
    requires
        all_fingerprinted(before, hash),
        recheck(before, after, decode, balance_check),
    ensures
        all_fingerprinted(after, hash),
{
    assert forall|s: int| #[trigger] after.holds(s) implies is_fingerprinted(
        after.slots[s]->0,
        hash,
    ) by {
        assert(slot_rechecked(before.slots[s], after.slots[s], decode, balance_check));
        assert(before.holds(s));
        let digest = choose|digest: Seq<u8>| #[trigger]
            hashes_to(hash, before.slots[s]->0.bytes, digest)
                && before.slots[s]->0.hash_crc32 == crc32(digest);
        assert(hashes_to(hash, after.slots[s]->0.bytes, digest));
    }
}

/// The slot that a lookup finds holds a transaction whose fingerprint is the
/// CRC-32 of the hash and whose bytes gave the hash. Every slot before it is
/// vacant, or has another fingerprint, or its bytes gave another hash.
pub proof fn law_found_slot_has_the_hash<
    H: Fn(&[u8]) -> [u8; 32],
    const C: usize,
    const E: usize,
>(pool: Mempool<C, E>, calculate_hash: H, hash: Seq<u8>, slot: int)
    requires
        pool.wf(),
        lookup(pool@, calculate_hash, hash, Some(slot)),
    ensures
        0 <= slot < E,
        pool.entries()[slot] is Some,
        pool.entries()[slot]->0.hash_crc32 == crc32(hash),
        exists|b: &[u8], d: [u8; 32]| #[trigger]
            call_ensures(calculate_hash, (b,), d) && d@ == hash && b@ == pool.buffer().subrange(
                pool.entries()[slot]->0.start as int,
                pool.entries()[slot]->0.start + pool.entries()[slot]->0.length,
            ),
        forall|j: int|
            0 <= j < slot && #[trigger] pool.entries()[j] is Some ==> {
                ||| pool.entries()[j]->0.hash_crc32 != crc32(hash)
                ||| exists|b: &[u8], d: [u8; 32]| #[trigger]
                    call_ensures(calculate_hash, (b,), d) && d@ != hash && b@
                        == pool.buffer().subrange(
                        pool.entries()[j]->0.start as int,
                        pool.entries()[j]->0.start + pool.entries()[j]->0.length,
                    )
            },
{
    assert(answers(pool@, calculate_hash, hash, slot));
    assert forall|j: int| 0 <= j < slot && #[trigger] pool.entries()[j] is Some implies {
        ||| pool.entries()[j]->0.hash_crc32 != crc32(hash)
        ||| exists|b: &[u8], d: [u8; 32]| #[trigger]
            call_ensures(calculate_hash, (b,), d) && d@ != hash && b@ == pool.buffer().subrange(
                pool.entries()[j]->0.start as int,
                pool.entries()[j]->0.start + pool.entries()[j]->0.length,
            )
    } by {
        assert(differs(pool@, calculate_hash, hash, j));
    }
}

/// Where a lookup finds nothing, every slot is vacant, or has another
/// fingerprint, or its bytes gave another hash.
pub proof fn law_nothing_found_has_the_hash<
    H: Fn(&[u8]) -> [u8; 32],
    const C: usize,
    const E: usize,
>(pool: Mempool<C, E>, calculate_hash: H, hash: Seq<u8>)
    requires
        pool.wf(),
        lookup(pool@, calculate_hash, hash, None),
    ensures
        forall|j: int|
            0 <= j < E && #[trigger] pool.entries()[j] is Some ==> {
                ||| pool.entries()[j]->0.hash_crc32 != crc32(hash)
                ||| exists|b: &[u8], d: [u8; 32]| #[trigger]
                    call_ensures(calculate_hash, (b,), d) && d@ != hash && b@
                        == pool.buffer().subrange(
                        pool.entries()[j]->0.start as int,
                        pool.entries()[j]->0.start + pool.entries()[j]->0.length,
                    )
            },
{
    assert forall|j: int| 0 <= j < E && #[trigger] pool.entries()[j] is Some implies {
        ||| pool.entries()[j]->0.hash_crc32 != crc32(hash)
        ||| exists|b: &[u8], d: [u8; 32]| #[trigger]
            call_ensures(calculate_hash, (b,), d) && d@ != hash && b@ == pool.buffer().subrange(
                pool.entries()[j]->0.start as int,
                pool.entries()[j]->0.start + pool.entries()[j]->0.length,
            )
    } by {
        assert(differs(pool@, calculate_hash, hash, j));
    }
}

/// Bytes that parsed are handed out as they are, with the body that parsing
/// gave, whatever its kind. Nothing is handed out for bytes that did not parse.
pub proof fn law_parsed_is_handed_out(
    result: Option<TransactionView<'_>>,
    bytes: Seq<u8>,
    body: TransactionBody,
)
    ensures
        hands_out(result, bytes, Some(body)) ==> result is Some && result->0.bytes@ == bytes
            && result->0.body == body,
        hands_out(result, bytes, None) ==> result is None,
{
}

/// Any hash, parser or balance function that answers every question may be
/// handed to the mempool.
pub proof fn law_total_functions_are_accepted<
    H: Fn(&[u8]) -> [u8; 32],
    D: Fn(&[u8]) -> Option<TransactionBody>,
    F: FnMut(u32) -> u64,
>(hash: H, decode: D, balance: F)
    ensures
        (forall|b: &[u8]| #[trigger] call_requires(hash, (b,))) ==> hashes_any(hash),
        (forall|b: &[u8]| #[trigger] call_requires(decode, (b,))) ==> decodes_any(decode),
        (forall|node: u32| #[trigger] call_requires(balance, (node,))) ==> balances_any(balance),
{
}

/// The fingerprint hides nothing: a lookup finds a transaction exactly where
/// one with the given hash is stored, and what it finds has that hash.
pub proof fn law_lookup_is_exact<H: Fn(&[u8]) -> [u8; 32]>(
    view: MempoolView,
    calculate_hash: H,
    hash: Seq<u8>,
    found: Option<int>,
)
    requires
        is_deterministic(calculate_hash),
        all_fingerprinted(view, calculate_hash),
        lookup(view, calculate_hash, hash, found),
    ensures
        found is Some <==> exists|s: int| #[trigger]
            view.holds(s) && hashes_to(calculate_hash, view.bytes(s), hash),
        found matches Some(slot) ==> view.holds(slot) && hashes_to(
            calculate_hash,
            view.bytes(slot),
            hash,
        ),
        found matches Some(slot) ==> forall|j: int|
            0 <= j < slot && #[trigger] view.holds(j) ==> !hashes_to(
                calculate_hash,
                view.bytes(j),
                hash,
            ),
{
    assert forall|s: int| #[trigger]
        view.holds(s) && hashes_to(calculate_hash, view.bytes(s), hash) implies !differs(
        view,
        calculate_hash,
        hash,
        s,
    ) by {
        assert(is_fingerprinted(view.slots[s]->0, calculate_hash));
    }
    if let Some(slot) = found {
        assert(answers(view, calculate_hash, hash, slot));
        assert(view.holds(slot));
        assert forall|j: int| 0 <= j < slot && #[trigger] view.holds(j) implies !hashes_to(
            calculate_hash,
            view.bytes(j),
            hash,
        ) by {
            assert(differs(view, calculate_hash, hash, j));
        }
    } else {
        assert forall|s: int| #[trigger] view.holds(s) implies !hashes_to(
            calculate_hash,
            view.bytes(s),
            hash,
        ) by {
            assert(differs(view, calculate_hash, hash, s));
        }
    }
}

/// A transaction that was just admitted is found by its hash. Where the hash is
/// free of collisions, what is found has the bytes that were admitted.
pub proof fn law_admitted_is_found<H: Fn(&[u8]) -> [u8; 32]>(
    view: MempoolView,
    calculate_hash: H,
    slot: int,
    tx: StoredTransaction,
    digest: Seq<u8>,
    found: Option<int>,
)
    requires
        is_deterministic(calculate_hash),
        all_fingerprinted(view, calculate_hash),
        is_first_free(view.slots, slot),
        hashes_to(calculate_hash, tx.bytes, digest),
        tx.hash_crc32 == crc32(digest),
        lookup(view.add_last(slot, tx), calculate_hash, digest, found),
    ensures
        found matches Some(s) && {
            &&& view.add_last(slot, tx).holds(s)
            &&& hashes_to(calculate_hash, view.add_last(slot, tx).bytes(s), digest)
            &&& is_collision_free(calculate_hash) ==> view.add_last(slot, tx).bytes(s) == tx.bytes
        },
{
    let after = view.add_last(slot, tx);
    law_admission_keeps_fingerprints(view, calculate_hash, slot, tx, digest);
    assert(after.holds(slot));
    law_lookup_is_exact(after, calculate_hash, digest, found);
}

/// A transaction that a block has confirmed is no longer found by its hash,
/// where the hash is free of collisions.
pub proof fn law_confirmed_is_not_found<H: Fn(&[u8]) -> [u8; 32]>(
    view: MempoolView,
    calculate_hash: H,
    accepted: Set<Seq<u8>>,
    bytes: Seq<u8>,
    digest: Seq<u8>,
    found: Option<int>,
)
    requires
        is_deterministic(calculate_hash),
        is_collision_free(calculate_hash),
        all_fingerprinted(view, calculate_hash),
        accepted.contains(bytes),
        hashes_to(calculate_hash, bytes, digest),
        lookup(view.confirm(accepted), calculate_hash, digest, found),
    ensures
        found is None,
{
    let after = view.confirm(accepted);
    law_confirmation_keeps_fingerprints(view, calculate_hash, accepted);
    law_lookup_is_exact(after, calculate_hash, digest, found);
    if let Some(s) = found {
        assert(after.bytes(s) == bytes);
        assert(view.confirmed(accepted, s));
    }
}

/// A transaction that no block has confirmed is found after the confirmation if
/// it was stored before.
pub proof fn law_survivor_is_found<H: Fn(&[u8]) -> [u8; 32]>(
    view: MempoolView,
    calculate_hash: H,
    accepted: Set<Seq<u8>>,
    slot: int,
    digest: Seq<u8>,
    found: Option<int>,
)
    requires
        is_deterministic(calculate_hash),
        all_fingerprinted(view, calculate_hash),
        view.holds(slot),
        !accepted.contains(view.bytes(slot)),
        hashes_to(calculate_hash, view.bytes(slot), digest),
        lookup(view.confirm(accepted), calculate_hash, digest, found),
    ensures
        found is Some,
{
    let after = view.confirm(accepted);
    law_confirmation_keeps_fingerprints(view, calculate_hash, accepted);
    assert(after.holds(slot));
    assert(after.bytes(slot) == view.bytes(slot));
    law_lookup_is_exact(after, calculate_hash, digest, found);
}

} // verus!
