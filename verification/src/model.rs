//! The mempool as mathematics: what it holds, and what each operation does to it.

use crate::crc32::crc32;
use crate::index::IndexEntry;
use crate::priority::Candidate;
use crate::transaction::{TransactionBody, TransactionView};
#[allow(unused_imports)]
use crate::transaction::BodyView;
use vstd::prelude::*;

verus! {

/// A stored transaction: its bytes and what was recorded beside them.
#[verifier::ext_equal]
pub ghost struct StoredTransaction {
    pub bytes: Seq<u8>,
    pub hash_crc32: u32,
    pub transaction_fee: u64,
    pub expiry_sequence: u32,
    pub is_deferred: bool,
    pub is_own: bool,
}

impl StoredTransaction {
    /// The transaction as a candidate for exchange.
    pub open spec fn candidate(self, slot: int) -> Candidate {
        Candidate {
            fee: self.transaction_fee as nat,
            length: self.bytes.len(),
            is_own: self.is_own,
            hash_crc32: self.hash_crc32,
            bytes: self.bytes,
            slot,
        }
    }
}

/// What an index entry stands for, given the buffer it points into.
pub open spec fn stored(entry: IndexEntry, buffer: Seq<u8>) -> StoredTransaction {
    StoredTransaction {
        bytes: buffer.subrange(entry.start as int, entry.start + entry.length),
        hash_crc32: entry.hash_crc32,
        transaction_fee: entry.transaction_fee,
        expiry_sequence: entry.expiry_sequence,
        is_deferred: entry.is_deferred,
        is_own: entry.is_own,
    }
}

/// What an index slot stands for.
pub open spec fn stored_in(slot: Option<IndexEntry>, buffer: Seq<u8>) -> Option<StoredTransaction> {
    match slot {
        Some(entry) => Some(stored(entry, buffer)),
        None => None,
    }
}

/// The contents of a mempool: one slot per index position, and the occupied
/// slots in the order in which their transactions were admitted, which is the
/// order of their bytes in the buffer.
#[verifier::ext_equal]
pub ghost struct MempoolView {
    pub slots: Seq<Option<StoredTransaction>>,
    pub order: Seq<int>,
}

impl MempoolView {
    /// The slot holds a transaction.
    pub open spec fn holds(self, slot: int) -> bool {
        0 <= slot < self.slots.len() && self.slots[slot] is Some
    }

    /// The slot holds a transaction that is not deferred.
    pub open spec fn eligible(self, slot: int) -> bool {
        self.holds(slot) && !self.slots[slot]->0.is_deferred
    }

    /// The bytes of the transaction in a slot.
    pub open spec fn bytes(self, slot: int) -> Seq<u8> {
        self.slots[slot]->0.bytes
    }

    /// The order lists every slot that holds a transaction once, and no other.
    pub open spec fn is_consistent(self) -> bool {
        &&& self.order.no_duplicates()
        &&& forall|s: int| self.order.contains(s) <==> #[trigger] self.holds(s)
    }

    /// A transaction enters a vacant slot, behind all others.
    pub open spec fn add_last(self, slot: int, tx: StoredTransaction) -> MempoolView {
        MempoolView { slots: self.slots.update(slot, Some(tx)), order: self.order.push(slot) }
    }

    /// The slot holds a transaction whose bytes are among the accepted ones.
    pub open spec fn confirmed(self, accepted: Set<Seq<u8>>, slot: int) -> bool {
        self.holds(slot) && accepted.contains(self.bytes(slot))
    }

    /// The transactions whose bytes are among the accepted ones leave. The
    /// others stay as they are, in their slots and in their order.
    pub open spec fn confirm(self, accepted: Set<Seq<u8>>) -> MempoolView {
        MempoolView {
            slots: Seq::new(
                self.slots.len(),
                |s: int|
                    if self.confirmed(accepted, s) {
                        None
                    } else {
                        self.slots[s]
                    },
            ),
            order: self.order.filter(|s: int| !self.confirmed(accepted, s)),
        }
    }
}

/// Total length of the transactions that `order` lists.
pub open spec fn total_length(slots: Seq<Option<StoredTransaction>>, order: Seq<int>) -> int
    decreases order.len(),
{
    if order.len() == 0 {
        0
    } else {
        total_length(slots, order.drop_last()) + slots[order.last()]->0.bytes.len()
    }
}

/// `hash` may be asked about any bytes.
pub open spec fn hashes_any<H: Fn(&[u8]) -> [u8; 32]>(hash: H) -> bool {
    forall|bytes: &[u8]| #[trigger] call_requires(hash, (bytes,))
}

/// `digest` is a hash that `hash` may give for `bytes`.
pub open spec fn hashes_to<H: Fn(&[u8]) -> [u8; 32]>(
    hash: H,
    bytes: Seq<u8>,
    digest: Seq<u8>,
) -> bool {
    exists|b: &[u8], d: [u8; 32]| #[trigger]
        call_ensures(hash, (b,), d) && b@ == bytes && d@ == digest
}

/// `decode` may be asked about any bytes.
pub open spec fn decodes_any<D: Fn(&[u8]) -> Option<TransactionBody>>(decode: D) -> bool {
    forall|bytes: &[u8]| #[trigger] call_requires(decode, (bytes,))
}

/// `body` is what `decode` may give for `bytes`; `None` where they do not parse.
pub open spec fn decodes_to<D: Fn(&[u8]) -> Option<TransactionBody>>(
    decode: D,
    bytes: Seq<u8>,
    body: Option<TransactionBody>,
) -> bool {
    exists|b: &[u8]| #[trigger] call_ensures(decode, (b,), body) && b@ == bytes
}

/// `balance` may be asked about any node.
pub open spec fn balances_any<F: FnMut(u32) -> u64>(balance: F) -> bool {
    forall|node: u32| #[trigger] call_requires(balance, (node,))
}

/// The transaction in the slot answers to `hash`: its fingerprint matches, and
/// so does the full hash of its bytes.
pub open spec fn answers<H: Fn(&[u8]) -> [u8; 32]>(
    view: MempoolView,
    calculate_hash: H,
    hash: Seq<u8>,
    slot: int,
) -> bool {
    &&& view.holds(slot)
    &&& view.slots[slot]->0.hash_crc32 == crc32(hash)
    &&& hashes_to(calculate_hash, view.bytes(slot), hash)
}

/// The slot does not answer to `hash`: it is vacant, or its fingerprint differs,
/// or the full hash of its bytes came out differently.
pub open spec fn differs<H: Fn(&[u8]) -> [u8; 32]>(
    view: MempoolView,
    calculate_hash: H,
    hash: Seq<u8>,
    slot: int,
) -> bool {
    ||| !view.holds(slot)
    ||| view.slots[slot]->0.hash_crc32 != crc32(hash)
    ||| exists|digest: Seq<u8>|
        digest != hash && #[trigger] hashes_to(calculate_hash, view.bytes(slot), digest)
}

/// Looking up `hash` gives the first slot that answers to it, or nothing where
/// no slot does.
pub open spec fn lookup<H: Fn(&[u8]) -> [u8; 32]>(
    view: MempoolView,
    calculate_hash: H,
    hash: Seq<u8>,
    found: Option<int>,
) -> bool {
    match found {
        Some(slot) => {
            &&& answers(view, calculate_hash, hash, slot)
            &&& forall|j: int| 0 <= j < slot ==> #[trigger] differs(view, calculate_hash, hash, j)
        },
        None => forall|j: int|
            0 <= j < view.slots.len() ==> #[trigger] differs(view, calculate_hash, hash, j),
    }
}

/// `result` hands out `bytes` with the body that parsing them gave, or nothing
/// where they did not parse.
pub open spec fn hands_out(
    result: Option<TransactionView<'_>>,
    bytes: Seq<u8>,
    body: Option<TransactionBody>,
) -> bool {
    match body {
        Some(b) => result matches Some(tx) && tx.bytes@ == bytes && tx.body == b,
        None => result is None,
    }
}

/// Whether a transaction with this body is deferred after a recheck. A node
/// transfer is where the initializer's balance is smaller than the amount and
/// the fee, a registration where it is smaller than the price and the fee. No
/// other transaction is.
pub open spec fn deferral<F: FnMut(u32) -> u64>(
    body: BodyView,
    fee: u64,
    balance_check: F,
    deferred: bool,
) -> bool {
    match body {
        BodyView::NodeTransfer { initializer, amount, .. } => falls_short(
            balance_check,
            initializer,
            amount + fee,
            deferred,
        ),
        BodyView::Registration { initializer, registration_price } => falls_short(
            balance_check,
            initializer,
            registration_price + fee,
            deferred,
        ),
        BodyView::Complex { .. } => !deferred,
        BodyView::Unrecognized => !deferred,
    }
}

/// `short` says whether the balance that `balance_check` gave for `node` is
/// smaller than what is needed.
pub open spec fn falls_short<F: FnMut(u32) -> u64>(
    balance_check: F,
    node: u32,
    needed: int,
    short: bool,
) -> bool {
    exists|balance: u64| #[trigger]
        call_ensures(balance_check, (node,), balance) && short == (balance < needed)
}

/// What a recheck may make of a stored transaction: the deferral flag follows
/// from its body, or stays where the bytes do not parse. Nothing else changes.
pub open spec fn rechecked<
    D: Fn(&[u8]) -> Option<TransactionBody>,
    F: FnMut(u32) -> u64,
>(
    before: StoredTransaction,
    after: StoredTransaction,
    decode: D,
    balance_check: F,
) -> bool {
    &&& after == (StoredTransaction { is_deferred: after.is_deferred, ..before })
    &&& exists|body: Option<TransactionBody>|
        #[trigger] decodes_to(decode, before.bytes, body) && match body {
            Some(b) => deferral(b@, before.transaction_fee, balance_check, after.is_deferred),
            None => after.is_deferred == before.is_deferred,
        }
}

/// A recheck of a whole mempool: every stored transaction is rechecked, vacant
/// slots stay vacant, and the order stays.
pub open spec fn recheck<D: Fn(&[u8]) -> Option<TransactionBody>, F: FnMut(u32) -> u64>(
    before: MempoolView,
    after: MempoolView,
    decode: D,
    balance_check: F,
) -> bool {
    &&& after.order == before.order
    &&& after.slots.len() == before.slots.len()
    &&& forall|s: int|
        0 <= s < before.slots.len() ==> #[trigger] slot_rechecked(
            before.slots[s],
            after.slots[s],
            decode,
            balance_check,
        )
}

/// A recheck of one slot.
pub open spec fn slot_rechecked<
    D: Fn(&[u8]) -> Option<TransactionBody>,
    F: FnMut(u32) -> u64,
>(
    before: Option<StoredTransaction>,
    after: Option<StoredTransaction>,
    decode: D,
    balance_check: F,
) -> bool {
    match before {
        Some(b) => after matches Some(a) && rechecked(b, a, decode, balance_check),
        None => after is None,
    }
}

} // verus!
