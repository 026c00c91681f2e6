//! Walking the eligible transactions in slot order.

use crate::mempool::{entry_bytes, Mempool};
use crate::transaction::{TransactionBody, TransactionView};
use vstd::prelude::*;
#[allow(unused_imports)]
use crate::layout::{in_bounds, lemma_tiled_in_bounds, occupied};
#[allow(unused_imports)]
use crate::model::{decodes_any, decodes_to, hands_out};

verus! {

/// Iterator over the eligible (non-deferred) mempool entries.
pub struct EligibleIter<
    'a,
    D: Fn(&[u8]) -> Option<TransactionBody>,
    const COMPACT_BYTES: usize,
    const MAX_ENTRIES: usize,
> {
    mempool: &'a Mempool<COMPACT_BYTES, MAX_ENTRIES>,
    decode: D,
    idx: usize,
}

impl<const COMPACT_BYTES: usize, const MAX_ENTRIES: usize> Mempool<COMPACT_BYTES, MAX_ENTRIES> {
    /// Walks the transactions that are not deferred, in slot order. Nothing is
    /// copied and the mempool does not change.
    ///
    /// `decode` gives what parsing serialized transaction bytes gives.
    pub fn eligible_iter<D: Fn(&[u8]) -> Option<TransactionBody>>(&self, decode: D) -> (iter:
        EligibleIter<'_, D, COMPACT_BYTES, MAX_ENTRIES>)
        requires
            self.wf(),
            decodes_any(decode),
        ensures
            iter.wf(),
            iter.pool() == *self,
            iter.decoder() == decode,
            iter.position() == 0,
    {
        EligibleIter { mempool: self, decode, idx: 0 }
    }
}

impl<
    'a,
    D: Fn(&[u8]) -> Option<TransactionBody>,
    const COMPACT_BYTES: usize,
    const MAX_ENTRIES: usize,
> EligibleIter<'a, D, COMPACT_BYTES, MAX_ENTRIES> {
    /// The mempool that is walked.
    pub closed spec fn pool(self) -> Mempool<COMPACT_BYTES, MAX_ENTRIES> {
        *self.mempool
    }

    /// What parses the bytes.
    pub closed spec fn decoder(self) -> D {
        self.decode
    }

    /// The first slot that has not been looked at.
    pub closed spec fn position(self) -> int {
        self.idx as int
    }

    /// The walk is somewhere within a well-formed mempool.
    pub open spec fn wf(self) -> bool {
        &&& self.pool().wf()
        &&& decodes_any(self.decoder())
        &&& 0 <= self.position() <= MAX_ENTRIES
    }

    /// `slot` is the first one from the position on that is eligible.
    pub open spec fn is_next(self, slot: int) -> bool {
        &&& self.position() <= slot
        &&& self.pool()@.eligible(slot)
        &&& forall|j: int| self.position() <= j < slot ==> !#[trigger] self.pool()@.eligible(j)
    }

    /// Hands out the next eligible transaction and moves behind its slot.
    /// Nothing is handed out where the bytes in that slot do not parse, or where
    /// no eligible slot is left.
    pub fn next(&mut self) -> (result: Option<TransactionView<'a>>)
        requires
            old(self).wf(),
        ensures
            final(self).wf(),
            final(self).pool() == old(self).pool(),
            final(self).decoder() == old(self).decoder(),
            ({
                ||| {
                    &&& result is None
                    &&& final(self).position() == MAX_ENTRIES
                    &&& forall|j: int|
                        old(self).position() <= j ==> !#[trigger] old(self).pool()@.eligible(j)
                }
                ||| exists|slot: int, body: Option<TransactionBody>|
                    {
                        &&& #[trigger] old(self).is_next(slot)
                        &&& final(self).position() == slot + 1
                        &&& #[trigger] decodes_to(
                            old(self).decoder(),
                            old(self).pool()@.bytes(slot),
                            body,
                        )
                        &&& hands_out(result, old(self).pool()@.bytes(slot), body)
                    }
            }),
            ({
                ||| {
                    &&& result is None
                    &&& final(self).position() == MAX_ENTRIES
                    &&& forall|j: int|
                        old(self).position() <= j < MAX_ENTRIES && #[trigger] old(
                            self,
                        ).pool().entries()[j] is Some ==> old(
                            self,
                        ).pool().entries()[j]->0.is_deferred
                }
                ||| exists|slot: int, b: &[u8], body: Option<TransactionBody>|
                    {
                        let pool = old(self).pool();
                        &&& old(self).position() <= slot < MAX_ENTRIES
                        &&& #[trigger] old(self).pool().entries()[slot] is Some
                        &&& !pool.entries()[slot]->0.is_deferred
                        &&& forall|j: int|
                            old(self).position() <= j < slot && #[trigger] old(
                                self,
                            ).pool().entries()[j] is Some ==> pool.entries()[j]->0.is_deferred
                        &&& final(self).position() == slot + 1
                        &&& #[trigger] call_ensures(old(self).decoder(), (b,), body)
                        &&& b@ == pool.buffer().subrange(
                            pool.entries()[slot]->0.start as int,
                            pool.entries()[slot]->0.start + pool.entries()[slot]->0.length,
                        )
                        &&& (result is Some) == (body is Some)
                        &&& body is Some ==> result->0.bytes@ == b@ && result->0.body == body->0
                    }
            }),
    {
        let mempool: &'a Mempool<COMPACT_BYTES, MAX_ENTRIES> = self.mempool;
        proof {
            lemma_tiled_in_bounds(mempool.entries(), mempool.order(), mempool.usage());
        }
        while self.idx < MAX_ENTRIES
            invariant
                mempool == self.mempool,
                self.pool() == old(self).pool(),
                self.decoder() == old(self).decoder(),
                decodes_any(self.decoder()),
                mempool.wf(),
                in_bounds(mempool.entries(), COMPACT_BYTES as int),
                old(self).position() <= self.position() <= MAX_ENTRIES,
                forall|j: int|
                    old(self).position() <= j < self.position() ==> !#[trigger] old(
                        self,
                    ).pool()@.eligible(j),
            decreases MAX_ENTRIES - self.idx,
        {
            let slot: usize = self.idx;
            self.idx = self.idx + 1;
            if let Some(entry) = &mempool.index()[slot] {
                if !entry.is_deferred {
                    assert(occupied(mempool.entries(), slot as int));
                    assert(old(self).pool()@.eligible(slot as int));
                    let tx_bytes: &'a [u8] = entry_bytes(mempool, entry);
                    let decoded = (self.decode)(tx_bytes);
                    assert(old(self).is_next(slot as int));
                    assert(old(self).pool().entries()[slot as int] is Some);
                    assert(call_ensures(old(self).decoder(), (tx_bytes,), decoded));
                    assert forall|j: int|
                        old(self).position() <= j < slot && #[trigger] old(
                            self,
                        ).pool().entries()[j] is Some implies old(
                        self,
                    ).pool().entries()[j]->0.is_deferred by {
                        assert(!old(self).pool()@.eligible(j));
                    }
                    assert(decodes_to(
                        old(self).decoder(),
                        old(self).pool()@.bytes(slot as int),
                        decoded,
                    ));
                    return match decoded {
                        Some(body) => Some(TransactionView { bytes: tx_bytes, body }),
                        None => None,
                    };
                }
            }
        }
        assert forall|j: int|
            old(self).position() <= j < MAX_ENTRIES && #[trigger] old(
                self,
            ).pool().entries()[j] is Some implies old(
            self,
        ).pool().entries()[j]->0.is_deferred by {
            assert(!old(self).pool()@.eligible(j));
        }
        None
    }
}

} // verus!
