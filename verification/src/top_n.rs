//! Walking the eligible transactions in priority order.

use crate::mempool::{entry_bytes, Mempool};
use crate::priority::priority_precedes;
use crate::transaction::{TransactionBody, TransactionView};
use vstd::prelude::*;
#[allow(unused_imports)]
use crate::layout::{in_bounds, lemma_tiled_in_bounds, occupied};
#[allow(unused_imports)]
use crate::model::{decodes_any, decodes_to};
#[allow(unused_imports)]
use crate::priority::{
    law_priority_is_total, law_priority_is_transitive, precedes, Candidate,
};

verus! {

/// Iterator over the top eligible mempool entries in priority order.
///
/// Keeps a 256-bit map of the slots already handed out and scans the index on
/// each call.
pub struct TopNIter<
    'a,
    D: Fn(&[u8]) -> Option<TransactionBody>,
    const COMPACT_BYTES: usize,
    const MAX_ENTRIES: usize,
> {
    mempool: &'a Mempool<COMPACT_BYTES, MAX_ENTRIES>,
    decode: D,
    remaining: usize,
    yielded_bits: [u64; 4],
}

impl<const COMPACT_BYTES: usize, const MAX_ENTRIES: usize> Mempool<COMPACT_BYTES, MAX_ENTRIES> {
    /// Walks up to `n` eligible transactions with their stored fees, in priority
    /// order: fee per byte descending, own before other only among equal fees
    /// per byte, ascending `hash_crc32`, then lexicographic transaction bytes.
    ///
    /// `decode` gives what parsing serialized transaction bytes gives.
    pub fn top_n_for_exchange<D: Fn(&[u8]) -> Option<TransactionBody>>(
        &self,
        n: usize,
        decode: D,
    ) -> (iter: TopNIter<'_, D, COMPACT_BYTES, MAX_ENTRIES>)
        requires
            self.wf(),
            decodes_any(decode),
        ensures
            iter.wf(),
            iter.pool() == *self,
            iter.decoder() == decode,
            iter.quota() == n,
            iter.yielded() == Set::<int>::empty(),
    {
        let iter = TopNIter { mempool: self, decode, remaining: n, yielded_bits: [0u64;4] };
        proof {
            assert forall|s: int| !iter.yielded().contains(s) by {
                if 0 <= s < 256 {
                    let k = (s % 64) as u64;
                    assert(0u64 & (1u64 << k) == 0) by (bit_vector);
                }
            }
            assert(iter.yielded() =~= Set::<int>::empty());
        }
        iter
    }
}

/// Bit `k` of a word is set.
spec fn bit_set(word: u64, k: u64) -> bool {
    (word & (1u64 << k)) != 0
}

/// The bit of slot `s` is set in the map.
spec fn marked(bits: Seq<u64>, s: int) -> bool {
    bit_set(bits[s / 64], (s % 64) as u64)
}

/// Setting a bit of a word sets that bit and no other.
proof fn lemma_set_bit(word: u64, k: u64, j: u64)
    requires
        k < 64,
        j < 64,
    ensures
        bit_set(word | (1u64 << k), j) == (j == k || bit_set(word, j)),
{
    assert((((word | (1u64 << k)) & (1u64 << j)) != 0) == (j == k || (word & (1u64 << j)) != 0))
        by (bit_vector)
        requires
            k < 64,
            j < 64,
    ;
}

impl<
    'a,
    D: Fn(&[u8]) -> Option<TransactionBody>,
    const COMPACT_BYTES: usize,
    const MAX_ENTRIES: usize,
> TopNIter<'a, D, COMPACT_BYTES, MAX_ENTRIES> {
    /// The mempool that is walked.
    pub closed spec fn pool(self) -> Mempool<COMPACT_BYTES, MAX_ENTRIES> {
        *self.mempool
    }

    /// What parses the bytes.
    pub closed spec fn decoder(self) -> D {
        self.decode
    }

    /// How many transactions may still be handed out.
    pub closed spec fn quota(self) -> int {
        self.remaining as int
    }

    /// The slots already handed out.
    pub closed spec fn yielded(self) -> Set<int> {
        Set::new(|s: int| 0 <= s < 256 && marked(self.yielded_bits@, s))
    }

    /// The walk goes over a well-formed mempool.
    pub open spec fn wf(self) -> bool {
        &&& self.pool().wf()
        &&& decodes_any(self.decoder())
        &&& 0 <= self.quota()
    }

    /// The slot is eligible and has not been handed out.
    pub open spec fn available(self, slot: int) -> bool {
        self.pool()@.eligible(slot) && !self.yielded().contains(slot)
    }

    /// The bytes in the slot did not parse.
    pub open spec fn unreadable(self, slot: int) -> bool {
        decodes_to(self.decoder(), self.pool()@.bytes(slot), None)
    }

    /// The transaction in the slot as a candidate.
    pub open spec fn candidate(self, slot: int) -> Candidate {
        self.pool()@.slots[slot]->0.candidate(slot)
    }

    /// `slot` is available and comes before every other available slot whose
    /// bytes parse.
    pub open spec fn is_best(self, slot: int) -> bool {
        &&& self.available(slot)
        &&& forall|t: int| #[trigger]
            self.available(t) && t != slot ==> self.unreadable(t) || precedes(
                self.candidate(slot),
                self.candidate(t),
            )
    }

    /// `after` is `self` once the transaction in `slot` has been handed out.
    pub open spec fn advanced(self, after: Self, slot: int) -> bool {
        &&& after.pool() == self.pool()
        &&& after.decoder() == self.decoder()
        &&& after.quota() == self.quota() - 1
        &&& after.yielded() == self.yielded().insert(slot)
    }

    /// An available slot holds a transaction that has bytes, and its index entry
    /// makes the same candidate.
    proof fn lemma_candidate(self, slot: int)
        requires
            self.wf(),
            self.available(slot),
        ensures
            occupied(self.pool().entries(), slot),
            self.candidate(slot).length > 0,
            self.candidate(slot) == self.pool().entries()[slot]->0.candidate(
                self.pool()@.bytes(slot),
                slot,
            ),
    {
        self.pool().lemma_entry_in_bounds(slot);
    }

    /// What comes before the best slot so far comes before all that it beat.
    proof fn lemma_better_beats_all(self, better: int, best: int)
        requires
            self.wf(),
            self.available(better),
            self.available(best),
            precedes(self.candidate(better), self.candidate(best)),
        ensures
            forall|t: int| #[trigger]
                self.available(t) && (t == best || precedes(
                    self.candidate(best),
                    self.candidate(t),
                )) ==> precedes(self.candidate(better), self.candidate(t)),
    {
        assert forall|t: int| #[trigger]
            self.available(t) && (t == best || precedes(
                self.candidate(best),
                self.candidate(t),
            )) implies precedes(self.candidate(better), self.candidate(t)) by {
            if t != best {
                self.lemma_candidate(better);
                self.lemma_candidate(best);
                self.lemma_candidate(t);
                law_priority_is_transitive(
                    self.candidate(better),
                    self.candidate(best),
                    self.candidate(t),
                );
            }
        }
    }

    /// The best slot holds an entry that is not deferred and has not been handed
    /// out. Every other such entry comes behind it in priority, or its bytes did
    /// not parse.
    pub proof fn law_best_comes_before_the_rest(self, slot: int)
        requires
            self.wf(),
            self.is_best(slot),
        ensures
            0 <= slot < MAX_ENTRIES,
            self.pool().entries()[slot] is Some,
            !self.pool().entries()[slot]->0.is_deferred,
            !self.yielded().contains(slot),
            forall|t: int|
                0 <= t < MAX_ENTRIES && t != slot && #[trigger] self.pool().entries()[t] is Some
                    && !self.pool().entries()[t]->0.is_deferred && !self.yielded().contains(t) ==> {
                    let pool = self.pool();
                    ||| precedes(
                        pool.entries()[slot]->0.candidate(
                            pool.buffer().subrange(
                                pool.entries()[slot]->0.start as int,
                                pool.entries()[slot]->0.start + pool.entries()[slot]->0.length,
                            ),
                            slot,
                        ),
                        pool.entries()[t]->0.candidate(
                            pool.buffer().subrange(
                                pool.entries()[t]->0.start as int,
                                pool.entries()[t]->0.start + pool.entries()[t]->0.length,
                            ),
                            t,
                        ),
                    )
                    ||| exists|c: &[u8]| #[trigger]
                        call_ensures(self.decoder(), (c,), None) && c@ == pool.buffer().subrange(
                            pool.entries()[t]->0.start as int,
                            pool.entries()[t]->0.start + pool.entries()[t]->0.length,
                        )
                },
    {
        self.lemma_candidate(slot);
        assert forall|t: int|
            0 <= t < MAX_ENTRIES && t != slot && #[trigger] self.pool().entries()[t] is Some
                && !self.pool().entries()[t]->0.is_deferred && !self.yielded().contains(t) implies {
            let pool = self.pool();
            ||| precedes(
                pool.entries()[slot]->0.candidate(
                    pool.buffer().subrange(
                        pool.entries()[slot]->0.start as int,
                        pool.entries()[slot]->0.start + pool.entries()[slot]->0.length,
                    ),
                    slot,
                ),
                pool.entries()[t]->0.candidate(
                    pool.buffer().subrange(
                        pool.entries()[t]->0.start as int,
                        pool.entries()[t]->0.start + pool.entries()[t]->0.length,
                    ),
                    t,
                ),
            )
            ||| exists|c: &[u8]| #[trigger]
                call_ensures(self.decoder(), (c,), None) && c@ == pool.buffer().subrange(
                    pool.entries()[t]->0.start as int,
                    pool.entries()[t]->0.start + pool.entries()[t]->0.length,
                )
        } by {
            assert(self.available(t));
            self.lemma_candidate(t);
        }
    }

    /// Where nothing that is available parses, the bytes of every entry that is
    /// not deferred and has not been handed out did not parse.
    pub proof fn law_rest_does_not_parse(self)
        requires
            self.wf(),
            forall|t: int| #[trigger] self.available(t) ==> self.unreadable(t),
        ensures
            forall|t: int|
                0 <= t < MAX_ENTRIES && #[trigger] self.pool().entries()[t] is Some
                    && !self.pool().entries()[t]->0.is_deferred && !self.yielded().contains(t)
                    ==> exists|c: &[u8]| #[trigger]
                    call_ensures(self.decoder(), (c,), None) && c@ == self.pool().buffer().subrange(
                        self.pool().entries()[t]->0.start as int,
                        self.pool().entries()[t]->0.start + self.pool().entries()[t]->0.length,
                    ),
    {
        assert forall|t: int|
            0 <= t < MAX_ENTRIES && #[trigger] self.pool().entries()[t] is Some
                && !self.pool().entries()[t]->0.is_deferred && !self.yielded().contains(
                t,
            ) implies exists|c: &[u8]| #[trigger]
            call_ensures(self.decoder(), (c,), None) && c@ == self.pool().buffer().subrange(
                self.pool().entries()[t]->0.start as int,
                self.pool().entries()[t]->0.start + self.pool().entries()[t]->0.length,
            ) by {
            assert(self.available(t));
        }
    }

    /// Whether the slot has been handed out.
    fn is_yielded(&self, slot: usize) -> (yielded: bool)
        requires
            slot < 256,
        ensures
            yielded == self.yielded().contains(slot as int),
    {
        (self.yielded_bits[slot / 64] & (1u64 << (slot % 64))) != 0
    }

    /// Notes that the slot has been handed out.
    fn mark_yielded(&mut self, slot: usize)
        requires
            slot < 256,
        ensures
            final(self).pool() == old(self).pool(),
            final(self).decoder() == old(self).decoder(),
            final(self).quota() == old(self).quota(),
            final(self).yielded() == old(self).yielded().insert(slot as int),
    {
        let word: usize = slot / 64;
        self.yielded_bits[word] = self.yielded_bits[word] | (1u64 << (slot % 64));
        proof {
            assert forall|s: int|
                self.yielded().contains(s) == old(self).yielded().insert(slot as int).contains(
                    s,
                ) by {
                if 0 <= s < 256 && s / 64 == slot / 64 {
                    lemma_set_bit(
                        old(self).yielded_bits@[word as int],
                        (slot % 64) as u64,
                        (s % 64) as u64,
                    );
                }
            }
            assert(self.yielded() =~= old(self).yielded().insert(slot as int));
        }
    }

    /// Hands out the best transaction that is left, with its stored fee. Nothing
    /// is handed out once `n` transactions have been, or where no eligible
    /// transaction whose bytes parse is left.
    pub fn next(&mut self) -> (result: Option<(TransactionView<'a>, u64)>)
        requires
            old(self).wf(),
        ensures
            final(self).wf(),
            match result {
                Some((tx, fee)) => {
                    &&& old(self).quota() > 0
                    &&& exists|slot: int| #[trigger]
                        old(self).is_best(slot) && {
                            &&& tx.bytes@ == old(self).pool()@.bytes(slot)
                            &&& fee == old(self).pool()@.slots[slot]->0.transaction_fee
                            &&& decodes_to(old(self).decoder(), tx.bytes@, Some(tx.body))
                            &&& old(self).advanced(*final(self), slot)
                        }
                },
                None => {
                    &&& *final(self) == *old(self)
                    &&& old(self).quota() == 0 || forall|t: int| #[trigger]
                        old(self).available(t) ==> old(self).unreadable(t)
                },
            },
            result is Some ==> old(self).quota() > 0 && exists|slot: int, b: &[u8]|
                {
                    let pool = old(self).pool();
                    &&& 0 <= slot < MAX_ENTRIES
                    &&& #[trigger] old(self).pool().entries()[slot] is Some
                    &&& !pool.entries()[slot]->0.is_deferred
                    &&& !old(self).yielded().contains(slot)
                    &&& b@ == pool.buffer().subrange(
                        pool.entries()[slot]->0.start as int,
                        pool.entries()[slot]->0.start + pool.entries()[slot]->0.length,
                    )
                    &&& (result->0).0.bytes@ == b@
                    &&& (result->0).1 == pool.entries()[slot]->0.transaction_fee
                    &&& #[trigger] call_ensures(
                        old(self).decoder(),
                        (b,),
                        Some((result->0).0.body),
                    )
                    &&& forall|t: int|
                        0 <= t < MAX_ENTRIES && t != slot && #[trigger] old(
                            self,
                        ).pool().entries()[t] is Some && !pool.entries()[t]->0.is_deferred && !old(
                            self,
                        ).yielded().contains(t) ==> {
                            ||| precedes(
                                pool.entries()[slot]->0.candidate(b@, slot),
                                pool.entries()[t]->0.candidate(
                                    pool.buffer().subrange(
                                        pool.entries()[t]->0.start as int,
                                        pool.entries()[t]->0.start + pool.entries()[t]->0.length,
                                    ),
                                    t,
                                ),
                            )
                            ||| exists|c: &[u8]| #[trigger]
                                call_ensures(old(self).decoder(), (c,), None) && c@
                                    == pool.buffer().subrange(
                                    pool.entries()[t]->0.start as int,
                                    pool.entries()[t]->0.start + pool.entries()[t]->0.length,
                                )
                        }
                    &&& final(self).pool() == pool
                    &&& final(self).decoder() == old(self).decoder()
                    &&& final(self).quota() == old(self).quota() - 1
                    &&& final(self).yielded() == old(self).yielded().insert(slot)
                },
            result is None ==> *final(self) == *old(self) && (old(self).quota() == 0 || forall|
                t: int,
            |
                0 <= t < MAX_ENTRIES && #[trigger] old(self).pool().entries()[t] is Some && !old(
                    self,
                ).pool().entries()[t]->0.is_deferred && !old(self).yielded().contains(t)
                    ==> exists|c: &[u8]| #[trigger]
                    call_ensures(old(self).decoder(), (c,), None) && c@ == old(
                        self,
                    ).pool().buffer().subrange(
                        old(self).pool().entries()[t]->0.start as int,
                        old(self).pool().entries()[t]->0.start + old(
                            self,
                        ).pool().entries()[t]->0.length,
                    )),
    {
        if self.remaining == 0 {
            return None;
        }
        let mempool: &'a Mempool<COMPACT_BYTES, MAX_ENTRIES> = self.mempool;
        proof {
            lemma_tiled_in_bounds(mempool.entries(), mempool.order(), mempool.usage());
        }
        let mut best: Option<(usize, TransactionBody)> = None;
        let mut slot: usize = 0;
        while slot < MAX_ENTRIES
            invariant
                slot <= MAX_ENTRIES,
                mempool == self.mempool,
                *self == *old(self),
                self.wf(),
                in_bounds(mempool.entries(), COMPACT_BYTES as int),
                match best {
                    Some((b, body)) => {
                        &&& b < slot
                        &&& self.available(b as int)
                        &&& decodes_to(self.decoder(), self.pool()@.bytes(b as int), Some(body))
                    },
                    None => true,
                },
                forall|t: int|
                    t < slot && #[trigger] self.available(t) ==> self.unreadable(t) || (best is Some
                        && (t == (best->0).0 || precedes(
                        self.candidate((best->0).0 as int),
                        self.candidate(t),
                    ))),
            decreases MAX_ENTRIES - slot,
        {
            let current: usize = slot;
            slot += 1;
            if self.is_yielded(current) {
                continue ;
            }
            let entry = match &mempool.index()[current] {
                Some(entry) => entry,
                None => continue ,
            };
            if entry.is_deferred {
                continue ;
            }
            assert(occupied(mempool.entries(), current as int));
            assert(self.available(current as int));
            let tx_bytes: &'a [u8] = entry_bytes(mempool, entry);
            let body = match (self.decode)(tx_bytes) {
                Some(body) => body,
                None => continue ,
            };
            let is_better = match &best {
                Some((best_slot, _)) => {
                    let best_entry = mempool.index()[*best_slot].as_ref().unwrap();
                    assert(occupied(mempool.entries(), *best_slot as int));
                    priority_precedes(
                        entry,
                        tx_bytes,
                        current,
                        best_entry,
                        entry_bytes(mempool, best_entry),
                        *best_slot,
                    )
                },
                None => true,
            };
            proof {
                self.lemma_candidate(current as int);
                if let Some((best_slot, _)) = best {
                    self.lemma_candidate(best_slot as int);
                    if is_better {
                        self.lemma_better_beats_all(current as int, best_slot as int);
                    } else {
                        law_priority_is_total(
                            self.candidate(current as int),
                            self.candidate(best_slot as int),
                        );
                    }
                }
            }
            if is_better {
                best = Some((current, body));
            }
        }
        match best {
            Some((best_slot, body)) => {
                proof {
                    self.lemma_candidate(best_slot as int);
                    assert(old(self).is_best(best_slot as int));
                    old(self).law_best_comes_before_the_rest(best_slot as int);
                }
                self.mark_yielded(best_slot);
                self.remaining = self.remaining - 1;
                let entry = mempool.index()[best_slot].as_ref().unwrap();
                let tx = TransactionView { bytes: entry_bytes(mempool, entry), body };
                proof {
                    let b = choose|b: &[u8]| #[trigger]
                        call_ensures(old(self).decoder(), (b,), Some(body)) && b@ == old(
                            self,
                        ).pool()@.bytes(best_slot as int);
                    assert(old(self).pool().entries()[best_slot as int] is Some);
                    assert(call_ensures(old(self).decoder(), (b,), Some(tx.body)));
                    assert(b@ == tx.bytes@);
                }
                Some((tx, entry.transaction_fee))
            },
            None => {
                proof {
                    old(self).law_rest_does_not_parse();
                }
                None
            },
        }
    }
}

} // verus!
