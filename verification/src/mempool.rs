//! The mempool: a compacted byte buffer and a fixed-size index over it.

use crate::buffer::{clear, move_down, write_at};
use crate::bytes::bytes_equal;
use crate::compaction::{count_occupied, next_behind};
use crate::crc32::crc32_ieee;
use crate::index::{find_free_slot, IndexEntry};
use crate::transaction::{
    is_listed, is_own_transaction, transaction_expiry_sequence, BlockView, TransactionBody,
    TransactionView,
};
use rand_xoshiro::rand_core::SeedableRng;
use rand_xoshiro::Xoshiro256PlusPlus;
use vstd::prelude::*;
#[allow(unused_imports)]
use crate::buffer::overwritten;
#[allow(unused_imports)]
use crate::compaction::{
    buffer_moved, index_moved, lemma_all_moved, lemma_buffer_step, lemma_index_step,
    lemma_next_is_next_in_order, lemma_none_moved, lemma_tail_does_not_matter,
};
#[allow(unused_imports)]
use crate::crc32::crc32;
#[allow(unused_imports)]
use crate::index::is_first_free;
#[allow(unused_imports)]
use crate::laws::confirmation::law_confirmation_of_entries;
#[allow(unused_imports)]
use crate::laws::lookup::{law_found_slot_has_the_hash, law_nothing_found_has_the_hash};
#[allow(unused_imports)]
use crate::layout::{
    in_bounds, lemma_append_keeps_tiled, lemma_count_bounds, lemma_filter_all,
    lemma_filter_congruent, lemma_offset_below_start, lemma_offset_congruent, lemma_order_counts,
    lemma_tiled_in_bounds, lemma_tiled_is_spaced, lemma_vacating_keeps_spaced, length_of, occupied,
    occupied_count, offset, spaced, start_of, tiled,
};
#[allow(unused_imports)]
use crate::model::{
    answers, balances_any, decodes_any, decodes_to, deferral, differs, falls_short,
    hands_out, hashes_any, hashes_to, lookup, recheck, rechecked, slot_rechecked, stored,
    stored_in, MempoolView, StoredTransaction,
};
#[allow(unused_imports)]
use crate::transaction::{expiry_sequence, is_own};

verus! {

/// The generator of `rand_xoshiro`, which the mempool carries along.
#[verifier::external_type_specification]
#[verifier::external_body]
pub struct ExXoshiro256PlusPlus(Xoshiro256PlusPlus);

/// The generator that `Xoshiro256PlusPlus::seed_from_u64` makes of a seed.
pub uninterp spec fn seeded_generator(seed: u64) -> Xoshiro256PlusPlus;

/// Calls `Xoshiro256PlusPlus::seed_from_u64` of `rand_xoshiro`. It expands the
/// seed with SplitMix64 into the state of the generator and reads nothing else,
/// so the same seed always gives the same generator.
#[verifier::external_body]
fn seed_generator(seed: u64) -> (generator: Xoshiro256PlusPlus)
    ensures
        generator == seeded_generator(seed),
{
    Xoshiro256PlusPlus::seed_from_u64(seed)
}

/// Outcome of [`Mempool::try_add`].
pub enum AddResult {
    /// The transaction was accepted into the mempool.
    Admitted,
    /// The transaction was not accepted: the buffer or the index has no room.
    Rejected,
}

/// Bounded mempool.
///
/// - `COMPACT_BYTES`: byte-buffer capacity, at most 65535.
/// - `MAX_ENTRIES`: maximum number of indexed transactions, at most 255.
pub struct Mempool<const COMPACT_BYTES: usize, const MAX_ENTRIES: usize> {
    compact_buffer: [u8; COMPACT_BYTES],
    index: [Option<IndexEntry>; MAX_ENTRIES],
    prng: Xoshiro256PlusPlus,
    byte_usage: u16,
    entry_count: u8,
    own_node_id: u32,
    order: Ghost<Seq<int>>,
}

impl<const COMPACT_BYTES: usize, const MAX_ENTRIES: usize> View for Mempool<
    COMPACT_BYTES,
    MAX_ENTRIES,
> {
    type V = MempoolView;

    open spec fn view(&self) -> MempoolView {
        MempoolView {
            slots: Seq::new(
                self.entries().len(),
                |s: int| stored_in(self.entries()[s], self.buffer()),
            ),
            order: self.order(),
        }
    }
}

impl<const COMPACT_BYTES: usize, const MAX_ENTRIES: usize> Mempool<COMPACT_BYTES, MAX_ENTRIES> {
    /// The byte buffer.
    pub closed spec fn buffer(self) -> Seq<u8> {
        self.compact_buffer@
    }

    /// The index.
    pub closed spec fn entries(self) -> Seq<Option<IndexEntry>> {
        self.index@
    }

    /// The occupied slots in the order of their bytes in the buffer.
    pub closed spec fn order(self) -> Seq<int> {
        self.order@
    }

    /// Number of buffer bytes in use.
    pub closed spec fn usage(self) -> int {
        self.byte_usage as int
    }

    /// Number of indexed transactions.
    pub closed spec fn count(self) -> int {
        self.entry_count as int
    }

    /// The node from whose perspective transactions are own.
    pub closed spec fn own_node(self) -> u32 {
        self.own_node_id
    }

    /// The generator that was seeded at construction.
    pub closed spec fn generator(self) -> Xoshiro256PlusPlus {
        self.prng
    }

    /// The storage contract: the entries tile the buffer from offset 0 to the
    /// usage, the counters agree with the index, and the unused tail is zero.
    pub open spec fn wf(self) -> bool {
        &&& self.within_limits()
        &&& tiled(self.entries(), self.order(), self.usage())
        &&& self.count() == self.order().len()
    }

    /// The sizes fit, the usage lies within the buffer, and the tail behind it
    /// is zero.
    pub open spec fn within_limits(self) -> bool {
        &&& COMPACT_BYTES <= u16::MAX
        &&& MAX_ENTRIES <= u8::MAX
        &&& self.buffer().len() == COMPACT_BYTES
        &&& self.entries().len() == MAX_ENTRIES
        &&& 0 <= self.usage() <= COMPACT_BYTES
        &&& forall|i: int| self.usage() <= i < COMPACT_BYTES ==> self.buffer()[i] == 0
    }

    /// What stays the same in every operation.
    pub open spec fn same_identity(self, other: Self) -> bool {
        &&& self.own_node() == other.own_node()
        &&& self.generator() == other.generator()
    }

    /// Constructs an empty mempool whose generator is seeded for deterministic
    /// replay. Nothing is recovered from durable storage.
    pub fn new(sub_seed: u64, own_node_id: u32) -> (pool: Self)
        requires
            COMPACT_BYTES <= u16::MAX,
            MAX_ENTRIES <= u8::MAX,
        ensures
            pool.wf(),
            pool.usage() == 0,
            pool.count() == 0,
            pool.buffer() == Seq::new(COMPACT_BYTES as nat, |i: int| 0u8),
            pool@.order == Seq::<int>::empty(),
            pool@.slots == Seq::new(MAX_ENTRIES as nat, |s: int| None::<StoredTransaction>),
            pool.entries().len() == MAX_ENTRIES,
            forall|s: int| 0 <= s < MAX_ENTRIES ==> #[trigger] pool.entries()[s] is None,
            pool.own_node() == own_node_id,
            pool.generator() == seeded_generator(sub_seed),
    {
        let pool = Mempool {
            compact_buffer: [0u8;COMPACT_BYTES],
            index: [None;MAX_ENTRIES],
            prng: seed_generator(sub_seed),
            byte_usage: 0,
            entry_count: 0,
            own_node_id,
            order: Ghost(Seq::empty()),
        };
        assert(pool.buffer() =~= Seq::new(COMPACT_BYTES as nat, |i: int| 0u8));
        assert(pool@.slots =~= Seq::new(MAX_ENTRIES as nat, |s: int| None::<StoredTransaction>));
        proof {
            reveal(tiled);
        }
        pool
    }

    /// The current number of indexed transactions.
    pub fn entry_count(&self) -> (count: u8)
        ensures
            count == self.count(),
    {
        self.entry_count
    }

    /// The current byte-buffer usage.
    pub fn byte_usage(&self) -> (usage: u16)
        ensures
            usage == self.usage(),
    {
        self.byte_usage
    }

    /// The whole byte buffer.
    pub fn compact_buffer(&self) -> (buffer: &[u8; COMPACT_BYTES])
        ensures
            buffer@ == self.buffer(),
    {
        &self.compact_buffer
    }

    /// The whole index.
    pub fn index(&self) -> (index: &[Option<IndexEntry>; MAX_ENTRIES])
        ensures
            index@ == self.entries(),
    {
        &self.index
    }

    /// The generator that was seeded at construction.
    pub fn prng(&self) -> (prng: &Xoshiro256PlusPlus)
        ensures
            *prng == self.generator(),
    {
        &self.prng
    }

    /// The index has a slot for every stored transaction.
    pub proof fn lemma_count_within_limit(self)
        requires
            self.wf(),
        ensures
            self.order().len() == occupied_count(self.entries(), MAX_ENTRIES as int),
            self.count() <= MAX_ENTRIES,
    {
        reveal(tiled);
        lemma_order_counts(self.entries(), self.order());
        lemma_count_bounds(self.entries(), MAX_ENTRIES as int);
    }

    /// An occupied slot points into the used part of the buffer.
    pub proof fn lemma_entry_in_bounds(self, slot: int)
        requires
            self.wf(),
            occupied(self.entries(), slot),
        ensures
            self@.holds(slot),
            0 < length_of(self.entries(), slot),
            0 <= start_of(self.entries(), slot),
            start_of(self.entries(), slot) + length_of(self.entries(), slot) <= self.usage(),
            self@.bytes(slot).len() == length_of(self.entries(), slot),
            self@.slots[slot] == Some(stored(self.entries()[slot]->0, self.buffer())),
    {
        lemma_tiled_in_bounds(self.entries(), self.order(), self.usage());
    }
}

/// The bytes that an index entry points at.
pub fn entry_bytes<'a, const COMPACT_BYTES: usize, const MAX_ENTRIES: usize>(
    mempool: &'a Mempool<COMPACT_BYTES, MAX_ENTRIES>,
    entry: &IndexEntry,
) -> (bytes: &'a [u8])
    requires
        entry.start + entry.length <= COMPACT_BYTES,
    ensures
        bytes@ == stored(*entry, mempool.buffer()).bytes,
        bytes@ == mempool.buffer().subrange(entry.start as int, entry.start + entry.length),
{
    let start: usize = entry.start as usize;
    let len: usize = entry.length as usize;
    &mempool.compact_buffer[start..start + len]
}

impl<const COMPACT_BYTES: usize, const MAX_ENTRIES: usize> Mempool<COMPACT_BYTES, MAX_ENTRIES> {
    /// Compacts the buffer and the index in place, so that the occupied entries
    /// tile the buffer from offset 0, and clears the bytes that become free.
    ///
    /// Entries are taken in ascending order of their original start. A moved
    /// entry starts no later than it did, so the original start of the last one
    /// moved tells the moved entries from the others.
    fn compact_after_removal(&mut self)
        requires
            old(self).within_limits(),
            spaced(old(self).entries(), old(self).order(), old(self).usage()),
        ensures
            final(self).wf(),
            final(self)@ == old(self)@,
            final(self).same_identity(*old(self)),
    {
        let ghost before = self.entries();
        let ghost bytes = self.buffer();
        let ghost order = self.order();
        let ghost usage = self.usage();
        let survivor_total: usize = count_occupied(&self.index);
        proof {
            lemma_order_counts(before, order);
            lemma_none_moved(before, bytes, order);
        }
        let old_byte_usage: usize = self.byte_usage as usize;
        let mut write_offset: u16 = 0;
        let mut last_original_start: Option<u16> = None;
        let mut k: usize = 0;
        while k < survivor_total
            invariant
                k <= survivor_total,
                survivor_total == order.len(),
                survivor_total <= MAX_ENTRIES,
                COMPACT_BYTES <= u16::MAX,
                MAX_ENTRIES <= u8::MAX,
                bytes.len() == COMPACT_BYTES,
                0 <= usage <= COMPACT_BYTES,
                spaced(before, order, usage),
                index_moved(before, order, k as int, self.index@),
                buffer_moved(before, bytes, order, k as int, self.compact_buffer@),
                write_offset == offset(before, order, k as int),
                last_original_start == (if k == 0 {
                    None
                } else {
                    Some(before[order[k - 1]]->0.start)
                }),
                self.order@ == order,
                self.own_node_id == old(self).own_node_id,
                self.prng == old(self).prng,
            decreases survivor_total - k,
        {
            let next = next_behind(&self.index, last_original_start);
            proof {
                lemma_next_is_next_in_order(
                    before,
                    order,
                    usage,
                    k as int,
                    self.index@,
                    last_original_start,
                );
                assert(occupied(before, order[k as int]));
                assert(start_of(before, order[k as int]) + length_of(before, order[k as int])
                    <= usage);
                lemma_offset_below_start(before, order, usage, k as int);
                lemma_index_step(before, order, usage, k as int, self.index@);
                lemma_buffer_step(
                    before,
                    bytes,
                    order,
                    usage,
                    k as int,
                    self.compact_buffer@,
                );
            }
            let slot: usize = next.unwrap();
            assert(slot == order[k as int]);
            let mut entry: IndexEntry = self.index[slot].unwrap();
            let original_start: u16 = entry.start;
            let src_start: usize = original_start as usize;
            let src_len: usize = entry.length as usize;
            let dst_start: usize = write_offset as usize;
            let ghost unmoved = self.compact_buffer@;
            if src_start != dst_start {
                move_down(&mut self.compact_buffer, src_start, dst_start, src_len);
            } else {
                assert(overwritten(
                    unmoved,
                    dst_start as int,
                    unmoved.subrange(src_start as int, src_start + src_len),
                ) =~= unmoved);
            }
            entry.start = write_offset;
            self.index[slot] = Some(entry);
            write_offset = write_offset + entry.length;
            last_original_start = Some(original_start);
            k += 1;
        }
        proof {
            lemma_all_moved(before, bytes, order, usage, self.index@, self.compact_buffer@);
        }
        let new_byte_usage: usize = write_offset as usize;
        let ghost uncleared = self.compact_buffer@;
        if new_byte_usage < old_byte_usage {
            clear(&mut self.compact_buffer, new_byte_usage, old_byte_usage);
        }
        self.byte_usage = write_offset;
        self.entry_count = survivor_total as u8;
        proof {
            lemma_tail_does_not_matter(
                self.entries(),
                self.order(),
                self.usage(),
                uncleared,
                self.buffer(),
            );
            assert(self@ =~= old(self)@);
        }
    }
}

impl<const COMPACT_BYTES: usize, const MAX_ENTRIES: usize> Mempool<COMPACT_BYTES, MAX_ENTRIES> {
    /// There is room for a transaction of `length` bytes.
    pub open spec fn has_room(self, length: int) -> bool {
        &&& self.usage() + length <= COMPACT_BYTES
        &&& self.count() < MAX_ENTRIES
    }

    /// Attempts to take `tx` into the mempool.
    ///
    /// Succeeds when the buffer has room for its bytes and the index has a
    /// vacant slot. The transaction then goes into the first vacant slot, its
    /// bytes directly behind those already stored. A rejected transaction leaves
    /// the mempool as it was.
    ///
    /// `calculate_hash` gives the canonical hash of serialized transaction bytes.
    pub fn try_add<H: Fn(&[u8]) -> [u8; 32]>(
        &mut self,
        tx: TransactionView<'_>,
        transaction_fee: u64,
        is_deferred: bool,
        calculate_hash: H,
    ) -> (result: AddResult)
        requires
            old(self).wf(),
            tx.wf(),
            hashes_any(calculate_hash),
        ensures
            final(self).wf(),
            (result is Admitted) == old(self).has_room(tx.bytes@.len() as int),
            (result is Admitted) == (old(self).usage() + tx.bytes@.len() <= COMPACT_BYTES
                && old(self).count() < MAX_ENTRIES),
            result is Rejected ==> *final(self) == *old(self),
            result is Admitted ==> {
                &&& final(self).own_node() == old(self).own_node()
                &&& final(self).generator() == old(self).generator()
                &&& final(self).buffer().len() == COMPACT_BYTES
                &&& forall|i: int|
                    0 <= i < COMPACT_BYTES ==> #[trigger] final(self).buffer()[i] == (if old(
                        self,
                    ).usage() <= i < old(self).usage() + tx.bytes@.len() {
                        tx.bytes@[i - old(self).usage()]
                    } else {
                        old(self).buffer()[i]
                    })
                &&& exists|slot: int, digest: [u8; 32]|
                    {
                        &&& 0 <= slot < MAX_ENTRIES
                        &&& #[trigger] old(self).entries()[slot] is None
                        &&& forall|j: int| 0 <= j < slot ==> old(self).entries()[j] is Some
                        &&& #[trigger] call_ensures(calculate_hash, (tx.bytes,), digest)
                        &&& final(self).entries() == old(self).entries().update(
                            slot,
                            Some(
                                IndexEntry {
                                    start: old(self).usage() as u16,
                                    length: tx.bytes@.len() as u16,
                                    hash_crc32: crc32(digest@),
                                    transaction_fee,
                                    expiry_sequence: expiry_sequence(tx.body@),
                                    is_deferred,
                                    is_own: is_own(tx.body@, old(self).own_node()),
                                },
                            ),
                        )
                    }
            },
            result is Admitted ==> {
                &&& final(self).same_identity(*old(self))
                &&& final(self).usage() == old(self).usage() + tx.bytes@.len()
                &&& final(self).count() == old(self).count() + 1
                &&& final(self).buffer() == overwritten(
                    old(self).buffer(),
                    old(self).usage(),
                    tx.bytes@,
                )
                &&& exists|slot: int, digest: Seq<u8>|
                    {
                        &&& #[trigger] is_first_free(old(self)@.slots, slot)
                        &&& #[trigger] hashes_to(calculate_hash, tx.bytes@, digest)
                        &&& final(self)@ == old(self)@.add_last(
                            slot,
                            StoredTransaction {
                                bytes: tx.bytes@,
                                hash_crc32: crc32(digest),
                                transaction_fee,
                                expiry_sequence: expiry_sequence(tx.body@),
                                is_deferred,
                                is_own: is_own(tx.body@, old(self).own_node()),
                            },
                        )
                    }
            },
    {
        let bytes: &[u8] = tx.bytes;
        let tx_len: usize = bytes.len();
        if tx_len > COMPACT_BYTES - self.byte_usage as usize {
            return AddResult::Rejected;
        }
        if self.entry_count as usize >= MAX_ENTRIES {
            return AddResult::Rejected;
        }
        let slot: usize = match find_free_slot(&self.index) {
            Some(s) => s,
            None => {
                proof {
                    reveal(tiled);
                    lemma_order_counts(self.entries(), self.order());
                    lemma_count_bounds(self.entries(), MAX_ENTRIES as int);
                    assert(false);
                }
                return AddResult::Rejected;
            },
        };
        let start: usize = self.byte_usage as usize;
        write_at(&mut self.compact_buffer, start, bytes);
        let tx_hash: [u8; 32] = calculate_hash(bytes);
        let entry = IndexEntry {
            start: start as u16,
            length: tx_len as u16,
            hash_crc32: crc32_ieee(tx_hash.as_slice()),
            transaction_fee,
            expiry_sequence: transaction_expiry_sequence(&tx),
            is_deferred,
            is_own: is_own_transaction(&tx, self.own_node_id),
        };
        proof {
            lemma_append_keeps_tiled(
                old(self).entries(),
                old(self).order(),
                old(self).usage(),
                slot as int,
                entry,
            );
            old(self).lemma_count_within_limit();
            lemma_tail_does_not_matter(
                old(self).entries(),
                old(self).order(),
                old(self).usage(),
                old(self).buffer(),
                self.compact_buffer@,
            );
        }
        self.index[slot] = Some(entry);
        self.byte_usage = self.byte_usage + tx_len as u16;
        self.entry_count = self.entry_count + 1;
        self.order = Ghost(self.order@.push(slot as int));
        proof {
            assert(is_first_free(old(self)@.slots, slot as int));
            assert(call_ensures(calculate_hash, (tx.bytes,), tx_hash));
            assert(old(self).entries()[slot as int] is None);
            assert(hashes_to(calculate_hash, bytes@, tx_hash@));
            assert(self.buffer().subrange(start as int, start + tx_len) =~= bytes@);
            assert(self@ =~= old(self)@.add_last(slot as int, stored(entry, self.buffer())));
        }
        AddResult::Admitted
    }

    /// The serialized bytes of the first stored transaction that answers to a
    /// canonical hash.
    ///
    /// The fingerprint in the index is a prefilter only: a match of it is always
    /// followed by a comparison of the full hash.
    fn find_by_hash<H: Fn(&[u8]) -> [u8; 32]>(
        &self,
        hash: &[u8; 32],
        calculate_hash: &H,
    ) -> (found: Option<&[u8]>)
        requires
            self.wf(),
            hashes_any(*calculate_hash),
        ensures
            match found {
                Some(bytes) => exists|slot: int| #[trigger]
                    lookup(self@, *calculate_hash, hash@, Some(slot)) && bytes@ == self@.bytes(
                        slot,
                    ),
                None => lookup(self@, *calculate_hash, hash@, None),
            },
    {
        proof {
            lemma_tiled_in_bounds(self.entries(), self.order(), self.usage());
        }
        let hash_crc32: u32 = crc32_ieee(hash.as_slice());
        let mut slot: usize = 0;
        while slot < MAX_ENTRIES
            invariant
                slot <= MAX_ENTRIES,
                in_bounds(self.entries(), COMPACT_BYTES as int),
                self.entries().len() == MAX_ENTRIES,
                hashes_any(*calculate_hash),
                hash_crc32 == crc32(hash@),
                forall|j: int|
                    0 <= j < slot ==> #[trigger] differs(self@, *calculate_hash, hash@, j),
            decreases MAX_ENTRIES - slot,
        {
            if let Some(entry) = &self.index[slot] {
                assert(occupied(self.entries(), slot as int));
                if entry.hash_crc32 == hash_crc32 {
                    let tx_bytes: &[u8] = entry_bytes(self, entry);
                    let digest: [u8; 32] = calculate_hash(tx_bytes);
                    assert(hashes_to(*calculate_hash, self@.bytes(slot as int), digest@));
                    if bytes_equal(digest.as_slice(), hash.as_slice()) {
                        assert(answers(self@, *calculate_hash, hash@, slot as int));
                        assert(lookup(self@, *calculate_hash, hash@, Some(slot as int)));
                        return Some(tx_bytes);
                    }
                }
            }
            assert(differs(self@, *calculate_hash, hash@, slot as int));
            slot += 1;
        }
        None
    }

    /// Lookup by canonical transaction hash. Hands out a view borrowed from the
    /// buffer.
    ///
    /// `calculate_hash` gives the canonical hash of serialized transaction
    /// bytes, `decode` what parsing them gives.
    pub fn get_by_hash<
        H: Fn(&[u8]) -> [u8; 32],
        D: Fn(&[u8]) -> Option<TransactionBody>,
    >(&self, hash: &[u8; 32], calculate_hash: H, decode: D) -> (result: Option<TransactionView<'_>>)
        requires
            self.wf(),
            hashes_any(calculate_hash),
            decodes_any(decode),
        ensures
            lookup(self@, calculate_hash, hash@, None) && result is None || exists|slot: int,
                body: Option<TransactionBody>|
                {
                    &&& #[trigger] lookup(self@, calculate_hash, hash@, Some(slot))
                    &&& #[trigger] decodes_to(decode, self@.bytes(slot), body)
                    &&& hands_out(result, self@.bytes(slot), body)
                },
            lookup(self@, calculate_hash, hash@, None) && result is None || exists|
                slot: int,
                b: &[u8],
                body: Option<TransactionBody>,
            |
                {
                    &&& #[trigger] lookup(self@, calculate_hash, hash@, Some(slot))
                    &&& #[trigger] call_ensures(decode, (b,), body)
                    &&& b@ == self.buffer().subrange(
                        self.entries()[slot]->0.start as int,
                        self.entries()[slot]->0.start + self.entries()[slot]->0.length,
                    )
                    &&& (result is Some) == (body is Some)
                    &&& body is Some ==> result->0.bytes@ == b@ && result->0.body == body->0
                },
    {
        match self.find_by_hash(hash, &calculate_hash) {
            Some(tx_bytes) => {
                let decoded = decode(tx_bytes);
                proof {
                    let slot = choose|slot: int| #[trigger]
                        lookup(self@, calculate_hash, hash@, Some(slot)) && tx_bytes@
                            == self@.bytes(slot);
                    assert(decodes_to(decode, self@.bytes(slot), decoded));
                    assert(call_ensures(decode, (tx_bytes,), decoded));
                }
                match decoded {
                    Some(body) => Some(TransactionView { bytes: tx_bytes, body }),
                    None => None,
                }
            },
            None => None,
        }
    }

    /// `true` iff a transaction with the given canonical hash is present.
    pub fn contains<H: Fn(&[u8]) -> [u8; 32]>(
        &self,
        hash: &[u8; 32],
        calculate_hash: H,
    ) -> (present: bool)
        requires
            self.wf(),
            hashes_any(calculate_hash),
        ensures
            present ==> exists|slot: int| #[trigger]
                lookup(self@, calculate_hash, hash@, Some(slot)),
            !present ==> lookup(self@, calculate_hash, hash@, None),
            present ==> exists|slot: int, b: &[u8], d: [u8; 32]|
                {
                    &&& 0 <= slot < MAX_ENTRIES
                    &&& #[trigger] self.entries()[slot] is Some
                    &&& #[trigger] call_ensures(calculate_hash, (b,), d)
                    &&& d@ == hash@
                    &&& b@ == self.buffer().subrange(
                        self.entries()[slot]->0.start as int,
                        self.entries()[slot]->0.start + self.entries()[slot]->0.length,
                    )
                },
            !present ==> forall|s: int|
                0 <= s < MAX_ENTRIES && #[trigger] self.entries()[s] is Some ==> {
                    ||| self.entries()[s]->0.hash_crc32 != crc32(hash@)
                    ||| exists|b: &[u8], d: [u8; 32]| #[trigger]
                        call_ensures(calculate_hash, (b,), d) && d@ != hash@ && b@
                            == self.buffer().subrange(
                            self.entries()[s]->0.start as int,
                            self.entries()[s]->0.start + self.entries()[s]->0.length,
                        )
                },
    {
        let present = self.find_by_hash(hash, &calculate_hash).is_some();
        proof {
            if present {
                let slot = choose|slot: int| #[trigger]
                    lookup(self@, calculate_hash, hash@, Some(slot));
                law_found_slot_has_the_hash(*self, calculate_hash, hash@, slot);
                assert(self.entries()[slot] is Some);
            } else {
                law_nothing_found_has_the_hash(*self, calculate_hash, hash@);
            }
        }
        present
    }

    /// Removes the entries whose serialized bytes appear in an accepted
    /// transaction block, then compacts the buffer. A block of another type
    /// changes nothing.
    pub fn confirm_by_block_acceptance(&mut self, accepted: &BlockView<'_>)
        requires
            old(self).wf(),
        ensures
            final(self).wf(),
            final(self).same_identity(*old(self)),
            final(self)@ == old(self)@.confirm(accepted.accepted()),
            final(self).own_node() == old(self).own_node(),
            final(self).generator() == old(self).generator(),
            accepted.transactions is None ==> *final(self) == *old(self),
            forall|s: int|
                0 <= s < MAX_ENTRIES ==> ((#[trigger] final(self).entries()[s] is Some) == (old(
                    self,
                ).entries()[s] is Some && !(accepted.transactions is Some && exists|i: int|
                    0 <= i < accepted.transactions->0@.len()
                        && #[trigger] accepted.transactions->0@[i]@ == old(
                        self,
                    ).buffer().subrange(
                        old(self).entries()[s]->0.start as int,
                        old(self).entries()[s]->0.start + old(self).entries()[s]->0.length,
                    )))),
            forall|s: int|
                0 <= s < MAX_ENTRIES && #[trigger] final(self).entries()[s] is Some ==> {
                    let (e, f) = (old(self).entries()[s]->0, final(self).entries()[s]->0);
                    &&& f.length == e.length
                    &&& f.hash_crc32 == e.hash_crc32
                    &&& f.transaction_fee == e.transaction_fee
                    &&& f.expiry_sequence == e.expiry_sequence
                    &&& f.is_deferred == e.is_deferred
                    &&& f.is_own == e.is_own
                    &&& final(self).buffer().subrange(f.start as int, f.start + f.length) == old(
                        self,
                    ).buffer().subrange(e.start as int, e.start + e.length)
                },
            forall|s: int, t: int|
                0 <= s < MAX_ENTRIES && 0 <= t < MAX_ENTRIES
                    && #[trigger] final(self).entries()[s] is Some
                    && #[trigger] final(self).entries()[t] is Some && old(
                    self,
                ).entries()[s]->0.start < old(self).entries()[t]->0.start
                    ==> final(self).entries()[s]->0.start < final(self).entries()[t]->0.start,
    {
        let ghost set = accepted.accepted();
        let ghost entries = self.entries();
        let ghost view = self@;
        let accepted_txs = match &accepted.transactions {
            Some(list) => *list,
            None => {
                proof {
                    self.lemma_nothing_confirmed(set);
                    law_confirmation_of_entries(*old(self), *self, *accepted);
                }
                return;
            },
        };
        proof {
            lemma_tiled_in_bounds(entries, self.order(), self.usage());
        }
        let mut removed = false;
        let mut slot: usize = 0;
        while slot < MAX_ENTRIES
            invariant
                slot <= MAX_ENTRIES,
                in_bounds(entries, COMPACT_BYTES as int),
                entries.len() == MAX_ENTRIES,
                entries == old(self).entries(),
                view == old(self)@,
                set == accepted.accepted(),
                accepted.transactions == Some(accepted_txs),
                self.index@.len() == MAX_ENTRIES,
                self.compact_buffer == old(self).compact_buffer,
                self.byte_usage == old(self).byte_usage,
                self.entry_count == old(self).entry_count,
                self.order == old(self).order,
                self.own_node_id == old(self).own_node_id,
                self.prng == old(self).prng,
                forall|s: int|
                    0 <= s < MAX_ENTRIES ==> #[trigger] self.index@[s] == (if s < slot
                        && view.confirmed(set, s) {
                        None
                    } else {
                        entries[s]
                    }),
                !removed ==> self.index == old(self).index && forall|s: int|
                    0 <= s < slot ==> !#[trigger] view.confirmed(set, s),
            decreases MAX_ENTRIES - slot,
        {
            if let Some(entry) = &self.index[slot] {
                assert(occupied(entries, slot as int));
                let tx_bytes: &[u8] = entry_bytes(self, entry);
                if is_listed(accepted_txs, tx_bytes) {
                    assert(view.confirmed(set, slot as int));
                    self.index[slot] = None;
                    removed = true;
                }
            }
            slot += 1;
        }
        if removed {
            proof {
                let rest = self.index@;
                let keep = |s: int| rest[s] is Some;
                let keep2 = |s: int| !view.confirmed(set, s);
                let kept = old(self).order().filter(keep);
                lemma_tiled_is_spaced(entries, old(self).order(), old(self).usage());
                lemma_vacating_keeps_spaced(
                    entries,
                    old(self).order(),
                    old(self).usage(),
                    rest,
                );
                assert forall|s: int| old(self).order().contains(s) implies #[trigger] keep(s)
                    == keep2(s) by {
                    let k = choose|k: int|
                        0 <= k < old(self).order().len() && old(self).order()[k] == s;
                    assert(occupied(entries, old(self).order()[k]));
                    assert(rest[s] == (if view.confirmed(set, s) {
                        None
                    } else {
                        entries[s]
                    }));
                }
                lemma_filter_congruent(old(self).order(), keep, keep2);
                self.order = Ghost(kept);
                assert(self@ =~= view.confirm(set));
            }
            self.compact_after_removal();
        } else {
            proof {
                self.lemma_nothing_confirmed(set);
            }
        }
        proof {
            law_confirmation_of_entries(*old(self), *self, *accepted);
        }
    }

    /// Where no stored transaction is accepted, confirming changes nothing.
    proof fn lemma_nothing_confirmed(self, accepted: Set<Seq<u8>>)
        requires
            forall|s: int| !#[trigger] self@.confirmed(accepted, s),
        ensures
            self@.confirm(accepted) == self@,
    {
        lemma_filter_all(self.order(), |s: int| !self@.confirmed(accepted, s));
        assert(self@.confirm(accepted) =~= self@);
    }
}

/// Whether a balance covers a price and a fee. The sum may be larger than any
/// balance.
fn covers(balance: u64, price: u64, fee: u64) -> (covered: bool)
    ensures
        covered == (price + fee <= balance),
{
    price <= balance && fee <= balance - price
}

impl<const COMPACT_BYTES: usize, const MAX_ENTRIES: usize> Mempool<COMPACT_BYTES, MAX_ENTRIES> {
    /// Recomputes the deferral flags from the balances that `balance_check`
    /// gives.
    ///
    /// A node transfer is eligible while its initializer's balance covers the
    /// amount and the stored fee, a registration while it covers the
    /// registration price and the stored fee. Complex transactions are always
    /// eligible. An entry whose bytes do not parse keeps its flag.
    ///
    /// `balance_check` is asked once for each node transfer and registration, in
    /// slot order. The contract speaks of its answers, not of how often or in
    /// which order they were asked for.
    ///
    /// `decode` gives what parsing serialized transaction bytes gives.
    pub fn recheck_eligibility<
        F: FnMut(u32) -> u64,
        D: Fn(&[u8]) -> Option<TransactionBody>,
    >(&mut self, mut balance_check: F, decode: D)
        requires
            old(self).wf(),
            balances_any(balance_check),
            decodes_any(decode),
        ensures
            final(self).wf(),
            final(self).same_identity(*old(self)),
            final(self).usage() == old(self).usage(),
            final(self).count() == old(self).count(),
            final(self).buffer() == old(self).buffer(),
            recheck(old(self)@, final(self)@, decode, balance_check),
            final(self).own_node() == old(self).own_node(),
            final(self).generator() == old(self).generator(),
            forall|s: int|
                0 <= s < MAX_ENTRIES ==> (#[trigger] final(self).entries()[s] is Some) == (old(
                    self,
                ).entries()[s] is Some),
            forall|s: int|
                0 <= s < MAX_ENTRIES && #[trigger] final(self).entries()[s] is Some ==> {
                    let (e, f) = (old(self).entries()[s]->0, final(self).entries()[s]->0);
                    &&& f.start == e.start
                    &&& f.length == e.length
                    &&& f.hash_crc32 == e.hash_crc32
                    &&& f.transaction_fee == e.transaction_fee
                    &&& f.expiry_sequence == e.expiry_sequence
                    &&& f.is_own == e.is_own
                },
            forall|s: int|
                0 <= s < MAX_ENTRIES && #[trigger] final(self).entries()[s] is Some ==> exists|
                    b: &[u8],
                    body: Option<TransactionBody>,
                |
                    {
                        let (e, f) = (old(self).entries()[s]->0, final(self).entries()[s]->0);
                        &&& #[trigger] call_ensures(decode, (b,), body)
                        &&& b@ == old(self).buffer().subrange(e.start as int, e.start + e.length)
                        &&& match body {
                            Some(TransactionBody::NodeTransfer { initializer, amount, .. }) =>
                                exists|balance: u64| #[trigger]
                                call_ensures(balance_check, (initializer,), balance)
                                    && f.is_deferred == (balance < amount + e.transaction_fee),
                            Some(
                                TransactionBody::Registration { initializer, registration_price },
                            ) => exists|balance: u64| #[trigger]
                                call_ensures(balance_check, (initializer,), balance)
                                    && f.is_deferred == (balance < registration_price
                                    + e.transaction_fee),
                            Some(TransactionBody::Complex { .. }) => !f.is_deferred,
                            Some(TransactionBody::Unrecognized) => !f.is_deferred,
                            None => f.is_deferred == e.is_deferred,
                        }
                    },
    {
        let ghost check = balance_check;
        let ghost entries = self.entries();
        let ghost buffer = self.buffer();
        proof {
            lemma_tiled_in_bounds(entries, self.order(), self.usage());
        }
        let mut slot: usize = 0;
        while slot < MAX_ENTRIES
            invariant
                slot <= MAX_ENTRIES,
                in_bounds(entries, COMPACT_BYTES as int),
                entries.len() == MAX_ENTRIES,
                balances_any(balance_check),
                balance_check == check,
                decodes_any(decode),
                entries == old(self).entries(),
                buffer == old(self).buffer(),
                self.index@.len() == MAX_ENTRIES,
                self.compact_buffer == old(self).compact_buffer,
                self.byte_usage == old(self).byte_usage,
                self.entry_count == old(self).entry_count,
                self.order == old(self).order,
                self.own_node_id == old(self).own_node_id,
                self.prng == old(self).prng,
                forall|s: int| slot <= s < MAX_ENTRIES ==> #[trigger] self.index@[s] == entries[s],
                forall|s: int|
                    0 <= s < slot ==> flag_rechecked(
                        entries[s],
                        #[trigger] self.index@[s],
                        buffer,
                        decode,
                        check,
                    ),
            decreases MAX_ENTRIES - slot,
        {
            if let Some(mut entry) = self.index[slot] {
                assert(entries[slot as int] == Some(entry));
                assert(occupied(entries, slot as int));
                let ghost before = entry;
                let tx_bytes: &[u8] = entry_bytes(self, &entry);
                let decoded = decode(tx_bytes);
                assert(decodes_to(decode, stored(before, buffer).bytes, decoded));
                if let Some(body) = decoded {
                    let fee: u64 = entry.transaction_fee;
                    let eligible = match &body {
                        TransactionBody::NodeTransfer { initializer, amount, .. } => {
                            let covered = covers(balance_check(*initializer), *amount, fee);
                            assert(falls_short(check, *initializer, *amount + fee, !covered));
                            covered
                        },
                        TransactionBody::Registration { initializer, registration_price } => {
                            let price: u64 = *registration_price;
                            let covered = covers(balance_check(*initializer), price, fee);
                            assert(falls_short(check, *initializer, price + fee, !covered));
                            covered
                        },
                        TransactionBody::Complex { .. } => true,
                        TransactionBody::Unrecognized => true,
                    };
                    assert(deferral(body@, fee, check, !eligible));
                    entry.is_deferred = !eligible;
                    self.index[slot] = Some(entry);
                }
                assert(rechecked(stored(before, buffer), stored(entry, buffer), decode, check));
            }
            slot += 1;
        }
        proof {
            lemma_flags_keep_layout(entries, self.index@, self.order@, self.usage());
            assert forall|s: int| 0 <= s < MAX_ENTRIES implies #[trigger] slot_rechecked(
                old(self)@.slots[s],
                self@.slots[s],
                decode,
                check,
            ) by {
                assert(flag_rechecked(entries[s], self.index@[s], buffer, decode, check));
            }
        }
    }
}

/// What a recheck may make of an index entry.
spec fn flag_rechecked<D: Fn(&[u8]) -> Option<TransactionBody>, F: FnMut(u32) -> u64>(
    before: Option<IndexEntry>,
    after: Option<IndexEntry>,
    buffer: Seq<u8>,
    decode: D,
    balance_check: F,
) -> bool {
    match before {
        Some(b) => {
            &&& after is Some
            &&& after->0 == (IndexEntry { is_deferred: after->0.is_deferred, ..b })
            &&& rechecked(stored(b, buffer), stored(after->0, buffer), decode, balance_check)
        },
        None => after is None,
    }
}

/// Where the entries lie does not depend on the deferral flags.
proof fn lemma_flags_keep_layout(
    entries: Seq<Option<IndexEntry>>,
    flagged: Seq<Option<IndexEntry>>,
    order: Seq<int>,
    usage: int,
)
    requires
        tiled(entries, order, usage),
        flagged.len() == entries.len(),
        forall|s: int|
            0 <= s < entries.len() ==> (#[trigger] flagged[s] is Some) == (entries[s] is Some),
        forall|s: int|
            0 <= s < entries.len() && entries[s] is Some ==> #[trigger] flagged[s]->0.start
                == entries[s]->0.start && flagged[s]->0.length == entries[s]->0.length,
    ensures
        tiled(flagged, order, usage),
{
    reveal(tiled);
    assert forall|s: int| occupied(flagged, s) == #[trigger] occupied(entries, s) by {
        if 0 <= s < entries.len() {
            assert((flagged[s] is Some) == (entries[s] is Some));
        }
    }
    assert forall|k: int| 0 <= k < order.len() implies {
        &&& occupied(flagged, #[trigger] order[k])
        &&& start_of(flagged, order[k]) == start_of(entries, order[k])
        &&& length_of(flagged, order[k]) == length_of(entries, order[k])
    } by {
        assert(occupied(entries, order[k]));
        assert(flagged[order[k]]->0.start == entries[order[k]]->0.start);
    }
    assert forall|k: int| 0 <= k <= order.len() implies offset(flagged, order, k)
        == #[trigger] offset(entries, order, k) by {
        lemma_offset_congruent(flagged, order, entries, order, k);
    }
    assert(offset(flagged, order, order.len() as int) == offset(
        entries,
        order,
        order.len() as int,
    ));
    assert forall|s: int| #[trigger] occupied(flagged, s) implies order.contains(s) && length_of(
        flagged,
        s,
    ) > 0 by {
        assert(occupied(entries, s));
        let k = choose|k: int| 0 <= k < order.len() && order[k] == s;
        assert(length_of(flagged, order[k]) == length_of(entries, order[k]));
    }
    assert forall|k: int| 0 <= k < order.len() implies start_of(flagged, #[trigger] order[k])
        == offset(flagged, order, k) by {
        assert(offset(flagged, order, k) == offset(entries, order, k));
    }
}

} // verus!
