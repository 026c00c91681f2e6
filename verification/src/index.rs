//! The entries of the mempool's index.

use vstd::prelude::*;

verus! {

/// Index entry pointing at a transaction inside the byte buffer.
#[derive(Copy, Clone, Debug)]
pub struct IndexEntry {
    /// Offset of the first byte in the buffer.
    pub start: u16,
    /// Number of bytes.
    pub length: u16,
    /// CRC-32 over the canonical transaction hash. Hash lookup uses it as a
    /// prefilter, priority ordering as a tie-break.
    pub hash_crc32: u32,
    /// The fee supplied at admission, after any UTXO-backed fee was resolved.
    pub transaction_fee: u64,
    /// The block sequence that the transaction depends on.
    pub expiry_sequence: u32,
    /// Set while the transaction is not eligible.
    pub is_deferred: bool,
    /// Set where the transaction is own from the local node's perspective.
    pub is_own: bool,
}

/// `slot` is the first slot of `slots` that holds nothing.
pub open spec fn is_first_free<T>(slots: Seq<Option<T>>, slot: int) -> bool {
    &&& 0 <= slot < slots.len()
    &&& slots[slot] is None
    &&& forall|j: int| 0 <= j < slot ==> slots[j] is Some
}

/// The first slot of `index` that holds nothing.
pub fn find_free_slot<const N: usize>(index: &[Option<IndexEntry>; N]) -> (slot: Option<usize>)
    ensures
        match slot {
            Some(s) => {
                &&& is_first_free(index@, s as int)
                &&& s < N
                &&& index@[s as int] is None
                &&& forall|j: int| 0 <= j < s ==> index@[j] is Some
            },
            None => forall|j: int| 0 <= j < N ==> index@[j] is Some,
        },
{
    let mut i: usize = 0;
    while i < N
        invariant
            i <= N,
            forall|j: int| 0 <= j < i ==> index@[j] is Some,
        decreases N - i,
    {
        if index[i].is_none() {
            return Some(i);
        }
        i += 1;
    }
    None
}

} // verus!
