//! The order in which transactions are offered for blocks and exchange.

use crate::bytes::{bytes_equal, bytes_precede};
use crate::index::IndexEntry;
use vstd::prelude::*;
#[allow(unused_imports)]
use crate::bytes::{
    law_first_difference_decides, law_prefix_comes_first, lemma_lex_irreflexive, lemma_lex_total,
    lemma_lex_transitive, lex_less,
};

verus! {

/// What the priority of a stored transaction rests on.
pub ghost struct Candidate {
    pub fee: nat,
    pub length: nat,
    pub is_own: bool,
    pub hash_crc32: u32,
    pub bytes: Seq<u8>,
    pub slot: int,
}

impl IndexEntry {
    /// The entry as a candidate, with the bytes it stands for and its slot.
    pub open spec fn candidate(self, bytes: Seq<u8>, slot: int) -> Candidate {
        Candidate {
            fee: self.transaction_fee as nat,
            length: self.length as nat,
            is_own: self.is_own,
            hash_crc32: self.hash_crc32,
            bytes,
            slot,
        }
    }
}

/// The fee per byte of `a` is greater than that of `b`.
pub open spec fn pays_more(a: Candidate, b: Candidate) -> bool {
    a.fee * b.length > b.fee * a.length
}

/// `a` is offered before `b`: fee per byte descending, then own before other,
/// then `hash_crc32` ascending, then the bytes in lexicographic order, then the
/// slot.
pub open spec fn precedes(a: Candidate, b: Candidate) -> bool {
    if pays_more(a, b) || pays_more(b, a) {
        pays_more(a, b)
    } else if a.is_own != b.is_own {
        a.is_own
    } else if a.hash_crc32 != b.hash_crc32 {
        a.hash_crc32 < b.hash_crc32
    } else if a.bytes != b.bytes {
        lex_less(a.bytes, b.bytes)
    } else {
        a.slot < b.slot
    }
}

/// Whether the candidate is offered before the best one so far.
pub fn priority_precedes(
    candidate_entry: &IndexEntry,
    candidate_bytes: &[u8],
    candidate_slot: usize,
    best_entry: &IndexEntry,
    best_bytes: &[u8],
    best_slot: usize,
) -> (better: bool)
    ensures
        better == precedes(
            candidate_entry.candidate(candidate_bytes@, candidate_slot as int),
            best_entry.candidate(best_bytes@, best_slot as int),
        ),
        candidate_entry.transaction_fee * best_entry.length > best_entry.transaction_fee
            * candidate_entry.length ==> better,
        candidate_entry.transaction_fee * best_entry.length < best_entry.transaction_fee
            * candidate_entry.length ==> !better,
        candidate_entry.transaction_fee * best_entry.length == best_entry.transaction_fee
            * candidate_entry.length ==> {
            &&& candidate_entry.is_own && !best_entry.is_own ==> better
            &&& !candidate_entry.is_own && best_entry.is_own ==> !better
            &&& candidate_entry.is_own == best_entry.is_own ==> {
                &&& candidate_entry.hash_crc32 < best_entry.hash_crc32 ==> better
                &&& candidate_entry.hash_crc32 > best_entry.hash_crc32 ==> !better
                &&& candidate_entry.hash_crc32 == best_entry.hash_crc32 ==> {
                    &&& candidate_bytes@ == best_bytes@ ==> better == (candidate_slot < best_slot)
                    &&& candidate_bytes@ != best_bytes@ ==> better == lex_less(
                        candidate_bytes@,
                        best_bytes@,
                    )
                }
            }
        },
{
    proof {
        lemma_product_fits(candidate_entry.transaction_fee, best_entry.length);
        lemma_product_fits(best_entry.transaction_fee, candidate_entry.length);
    }
    let candidate_scaled: u128 = (candidate_entry.transaction_fee as u128) * (
    best_entry.length as u128);
    let best_scaled: u128 = (best_entry.transaction_fee as u128) * (
    candidate_entry.length as u128);
    if candidate_scaled != best_scaled {
        return candidate_scaled > best_scaled;
    }
    if candidate_entry.is_own != best_entry.is_own {
        return candidate_entry.is_own;
    }
    if candidate_entry.hash_crc32 != best_entry.hash_crc32 {
        return candidate_entry.hash_crc32 < best_entry.hash_crc32;
    }
    if bytes_equal(candidate_bytes, best_bytes) {
        candidate_slot < best_slot
    } else {
        bytes_precede(candidate_bytes, best_bytes)
    }
}

/// A fee scaled by a length fits in 128 bits.
proof fn lemma_product_fits(fee: u64, length: u16)
    ensures
        0 <= (fee as int) * (length as int) <= u128::MAX,
{
    assert(0 <= (fee as int) * (length as int) <= 0xFFFF_FFFF_FFFF_FFFF * 0xFFFF)
        by (nonlinear_arith)
        requires
            0 <= fee <= 0xFFFF_FFFF_FFFF_FFFF,
            0 <= length <= 0xFFFF,
    ;
}

/// A greater fee per byte comes first, whatever else the two have.
pub proof fn law_greater_fee_per_byte_comes_first(a: Candidate, b: Candidate)
    requires
        a.fee * b.length > b.fee * a.length,
    ensures
        precedes(a, b),
        !precedes(b, a),
{
}

/// Among equal fees per byte, own comes before other.
pub proof fn law_own_comes_first_on_equal_fee_per_byte(a: Candidate, b: Candidate)
    requires
        a.fee * b.length == b.fee * a.length,
        a.is_own,
        !b.is_own,
    ensures
        precedes(a, b),
        !precedes(b, a),
{
}

/// Among equal fees per byte of the same ownership, the smaller fingerprint
/// comes first.
pub proof fn law_smaller_fingerprint_comes_first(a: Candidate, b: Candidate)
    requires
        a.fee * b.length == b.fee * a.length,
        a.is_own == b.is_own,
        a.hash_crc32 < b.hash_crc32,
    ensures
        precedes(a, b),
        !precedes(b, a),
{
}

/// Where fees per byte, ownership and fingerprints are equal, the first byte in
/// which the two differ decides.
pub proof fn law_smaller_byte_comes_first(a: Candidate, b: Candidate, k: int)
    requires
        a.fee * b.length == b.fee * a.length,
        a.is_own == b.is_own,
        a.hash_crc32 == b.hash_crc32,
        0 <= k < a.bytes.len(),
        k < b.bytes.len(),
        forall|i: int| 0 <= i < k ==> a.bytes[i] == b.bytes[i],
        a.bytes[k] < b.bytes[k],
    ensures
        precedes(a, b),
        !precedes(b, a),
{
    law_first_difference_decides(a.bytes, b.bytes, k);
    law_first_difference_decides(b.bytes, a.bytes, k);
}

/// Where fees per byte, ownership and fingerprints are equal and the bytes of
/// one begin with those of the other, the shorter one comes first.
pub proof fn law_shorter_bytes_come_first(a: Candidate, b: Candidate)
    requires
        a.fee * b.length == b.fee * a.length,
        a.is_own == b.is_own,
        a.hash_crc32 == b.hash_crc32,
        a.bytes.len() < b.bytes.len(),
        forall|i: int| 0 <= i < a.bytes.len() ==> a.bytes[i] == b.bytes[i],
    ensures
        precedes(a, b),
        !precedes(b, a),
{
    law_prefix_comes_first(a.bytes, b.bytes);
}

/// Of candidates that are equal in all of this, the smaller slot comes first.
pub proof fn law_smaller_slot_comes_first(a: Candidate, b: Candidate)
    requires
        a.fee * b.length == b.fee * a.length,
        a.is_own == b.is_own,
        a.hash_crc32 == b.hash_crc32,
        a.bytes == b.bytes,
        a.slot < b.slot,
    ensures
        precedes(a, b),
        !precedes(b, a),
{
}

/// A candidate is made of the fields of its index entry.
pub proof fn law_candidate_shows_the_entry(entry: IndexEntry, bytes: Seq<u8>, slot: int)
    ensures
        entry.candidate(bytes, slot).fee == entry.transaction_fee,
        entry.candidate(bytes, slot).length == entry.length,
        entry.candidate(bytes, slot).is_own == entry.is_own,
        entry.candidate(bytes, slot).hash_crc32 == entry.hash_crc32,
        entry.candidate(bytes, slot).bytes == bytes,
        entry.candidate(bytes, slot).slot == slot,
{
}

/// No candidate precedes itself.
pub proof fn law_priority_is_irreflexive(a: Candidate)
    ensures
        !precedes(a, a),
{
}

/// Of two candidates at most one precedes the other.
pub proof fn law_priority_is_asymmetric(a: Candidate, b: Candidate)
    requires
        precedes(a, b),
    ensures
        !precedes(b, a),
{
    if a.bytes != b.bytes && lex_less(a.bytes, b.bytes) && lex_less(b.bytes, a.bytes) {
        lemma_lex_transitive(a.bytes, b.bytes, a.bytes);
        lemma_lex_irreflexive(a.bytes);
    }
}

/// Of two candidates from different slots one precedes the other.
pub proof fn law_priority_is_total(a: Candidate, b: Candidate)
    requires
        a.slot != b.slot,
    ensures
        precedes(a, b) || precedes(b, a),
{
    lemma_lex_total(a.bytes, b.bytes);
}

/// Between candidates of different bytes the slots play no part, so the order
/// does not depend on when the two were admitted.
pub proof fn law_priority_ignores_slots(a: Candidate, b: Candidate, i: int, j: int)
    requires
        a.bytes != b.bytes,
    ensures
        precedes(Candidate { slot: i, ..a }, Candidate { slot: j, ..b }) == precedes(a, b),
{
}

/// The order of candidates is transitive. Every stored transaction has bytes,
/// so fees per byte compare as fractions do.
pub proof fn law_priority_is_transitive(a: Candidate, b: Candidate, c: Candidate)
    requires
        a.length > 0,
        b.length > 0,
        c.length > 0,
        precedes(a, b),
        precedes(b, c),
    ensures
        precedes(a, c),
{
    assert(!pays_more(b, a) && !pays_more(c, b));
    lemma_not_less_chain(a, b, c);
    if pays_more(a, c) {
    } else {
        lemma_equal_rates(a, b, c);
        if a.bytes != b.bytes && b.bytes != c.bytes && lex_less(a.bytes, b.bytes) && lex_less(
            b.bytes,
            c.bytes,
        ) {
            lemma_lex_transitive(a.bytes, b.bytes, c.bytes);
            if a.bytes == c.bytes {
                lemma_lex_irreflexive(a.bytes);
            }
        }
    }
}

/// Fees per byte that do not fall from `a` to `b` to `c` backwards do not fall
/// from `a` to `c` backwards.
proof fn lemma_not_less_chain(a: Candidate, b: Candidate, c: Candidate)
    requires
        a.length > 0,
        b.length > 0,
        c.length > 0,
        !pays_more(b, a),
        !pays_more(c, b),
    ensures
        !pays_more(c, a),
        pays_more(a, b) || pays_more(b, c) ==> pays_more(a, c),
{
    let (fa, fb, fc) = (a.fee as int, b.fee as int, c.fee as int);
    let (la, lb, lc) = (a.length as int, b.length as int, c.length as int);
    // fa / la >= fb / lb >= fc / lc, each inequality scaled to whole numbers.
    assert(fa * lb * lc >= fb * la * lc) by (nonlinear_arith)
        requires
            fa * lb >= fb * la,
            lc > 0,
    ;
    assert(fb * lc * la >= fc * lb * la) by (nonlinear_arith)
        requires
            fb * lc >= fc * lb,
            la > 0,
    ;
    assert(fb * la * lc == fb * lc * la) by (nonlinear_arith);
    assert(fa * lb * lc == (fa * lc) * lb) by (nonlinear_arith);
    assert(fc * lb * la == (fc * la) * lb) by (nonlinear_arith);
    assert(fa * lc >= fc * la) by (nonlinear_arith)
        requires
            (fa * lc) * lb >= (fc * la) * lb,
            lb > 0,
    ;
    if pays_more(a, b) {
        assert(fa * lb * lc > fb * la * lc) by (nonlinear_arith)
            requires
                fa * lb > fb * la,
                lc > 0,
        ;
        assert(fa * lc > fc * la) by (nonlinear_arith)
            requires
                (fa * lc) * lb > (fc * la) * lb,
                lb > 0,
        ;
    }
    if pays_more(b, c) {
        assert(fb * lc * la > fc * lb * la) by (nonlinear_arith)
            requires
                fb * lc > fc * lb,
                la > 0,
        ;
        assert(fa * lc > fc * la) by (nonlinear_arith)
            requires
                (fa * lc) * lb > (fc * la) * lb,
                lb > 0,
        ;
    }
}

/// Where the outer two of a chain pay the same per byte, so do all three.
proof fn lemma_equal_rates(a: Candidate, b: Candidate, c: Candidate)
    requires
        a.length > 0,
        b.length > 0,
        c.length > 0,
        !pays_more(b, a),
        !pays_more(c, b),
        !pays_more(a, c),
    ensures
        !pays_more(a, b),
        !pays_more(b, c),
        !pays_more(c, a),
{
    lemma_not_less_chain(a, b, c);
}

} // verus!
