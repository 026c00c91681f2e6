//! Comparing byte strings: equality and lexicographic order.

use vstd::prelude::*;

verus! {

/// `a` comes before `b` in lexicographic order: at the first position where the
/// two part, either `a` has ended and `b` has not, or `a` has the smaller byte.
pub open spec fn lex_less(a: Seq<u8>, b: Seq<u8>) -> bool {
    exists|k: int| #[trigger] parts_at(a, b, k)
}

/// `a` and `b` agree on their first `k` bytes, and position `k` puts `a` first.
pub open spec fn parts_at(a: Seq<u8>, b: Seq<u8>, k: int) -> bool {
    &&& 0 <= k <= a.len()
    &&& k < b.len()
    &&& forall|i: int| 0 <= i < k ==> a[i] == b[i]
    &&& k < a.len() ==> a[k] < b[k]
}

/// Whether `a` and `b` hold the same bytes.
pub fn bytes_equal(a: &[u8], b: &[u8]) -> (equal: bool)
    ensures
        equal == (a@ == b@),
{
    if a.len() != b.len() {
        return false;
    }
    let mut i: usize = 0;
    while i < a.len()
        invariant
            i <= a@.len(),
            a@.len() == b@.len(),
            forall|j: int| 0 <= j < i ==> a@[j] == b@[j],
        decreases a@.len() - i,
    {
        if a[i] != b[i] {
            return false;
        }
        i += 1;
    }
    assert(a@ =~= b@);
    true
}

/// Whether `a` comes strictly before `b` in lexicographic order.
pub fn bytes_precede(a: &[u8], b: &[u8]) -> (precede: bool)
    ensures
        precede == lex_less(a@, b@),
{
    let mut i: usize = 0;
    while i < a.len() && i < b.len()
        invariant
            i <= a@.len(),
            i <= b@.len(),
            forall|j: int| 0 <= j < i ==> a@[j] == b@[j],
        decreases a@.len() - i,
    {
        if a[i] != b[i] {
            proof {
                lemma_parting_decides(a@, b@, i as int);
            }
            return a[i] < b[i];
        }
        i += 1;
    }
    proof {
        if i < b@.len() {
            assert(parts_at(a@, b@, i as int));
        } else {
            assert forall|k: int| !parts_at(a@, b@, k) by {}
        }
    }
    i < b.len()
}

/// Where two byte strings first differ in a byte, that byte decides their order.
pub proof fn law_first_difference_decides(a: Seq<u8>, b: Seq<u8>, i: int)
    requires
        0 <= i < a.len(),
        i < b.len(),
        a[i] != b[i],
        forall|j: int| 0 <= j < i ==> a[j] == b[j],
    ensures
        lex_less(a, b) == (a[i] < b[i]),
{
    lemma_parting_decides(a, b, i);
}

/// The byte at the first difference decides, since no other position can.
proof fn lemma_parting_decides(a: Seq<u8>, b: Seq<u8>, i: int)
    requires
        0 <= i < a.len(),
        i < b.len(),
        a[i] != b[i],
        forall|j: int| 0 <= j < i ==> a[j] == b[j],
    ensures
        lex_less(a, b) == (a[i] < b[i]),
{
    if a[i] < b[i] {
        assert(parts_at(a, b, i));
    } else {
        assert forall|k: int| !parts_at(a, b, k) by {
            if k > i {
                assert(a[i] != b[i]);
            }
        }
    }
}

/// Where one byte string begins with the other, the shorter one comes first.
pub proof fn law_prefix_comes_first(a: Seq<u8>, b: Seq<u8>)
    requires
        a.len() <= b.len(),
        forall|i: int| 0 <= i < a.len() ==> a[i] == b[i],
    ensures
        lex_less(a, b) == (a.len() < b.len()),
        !lex_less(b, a),
{
    if a.len() < b.len() {
        assert(parts_at(a, b, a.len() as int));
    }
    assert forall|k: int| !parts_at(b, a, k) by {}
}

/// Lexicographic order is irreflexive.
pub proof fn lemma_lex_irreflexive(a: Seq<u8>)
    ensures
        !lex_less(a, a),
{
}

/// Lexicographic order is transitive.
pub proof fn lemma_lex_transitive(a: Seq<u8>, b: Seq<u8>, c: Seq<u8>)
    requires
        lex_less(a, b),
        lex_less(b, c),
    ensures
        lex_less(a, c),
{
    let i = choose|i: int| #[trigger] parts_at(a, b, i);
    let j = choose|j: int| #[trigger] parts_at(b, c, j);
    let k = if i <= j { i } else { j };
    assert(parts_at(a, c, k));
}

/// Of two different byte strings one comes before the other.
pub proof fn lemma_lex_total(a: Seq<u8>, b: Seq<u8>)
    ensures
        a == b || lex_less(a, b) || lex_less(b, a),
{
    if a != b {
        let k = first_difference(a, b, 0);
        lemma_first_difference(a, b, 0);
        if k == a.len() || (k < b.len() && a[k] < b[k]) {
            if k == b.len() {
                assert(a =~= b);
            }
            assert(parts_at(a, b, k));
        } else {
            assert(parts_at(b, a, k));
        }
    }
}

/// The first position from `from` on where `a` and `b` differ or one of them ends.
spec fn first_difference(a: Seq<u8>, b: Seq<u8>, from: int) -> int
    decreases a.len() - from,
{
    if 0 <= from < a.len() && from < b.len() && a[from] == b[from] {
        first_difference(a, b, from + 1)
    } else {
        from
    }
}

proof fn lemma_first_difference(a: Seq<u8>, b: Seq<u8>, from: int)
    requires
        0 <= from <= a.len(),
        from <= b.len(),
    ensures
        ({
            let k = first_difference(a, b, from);
            &&& from <= k <= a.len()
            &&& k <= b.len()
            &&& forall|i: int| from <= i < k ==> a[i] == b[i]
            &&& k < a.len() && k < b.len() ==> a[k] != b[k]
        }),
    decreases a.len() - from,
{
    if from < a.len() && from < b.len() && a[from] == b[from] {
        lemma_first_difference(a, b, from + 1);
    }
}

} // verus!
