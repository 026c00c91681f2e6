//! Moving bytes inside a fixed buffer.

use vstd::prelude::*;

verus! {

/// `before` with the bytes from `at` on replaced by `piece`.
pub open spec fn overwritten(before: Seq<u8>, at: int, piece: Seq<u8>) -> Seq<u8> {
    Seq::new(
        before.len(),
        |i: int|
            if at <= i < at + piece.len() {
                piece[i - at]
            } else {
                before[i]
            },
    )
}

/// Copies `piece` into the buffer from offset `at` on.
pub(crate) fn write_at<const N: usize>(buffer: &mut [u8; N], at: usize, piece: &[u8])
    requires
        at + piece@.len() <= N,
    ensures
        final(buffer)@ == overwritten(old(buffer)@, at as int, piece@),
{
    let mut i: usize = 0;
    while i < piece.len()
        invariant
            i <= piece@.len(),
            at + piece@.len() <= N,
            buffer@ == overwritten(old(buffer)@, at as int, piece@.take(i as int)),
        decreases piece@.len() - i,
    {
        buffer[at + i] = piece[i];
        assert(buffer@ =~= overwritten(old(buffer)@, at as int, piece@.take(i + 1)));
        i += 1;
    }
    assert(piece@.take(piece@.len() as int) =~= piece@);
}

/// Moves `length` bytes from offset `from` down to offset `to`. The two ranges
/// may overlap.
pub(crate) fn move_down<const N: usize>(
    buffer: &mut [u8; N],
    from: usize,
    to: usize,
    length: usize,
)
    requires
        to <= from,
        from + length <= N,
    ensures
        final(buffer)@ == overwritten(
            old(buffer)@,
            to as int,
            old(buffer)@.subrange(from as int, from + length),
        ),
{
    let ghost moved = old(buffer)@.subrange(from as int, from + length);
    let mut i: usize = 0;
    while i < length
        invariant
            i <= length,
            to <= from,
            from + length <= N,
            moved == old(buffer)@.subrange(from as int, from + length),
            buffer@ == overwritten(old(buffer)@, to as int, moved.take(i as int)),
        decreases length - i,
    {
        buffer[to + i] = buffer[from + i];
        assert(buffer@ =~= overwritten(old(buffer)@, to as int, moved.take(i + 1)));
        i += 1;
    }
    assert(moved.take(length as int) =~= moved);
}

/// Sets the bytes from offset `from` up to `to` to zero.
pub(crate) fn clear<const N: usize>(buffer: &mut [u8; N], from: usize, to: usize)
    requires
        from <= to <= N,
    ensures
        forall|i: int| 0 <= i < N ==> final(buffer)@[i] == (if from <= i < to {
            0u8
        } else {
            old(buffer)@[i]
        }),
{
    let mut i: usize = from;
    while i < to
        invariant
            from <= i <= to,
            to <= N,
            forall|j: int| 0 <= j < N ==> buffer@[j] == (if from <= j < i {
                0u8
            } else {
                old(buffer)@[j]
            }),
        decreases to - i,
    {
        buffer[i] = 0;
        i += 1;
    }
}

} // verus!
