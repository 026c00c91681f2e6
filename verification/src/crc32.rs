//! CRC-32 as IEEE 802.3 defines it.

use vstd::prelude::*;

verus! {

/// The generator polynomial, its coefficients in reflected order: the
/// coefficient of `x^31` is the lowest bit.
pub const POLY: u32 = 0xEDB8_8320;

/// The register before the first bit, and the mask of the final complement.
pub const ALL_ONES: u32 = 0xFFFF_FFFF;

/// One step of the division: a message bit enters the shift register, and the
/// generator is subtracted where the bit that leaves is set.
pub open spec fn shift_in(register: u32, bit: u32) -> u32 {
    if (register ^ bit) & 1 == 1 {
        (register >> 1) ^ POLY
    } else {
        register >> 1
    }
}

/// Bit `i` of a byte, as a number.
pub open spec fn bit_of(byte: u8, i: int) -> u32 {
    ((byte >> (i as u8)) & 1) as u32
}

/// The register after the lowest `n` bits of `byte`, lowest bit first.
pub open spec fn shift_in_bits(register: u32, byte: u8, n: nat) -> u32
    decreases n,
{
    if n == 0 {
        register
    } else {
        shift_in(shift_in_bits(register, byte, (n - 1) as nat), bit_of(byte, n - 1))
    }
}

/// The register after all bits of a message, started from `ALL_ONES`.
pub open spec fn remainder(message: Seq<u8>) -> u32
    decreases message.len(),
{
    if message.len() == 0 {
        ALL_ONES
    } else {
        shift_in_bits(remainder(message.drop_last()), message.last(), 8)
    }
}

/// The CRC-32 of a message: the complement of the register after its last bit.
pub open spec fn crc32(message: Seq<u8>) -> u32 {
    !remainder(message)
}

/// The register shifted `n` times with no message bit entering.
spec fn shift_out(register: u32, n: nat) -> u32
    decreases n,
{
    if n == 0 {
        register
    } else {
        shift_in(shift_out(register, (n - 1) as nat), 0)
    }
}

/// Shifting with a byte added in advance runs ahead of shifting its bits in one
/// by one, by exactly the bits that have not entered yet.
proof fn lemma_bits_ahead(register: u32, byte: u8, n: nat)
    requires
        n <= 8,
    ensures
        shift_out(register ^ (byte as u32), n) == shift_in_bits(register, byte, n) ^ ((byte as u32)
            >> (n as u32)),
    decreases n,
{
    let wide = byte as u32;
    if n == 0 {
        assert(wide >> 0u32 == wide) by (bit_vector);
    } else {
        let m = (n - 1) as nat;
        lemma_bits_ahead(register, byte, m);
        let serial = shift_in_bits(register, byte, m);
        let k = m as u32;
        let k8 = m as u8;
        let bit = bit_of(byte, m as int);
        assert(bit == (wide >> k) & 1) by {
            assert(((byte >> k8) & 1) as u32 == ((byte as u32) >> (k8 as u32)) & 1) by (bit_vector)
                requires
                    k8 < 8,
            ;
        }
        let ahead = serial ^ (wide >> k);
        assert((ahead ^ 0) & 1 == (serial ^ bit) & 1) by (bit_vector)
            requires
                ahead == serial ^ (wide >> k),
                bit == (wide >> k) & 1,
        ;
        assert(ahead >> 1 == (serial >> 1) ^ (wide >> ((k + 1) as u32))) by (bit_vector)
            requires
                ahead == serial ^ (wide >> k),
                k < 8,
        ;
        let rest = wide >> (n as u32);
        assert((((serial >> 1) ^ rest) ^ POLY) == (((serial >> 1) ^ POLY) ^ rest)) by (bit_vector);
    }
}

/// The CRC-32 of no bytes is 0.
pub proof fn law_crc32_of_nothing()
    ensures
        crc32(Seq::empty()) == 0,
{
    assert(!0xFFFF_FFFFu32 == 0) by (bit_vector);
}

/// A byte more: it is added to the complement of the CRC-32 before it, which is
/// then halved eight times, each time subtracting the generator where a bit
/// drops out. With the CRC-32 of no bytes this gives that of every message.
pub proof fn law_crc32_of_one_more_byte(message: Seq<u8>, byte: u8)
    ensures
        ({
            let g: u32 = 0xEDB8_8320;
            let r0: u32 = !crc32(message) ^ (byte as u32);
            let r1: u32 = if r0 & 1 == 1 { (r0 >> 1) ^ g } else { r0 >> 1 };
            let r2: u32 = if r1 & 1 == 1 { (r1 >> 1) ^ g } else { r1 >> 1 };
            let r3: u32 = if r2 & 1 == 1 { (r2 >> 1) ^ g } else { r2 >> 1 };
            let r4: u32 = if r3 & 1 == 1 { (r3 >> 1) ^ g } else { r3 >> 1 };
            let r5: u32 = if r4 & 1 == 1 { (r4 >> 1) ^ g } else { r4 >> 1 };
            let r6: u32 = if r5 & 1 == 1 { (r5 >> 1) ^ g } else { r5 >> 1 };
            let r7: u32 = if r6 & 1 == 1 { (r6 >> 1) ^ g } else { r6 >> 1 };
            let r8: u32 = if r7 & 1 == 1 { (r7 >> 1) ^ g } else { r7 >> 1 };
            crc32(message.push(byte)) == !r8
        }),
{
    let register = remainder(message);
    assert(!(!register) == register) by (bit_vector);
    assert(message.push(byte).drop_last() =~= message);
    lemma_bits_ahead(register, byte, 8);
    let serial = shift_in_bits(register, byte, 8);
    assert(serial ^ ((byte as u32) >> 8u32) == serial) by (bit_vector);
    reveal_with_fuel(shift_out, 9);
    assert(forall|r: u32| #[trigger] (r ^ 0) == r) by (bit_vector);
}

/// Changes add up: the CRC-32 of the sum of three messages of one length is the
/// sum of their CRC-32s, bit by bit and without carries.
pub proof fn law_crc32_is_affine(a: Seq<u8>, b: Seq<u8>, c: Seq<u8>)
    requires
        a.len() == b.len(),
        b.len() == c.len(),
    ensures
        crc32(Seq::new(a.len(), |i: int| a[i] ^ b[i] ^ c[i])) == crc32(a) ^ crc32(b) ^ crc32(c),
    decreases a.len(),
{
    let sum = Seq::new(a.len(), |i: int| a[i] ^ b[i] ^ c[i]);
    if a.len() == 0 {
        assert(0xFFFF_FFFFu32 ^ 0xFFFF_FFFFu32 ^ 0xFFFF_FFFFu32 == 0xFFFF_FFFFu32) by (bit_vector);
        let (x, y, z) = (remainder(a), remainder(b), remainder(c));
        assert(!(x ^ y ^ z) == (!x) ^ (!y) ^ (!z)) by (bit_vector);
    } else {
        let (fa, fb, fc) = (a.drop_last(), b.drop_last(), c.drop_last());
        law_crc32_is_affine(fa, fb, fc);
        assert(sum.drop_last() =~= Seq::new(fa.len(), |i: int| fa[i] ^ fb[i] ^ fc[i]));
        let (x, y, z) = (remainder(fa), remainder(fb), remainder(fc));
        let s = remainder(sum.drop_last());
        assert(s == x ^ y ^ z) by (bit_vector)
            requires
                !s == (!x) ^ (!y) ^ (!z),
        ;
        lemma_bits_are_affine(x, y, z, a.last(), b.last(), c.last(), 8);
        let (p, q, r) = (remainder(a), remainder(b), remainder(c));
        assert(!(p ^ q ^ r) == (!p) ^ (!q) ^ (!r)) by (bit_vector);
    }
}

/// Shifting bits in is affine.
proof fn lemma_bits_are_affine(x: u32, y: u32, z: u32, a: u8, b: u8, c: u8, n: nat)
    requires
        n <= 8,
    ensures
        shift_in_bits(x ^ y ^ z, a ^ b ^ c, n) == shift_in_bits(x, a, n) ^ shift_in_bits(y, b, n)
            ^ shift_in_bits(z, c, n),
    decreases n,
{
    if n > 0 {
        let m = (n - 1) as nat;
        lemma_bits_are_affine(x, y, z, a, b, c, m);
        let (p, q, r) = (shift_in_bits(x, a, m), shift_in_bits(y, b, m), shift_in_bits(z, c, m));
        let k = m as u8;
        let (i, j, l) = (bit_of(a, m as int), bit_of(b, m as int), bit_of(c, m as int));
        let bit = bit_of(a ^ b ^ c, m as int);
        assert(bit == i ^ j ^ l) by {
            assert((((a ^ b ^ c) >> k) & 1) as u32 == (((a >> k) & 1) as u32) ^ (((b >> k)
                & 1) as u32) ^ (((c >> k) & 1) as u32)) by (bit_vector);
        }
        assert(shift_in(p ^ q ^ r, i ^ j ^ l) == shift_in(p, i) ^ shift_in(q, j) ^ shift_in(r, l))
            by (bit_vector);
    }
}

/// CRC-32 of `bytes`, with the generator of IEEE 802.3.
pub fn crc32_ieee(bytes: &[u8]) -> (crc: u32)
    ensures
        crc == crc32(bytes@),
{
    let mut crc: u32 = ALL_ONES;
    let mut i: usize = 0;
    assert(bytes@.take(0) =~= Seq::<u8>::empty());
    while i < bytes.len()
        invariant
            i <= bytes@.len(),
            crc == remainder(bytes@.take(i as int)),
        decreases bytes@.len() - i,
    {
        let ghost before = crc;
        let byte: u8 = bytes[i];
        crc = crc ^ (byte as u32);
        let mut k: u32 = 0;
        while k < 8
            invariant
                k <= 8,
                crc == shift_out(before ^ (byte as u32), k as nat),
            decreases 8 - k,
        {
            assert(crc ^ 0 == crc) by (bit_vector);
            assert(crc & 1 == 0 || crc & 1 == 1) by (bit_vector);
            crc = if (crc & 1) != 0 {
                (crc >> 1) ^ POLY
            } else {
                crc >> 1
            };
            k += 1;
        }
        proof {
            lemma_bits_ahead(before, byte, 8);
            let serial = shift_in_bits(before, byte, 8);
            assert(serial ^ ((byte as u32) >> 8u32) == serial) by (bit_vector);
            assert(bytes@.take(i + 1).drop_last() =~= bytes@.take(i as int));
        }
        i += 1;
    }
    assert(bytes@.take(bytes@.len() as int) =~= bytes@);
    !crc
}

} // verus!
