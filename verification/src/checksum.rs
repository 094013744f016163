use vstd::prelude::*;

verus! {

/// The reversed CRC-32 polynomial (IEEE 802.3), as used by PNG and zlib.
pub const CRC32_POLY: u32 = 0xedb8_8320;

/// The Adler-32 modulus: the largest prime below 2^16.
pub const MOD_ADLER: u32 = 65521;

/// One bit of CRC-32 division: shift right, and fold in the polynomial when
/// the bit shifted out was set.
pub open spec fn crc_shift(crc: u32) -> u32 {
    if crc & 1 == 1 {
        (crc >> 1) ^ CRC32_POLY
    } else {
        crc >> 1
    }
}

/// `k` bits of CRC-32 division.
pub open spec fn crc_shifts(crc: u32, k: nat) -> u32
    decreases k,
{
    if k == 0 {
        crc
    } else {
        crc_shift(crc_shifts(crc, (k - 1) as nat))
    }
}

/// The CRC register after feeding `bytes` into it, least significant bit first.
pub open spec fn crc_register(init: u32, bytes: Seq<u8>) -> u32
    decreases bytes.len(),
{
    if bytes.len() == 0 {
        init
    } else {
        crc_shifts(crc_register(init, bytes.drop_last()) ^ (bytes.last() as u32), 8)
    }
}

/// The CRC-32 of `bytes`: register preset to all ones, result complemented.
pub open spec fn crc32_of(bytes: Seq<u8>) -> u32 {
    !crc_register(0xffff_ffff, bytes)
}

/// The two Adler-32 sums of `bytes`: `a` is one plus the sum of the bytes,
/// `b` the sum of every intermediate `a`, both modulo `MOD_ADLER`.
pub open spec fn adler_sums(bytes: Seq<u8>) -> (int, int)
    decreases bytes.len(),
{
    if bytes.len() == 0 {
        (1, 0)
    } else {
        let (a, b) = adler_sums(bytes.drop_last());
        let a2 = (a + bytes.last()) % (MOD_ADLER as int);
        (a2, (b + a2) % (MOD_ADLER as int))
    }
}

/// The Adler-32 checksum: `b` in the high half, `a` in the low half.
pub open spec fn adler32_of(bytes: Seq<u8>) -> u32 {
    let (a, b) = adler_sums(bytes);
    (b * 65536 + a) as u32
}

/// Both Adler-32 sums stay below the modulus.
pub proof fn lemma_adler_sums_bounded(bytes: Seq<u8>)
    ensures
        0 <= adler_sums(bytes).0 < MOD_ADLER,
        0 <= adler_sums(bytes).1 < MOD_ADLER,
    decreases bytes.len(),
{
    if bytes.len() > 0 {
        lemma_adler_sums_bounded(bytes.drop_last());
    }
}

/// One bit of the division is the reflected IEEE step with polynomial
/// 0xedb88320, and no bits leave the register unchanged.
pub proof fn lemma_crc_shifts_steps(crc: u32, k: nat)
    ensures
        crc_shifts(crc, 0) == crc,
        crc_shifts(crc, k + 1) == (if crc_shifts(crc, k) & 1 == 1 {
            (crc_shifts(crc, k) >> 1) ^ 0xedb8_8320u32
        } else {
            crc_shifts(crc, k) >> 1
        }),
{
}

/// The CRC-32 of no bytes is zero.
pub proof fn lemma_crc32_empty()
    ensures
        crc32_of(Seq::<u8>::empty()) == 0,
{
    let full = 0xffff_ffffu32;
    assert(!full == 0u32) by (bit_vector)
        requires
            full == 0xffff_ffffu32,
    ;
}

/// Appending a byte feeds exactly that byte: the register (the complement
/// of the CRC so far) is xored with the byte and shifted eight times.
pub proof fn lemma_crc32_push(bytes: Seq<u8>, b: u8)
    ensures
        crc32_of(bytes.push(b)) == !crc_shifts(!crc32_of(bytes) ^ (b as u32), 8),
{
    let reg = crc_register(0xffff_ffff, bytes);
    assert(bytes.push(b).drop_last() =~= bytes);
    assert(!!reg == reg) by (bit_vector);
}

/// The register after `a` then `b` is the register after `a`, fed `b`.
pub proof fn lemma_crc_register_concat(init: u32, a: Seq<u8>, b: Seq<u8>)
    ensures
        crc_register(init, a + b) == crc_register(crc_register(init, a), b),
    decreases b.len(),
{
    if b.len() == 0 {
        assert(a + b =~= a);
    } else {
        lemma_crc_register_concat(init, a, b.drop_last());
        assert((a + b).drop_last() =~= a + b.drop_last());
        assert((a + b).last() == b.last());
    }
}

/// Every byte counts: the CRC-32 of `a` followed by `b` continues from the
/// CRC-32 of `a` through all of `b`.
pub proof fn lemma_crc32_concat(a: Seq<u8>, b: Seq<u8>)
    ensures
        crc32_of(a + b) == !crc_register(!crc32_of(a), b),
{
    lemma_crc_register_concat(0xffff_ffff, a, b);
    let reg = crc_register(0xffff_ffff, a);
    assert(!!reg == reg) by (bit_vector);
}

/// The Adler-32 of no bytes is 1 (`a` starts at 1, `b` at 0).
pub proof fn lemma_adler32_empty()
    ensures
        adler32_of(Seq::<u8>::empty()) == 1,
{
}

/// Appending a byte feeds exactly that byte: with `a` the low and `b` the
/// high half of the checksum so far, `a` grows by the byte and `b` by the new
/// `a`, both modulo 65521.
pub proof fn lemma_adler32_push(bytes: Seq<u8>, x: u8)
    ensures
        ({
            let s = adler32_of(bytes) as int;
            let a = s % 65536;
            let b = s / 65536;
            let a2 = (a + x) % 65521;
            adler32_of(bytes.push(x)) == ((b + a2) % 65521) * 65536 + a2
        }),
{
    lemma_adler_sums_bounded(bytes);
    lemma_adler_sums_bounded(bytes.push(x));
    assert(bytes.push(x).drop_last() =~= bytes);
    let (a, b) = adler_sums(bytes);
    let s = b * 65536 + a;
    assert(0 <= s < 0x1_0000_0000) by (nonlinear_arith)
        requires
            0 <= a < 65521,
            0 <= b < 65521,
            s == b * 65536 + a,
    ;
    assert(adler32_of(bytes) as int == s);
    assert(s % 65536 == a && s / 65536 == b) by (nonlinear_arith)
        requires
            0 <= a < 65536,
            s == b * 65536 + a,
    ;
    let (a2, b2) = adler_sums(bytes.push(x));
    assert(0 <= b2 * 65536 + a2 < 0x1_0000_0000) by (nonlinear_arith)
        requires
            0 <= a2 < 65521,
            0 <= b2 < 65521,
    ;
}

/// The CRC-32 (IEEE, as in PNG chunks) of `bytes`.
pub fn crc32(bytes: &[u8]) -> (crc: u32)
    ensures
        crc == crc32_of(bytes@),
{
    let n = bytes.len();
    let mut crc: u32 = 0xffff_ffff;
    let mut i: usize = 0;
    while i < n
        invariant
            n == bytes@.len(),
            i <= n,
            crc == crc_register(0xffff_ffff, bytes@.take(i as int)),
        decreases n - i,
    {
        crc ^= bytes[i] as u32;
        let ghost fed = crc;
        let mut k: u32 = 0;
        while k < 8
            invariant
                k <= 8,
                crc == crc_shifts(fed, k as nat),
            decreases 8 - k,
        {
            let bit = crc & 1;
            assert(bit == 0 || bit == 1) by (bit_vector)
                requires
                    bit == crc & 1,
            ;
            let mask = 0u32.wrapping_sub(bit);
            let next = (crc >> 1) ^ (CRC32_POLY & mask);
            proof {
                if bit == 1 {
                    assert(mask == 0xffff_ffff);
                    assert(CRC32_POLY & 0xffff_ffffu32 == CRC32_POLY) by (bit_vector);
                } else {
                    assert(mask == 0);
                    assert(CRC32_POLY & 0u32 == 0u32) by (bit_vector);
                    let shifted = crc >> 1;
                    assert(shifted ^ 0u32 == shifted) by (bit_vector);
                }
            }
            crc = next;
            k += 1;
        }
        proof {
            assert(bytes@.take(i + 1).drop_last() =~= bytes@.take(i as int));
        }
        i += 1;
    }
    assert(bytes@.take(n as int) =~= bytes@);
    !crc
}

/// The Adler-32 checksum (as in zlib streams) of `bytes`.
pub fn adler32(bytes: &[u8]) -> (sum: u32)
    ensures
        sum == adler32_of(bytes@),
{
    let n = bytes.len();
    let mut a: u32 = 1;
    let mut b: u32 = 0;
    let mut i: usize = 0;
    while i < n
        invariant
            n == bytes@.len(),
            i <= n,
            (a as int, b as int) == adler_sums(bytes@.take(i as int)),
            a < MOD_ADLER,
            b < MOD_ADLER,
        decreases n - i,
    {
        proof {
            assert(bytes@.take(i + 1).drop_last() =~= bytes@.take(i as int));
        }
        a = (a + bytes[i] as u32) % MOD_ADLER;
        b = (b + a) % MOD_ADLER;
        i += 1;
    }
    assert(bytes@.take(n as int) =~= bytes@);
    let sum = (b << 16) | a;
    assert(sum == b * 65536 + a) by (bit_vector)
        requires
            sum == (b << 16) | a,
            a < 65536,
            b < 65536,
    ;
    sum
}

} // verus!
