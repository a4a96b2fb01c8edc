//! CRC-32 (IEEE/Ethernet): reflected polynomial 0xEDB88320, initial value
//! 0xFFFFFFFF, final inversion. Records in the on-flash log carry this
//! checksum over their header (with the checksum field zeroed) and payload.

use vstd::prelude::*;

verus! {

/// One shift-and-conditionally-xor step of the bitwise CRC update.
pub open spec fn crc_step(x: u32) -> u32 {
    if x & 1 == 1 {
        (x >> 1) ^ 0xEDB8_8320u32
    } else {
        x >> 1
    }
}

/// `crc_step` applied `n` times.
pub open spec fn crc_steps(x: u32, n: nat) -> u32
    decreases n,
{
    if n == 0 {
        x
    } else {
        crc_step(crc_steps(x, (n - 1) as nat))
    }
}

/// Folding one input byte into the running value.
pub open spec fn crc_byte(crc: u32, b: u8) -> u32 {
    (crc >> 8) ^ crc_steps((crc ^ b as u32) & 0xFF, 8)
}

/// Folding a whole byte sequence into the running value, first byte first.
pub open spec fn crc_fold(crc: u32, s: Seq<u8>) -> u32
    decreases s.len(),
{
    if s.len() == 0 {
        crc
    } else {
        crc_fold(crc_byte(crc, s[0]), s.subrange(1, s.len() as int))
    }
}

/// The checksum of a byte sequence.
pub open spec fn crc32_spec(s: Seq<u8>) -> u32 {
    !crc_fold(0xFFFF_FFFFu32, s)
}

/// Folding distributes over appending one byte at the end.
pub proof fn lemma_crc_fold_push(crc: u32, s: Seq<u8>, b: u8)
    ensures
        crc_fold(crc, s.push(b)) == crc_byte(crc_fold(crc, s), b),
    decreases s.len(),
{
    let t = s.push(b);
    if s.len() == 0 {
        assert(t[0] == b);
        assert(t.subrange(1, 1) =~= Seq::<u8>::empty());
        assert(crc_fold(crc, t) == crc_fold(crc_byte(crc, b), t.subrange(1, 1)));
        assert(crc_fold(crc_byte(crc, b), t.subrange(1, 1)) == crc_byte(crc, b));
        assert(crc_fold(crc, s) == crc);
    } else {
        let rest = s.subrange(1, s.len() as int);
        assert(t[0] == s[0]);
        assert(t.subrange(1, s.len() as int + 1) =~= rest.push(b));
        assert(crc_fold(crc, t) == crc_fold(crc_byte(crc, s[0]), rest.push(b)));
        lemma_crc_fold_push(crc_byte(crc, s[0]), rest, b);
        assert(crc_fold(crc, s) == crc_fold(crc_byte(crc, s[0]), rest));
    }
}

/// Computes the CRC-32 of `bytes`.
pub fn crc32(bytes: &Vec<u8>) -> (r: u32)
    ensures
        r == crc32_spec(bytes@),
{
    let mut crc: u32 = 0xFFFF_FFFF;
    let mut i: usize = 0;
    while i < bytes.len()
        invariant
            i <= bytes@.len(),
            crc == crc_fold(0xFFFF_FFFFu32, bytes@.take(i as int)),
        decreases bytes@.len() - i,
    {
        let b = bytes[i];
        let mut x: u32 = (crc ^ (b as u32)) & 0xFF;
        let ghost x0 = x;
        let mut k: usize = 0;
        while k < 8
            invariant
                k <= 8,
                x == crc_steps(x0, k as nat),
            decreases 8 - k,
        {
            if x & 1 == 1 {
                x = (x >> 1) ^ 0xEDB8_8320;
            } else {
                x = x >> 1;
            }
            k += 1;
        }
        proof {
            assert(bytes@.take(i + 1) =~= bytes@.take(i as int).push(bytes@[i as int]));
            lemma_crc_fold_push(0xFFFF_FFFFu32, bytes@.take(i as int), bytes@[i as int]);
        }
        crc = (crc >> 8) ^ x;
        i += 1;
    }
    proof {
        assert(bytes@.take(bytes@.len() as int) =~= bytes@);
    }
    !crc
}

} // verus!
