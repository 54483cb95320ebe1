//! A 16-bit cyclic redundancy checksum over byte strings.
//!
//! The log uses this checksum to detect torn (partially persisted) records
//! at recovery time. The engine treats the checksum as an opaque function
//! of the bytes; all that matters is that it is deterministic, so the spec
//! below defines it bit for bit and the executable code is proved to match.

use vstd::prelude::*;

verus! {

/// Initial shift-register value.
pub const CRC16_INIT: u16 = 0xFFFF;

/// Reflected generator polynomial.
pub const CRC16_POLY: u16 = 0xA001;

/// One shift of the checksum register.
pub open spec fn spec_crc16_shift(crc: u16) -> u16 {
    if crc & 1 == 1 {
        (crc >> 1) ^ CRC16_POLY
    } else {
        crc >> 1
    }
}

/// `n` shifts of the checksum register.
pub open spec fn spec_crc16_shifts(crc: u16, n: nat) -> u16
    decreases n,
{
    if n == 0 {
        crc
    } else {
        spec_crc16_shift(spec_crc16_shifts(crc, (n - 1) as nat))
    }
}

/// Folding one byte into the register: xor it in, then shift eight times.
pub open spec fn spec_crc16_byte(crc: u16, b: u8) -> u16 {
    spec_crc16_shifts(crc ^ (b as u16), 8)
}

/// Folding a whole byte string into the register, front to back.
pub open spec fn spec_crc16_acc(crc: u16, data: Seq<u8>) -> u16
    decreases data.len(),
{
    if data.len() == 0 {
        crc
    } else {
        spec_crc16_acc(spec_crc16_byte(crc, data[0]), data.drop_first())
    }
}

/// The checksum of a byte string.
pub open spec fn spec_crc16(data: Seq<u8>) -> u16 {
    spec_crc16_acc(CRC16_INIT, data)
}

/// Folding distributes over concatenation.
pub proof fn lemma_crc16_acc_append(crc: u16, a: Seq<u8>, b: Seq<u8>)
    ensures
        spec_crc16_acc(crc, a + b) == spec_crc16_acc(spec_crc16_acc(crc, a), b),
    decreases a.len(),
{
    if a.len() == 0 {
        assert(a + b =~= b);
    } else {
        assert((a + b).drop_first() =~= a.drop_first() + b);
        lemma_crc16_acc_append(spec_crc16_byte(crc, a[0]), a.drop_first(), b);
    }
}

/// Computes the checksum of `data`.
pub fn crc16_arr(data: &[u8]) -> (r: u16)
    ensures
        r == spec_crc16(data@),
{
    let mut crc: u16 = CRC16_INIT;
    let mut i: usize = 0;
    proof {
        assert(data@.skip(0) =~= data@);
    }
    while i < data.len()
        invariant
            0 <= i <= data@.len(),
            spec_crc16_acc(crc, data@.skip(i as int)) == spec_crc16(data@),
        decreases data@.len() - i,
    {
        let b = data[i];
        let mut next: u16 = crc ^ (b as u16);
        let mut k: usize = 0;
        while k < 8
            invariant
                0 <= k <= 8,
                next == spec_crc16_shifts(crc ^ (b as u16), k as nat),
            decreases 8 - k,
        {
            if next & 1 == 1 {
                next = (next >> 1) ^ CRC16_POLY;
            } else {
                next = next >> 1;
            }
            k = k + 1;
        }
        proof {
            assert(next == spec_crc16_byte(crc, b));
            assert(data@.skip(i as int)[0] == data@[i as int]);
            assert(data@.skip(i as int).drop_first() =~= data@.skip(i as int + 1));
        }
        crc = next;
        i = i + 1;
    }
    proof {
        assert(data@.skip(data@.len() as int) =~= Seq::<u8>::empty());
    }
    crc
}

} // verus!
