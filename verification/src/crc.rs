//! CRC-32 (IEEE 802.3, reflected polynomial 0xEDB88320), used to
//! checksum write-ahead-log entries.
use vstd::prelude::*;

verus! {

/// One shift of the reflected CRC register.
pub open spec fn crc_bit(c: u32) -> u32 {
    if c & 1 != 0 {
        (c >> 1) ^ 0xEDB8_8320u32
    } else {
        c >> 1
    }
}

/// `n` shifts of the CRC register.
pub open spec fn crc_bits(c: u32, n: nat) -> u32
    decreases n,
{
    if n == 0 {
        c
    } else {
        crc_bit(crc_bits(c, (n - 1) as nat))
    }
}

/// The register after absorbing one byte.
pub open spec fn crc_update(c: u32, b: u8) -> u32 {
    crc_bits(c ^ (b as u32), 8)
}

/// The register after absorbing `data`, starting from all ones.
pub open spec fn crc_state(data: Seq<u8>) -> u32
    decreases data.len(),
{
    if data.len() == 0 {
        0xFFFF_FFFFu32
    } else {
        crc_update(crc_state(data.drop_last()), data.last())
    }
}

/// The CRC-32 checksum of `data`.
pub open spec fn spec_crc32(data: Seq<u8>) -> u32 {
    crc_state(data) ^ 0xFFFF_FFFFu32
}

/// Computes the CRC-32 checksum of `data`.
pub fn crc32(data: &[u8]) -> (r: u32)
    ensures
        r == spec_crc32(data@),
{
    let mut crc: u32 = 0xFFFF_FFFF;
    let n = data.len();
    let mut i: usize = 0;
    proof {
        assert(data@.subrange(0, 0) =~= Seq::<u8>::empty());
    }
    while i < n
        invariant
            n == data@.len(),
            i <= n,
            crc == crc_state(data@.subrange(0, i as int)),
        decreases n - i,
    {
        let byte = data[i];
        let ghost c0: u32 = crc ^ (byte as u32);
        crc = crc ^ (byte as u32);
        let mut k: u32 = 0;
        while k < 8
            invariant
                k <= 8,
                crc == crc_bits(c0, k as nat),
            decreases 8 - k,
        {
            if crc & 1 != 0 {
                crc = (crc >> 1) ^ 0xEDB8_8320;
            } else {
                crc = crc >> 1;
            }
            k = k + 1;
        }
        proof {
            let prefix = data@.subrange(0, i + 1);
            assert(prefix.drop_last() =~= data@.subrange(0, i as int));
            assert(prefix.last() == byte);
        }
        i = i + 1;
    }
    proof {
        assert(data@.subrange(0, n as int) =~= data@);
    }
    crc ^ 0xFFFF_FFFF
}

} // verus!
