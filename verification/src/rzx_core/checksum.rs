//! CRC-32 checksums of file contents and metadata blocks.
use vstd::prelude::*;

verus! {

/// Eight steps of the bit-reflected CRC-32 shift register (polynomial
/// 0xEDB88320), `n` of them.
pub open spec fn crc32_shift(c: u32, n: nat) -> u32
    decreases n,
{
    if n == 0 {
        c
    } else {
        crc32_shift(
            if c & 1 == 1 {
                (c >> 1) ^ 0xEDB8_8320u32
            } else {
                c >> 1
            },
            (n - 1) as nat,
        )
    }
}

/// The register after feeding `data` into it, starting from `c`.
pub open spec fn crc32_feed(c: u32, data: Seq<u8>) -> u32
    decreases data.len(),
{
    if data.len() == 0 {
        c
    } else {
        crc32_feed(crc32_shift(c ^ (data[0] as u32), 8), data.drop_first())
    }
}

/// CRC-32 (IEEE 802.3, as used by zlib and gzip) of `data`.
pub open spec fn crc32(data: Seq<u8>) -> u32 {
    crc32_feed(0xFFFF_FFFFu32, data) ^ 0xFFFF_FFFFu32
}

/// One step of the shift register.
pub open spec fn crc32_step(c: u32) -> u32 {
    if c & 1 == 1 {
        (c >> 1) ^ 0xEDB8_8320u32
    } else {
        c >> 1
    }
}

proof fn lemma_shift_eight(c: u32)
    ensures
        crc32_shift(c, 8) == crc32_step(crc32_step(crc32_step(crc32_step(crc32_step(crc32_step(crc32_step(
            crc32_step(c),
        ))))))),
{
    reveal_with_fuel(crc32_shift, 9);
}

/// The standard check value of CRC-32 (IEEE): the checksum of the nine
/// bytes "123456789" is 0xCBF43926, and that of no bytes is 0.
pub proof fn lemma_crc32_check_value()
    ensures
        crc32(seq![0x31u8, 0x32u8, 0x33u8, 0x34u8, 0x35u8, 0x36u8, 0x37u8, 0x38u8, 0x39u8]) == 0xCBF4_3926u32,
        crc32(Seq::<u8>::empty()) == 0,
{
    let d = seq![0x31u8, 0x32u8, 0x33u8, 0x34u8, 0x35u8, 0x36u8, 0x37u8, 0x38u8, 0x39u8];
    lemma_shift_eight(0xffffffceu32);
    assert(crc32_step(crc32_step(crc32_step(crc32_step(crc32_step(crc32_step(crc32_step(crc32_step(0xffffffceu32))))))))
        == 0x7c231048u32) by (bit_vector);
    lemma_shift_eight(0x7c23107au32);
    assert(crc32_step(crc32_step(crc32_step(crc32_step(crc32_step(crc32_step(crc32_step(crc32_step(0x7c23107au32))))))))
        == 0xb0acbb32u32) by (bit_vector);
    lemma_shift_eight(0xb0acbb01u32);
    assert(crc32_step(crc32_step(crc32_step(crc32_step(crc32_step(crc32_step(crc32_step(crc32_step(0xb0acbb01u32))))))))
        == 0x77b79c2du32) by (bit_vector);
    lemma_shift_eight(0x77b79c19u32);
    assert(crc32_step(crc32_step(crc32_step(crc32_step(crc32_step(crc32_step(crc32_step(crc32_step(0x77b79c19u32))))))))
        == 0x641c1f5cu32) by (bit_vector);
    lemma_shift_eight(0x641c1f69u32);
    assert(crc32_step(crc32_step(crc32_step(crc32_step(crc32_step(crc32_step(crc32_step(crc32_step(0x641c1f69u32))))))))
        == 0x340ac5e3u32) by (bit_vector);
    lemma_shift_eight(0x340ac5d5u32);
    assert(crc32_step(crc32_step(crc32_step(crc32_step(crc32_step(crc32_step(crc32_step(crc32_step(0x340ac5d5u32))))))))
        == 0xf68d2c9eu32) by (bit_vector);
    lemma_shift_eight(0xf68d2ca9u32);
    assert(crc32_step(crc32_step(crc32_step(crc32_step(crc32_step(crc32_step(crc32_step(crc32_step(0xf68d2ca9u32))))))))
        == 0xaffc9660u32) by (bit_vector);
    lemma_shift_eight(0xaffc9658u32);
    assert(crc32_step(crc32_step(crc32_step(crc32_step(crc32_step(crc32_step(crc32_step(crc32_step(0xaffc9658u32))))))))
        == 0x651f2550u32) by (bit_vector);
    lemma_shift_eight(0x651f2569u32);
    assert(crc32_step(crc32_step(crc32_step(crc32_step(crc32_step(crc32_step(crc32_step(crc32_step(0x651f2569u32))))))))
        == 0x340bc6d9u32) by (bit_vector);
    reveal_with_fuel(crc32_feed, 2);
    assert(d.skip(0)[0] == 0x31u8 && d.skip(0).drop_first() =~= d.skip(1));
    assert(0xffffffffu32 ^ (0x31u8 as u32) == 0xffffffceu32) by (bit_vector);
    assert(crc32_feed(0xffffffffu32, d.skip(0)) == crc32_feed(0x7c231048u32, d.skip(1)));
    assert(d.skip(1)[0] == 0x32u8 && d.skip(1).drop_first() =~= d.skip(2));
    assert(0x7c231048u32 ^ (0x32u8 as u32) == 0x7c23107au32) by (bit_vector);
    assert(crc32_feed(0x7c231048u32, d.skip(1)) == crc32_feed(0xb0acbb32u32, d.skip(2)));
    assert(d.skip(2)[0] == 0x33u8 && d.skip(2).drop_first() =~= d.skip(3));
    assert(0xb0acbb32u32 ^ (0x33u8 as u32) == 0xb0acbb01u32) by (bit_vector);
    assert(crc32_feed(0xb0acbb32u32, d.skip(2)) == crc32_feed(0x77b79c2du32, d.skip(3)));
    assert(d.skip(3)[0] == 0x34u8 && d.skip(3).drop_first() =~= d.skip(4));
    assert(0x77b79c2du32 ^ (0x34u8 as u32) == 0x77b79c19u32) by (bit_vector);
    assert(crc32_feed(0x77b79c2du32, d.skip(3)) == crc32_feed(0x641c1f5cu32, d.skip(4)));
    assert(d.skip(4)[0] == 0x35u8 && d.skip(4).drop_first() =~= d.skip(5));
    assert(0x641c1f5cu32 ^ (0x35u8 as u32) == 0x641c1f69u32) by (bit_vector);
    assert(crc32_feed(0x641c1f5cu32, d.skip(4)) == crc32_feed(0x340ac5e3u32, d.skip(5)));
    assert(d.skip(5)[0] == 0x36u8 && d.skip(5).drop_first() =~= d.skip(6));
    assert(0x340ac5e3u32 ^ (0x36u8 as u32) == 0x340ac5d5u32) by (bit_vector);
    assert(crc32_feed(0x340ac5e3u32, d.skip(5)) == crc32_feed(0xf68d2c9eu32, d.skip(6)));
    assert(d.skip(6)[0] == 0x37u8 && d.skip(6).drop_first() =~= d.skip(7));
    assert(0xf68d2c9eu32 ^ (0x37u8 as u32) == 0xf68d2ca9u32) by (bit_vector);
    assert(crc32_feed(0xf68d2c9eu32, d.skip(6)) == crc32_feed(0xaffc9660u32, d.skip(7)));
    assert(d.skip(7)[0] == 0x38u8 && d.skip(7).drop_first() =~= d.skip(8));
    assert(0xaffc9660u32 ^ (0x38u8 as u32) == 0xaffc9658u32) by (bit_vector);
    assert(crc32_feed(0xaffc9660u32, d.skip(7)) == crc32_feed(0x651f2550u32, d.skip(8)));
    assert(d.skip(8)[0] == 0x39u8 && d.skip(8).drop_first() =~= d.skip(9));
    assert(0x651f2550u32 ^ (0x39u8 as u32) == 0x651f2569u32) by (bit_vector);
    assert(crc32_feed(0x651f2550u32, d.skip(8)) == crc32_feed(0x340bc6d9u32, d.skip(9)));
    assert(d.skip(9) =~= Seq::<u8>::empty());
    assert(d.skip(0) =~= d);
    assert(0x340bc6d9u32 ^ 0xFFFF_FFFFu32 == 0xCBF4_3926u32) by (bit_vector);
    assert(0xFFFF_FFFFu32 ^ 0xFFFF_FFFFu32 == 0u32) by (bit_vector);
}

/// Calls `crc32fast::hash`, which computes the CRC-32 (IEEE) of its input.
#[verifier::external_body]
pub fn crc32_of(data: &[u8]) -> (c: u32)
    ensures
        c == crc32(data@),
{
    crc32fast::hash(data)
}

} // verus!
