//! CRC-32 (IEEE 802.3) checksum.
use vstd::prelude::*;

verus! {

/// One bit step of the reflected CRC-32 (IEEE 802.3, polynomial `0xEDB88320`).
pub open spec fn crc_bit_step(c: u32) -> u32 {
    if c & 1 == 1 {
        (c >> 1u32) ^ 0xEDB88320u32
    } else {
        c >> 1u32
    }
}

/// Eight bit steps of the CRC-32 register.
pub open spec fn crc_byte_step(c: u32) -> u32 {
    crc_bit_step(
        crc_bit_step(
            crc_bit_step(crc_bit_step(crc_bit_step(crc_bit_step(crc_bit_step(crc_bit_step(c)))))),
        ),
    )
}

/// `n` bit steps of the CRC-32 register.
pub open spec fn crc_bit_steps(c: u32, n: nat) -> u32
    decreases n,
{
    if n == 0 {
        c
    } else {
        crc_bit_step(crc_bit_steps(c, (n - 1) as nat))
    }
}

/// The CRC-32 register after feeding `data` bit by bit, least significant bit
/// of each byte first, starting from all ones.
pub open spec fn crc_register(data: Seq<u8>) -> u32
    decreases data.len(),
{
    if data.len() == 0 {
        0xFFFF_FFFFu32
    } else {
        crc_byte_step(crc_register(data.drop_last()) ^ (data.last() as u32))
    }
}

/// CRC-32 (IEEE 802.3) of `data`: the register, finally inverted.
pub open spec fn spec_crc32(data: Seq<u8>) -> u32 {
    crc_register(data) ^ 0xFFFF_FFFFu32
}

/// The eight bit steps of a register split into the steps of its low byte,
/// combined with the untouched upper bytes (what makes a byte table work).
pub proof fn lemma_crc_table_step(c: u32, b: u8)
    ensures
        (c >> 8u32) ^ crc_byte_step((c ^ (b as u32)) & 0xffu32) == crc_byte_step(c ^ (b as u32)),
{
    let x = c ^ (b as u32);
    assert(crc_byte_step(x) == (x >> 8u32) ^ crc_byte_step(x & 0xffu32)) by (bit_vector);
    assert(x >> 8u32 == c >> 8u32) by (bit_vector)
        requires
            x == c ^ (b as u32),
    ;
}

/// CRC-32 (IEEE 802.3, reflected, initial value and final xor `0xFFFFFFFF`),
/// computed with a 256-entry lookup table.
pub fn crc32(data: &[u8]) -> (res: u32)
    ensures
        res == spec_crc32(data@),
{
    // lookup table: the eight bit steps of every byte value
    let mut table: Vec<u32> = Vec::new();
    let mut i: u32 = 0;
    while i < 256
        invariant
            i <= 256,
            table@.len() == i,
            forall|k: int| 0 <= k < i ==> #[trigger] table@[k] == crc_byte_step(k as u32),
        decreases 256 - i,
    {
        let mut crc = i;
        let mut j: u32 = 0;
        while j < 8
            invariant
                j <= 8,
                crc == crc_bit_steps(i, j as nat),
            decreases 8 - j,
        {
            if crc & 1 == 1 {
                crc = (crc >> 1) ^ 0xEDB88320;
            } else {
                crc >>= 1;
            }
            j = j + 1;
        }
        proof {
            reveal_with_fuel(crc_bit_steps, 9);
        }
        table.push(crc);
        i = i + 1;
    }
    let mut crc: u32 = 0xFFFF_FFFF;
    let mut k: usize = 0;
    while k < data.len()
        invariant
            k <= data@.len(),
            table@.len() == 256,
            forall|m: int| 0 <= m < 256 ==> #[trigger] table@[m] == crc_byte_step(m as u32),
            crc == crc_register(data@.take(k as int)),
        decreases data.len() - k,
    {
        let byte = data[k];
        let index = ((crc ^ byte as u32) & 0xFF) as usize;
        proof {
            lemma_crc_table_step(crc, byte);
            assert(data@.take(k + 1).drop_last() =~= data@.take(k as int));
            assert((crc ^ byte as u32) & 0xffu32 < 256) by (bit_vector);
        }
        crc = (crc >> 8) ^ table[index];
        k = k + 1;
    }
    assert(data@.take(data@.len() as int) =~= data@);
    crc ^ 0xFFFF_FFFF
}

} // verus!
