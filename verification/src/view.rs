//! Fallback colours for blocks without a known palette entry.

use vstd::prelude::*;

verus! {

/// One FNV-1a step: xor in the byte, multiply by the 32-bit FNV prime.
pub open spec fn fnv_step(h: u32, b: u8) -> u32 {
    (((h ^ (b as u32)) as nat * 16777619nat) % 0x1_0000_0000nat) as u32
}

/// 32-bit FNV-1a of a byte string.
pub open spec fn fnv1a(bytes: Seq<u8>) -> u32
    decreases bytes.len(),
{
    if bytes.len() == 0 {
        2166136261u32
    } else {
        fnv_step(fnv1a(bytes.drop_last()), bytes.last())
    }
}

/// The colour for a hash: three 7-bit fields lifted by 64.
pub open spec fn color_of_hash(h: u32) -> Seq<u8> {
    seq![
        (64 + (h & 0x7f)) as u8,
        (64 + ((h >> 8u32) & 0x7f)) as u8,
        (64 + ((h >> 16u32) & 0x7f)) as u8,
    ]
}

/// A stable pseudo-colour for a block name: FNV-1a of its UTF-8 bytes,
/// three 7-bit fields of the hash, each lifted by 64.
pub fn hash_color(name: &str) -> (r: [u8; 3])
    ensures
        r@ == color_of_hash(fnv1a(vstd::utf8::encode_utf8(name@))),
{
    let bytes = name.as_bytes();
    let mut h: u32 = 2166136261;
    let mut i: usize = 0;
    while i < bytes.len()
        invariant
            i <= bytes@.len(),
            bytes@ == vstd::utf8::encode_utf8(name@),
            h == fnv1a(bytes@.subrange(0, i as int)),
        decreases bytes.len() - i,
    {
        let ghost prev = bytes@.subrange(0, i as int);
        h = h ^ (bytes[i] as u32);
        h = h.wrapping_mul(16777619);
        i += 1;
        assert(bytes@.subrange(0, i as int).drop_last() =~= prev);
    }
    assert(bytes@.subrange(0, bytes@.len() as int) =~= bytes@);
    proof {
        assert((h & 0x7f) < 128) by (bit_vector);
        assert(((h >> 8u32) & 0x7f) < 128) by (bit_vector);
        assert(((h >> 16u32) & 0x7f) < 128) by (bit_vector);
    }
    let r: u8 = 64 + ((h & 0x7f) as u8);
    let g: u8 = 64 + (((h >> 8u32) & 0x7f) as u8);
    let b: u8 = 64 + (((h >> 16u32) & 0x7f) as u8);
    let out = [r, g, b];
    assert(out@ =~= color_of_hash(h));
    out
}

} // verus!
