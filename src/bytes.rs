//! Byte classification and the fingerprint used for repeat detection.
use vstd::prelude::*;

verus! {

/// A byte is printable when it lies between space (32) and tilde (126).
pub open spec fn is_printable(b: u8) -> bool {
    32 <= b <= 126
}

/// Starting value of the fingerprint (the 32-bit FNV offset basis).
pub const FNV_BASIS: u64 = 2166136261;

/// Multiplier of the fingerprint (the 32-bit FNV prime).
pub const FNV_PRIME: u64 = 16777619;

/// Modulus that every step of the fingerprint reduces by.
pub const FNV_MODULUS: u64 = 65536;

/// One step of the fingerprint: mix a byte in, multiply, reduce.
pub open spec fn fnv_mix(h: u64, b: u8) -> u64 {
    (((h ^ (b as u64)) as int * FNV_PRIME as int) % FNV_MODULUS as int) as u64
}

/// The fingerprint state after the given bytes, taken in order.
pub open spec fn fnv_fold(bytes: Seq<u8>) -> u64
    decreases bytes.len(),
{
    if bytes.len() == 0 {
        FNV_BASIS
    } else {
        fnv_mix(fnv_fold(bytes.drop_last()), bytes.last())
    }
}

/// The fingerprint of a text: its folded UTF-8 bytes, as 32 bits.
pub open spec fn fingerprint(text: Seq<char>) -> u32 {
    fnv_fold(vstd::utf8::encode_utf8(text)) as u32
}

/// Whether a byte is printable ASCII.
pub fn isPrintableASCII(byte: u8) -> (r: bool)
    ensures
        r == is_printable(byte),
{
    32u8 <= byte && byte <= 126u8
}

proof fn lemma_fold_bound(bytes: Seq<u8>)
    ensures
        fnv_fold(bytes) <= FNV_BASIS,
    decreases bytes.len(),
{
    if bytes.len() > 0 {
        lemma_fold_bound(bytes.drop_last());
    }
}

/// Fingerprint of the bytes of a string: a small, fast, collision-tolerant
/// hash used only to spot runs of repeated output.
pub fn fastBadHash(str: String) -> (r: u32)
    ensures
        r == fingerprint(str@),
{
    fingerprint_of(str.as_str())
}

/// Fingerprint of a text, without taking ownership of it.
pub fn fingerprint_of(text: &str) -> (r: u32)
    ensures
        r == fingerprint(text@),
{
    let bytes: &[u8] = text.as_bytes();
    let mut hash: u64 = FNV_BASIS;
    let mut i: usize = 0;
    while i < bytes.len()
        invariant
            i <= bytes@.len(),
            hash == fnv_fold(bytes@.subrange(0, i as int)),
        decreases bytes@.len() - i,
    {
        proof {
            lemma_fold_bound(bytes@.subrange(0, i as int));
        }
        let x: u64 = hash ^ (bytes[i] as u64);
        let byte = bytes[i];
        assert(x < 0x1_0000_0000u64) by (bit_vector)
            requires
                x == hash ^ (byte as u64),
                hash <= 2166136261u64,
        ;
        assert(x * FNV_PRIME < 0x200_0000_0000_0000u64) by (nonlinear_arith)
            requires
                x < 0x1_0000_0000u64,
                FNV_PRIME == 16777619u64,
        ;
        hash = (x * FNV_PRIME) % FNV_MODULUS;
        proof {
            let s = bytes@.subrange(0, i as int + 1);
            assert(s.drop_last() =~= bytes@.subrange(0, i as int));
        }
        i = i + 1;
    }
    assert(bytes@.subrange(0, i as int) =~= bytes@);
    hash as u32
}

} // verus!
