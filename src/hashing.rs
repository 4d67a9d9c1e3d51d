use vstd::prelude::*;
use crate::bytes::{be32, push_u32_be};

verus! {

/// The FNV-1a 32-bit offset basis.
pub const FNV_OFFSET: u32 = 0x811C_9DC5;

/// The FNV-1a 32-bit prime.
pub const FNV_PRIME: u32 = 0x0100_0193;

/// The hash of a feature's bytes in the namespace with id `seed`: FNV-1a over the
/// bytes, starting from the offset basis mixed with the seed.
pub open spec fn feature_hash_spec(seed: u32, s: Seq<u8>) -> u32
    decreases s.len(),
{
    if s.len() == 0 {
        FNV_OFFSET ^ seed
    } else {
        ((feature_hash_spec(seed, s.drop_last()) ^ (s.last() as u32)) as int * FNV_PRIME as int
            % 0x1_0000_0000) as u32
    }
}

/// Hashes a feature's bytes, seeded by its namespace's id, to 32 bits.
pub fn feature_hash(seed: u32, s: &[u8]) -> (h: u32)
    ensures
        h == feature_hash_spec(seed, s@),
{
    let mut h: u32 = FNV_OFFSET ^ seed;
    let mut i: usize = 0;
    while i < s.len()
        invariant
            i <= s@.len(),
            h == feature_hash_spec(seed, s@.take(i as int)),
        decreases s@.len() - i,
    {
        assert(s@.take(i + 1).drop_last() =~= s@.take(i as int));
        h = ((((h ^ s[i] as u32) as u64) * (FNV_PRIME as u64)) % 0x1_0000_0000u64) as u32;
        i = i + 1;
    }
    assert(s@.take(i as int) =~= s@);
    h
}

/// One hashing step is one-to-one: different states give different states.
proof fn lemma_step_injective(x: u32, y: u32, c: u8)
    requires
        x != y,
    ensures
        ((x ^ (c as u32)) as int * FNV_PRIME as int % 0x1_0000_0000) as u32 != ((y ^ (c as u32)) as int
            * FNV_PRIME as int % 0x1_0000_0000) as u32,
{
    let a = x ^ (c as u32);
    let b = y ^ (c as u32);
    assert(a != b) by (bit_vector)
        requires
            x != y,
            a == x ^ (c as u32),
            b == y ^ (c as u32),
    ;
    let ma = (a as int * FNV_PRIME as int % 0x1_0000_0000) as u32;
    let mb = (b as int * FNV_PRIME as int % 0x1_0000_0000) as u32;
    assert(ma == a.wrapping_mul(FNV_PRIME));
    assert(mb == b.wrapping_mul(FNV_PRIME));
    assert(a.wrapping_mul(0x0100_0193u32).wrapping_mul(0x359C_449Bu32) == a) by (bit_vector);
    assert(b.wrapping_mul(0x0100_0193u32).wrapping_mul(0x359C_449Bu32) == b) by (bit_vector);
}

/// The same feature hashed in namespaces with different ids gets different
/// 32-bit hashes: each step of the hash is one-to-one, and the seeds make the
/// starting states differ.
pub proof fn lemma_hash_depends_on_namespace(a: u32, b: u32, key: Seq<u8>)
    requires
        a != b,
    ensures
        feature_hash_spec(a, key) != feature_hash_spec(b, key),
    decreases key.len(),
{
    if key.len() == 0 {
        assert(FNV_OFFSET ^ a != FNV_OFFSET ^ b) by (bit_vector)
            requires
                a != b,
        ;
    } else {
        lemma_hash_depends_on_namespace(a, b, key.drop_last());
        lemma_step_injective(
            feature_hash_spec(a, key.drop_last()),
            feature_hash_spec(b, key.drop_last()),
            key.last(),
        );
    }
}

/// A 16-byte fingerprint of some content: its hash under seeds 0 to 3, each
/// big-endian.
pub open spec fn fingerprint_spec(s: Seq<u8>) -> Seq<u8> {
    be32(feature_hash_spec(0, s)) + be32(feature_hash_spec(1, s)) + be32(feature_hash_spec(2, s))
        + be32(feature_hash_spec(3, s))
}

/// Fingerprints content, such as the text of a namespace declaration file, so
/// that caches and snapshots can be bound to it.
pub fn content_fingerprint(s: &[u8]) -> (r: [u8; 16])
    ensures
        r@ == fingerprint_spec(s@),
{
    let mut out: Vec<u8> = Vec::new();
    push_u32_be(&mut out, feature_hash(0, s));
    push_u32_be(&mut out, feature_hash(1, s));
    push_u32_be(&mut out, feature_hash(2, s));
    push_u32_be(&mut out, feature_hash(3, s));
    let mut r: [u8; 16] = [0u8; 16];
    let mut i: usize = 0;
    while i < 16
        invariant
            i <= 16,
            out@ == fingerprint_spec(s@),
            out@.len() == 16,
            forall|j: int| 0 <= j < i ==> r@[j] == out@[j],
        decreases 16 - i,
    {
        r[i] = out[i];
        i = i + 1;
    }
    assert(r@ =~= fingerprint_spec(s@));
    r
}

} // verus!
