//! Fingerprinting of diagram blocks.
//!
//! The cache key of a diagram is the 64-bit FNV-1a hash of the byte sequence
//! `type ++ ";" ++ source ++ [mode]`, where `mode` is one byte (1 or 0) that
//! tells two rendering variants of the same textual syntax apart. Folding the
//! mode byte into the key guarantees that the two variants never share a
//! cache entry.

use vstd::prelude::*;

verus! {

/// 64-bit FNV-1a offset basis.
pub const FNV_OFFSET: u64 = 0xcbf29ce484222325;

/// 64-bit FNV-1a prime.
pub const FNV_PRIME: u64 = 0x100000001b3;

/// Multiplicative inverse of `FNV_PRIME` modulo 2^64 (the prime is odd, so it
/// has one); used to show that one hashing round never maps two states to the
/// same value.
pub const FNV_PRIME_INVERSE: u64 = 0xce965057aff6957b;

/// One FNV-1a round: xor the byte into the state, then multiply by the prime,
/// wrapping modulo 2^64.
pub open spec fn fnv1a_step(h: u64, b: u8) -> u64 {
    vstd::wrapping::u64_specs::wrapping_mul(h ^ (b as u64), FNV_PRIME)
}

/// FNV-1a hash of a byte sequence, starting from the offset basis.
pub open spec fn fnv1a(s: Seq<u8>) -> u64
    decreases s.len(),
{
    if s.len() == 0 {
        FNV_OFFSET
    } else {
        fnv1a_step(fnv1a(s.drop_last()), s.last())
    }
}

/// The byte sequence a fingerprint is computed over: the type tag, a `;`
/// separator, the diagram source, and one trailing mode byte.
pub open spec fn fingerprint_input(dtype: Seq<u8>, source: Seq<u8>, mode: bool) -> Seq<u8> {
    dtype + seq![59u8] + source + seq![(if mode { 1u8 } else { 0u8 })]
}

/// The cache key of a diagram: FNV-1a over `fingerprint_input`.
pub open spec fn fingerprint_spec(dtype: Seq<u8>, source: Seq<u8>, mode: bool) -> u64 {
    fnv1a(fingerprint_input(dtype, source, mode))
}

proof fn lemma_fnv1a_push(s: Seq<u8>, b: u8)
    ensures
        fnv1a(s.push(b)) == fnv1a_step(fnv1a(s), b),
{
    assert(s.push(b).drop_last() =~= s);
}

fn fnv1a_push(h: u64, b: u8) -> (r: u64)
    ensures
        r == fnv1a_step(h, b),
{
    (h ^ (b as u64)).wrapping_mul(FNV_PRIME)
}

fn fnv1a_absorb(h0: u64, data: &[u8], Ghost(prefix): Ghost<Seq<u8>>) -> (r: u64)
    requires
        h0 == fnv1a(prefix),
    ensures
        r == fnv1a(prefix + data@),
{
    let mut h = h0;
    let mut i: usize = 0;
    proof {
        assert(prefix + data@.take(0) =~= prefix);
    }
    while i < data.len()
        invariant
            0 <= i <= data@.len(),
            h == fnv1a(prefix + data@.take(i as int)),
        decreases data@.len() - i,
    {
        h = fnv1a_push(h, data[i]);
        proof {
            lemma_fnv1a_push(prefix + data@.take(i as int), data@[i as int]);
            assert((prefix + data@.take(i as int)).push(data@[i as int]) =~= prefix + data@.take(
                i as int + 1,
            ));
        }
        i = i + 1;
    }
    proof {
        assert(prefix + data@.take(data@.len() as int) =~= prefix + data@);
    }
    h
}

/// Derives the cache key of a diagram from its type tag, its source text and
/// its rendering-mode flag. Deterministic: the key is a pure function of the
/// three arguments.
pub fn fingerprint(dtype: &[u8], source: &[u8], mode: bool) -> (key: u64)
    ensures
        key == fingerprint_spec(dtype@, source@, mode),
{
    proof {
        assert(Seq::<u8>::empty() + dtype@ =~= dtype@);
    }
    let h1 = fnv1a_absorb(FNV_OFFSET, dtype, Ghost(Seq::<u8>::empty()));
    let h2 = fnv1a_push(h1, 59);
    proof {
        lemma_fnv1a_push(dtype@, 59u8);
        assert(dtype@.push(59u8) =~= dtype@ + seq![59u8]);
    }
    let h3 = fnv1a_absorb(h2, source, Ghost(dtype@ + seq![59u8]));
    let mb: u8 = if mode {
        1
    } else {
        0
    };
    let h4 = fnv1a_push(h3, mb);
    proof {
        lemma_fnv1a_push(dtype@ + seq![59u8] + source@, mb);
        assert((dtype@ + seq![59u8] + source@).push(mb) =~= fingerprint_input(
            dtype@,
            source@,
            mode,
        ));
    }
    h4
}

proof fn lemma_wrapping_mul_prime_injective(x: u64, y: u64)
    requires
        x != y,
    ensures
        vstd::wrapping::u64_specs::wrapping_mul(x, FNV_PRIME) != vstd::wrapping::u64_specs::wrapping_mul(y, FNV_PRIME),
{
    let m: int = 0x10000000000000000;
    let p: int = FNV_PRIME as int;
    let q: int = FNV_PRIME_INVERSE as int;
    assert((p * q) % m == 1);
    let xm = (x as int * p) % m;
    let ym = (y as int * p) % m;
    if xm == ym {
        vstd::arithmetic::div_mod::lemma_mul_mod_noop_left(x as int * p, q, m);
        vstd::arithmetic::div_mod::lemma_mul_mod_noop_left(y as int * p, q, m);
        vstd::arithmetic::mul::lemma_mul_is_associative(x as int, p, q);
        vstd::arithmetic::mul::lemma_mul_is_associative(y as int, p, q);
        vstd::arithmetic::div_mod::lemma_mul_mod_noop_right(x as int, p * q, m);
        vstd::arithmetic::div_mod::lemma_mul_mod_noop_right(y as int, p * q, m);
        vstd::arithmetic::div_mod::lemma_small_mod(x as nat, m as nat);
        vstd::arithmetic::div_mod::lemma_small_mod(y as nat, m as nat);
        assert((xm * q) % m == x as int);
        assert((ym * q) % m == y as int);
        assert(false);
    }
}

/// Law: fingerprinting is deterministic — equal (type, source, mode) triples
/// always give equal keys.
pub proof fn lemma_fingerprint_deterministic(
    t1: Seq<u8>,
    s1: Seq<u8>,
    m1: bool,
    t2: Seq<u8>,
    s2: Seq<u8>,
    m2: bool,
)
    requires
        t1 == t2,
        s1 == s2,
        m1 == m2,
    ensures
        fingerprint_spec(t1, s1, m1) == fingerprint_spec(t2, s2, m2),
{
}

/// Law: the two rendering modes of one (type, source) pair never collide —
/// their fingerprints always differ.
pub proof fn lemma_fingerprint_mode_sensitive(t: Seq<u8>, s: Seq<u8>, m1: bool, m2: bool)
    requires
        m1 != m2,
    ensures
        fingerprint_spec(t, s, m1) != fingerprint_spec(t, s, m2),
{
    let p = t + seq![59u8] + s;
    lemma_fnv1a_push(p, 1u8);
    lemma_fnv1a_push(p, 0u8);
    assert(p.push(1u8) =~= fingerprint_input(t, s, true));
    assert(p.push(0u8) =~= fingerprint_input(t, s, false));
    let h = fnv1a(p);
    assert(h ^ (1u8 as u64) != h ^ (0u8 as u64)) by (bit_vector);
    lemma_wrapping_mul_prime_injective(h ^ (1u8 as u64), h ^ (0u8 as u64));
}

} // verus!
