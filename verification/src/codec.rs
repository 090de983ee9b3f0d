//! The cache file format.
//!
//! A persisted cache is one little-endian 64-bit entry count followed by the
//! entries, each a 64-bit key, a 64-bit payload length, and the payload
//! bytes. Decoding accepts exactly the complete encodings and nothing else;
//! a missing or malformed file loads as the empty store, never as an error.

use crate::cache::{entries_map, entry_views, CacheStore};
use vstd::prelude::*;

verus! {

/// The 8 little-endian bytes of `n`.
pub open spec fn le64(n: u64) -> Seq<u8> {
    seq![
        (n & 0xff) as u8,
        ((n >> 8) & 0xff) as u8,
        ((n >> 16) & 0xff) as u8,
        ((n >> 24) & 0xff) as u8,
        ((n >> 32) & 0xff) as u8,
        ((n >> 40) & 0xff) as u8,
        ((n >> 48) & 0xff) as u8,
        ((n >> 56) & 0xff) as u8,
    ]
}

/// The value that 8 little-endian bytes stand for.
pub open spec fn le64_val(s: Seq<u8>) -> u64 {
    (s[0] as u64) | ((s[1] as u64) << 8) | ((s[2] as u64) << 16) | ((s[3] as u64) << 24) | ((
    s[4] as u64) << 32) | ((s[5] as u64) << 40) | ((s[6] as u64) << 48) | ((s[7] as u64) << 56)
}

proof fn lemma_le64_roundtrip(n: u64)
    ensures
        le64_val(le64(n)) == n,
{
    assert(((n & 0xff) as u8 as u64) | ((((n >> 8) & 0xff) as u8 as u64) << 8) | ((((n >> 16)
        & 0xff) as u8 as u64) << 16) | ((((n >> 24) & 0xff) as u8 as u64) << 24) | ((((n >> 32)
        & 0xff) as u8 as u64) << 32) | ((((n >> 40) & 0xff) as u8 as u64) << 40) | ((((n >> 48)
        & 0xff) as u8 as u64) << 48) | ((((n >> 56) & 0xff) as u8 as u64) << 56) == n)
        by (bit_vector);
}

/// One encoded entry: key, payload length, payload bytes.
pub open spec fn enc_entry(e: (u64, Seq<u8>)) -> Seq<u8> {
    le64(e.0) + le64(e.1.len() as u64) + e.1
}

/// The encoded entries, in order.
pub open spec fn enc_entries(s: Seq<(u64, Seq<u8>)>) -> Seq<u8>
    decreases s.len(),
{
    if s.len() == 0 {
        Seq::empty()
    } else {
        enc_entry(s[0]) + enc_entries(s.skip(1))
    }
}

/// The file image of a store: the entry count, then the entries.
pub open spec fn enc_store(s: Seq<(u64, Seq<u8>)>) -> Seq<u8> {
    le64(s.len() as u64) + enc_entries(s)
}

/// Decodes exactly `n` entries from `s`, demanding that nothing is left.
pub open spec fn dec_entries(s: Seq<u8>, n: nat) -> Option<Seq<(u64, Seq<u8>)>>
    decreases n,
{
    if n == 0 {
        if s.len() == 0 {
            Some(Seq::empty())
        } else {
            None
        }
    } else if s.len() < 16 {
        None
    } else {
        let key = le64_val(s.subrange(0, 8));
        let plen = le64_val(s.subrange(8, 16)) as int;
        if s.len() < 16 + plen {
            None
        } else {
            match dec_entries(s.skip(16 + plen), (n - 1) as nat) {
                Some(rest) => Some(seq![(key, s.subrange(16, 16 + plen))] + rest),
                None => None,
            }
        }
    }
}

/// Decodes a cache file image, or `None` when it is not one.
pub open spec fn dec_store(s: Seq<u8>) -> Option<Seq<(u64, Seq<u8>)>> {
    if s.len() < 8 {
        None
    } else {
        dec_entries(s.skip(8), le64_val(s.subrange(0, 8)) as nat)
    }
}

fn push_le64(out: &mut Vec<u8>, n: u64)
    ensures
        final (out)@ == old(out)@ + le64(n),
{
    proof {
        assert(n & 0xff <= 0xff && (n >> 8) & 0xff <= 0xff && (n >> 16) & 0xff <= 0xff && (n
            >> 24) & 0xff <= 0xff && (n >> 32) & 0xff <= 0xff && (n >> 40) & 0xff <= 0xff && (n
            >> 48) & 0xff <= 0xff && (n >> 56) & 0xff <= 0xff) by (bit_vector);
    }
    out.push((n & 0xff) as u8);
    out.push(((n >> 8) & 0xff) as u8);
    out.push(((n >> 16) & 0xff) as u8);
    out.push(((n >> 24) & 0xff) as u8);
    out.push(((n >> 32) & 0xff) as u8);
    out.push(((n >> 40) & 0xff) as u8);
    out.push(((n >> 48) & 0xff) as u8);
    out.push(((n >> 56) & 0xff) as u8);
    proof {
        assert(out@ =~= old(out)@ + le64(n));
    }
}

fn read_le64(bytes: &[u8], pos: usize) -> (n: u64)
    requires
        pos + 8 <= bytes@.len(),
    ensures
        n == le64_val(bytes@.subrange(pos as int, pos as int + 8)),
{
    let n = (bytes[pos] as u64) | ((bytes[pos + 1] as u64) << 8) | ((bytes[pos + 2] as u64) << 16)
        | ((bytes[pos + 3] as u64) << 24) | ((bytes[pos + 4] as u64) << 32) | ((bytes[pos
        + 5] as u64) << 40) | ((bytes[pos + 6] as u64) << 48) | ((bytes[pos + 7] as u64) << 56);
    proof {
        let s = bytes@.subrange(pos as int, pos as int + 8);
        assert(s[0] == bytes@[pos as int]);
        assert(s[1] == bytes@[pos as int + 1]);
        assert(s[2] == bytes@[pos as int + 2]);
        assert(s[3] == bytes@[pos as int + 3]);
        assert(s[4] == bytes@[pos as int + 4]);
        assert(s[5] == bytes@[pos as int + 5]);
        assert(s[6] == bytes@[pos as int + 6]);
        assert(s[7] == bytes@[pos as int + 7]);
    }
    n
}

/// Serializes the store's full mapping: what `save` writes, replacing any
/// prior file contents.
pub fn to_bytes(store: &CacheStore) -> (out: Vec<u8>)
    ensures
        out@ == enc_store(entry_views(store.entries@)),
{
    let ghost vs = entry_views(store.entries@);
    let mut out: Vec<u8> = Vec::new();
    push_le64(&mut out, store.entries.len() as u64);
    let mut i: usize = 0;
    proof {
        assert(vs.skip(0) =~= vs);
        assert(Seq::<u8>::empty() + le64(vs.len() as u64) =~= le64(vs.len() as u64));
    }
    while i < store.entries.len()
        invariant
            vs == entry_views(store.entries@),
            i <= vs.len(),
            enc_store(vs) == out@ + enc_entries(vs.skip(i as int)),
        decreases vs.len() - i,
    {
        let ghost out0 = out@;
        proof {
            assert(vs.skip(i as int)[0] == vs[i as int]);
            assert(vs.skip(i as int).skip(1) =~= vs.skip(i as int + 1));
            assert(vs[i as int] == (store.entries@[i as int].0, store.entries@[i as int].1@));
        }
        push_le64(&mut out, store.entries[i].0);
        push_le64(&mut out, store.entries[i].1.len() as u64);
        crate::rewrite::append_bytes(&mut out, store.entries[i].1.as_slice());
        proof {
            assert(enc_entries(vs.skip(i as int)) == enc_entry(vs[i as int]) + enc_entries(
                vs.skip(i as int + 1),
            ));
            assert(out@ =~= out0 + enc_entry(vs[i as int]));
            assert(out0 + (enc_entry(vs[i as int]) + enc_entries(vs.skip(i as int + 1))) =~= out@
                + enc_entries(vs.skip(i as int + 1)));
        }
        i = i + 1;
    }
    proof {
        assert(vs.skip(vs.len() as int) =~= Seq::<(u64, Seq<u8>)>::empty());
        assert(out@ + Seq::<u8>::empty() =~= out@);
    }
    out
}

fn decode_entries(bytes: &[u8]) -> (r: Option<Vec<(u64, Vec<u8>)>>)
    ensures
        match r {
            Some(es) => dec_store(bytes@) == Some(entry_views(es@)),
            None => dec_store(bytes@) is None,
        },
{
    if bytes.len() < 8 {
        return None;
    }
    let count = read_le64(bytes, 0);
    let mut acc: Vec<(u64, Vec<u8>)> = Vec::new();
    let mut pos: usize = 8;
    let mut rem: u64 = count;
    proof {
        assert(entry_views(acc@) =~= Seq::<(u64, Seq<u8>)>::empty());
    }
    while rem > 0
        invariant
            8 <= pos <= bytes@.len(),
            dec_store(bytes@) == (match dec_entries(bytes@.skip(pos as int), rem as nat) {
                Some(rest) => Some(entry_views(acc@) + rest),
                None => None::<Seq<(u64, Seq<u8>)>>,
            }),
        decreases rem,
    {
        let ghost pre = bytes@.skip(pos as int);
        if bytes.len() - pos < 16 {
            return None;
        }
        let key = read_le64(bytes, pos);
        let plen64 = read_le64(bytes, pos + 8);
        proof {
            assert(pre.subrange(0, 8) =~= bytes@.subrange(pos as int, pos as int + 8));
            assert(pre.subrange(8, 16) =~= bytes@.subrange(pos as int + 8, pos as int + 16));
        }
        if plen64 > (bytes.len() - pos - 16) as u64 {
            return None;
        }
        let plen = plen64 as usize;
        let payload = crate::extract::copy_range(bytes, pos + 16, pos + 16 + plen);
        let ghost acc0 = acc@;
        acc.push((key, payload));
        proof {
            assert(pre.subrange(16, 16 + plen as int) =~= bytes@.subrange(
                pos as int + 16,
                pos as int + 16 + plen as int,
            ));
            assert(pre.skip(16 + plen as int) =~= bytes@.skip(pos as int + 16 + plen as int));
            assert(entry_views(acc@) =~= entry_views(acc0).push((key, payload@)));
            if dec_entries(bytes@.skip(pos as int + 16 + plen as int), (rem - 1) as nat) is Some {
                let rest = dec_entries(
                    bytes@.skip(pos as int + 16 + plen as int),
                    (rem - 1) as nat,
                ).unwrap();
                assert(dec_entries(pre, rem as nat) == Some(seq![(key, payload@)] + rest));
                assert(entry_views(acc0) + (seq![(key, payload@)] + rest) =~= entry_views(acc@)
                    + rest);
            }
        }
        pos = pos + 16 + plen;
        rem = rem - 1;
    }
    if pos == bytes.len() {
        proof {
            assert(bytes@.skip(pos as int).len() == 0);
            assert(dec_entries(bytes@.skip(pos as int), 0nat) == Some(
                Seq::<(u64, Seq<u8>)>::empty(),
            ));
            assert(entry_views(acc@) + Seq::<(u64, Seq<u8>)>::empty() =~= entry_views(acc@));
        }
        Some(acc)
    } else {
        proof {
            assert(bytes@.skip(pos as int).len() > 0);
        }
        None
    }
}

/// Loads a store from a cache file image: the decoded mapping, or the empty
/// store when the image is missing, truncated or otherwise malformed —
/// never an error.
pub fn from_bytes(bytes: &[u8]) -> (store: CacheStore)
    ensures
        store.wf(),
        match dec_store(bytes@) {
            Some(es) => store.as_map() == entries_map(es),
            None => store.as_map() == Map::<u64, Seq<u8>>::empty(),
        },
{
    let mut store = CacheStore::new();
    match decode_entries(bytes) {
        None => store,
        Some(es) => {
            let ghost vs = entry_views(es@);
            let mut i: usize = 0;
            proof {
                assert(vs.take(0) =~= Seq::<(u64, Seq<u8>)>::empty());
            }
            while i < es.len()
                invariant
                    vs == entry_views(es@),
                    i <= vs.len(),
                    store.wf(),
                    store.as_map() == entries_map(vs.take(i as int)),
                decreases vs.len() - i,
            {
                let key = es[i].0;
                let payload = vstd::slice::slice_to_vec(es[i].1.as_slice());
                store.put(key, payload);
                proof {
                    assert(vs[i as int] == (es@[i as int].0, es@[i as int].1@));
                    assert(vs.take(i as int + 1).drop_last() =~= vs.take(i as int));
                    assert(vs.take(i as int + 1).last() == vs[i as int]);
                }
                i = i + 1;
            }
            proof {
                assert(vs.take(vs.len() as int) =~= vs);
            }
            store
        },
    }
}

proof fn lemma_dec_entries_roundtrip(s: Seq<(u64, Seq<u8>)>)
    requires
        forall|i: int| 0 <= i < s.len() ==> (#[trigger] s[i]).1.len() <= u64::MAX,
    ensures
        dec_entries(enc_entries(s), s.len() as nat) == Some(s),
    decreases s.len(),
{
    if s.len() == 0 {
        assert(enc_entries(s).len() == 0);
    } else {
        let e = s[0];
        let enc = enc_entries(s);
        let plen = e.1.len() as int;
        lemma_le64_roundtrip(e.0);
        lemma_le64_roundtrip(e.1.len() as u64);
        assert(enc == enc_entry(e) + enc_entries(s.skip(1)));
        assert(enc_entry(e).len() == 16 + plen);
        assert(enc.len() >= 16 + plen);
        assert(enc.subrange(0, 8) =~= le64(e.0));
        assert(enc.subrange(8, 16) =~= le64(e.1.len() as u64));
        assert(le64_val(enc.subrange(8, 16)) as int == plen);
        assert(enc.subrange(16, 16 + plen) =~= e.1);
        assert(enc.skip(16 + plen) =~= enc_entries(s.skip(1)));
        assert forall|i: int| 0 <= i < s.skip(1).len() implies (#[trigger] s.skip(1)[i]).1.len()
            <= u64::MAX by {
            assert(s.skip(1)[i] == s[i + 1]);
        }
        lemma_dec_entries_roundtrip(s.skip(1));
        assert(seq![(e.0, e.1)] + s.skip(1) =~= s);
        assert((e.0, e.1) == e);
    }
}

/// Law: decoding an encoded store yields exactly the encoded entries, so a
/// store's mapping survives a save and a load unchanged.
pub proof fn lemma_codec_roundtrip(s: Seq<(u64, Seq<u8>)>)
    requires
        s.len() <= u64::MAX,
        forall|i: int| 0 <= i < s.len() ==> (#[trigger] s[i]).1.len() <= u64::MAX,
    ensures
        dec_store(enc_store(s)) == Some(s),
{
    lemma_le64_roundtrip(s.len() as u64);
    assert(enc_store(s).subrange(0, 8) =~= le64(s.len() as u64));
    assert(enc_store(s).skip(8) =~= enc_entries(s));
    lemma_dec_entries_roundtrip(s);
}

/// Law: a well-formed store written with `to_bytes` and read back with
/// `from_bytes` holds the same mapping.
pub proof fn lemma_save_load_identity(s: CacheStore)
    requires
        s.wf(),
        entry_views(s.entries@).len() <= u64::MAX,
        forall|i: int|
            0 <= i < s.entries@.len() ==> (#[trigger] entry_views(s.entries@)[i]).1.len()
                <= u64::MAX,
    ensures
        dec_store(enc_store(entry_views(s.entries@))) == Some(entry_views(s.entries@)),
        entries_map(entry_views(s.entries@)) == s.as_map(),
{
    lemma_codec_roundtrip(entry_views(s.entries@));
}

} // verus!
