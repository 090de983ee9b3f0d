//! Substitution of block replacements back into document text.
//!
//! The output document is assembled against byte spans of the original text:
//! every span that a block occupies is replaced, and all text outside the
//! matched spans is kept byte for byte.

use crate::extract::{block_views, blocks_sorted_wf, Block, BlockSpec};
use vstd::prelude::*;

verus! {

/// The mathematical byte sequences that a vector of replacements stands for.
pub open spec fn rep_views(rs: Seq<Vec<u8>>) -> Seq<Seq<u8>> {
    rs.map_values(|r: Vec<u8>| r@)
}

/// The text from `from` on, with each block's span replaced by the matching
/// replacement and everything between and after blocks kept unchanged.
pub open spec fn splice(t: Seq<u8>, bs: Seq<BlockSpec>, rs: Seq<Seq<u8>>, from: int) -> Seq<u8>
    decreases bs.len(),
{
    if bs.len() == 0 {
        t.subrange(from, t.len() as int)
    } else {
        t.subrange(from, bs[0].start) + rs[0] + splice(t, bs.skip(1), rs.skip(1), bs[0].end)
    }
}

/// Law: a document in which no block was found is returned unchanged,
/// whatever the replacements.
pub proof fn lemma_no_blocks_identity(t: Seq<u8>, rs: Seq<Seq<u8>>)
    ensures
        splice(t, Seq::<BlockSpec>::empty(), rs, 0) == t,
{
    assert(t.subrange(0, t.len() as int) =~= t);
}

/// Appends all of `data` to `out`.
pub fn append_bytes(out: &mut Vec<u8>, data: &[u8])
    ensures
        final (out)@ == old(out)@ + data@,
{
    let mut k: usize = 0;
    proof {
        assert(old(out)@ + data@.take(0) =~= old(out)@);
    }
    while k < data.len()
        invariant
            k <= data@.len(),
            out@ == old(out)@ + data@.take(k as int),
        decreases data@.len() - k,
    {
        out.push(data[k]);
        proof {
            assert((old(out)@ + data@.take(k as int)).push(data@[k as int]) =~= old(out)@
                + data@.take(k as int + 1));
        }
        k = k + 1;
    }
    proof {
        assert(data@.take(data@.len() as int) =~= data@);
    }
}

fn append_range(out: &mut Vec<u8>, text: &[u8], a: usize, b: usize)
    requires
        a <= b <= text@.len(),
    ensures
        final (out)@ == old(out)@ + text@.subrange(a as int, b as int),
{
    append_bytes(out, vstd::slice::slice_subrange(text, a, b));
}

/// Builds the output text: each block's span in `text` is replaced by the
/// replacement of the same index, all other text is kept byte-identical.
pub fn substitute(text: &[u8], blocks: &Vec<Block>, reps: &Vec<Vec<u8>>) -> (out: Vec<u8>)
    requires
        blocks_sorted_wf(text@, block_views(blocks@), 0),
        reps@.len() == blocks@.len(),
    ensures
        out@ == splice(text@, block_views(blocks@), rep_views(reps@), 0),
{
    let ghost bs = block_views(blocks@);
    let ghost rvs = rep_views(reps@);
    let mut out: Vec<u8> = Vec::new();
    let mut pos: usize = 0;
    let mut i: usize = 0;
    proof {
        assert(bs.skip(0) =~= bs);
        assert(rvs.skip(0) =~= rvs);
        assert(Seq::<u8>::empty() + splice(text@, bs, rvs, 0) =~= splice(text@, bs, rvs, 0));
    }
    while i < blocks.len()
        invariant
            blocks_sorted_wf(text@, bs, 0),
            bs == block_views(blocks@),
            rvs == rep_views(reps@),
            rvs.len() == bs.len(),
            i <= bs.len(),
            pos == if i == 0 {
                0int
            } else {
                bs[i - 1].end
            },
            pos <= text@.len(),
            splice(text@, bs, rvs, 0) == out@ + splice(
                text@,
                bs.skip(i as int),
                rvs.skip(i as int),
                pos as int,
            ),
        decreases bs.len() - i,
    {
        let b_start = blocks[i].start;
        let b_end = blocks[i].end;
        proof {
            assert(bs[i as int] == blocks@[i as int]@);
            assert(pos <= b_start <= b_end <= text@.len());
        }
        let ghost out0 = out@;
        append_range(&mut out, text, pos, b_start);
        append_bytes(&mut out, reps[i].as_slice());
        proof {
            let bsk = bs.skip(i as int);
            let rsk = rvs.skip(i as int);
            assert(bsk[0] == bs[i as int]);
            assert(rsk[0] == rvs[i as int]);
            assert(bsk.skip(1) =~= bs.skip(i as int + 1));
            assert(rsk.skip(1) =~= rvs.skip(i as int + 1));
            assert(rvs[i as int] == reps@[i as int]@);
            assert(splice(text@, bsk, rsk, pos as int) == text@.subrange(pos as int, bs[i as int].start)
                + rvs[i as int] + splice(
                text@,
                bs.skip(i as int + 1),
                rvs.skip(i as int + 1),
                bs[i as int].end,
            ));
            assert(out@ =~= out0 + (text@.subrange(pos as int, bs[i as int].start)
                + rvs[i as int]));
            assert(out0 + (text@.subrange(pos as int, bs[i as int].start) + rvs[i as int])
                + splice(text@, bs.skip(i as int + 1), rvs.skip(i as int + 1), bs[i as int].end)
                =~= out0 + splice(text@, bsk, rsk, pos as int));
        }
        pos = b_end;
        i = i + 1;
    }
    proof {
        assert(bs.skip(bs.len() as int) =~= Seq::<BlockSpec>::empty());
        assert(splice(text@, bs.skip(bs.len() as int), rvs.skip(bs.len() as int), pos as int)
            == text@.subrange(pos as int, text@.len() as int));
    }
    let ghost out1 = out@;
    append_range(&mut out, text, pos, text.len());
    proof {
        assert(out1 + text@.subrange(pos as int, text@.len() as int) == splice(
            text@,
            bs,
            rvs,
            0,
        ));
    }
    out
}

} // verus!
