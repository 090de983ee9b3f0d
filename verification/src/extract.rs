//! Extraction of fenced diagram blocks from document text.
//!
//! A block is an opening fence of three backticks, a type tag (the run of
//! non-whitespace bytes right after the fence, possibly empty), a newline, a
//! non-empty body, and a closing fence of a newline followed by three
//! backticks. Blocks do not nest: the first closing fence after an opening
//! fence is authoritative, and scanning resumes after the closing fence.
//! Text in which no opening fence leads to a complete block yields no blocks.

use vstd::prelude::*;

verus! {

/// ASCII backtick.
pub const BACKTICK: u8 = 96;

/// ASCII line feed.
pub const NL: u8 = 10;

/// ASCII whitespace: a type tag stops at the first of these.
pub open spec fn is_ws(b: u8) -> bool {
    b == 32 || b == 9 || b == 10 || b == 13 || b == 11 || b == 12
}

/// Three backticks start at position `i`.
pub open spec fn fence_at(t: Seq<u8>, i: int) -> bool {
    &&& 0 <= i
    &&& i + 3 <= t.len()
    &&& t[i] == BACKTICK
    &&& t[i + 1] == BACKTICK
    &&& t[i + 2] == BACKTICK
}

/// A closing fence (newline, then three backticks) starts at position `i`.
pub open spec fn close_at(t: Seq<u8>, i: int) -> bool {
    &&& 0 <= i
    &&& i + 4 <= t.len()
    &&& t[i] == NL
    &&& fence_at(t, i + 1)
}

/// Position of the first fence at or after `j`; `t.len()` when there is none.
pub open spec fn find_fence(t: Seq<u8>, j: int) -> int
    decreases t.len() - j,
    when 0 <= j <= t.len()
{
    if j >= t.len() {
        t.len() as int
    } else if fence_at(t, j) {
        j
    } else {
        find_fence(t, j + 1)
    }
}

/// Position of the first whitespace byte at or after `j`; `t.len()` when the
/// text ends first. The tag of a block opened at `o` spans `o + 3` to here.
pub open spec fn tag_end(t: Seq<u8>, j: int) -> int
    decreases t.len() - j,
    when 0 <= j <= t.len()
{
    if j >= t.len() {
        j
    } else if is_ws(t[j]) {
        j
    } else {
        tag_end(t, j + 1)
    }
}

/// Position of the first closing fence at or after `j`; `t.len()` when there
/// is none.
pub open spec fn find_close(t: Seq<u8>, j: int) -> int
    decreases t.len() - j,
    when 0 <= j <= t.len()
{
    if j >= t.len() {
        t.len() as int
    } else if close_at(t, j) {
        j
    } else {
        find_close(t, j + 1)
    }
}

pub proof fn lemma_find_fence_range(t: Seq<u8>, j: int)
    requires
        0 <= j <= t.len(),
    ensures
        j <= find_fence(t, j) <= t.len(),
        find_fence(t, j) < t.len() ==> fence_at(t, find_fence(t, j)),
    decreases t.len() - j,
{
    if j < t.len() && !fence_at(t, j) {
        lemma_find_fence_range(t, j + 1);
    }
}

pub proof fn lemma_tag_end_range(t: Seq<u8>, j: int)
    requires
        0 <= j <= t.len(),
    ensures
        j <= tag_end(t, j) <= t.len(),
    decreases t.len() - j,
{
    if j < t.len() && !is_ws(t[j]) {
        lemma_tag_end_range(t, j + 1);
    }
}

pub proof fn lemma_find_close_range(t: Seq<u8>, j: int)
    requires
        0 <= j <= t.len(),
    ensures
        j <= find_close(t, j) <= t.len(),
        find_close(t, j) < t.len() ==> close_at(t, find_close(t, j)),
    decreases t.len() - j,
{
    if j < t.len() && !close_at(t, j) {
        lemma_find_close_range(t, j + 1);
    }
}

/// A block found in document text: its type tag, its body (the diagram
/// source), and the span of text it occupies, closing fence included.
pub struct BlockSpec {
    pub start: int,
    pub tag: Seq<u8>,
    pub body: Seq<u8>,
    pub end: int,
}

/// The text of a block exactly as it stands in the document.
pub open spec fn block_text(b: BlockSpec) -> Seq<u8> {
    seq![BACKTICK, BACKTICK, BACKTICK] + b.tag + seq![NL] + b.body + seq![
        NL,
        BACKTICK,
        BACKTICK,
        BACKTICK,
    ]
}

/// A block is consistent with the text it was extracted from: its span lies
/// inside the text, its body is non-empty, and the span reads back as the
/// fenced rendering of its tag and body.
pub open spec fn block_wf(t: Seq<u8>, b: BlockSpec) -> bool {
    &&& 0 <= b.start
    &&& b.end == b.start + 3 + b.tag.len() + 1 + b.body.len() + 4
    &&& b.end <= t.len()
    &&& b.body.len() >= 1
    &&& t.subrange(b.start, b.end) == block_text(b)
}

/// All blocks of a document, in text order, scanning from position `j`: at
/// the first fence, take the non-whitespace run as the tag; if a newline
/// follows it and a closing fence follows at least one body byte, that is a
/// block and scanning resumes after it; otherwise scanning resumes one byte
/// after the failed opening fence.
pub open spec fn scan(t: Seq<u8>, j: int) -> Seq<BlockSpec>
    decreases t.len() - j,
    when 0 <= j <= t.len()
{
    let o = find_fence(t, j);
    if o >= t.len() {
        Seq::empty()
    } else {
        let e = tag_end(t, o + 3);
        if e + 2 <= t.len() && t[e] == NL {
            let m = find_close(t, e + 2);
            if m < t.len() {
                proof {
                    lemma_find_fence_range(t, j);
                    lemma_tag_end_range(t, o + 3);
                    lemma_find_close_range(t, e + 2);
                }
                seq![
                    BlockSpec {
                        start: o,
                        tag: t.subrange(o + 3, e),
                        body: t.subrange(e + 1, m),
                        end: m + 4,
                    },
                ] + scan(t, m + 4)
            } else {
                proof {
                    lemma_find_fence_range(t, j);
                }
                scan(t, o + 1)
            }
        } else {
            proof {
                lemma_find_fence_range(t, j);
                lemma_tag_end_range(t, o + 3);
            }
            scan(t, o + 1)
        }
    }
}

/// Every block in `bs` is well formed for `t`, starts at or after `from`,
/// and the blocks stand in text order without overlap.
pub open spec fn blocks_sorted_wf(t: Seq<u8>, bs: Seq<BlockSpec>, from: int) -> bool {
    &&& forall|i: int| 0 <= i < bs.len() ==> block_wf(t, #[trigger] bs[i])
    &&& forall|i: int| 0 <= i < bs.len() ==> from <= (#[trigger] bs[i]).start
    &&& forall|i: int| 0 <= i && i + 1 < bs.len() ==> (#[trigger] bs[i]).end <= bs[i + 1].start
}

/// Law: what `scan` yields is well formed — each block's span lies in the
/// text and reads back as its fenced tag and body, and blocks are ordered
/// and disjoint.
pub proof fn lemma_scan_wf(t: Seq<u8>, j: int)
    requires
        0 <= j <= t.len(),
    ensures
        blocks_sorted_wf(t, scan(t, j), j),
    decreases t.len() - j,
{
    let o = find_fence(t, j);
    lemma_find_fence_range(t, j);
    if o < t.len() {
        let e = tag_end(t, o + 3);
        lemma_tag_end_range(t, o + 3);
        if e + 2 <= t.len() && t[e] == NL {
            let m = find_close(t, e + 2);
            lemma_find_close_range(t, e + 2);
            if m < t.len() {
                lemma_scan_wf(t, m + 4);
                let b = BlockSpec {
                    start: o,
                    tag: t.subrange(o + 3, e),
                    body: t.subrange(e + 1, m),
                    end: m + 4,
                };
                let rest = scan(t, m + 4);
                assert(t.subrange(b.start, b.end) =~= block_text(b)) by {
                    assert forall|i: int| 0 <= i < m + 4 - o implies t.subrange(o, m + 4)[i]
                        == block_text(b)[i] by {
                        let tl = e - (o + 3);
                        if i < 3 {
                        } else if i < 3 + tl {
                            assert(b.tag[i - 3] == t[o + i]);
                        } else if i == 3 + tl {
                            assert(t[e] == NL);
                        } else if i < 3 + tl + 1 + (m - (e + 1)) {
                            assert(b.body[i - (3 + tl + 1)] == t[o + i]);
                        } else {
                            assert(close_at(t, m));
                        }
                    }
                }
                assert(block_wf(t, b));
                assert(scan(t, j) == seq![b] + rest);
                assert forall|i: int| 0 <= i < scan(t, j).len() implies block_wf(
                    t,
                    #[trigger] scan(t, j)[i],
                ) by {
                    if i > 0 {
                        assert(scan(t, j)[i] == rest[i - 1]);
                    }
                }
                assert forall|i: int| 0 <= i < scan(t, j).len() implies j <= (
                #[trigger] scan(t, j)[i]).start by {
                    if i > 0 {
                        assert(scan(t, j)[i] == rest[i - 1]);
                    }
                }
                assert forall|i: int| 0 <= i && i + 1 < scan(t, j).len() implies (#[trigger] scan(
                    t,
                    j,
                )[i]).end <= scan(t, j)[i + 1].start by {
                    if i > 0 {
                        assert(scan(t, j)[i] == rest[i - 1]);
                        assert(scan(t, j)[i + 1] == rest[i]);
                    } else {
                        assert(scan(t, j)[1] == rest[0]);
                    }
                }
            } else {
                lemma_scan_wf(t, o + 1);
            }
        } else {
            lemma_scan_wf(t, o + 1);
        }
    }
}

/// A block as extracted by executable code.
pub struct Block {
    pub start: usize,
    pub tag: Vec<u8>,
    pub body: Vec<u8>,
    pub end: usize,
}

impl View for Block {
    type V = BlockSpec;

    open spec fn view(&self) -> BlockSpec {
        BlockSpec { start: self.start as int, tag: self.tag@, body: self.body@, end: self.end as int }
    }
}

/// The mathematical blocks that a sequence of extracted blocks stands for.
pub open spec fn block_views(bs: Seq<Block>) -> Seq<BlockSpec> {
    bs.map_values(|b: Block| b@)
}

fn is_ws_exec(b: u8) -> (r: bool)
    ensures
        r == is_ws(b),
{
    b == 32 || b == 9 || b == 10 || b == 13 || b == 11 || b == 12
}

fn fence_at_exec(text: &[u8], i: usize) -> (r: bool)
    requires
        i <= text@.len(),
    ensures
        r == fence_at(text@, i as int),
{
    text.len() - i >= 3 && text[i] == BACKTICK && text[i + 1] == BACKTICK && text[i + 2]
        == BACKTICK
}

fn find_fence_exec(text: &[u8], from: usize) -> (r: usize)
    requires
        from <= text@.len(),
    ensures
        r == find_fence(text@, from as int),
{
    let mut i = from;
    while i < text.len() && !fence_at_exec(text, i)
        invariant
            from <= i <= text@.len(),
            find_fence(text@, from as int) == find_fence(text@, i as int),
        decreases text@.len() - i,
    {
        i = i + 1;
    }
    i
}

fn tag_end_exec(text: &[u8], from: usize) -> (r: usize)
    requires
        from <= text@.len(),
    ensures
        r == tag_end(text@, from as int),
{
    let mut i = from;
    while i < text.len() && !is_ws_exec(text[i])
        invariant
            from <= i <= text@.len(),
            tag_end(text@, from as int) == tag_end(text@, i as int),
        decreases text@.len() - i,
    {
        i = i + 1;
    }
    i
}

fn close_at_exec(text: &[u8], i: usize) -> (r: bool)
    requires
        i <= text@.len(),
    ensures
        r == close_at(text@, i as int),
{
    text.len() - i >= 4 && text[i] == NL && text[i + 1] == BACKTICK && text[i + 2] == BACKTICK
        && text[i + 3] == BACKTICK
}

fn find_close_exec(text: &[u8], from: usize) -> (r: usize)
    requires
        from <= text@.len(),
    ensures
        r == find_close(text@, from as int),
{
    let mut i = from;
    while i < text.len() && !close_at_exec(text, i)
        invariant
            from <= i <= text@.len(),
            find_close(text@, from as int) == find_close(text@, i as int),
        decreases text@.len() - i,
    {
        i = i + 1;
    }
    i
}

/// A fresh copy of `text[a..b]`.
pub fn copy_range(text: &[u8], a: usize, b: usize) -> (v: Vec<u8>)
    requires
        a <= b <= text@.len(),
    ensures
        v@ == text@.subrange(a as int, b as int),
{
    vstd::slice::slice_to_vec(vstd::slice::slice_subrange(text, a, b))
}

/// Extracts all fenced diagram blocks of a document's text, in text order.
/// A document with no complete fenced block yields the empty sequence.
pub fn extract(text: &[u8]) -> (blocks: Vec<Block>)
    ensures
        block_views(blocks@) == scan(text@, 0),
        blocks_sorted_wf(text@, block_views(blocks@), 0),
{
    let mut blocks: Vec<Block> = Vec::new();
    let mut j: usize = 0;
    proof {
        assert(block_views(blocks@) =~= Seq::<BlockSpec>::empty());
        assert(block_views(blocks@) + scan(text@, 0) =~= scan(text@, 0));
    }
    loop
        invariant
            j <= text@.len(),
            scan(text@, 0) == block_views(blocks@) + scan(text@, j as int),
        ensures
            scan(text@, 0) == block_views(blocks@),
        decreases text@.len() - j,
    {
        let ghost j0 = j as int;
        let o = find_fence_exec(text, j);
        proof {
            lemma_find_fence_range(text@, j0);
        }
        if o == text.len() {
            proof {
                assert(scan(text@, j0) =~= Seq::<BlockSpec>::empty());
                assert(block_views(blocks@) + Seq::<BlockSpec>::empty() =~= block_views(blocks@));
            }
            break ;
        }
        let e = tag_end_exec(text, o + 3);
        proof {
            lemma_tag_end_range(text@, o as int + 3);
        }
        if text.len() - e >= 2 && text[e] == NL {
            let m = find_close_exec(text, e + 2);
            proof {
                lemma_find_close_range(text@, e as int + 2);
            }
            if m < text.len() {
                let tag = copy_range(text, o + 3, e);
                let body = copy_range(text, e + 1, m);
                let ghost prev = blocks@;
                let b = Block { start: o, tag, body, end: m + 4 };
                let ghost bv = b@;
                blocks.push(b);
                proof {
                    assert(scan(text@, j0) == seq![bv] + scan(text@, m as int + 4));
                    assert(block_views(blocks@) =~= block_views(prev) + seq![bv]);
                    assert(block_views(prev) + (seq![bv] + scan(text@, m as int + 4)) =~= (
                    block_views(prev) + seq![bv]) + scan(text@, m as int + 4));
                }
                j = m + 4;
            } else {
                proof {
                    assert(scan(text@, j0) == scan(text@, o as int + 1));
                }
                j = o + 1;
            }
        } else {
            proof {
                assert(scan(text@, j0) == scan(text@, o as int + 1));
            }
            j = o + 1;
        }
    }
    proof {
        lemma_scan_wf(text@, 0);
    }
    blocks
}

} // verus!
