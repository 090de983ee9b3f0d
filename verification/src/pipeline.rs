//! The render-and-cache pipeline for one document.
//!
//! Processing is split in two verified phases around the external render
//! call, which the caller performs. `plan_document` extracts the blocks and
//! decides each one against the cache: a block with an empty type tag is
//! rejected and kept verbatim; a block whose fingerprint is cached is a hit;
//! the rest are misses, returned as render requests in block order.
//! `complete_document` then takes one render outcome per miss, inserts
//! successful payloads into the cache (insert-if-absent, so an entry is never
//! overwritten within a run), and builds the output text: embedded image
//! references for hits and successes, the original fenced text for rejected
//! blocks and failures. Decisions are fixed at plan time: two equal blocks in
//! one document may render redundantly, which is harmless, while the cache
//! keeps the first payload.

use crate::cache::CacheStore;
use crate::extract::{block_text, block_views, blocks_sorted_wf, extract, scan, Block, BlockSpec};
use crate::fingerprint::{fingerprint, fingerprint_spec};
use crate::rewrite::{rep_views, splice, substitute};
use vstd::prelude::*;

verus! {

/// Decimal digits of `n`, most significant first.
pub open spec fn dec_digits(n: nat) -> Seq<u8>
    decreases n,
{
    if n < 10 {
        seq![(48 + n) as u8]
    } else {
        dec_digits(n / 10) + seq![(48 + n % 10) as u8]
    }
}

/// The decimal rendering of a key, used in embed references and file names.
pub fn u64_decimal(n: u64) -> (v: Vec<u8>)
    ensures
        v@ == dec_digits(n as nat),
    decreases n,
{
    if n < 10 {
        let mut v: Vec<u8> = Vec::new();
        v.push(48 + (n as u8));
        proof {
            assert(v@ =~= dec_digits(n as nat));
        }
        v
    } else {
        let mut v = u64_decimal(n / 10);
        v.push(48 + ((n % 10) as u8));
        proof {
            assert(v@ =~= dec_digits((n / 10) as nat) + seq![(48 + (n as nat) % 10) as u8]);
        }
        v
    }
}

/// `<img src="assets/`
pub open spec fn embed_prefix() -> Seq<u8> {
    seq![60u8, 105u8, 109u8, 103u8, 32u8, 115u8, 114u8, 99u8, 61u8, 34u8, 97u8, 115u8, 115u8, 101u8, 116u8, 115u8, 47u8]
}

/// `.svg" />`
pub open spec fn embed_suffix() -> Seq<u8> {
    seq![46u8, 115u8, 118u8, 103u8, 34u8, 32u8, 47u8, 62u8]
}

/// The embed of a rendered block: an image tag whose path is named by the
/// block's fingerprint, so equal diagrams share one output file.
pub open spec fn embed_text(key: u64) -> Seq<u8> {
    embed_prefix() + dec_digits(key as nat) + embed_suffix()
}

fn push_embed_prefix(v: &mut Vec<u8>)
    ensures
        final (v)@ == old(v)@ + embed_prefix(),
{
    v.push(60);
    v.push(105);
    v.push(109);
    v.push(103);
    v.push(32);
    v.push(115);
    v.push(114);
    v.push(99);
    v.push(61);
    v.push(34);
    v.push(97);
    v.push(115);
    v.push(115);
    v.push(101);
    v.push(116);
    v.push(115);
    v.push(47);
    proof {
        assert(v@ =~= old(v)@ + embed_prefix());
    }
}

fn push_embed_suffix(v: &mut Vec<u8>)
    ensures
        final (v)@ == old(v)@ + embed_suffix(),
{
    v.push(46);
    v.push(115);
    v.push(118);
    v.push(103);
    v.push(34);
    v.push(32);
    v.push(47);
    v.push(62);
    proof {
        assert(v@ =~= old(v)@ + embed_suffix());
    }
}

/// Builds the replacement text that embeds the rendered image of a block.
pub fn embed_replacement(key: u64) -> (v: Vec<u8>)
    ensures
        v@ == embed_text(key),
{
    let mut v: Vec<u8> = Vec::new();
    push_embed_prefix(&mut v);
    let digits = u64_decimal(key);
    crate::rewrite::append_bytes(&mut v, digits.as_slice());
    push_embed_suffix(&mut v);
    proof {
        assert(v@ =~= embed_text(key));
    }
    v
}

/// `public/assets/`
pub open spec fn path_prefix() -> Seq<u8> {
    seq![112u8, 117u8, 98u8, 108u8, 105u8, 99u8, 47u8, 97u8, 115u8, 115u8, 101u8, 116u8, 115u8, 47u8]
}

/// `.svg`
pub open spec fn path_suffix() -> Seq<u8> {
    seq![46u8, 115u8, 118u8, 103u8]
}

/// The deterministic path a rendered payload is materialized under: named by
/// the fingerprint, so equal diagrams across documents share one file.
pub open spec fn output_path_text(key: u64) -> Seq<u8> {
    path_prefix() + dec_digits(key as nat) + path_suffix()
}

/// Builds the output file path of a rendered block.
pub fn output_path(key: u64) -> (v: Vec<u8>)
    ensures
        v@ == output_path_text(key),
{
    let mut v: Vec<u8> = Vec::new();
    v.push(112);
    v.push(117);
    v.push(98);
    v.push(108);
    v.push(105);
    v.push(99);
    v.push(47);
    v.push(97);
    v.push(115);
    v.push(115);
    v.push(101);
    v.push(116);
    v.push(115);
    v.push(47);
    proof {
        assert(v@ =~= path_prefix());
    }
    let digits = u64_decimal(key);
    crate::rewrite::append_bytes(&mut v, digits.as_slice());
    v.push(46);
    v.push(115);
    v.push(118);
    v.push(103);
    proof {
        assert(v@ =~= output_path_text(key));
    }
    v
}

/// Lower-case of an ASCII letter; any other byte is kept.
pub open spec fn ascii_lower(b: u8) -> u8 {
    if 65 <= b && b <= 90 {
        (b + 32) as u8
    } else {
        b
    }
}

/// Byte-wise ASCII lower-casing.
pub open spec fn lower_seq(s: Seq<u8>) -> Seq<u8> {
    s.map_values(|b: u8| ascii_lower(b))
}

/// The render-service address of one request: the base, the diagram type and
/// the output format as path segments, the whole lower-cased.
pub open spec fn render_url_text(base: Seq<u8>, dtype: Seq<u8>) -> Seq<u8> {
    lower_seq(base + seq![47u8] + dtype + seq![47u8, 115u8, 118u8, 103u8])
}

/// Builds the render-service address for a diagram type.
pub fn render_url(base: &[u8], dtype: &[u8]) -> (u: Vec<u8>)
    ensures
        u@ == render_url_text(base@, dtype@),
{
    let mut joined: Vec<u8> = Vec::new();
    crate::rewrite::append_bytes(&mut joined, base);
    joined.push(47);
    crate::rewrite::append_bytes(&mut joined, dtype);
    joined.push(47);
    joined.push(115);
    joined.push(118);
    joined.push(103);
    proof {
        assert(joined@ =~= base@ + seq![47u8] + dtype@ + seq![47u8, 115u8, 118u8, 103u8]);
    }
    let mut u: Vec<u8> = Vec::new();
    let mut k: usize = 0;
    proof {
        assert(u@ =~= lower_seq(joined@.take(0)));
    }
    while k < joined.len()
        invariant
            k <= joined@.len(),
            u@ == lower_seq(joined@.take(k as int)),
        decreases joined@.len() - k,
    {
        let b = joined[k];
        if 65 <= b && b <= 90 {
            u.push(b + 32);
        } else {
            u.push(b);
        }
        proof {
            assert(u@ =~= lower_seq(joined@.take(k as int + 1)));
        }
        k = k + 1;
    }
    proof {
        assert(joined@.take(joined@.len() as int) =~= joined@);
    }
    u
}

/// The outcome of one external render call, handed in by the caller.
pub enum RenderResult {
    /// The service answered with a success status; the payload is its body.
    Success(Vec<u8>),
    /// Non-success status, transport error or timeout: the block falls back
    /// to its original text.
    Failure,
}

/// The payload an outcome stands for.
pub open spec fn outcome_view(r: RenderResult) -> Option<Seq<u8>> {
    match r {
        RenderResult::Success(p) => Some(p@),
        RenderResult::Failure => None,
    }
}

pub open spec fn outcome_views(rs: Seq<RenderResult>) -> Seq<Option<Seq<u8>>> {
    rs.map_values(|r: RenderResult| outcome_view(r))
}

/// The cache key of a block. The rendering-mode flag is fixed to `false`
/// here: fenced blocks have a single rendering; the flag exists for paired
/// textual variants of one syntax.
pub open spec fn block_key(b: BlockSpec) -> u64 {
    fingerprint_spec(b.tag, b.body, false)
}

/// A block is renderable when its type tag is non-empty; a tagless block is
/// rejected and kept verbatim rather than treated as an unspecified type.
pub open spec fn block_renderable(b: BlockSpec) -> bool {
    b.tag.len() > 0
}

/// A block needs a render call when it is renderable and its fingerprint is
/// not in the cache the plan was made against.
pub open spec fn block_needs_render(c0: Map<u64, Seq<u8>>, b: BlockSpec) -> bool {
    block_renderable(b) && !c0.contains_key(block_key(b))
}

/// How one block is handled, decided once against the cache at plan time.
pub enum BlockDecision {
    /// Empty type tag: kept verbatim, no cache interaction.
    Reject,
    /// Fingerprint found in the cache: embedded without a render call.
    Hit,
    /// Fingerprint not in the cache: one render call is owed.
    Miss,
}

/// The decision for a block against the plan-time cache.
pub open spec fn block_decision(c0: Map<u64, Seq<u8>>, b: BlockSpec) -> BlockDecision {
    if !block_renderable(b) {
        BlockDecision::Reject
    } else if c0.contains_key(block_key(b)) {
        BlockDecision::Hit
    } else {
        BlockDecision::Miss
    }
}

/// The blocks owed a render call, in block order.
pub open spec fn doc_misses(c0: Map<u64, Seq<u8>>, bs: Seq<BlockSpec>) -> Seq<BlockSpec>
    decreases bs.len(),
{
    if bs.len() == 0 {
        Seq::empty()
    } else if block_needs_render(c0, bs[0]) {
        seq![bs[0]] + doc_misses(c0, bs.skip(1))
    } else {
        doc_misses(c0, bs.skip(1))
    }
}

/// The replacement of one block. A hit or a successful render embeds the
/// image reference named by the fingerprint; a rejected block or a failed
/// render keeps the original fenced text verbatim.
pub open spec fn block_replacement(c0: Map<u64, Seq<u8>>, b: BlockSpec, outcome: Option<Seq<u8>>) -> Seq<u8> {
    if !block_renderable(b) {
        block_text(b)
    } else if c0.contains_key(block_key(b)) {
        embed_text(block_key(b))
    } else {
        match outcome {
            Some(_) => embed_text(block_key(b)),
            None => block_text(b),
        }
    }
}

/// The replacements of all blocks, consuming one outcome per miss.
pub open spec fn doc_replacements(
    c0: Map<u64, Seq<u8>>,
    bs: Seq<BlockSpec>,
    outs: Seq<Option<Seq<u8>>>,
) -> Seq<Seq<u8>>
    decreases bs.len(),
{
    if bs.len() == 0 {
        Seq::empty()
    } else if block_needs_render(c0, bs[0]) {
        seq![block_replacement(c0, bs[0], outs[0])] + doc_replacements(c0, bs.skip(1), outs.skip(1))
    } else {
        seq![block_replacement(c0, bs[0], None)] + doc_replacements(c0, bs.skip(1), outs)
    }
}

/// The cache after processing: each successful render of a missing
/// fingerprint is inserted unless an earlier block already inserted it; a
/// failure never mutates the cache.
pub open spec fn doc_cache(
    c0: Map<u64, Seq<u8>>,
    c: Map<u64, Seq<u8>>,
    bs: Seq<BlockSpec>,
    outs: Seq<Option<Seq<u8>>>,
) -> Map<u64, Seq<u8>>
    decreases bs.len(),
{
    if bs.len() == 0 {
        c
    } else if block_needs_render(c0, bs[0]) {
        let c2 = match outs[0] {
            Some(p) => if c.contains_key(block_key(bs[0])) {
                c
            } else {
                c.insert(block_key(bs[0]), p)
            },
            None => c,
        };
        doc_cache(c0, c2, bs.skip(1), outs.skip(1))
    } else {
        doc_cache(c0, c, bs.skip(1), outs)
    }
}

/// The files to materialize, in block order: one (fingerprint, payload) pair
/// for each block that embeds, carrying the payload the cache holds for it.
pub open spec fn doc_writes(
    c0: Map<u64, Seq<u8>>,
    c: Map<u64, Seq<u8>>,
    bs: Seq<BlockSpec>,
    outs: Seq<Option<Seq<u8>>>,
) -> Seq<(u64, Seq<u8>)>
    decreases bs.len(),
{
    if bs.len() == 0 {
        Seq::empty()
    } else {
        let k = block_key(bs[0]);
        if !block_renderable(bs[0]) {
            doc_writes(c0, c, bs.skip(1), outs)
        } else if c0.contains_key(k) {
            seq![(k, c[k])] + doc_writes(c0, c, bs.skip(1), outs)
        } else {
            match outs[0] {
                Some(p) => {
                    let c2 = if c.contains_key(k) {
                        c
                    } else {
                        c.insert(k, p)
                    };
                    seq![(k, c2[k])] + doc_writes(c0, c2, bs.skip(1), outs.skip(1))
                },
                None => doc_writes(c0, c, bs.skip(1), outs.skip(1)),
            }
        }
    }
}

/// The output text of one document, as a function of the text, the plan-time
/// cache, and the render outcomes.
pub open spec fn doc_output(t: Seq<u8>, c0: Map<u64, Seq<u8>>, outs: Seq<Option<Seq<u8>>>) -> Seq<u8> {
    splice(t, scan(t, 0), doc_replacements(c0, scan(t, 0), outs), 0)
}

/// One render call the caller is asked to perform: POST the source to the
/// service, path-qualified by the diagram type.
pub struct RenderRequest {
    pub key: u64,
    pub dtype: Vec<u8>,
    pub source: Vec<u8>,
}

/// A request carries exactly the tag, body and fingerprint of the block it
/// was planned for.
pub open spec fn req_matches(q: RenderRequest, b: BlockSpec) -> bool {
    &&& q.dtype@ == b.tag
    &&& q.source@ == b.body
    &&& q.key == block_key(b)
}

/// Extracts the blocks of a document and decides each against the cache.
/// Returns the blocks, one decision per block, and one render request per
/// miss, in block order. The requests are the only render calls the document
/// is owed: a hit or a rejected block never asks for one.
pub fn plan_document(text: &[u8], cache: &CacheStore) -> (r: (Vec<Block>, Vec<BlockDecision>, Vec<RenderRequest>))
    requires
        cache.wf(),
    ensures
        block_views(r.0@) == scan(text@, 0),
        blocks_sorted_wf(text@, block_views(r.0@), 0),
        r.1@.len() == r.0@.len(),
        forall|i: int|
            0 <= i < r.1@.len() ==> r.1@[i] == block_decision(
                cache.as_map(),
                block_views(r.0@)[i],
            ),
        r.2@.len() == doc_misses(cache.as_map(), scan(text@, 0)).len(),
        forall|i: int|
            0 <= i < r.2@.len() ==> req_matches(
                r.2@[i],
                doc_misses(cache.as_map(), scan(text@, 0))[i],
            ),
{
    let ghost c0 = cache.as_map();
    let blocks = extract(text);
    let ghost bs = block_views(blocks@);
    let mut decisions: Vec<BlockDecision> = Vec::new();
    let mut requests: Vec<RenderRequest> = Vec::new();
    let ghost mut done: Seq<BlockSpec> = Seq::empty();
    let mut i: usize = 0;
    proof {
        assert(bs.skip(0) =~= bs);
        assert(done + doc_misses(c0, bs) =~= doc_misses(c0, bs));
    }
    while i < blocks.len()
        invariant
            cache.wf(),
            c0 == cache.as_map(),
            bs == block_views(blocks@),
            i <= bs.len(),
            decisions@.len() == i,
            forall|x: int| 0 <= x < i ==> decisions@[x] == block_decision(c0, bs[x]),
            doc_misses(c0, bs) == done + doc_misses(c0, bs.skip(i as int)),
            requests@.len() == done.len(),
            forall|x: int| 0 <= x < done.len() ==> req_matches(requests@[x], done[x]),
        decreases bs.len() - i,
    {
        proof {
            assert(bs[i as int] == blocks@[i as int]@);
            assert(bs.skip(i as int)[0] == bs[i as int]);
            assert(bs.skip(i as int).skip(1) =~= bs.skip(i as int + 1));
        }
        if blocks[i].tag.len() == 0 {
            decisions.push(BlockDecision::Reject);
        } else {
            let key = fingerprint(blocks[i].tag.as_slice(), blocks[i].body.as_slice(), false);
            match cache.get(key) {
                Some(_) => {
                    decisions.push(BlockDecision::Hit);
                },
                None => {
                    decisions.push(BlockDecision::Miss);
                    let dtype = vstd::slice::slice_to_vec(blocks[i].tag.as_slice());
                    let source = vstd::slice::slice_to_vec(blocks[i].body.as_slice());
                    requests.push(RenderRequest { key, dtype, source });
                    proof {
                        let b = bs[i as int];
                        assert(doc_misses(c0, bs.skip(i as int)) == seq![b] + doc_misses(
                            c0,
                            bs.skip(i as int + 1),
                        ));
                        assert(done + (seq![b] + doc_misses(c0, bs.skip(i as int + 1))) =~= (done
                            + seq![b]) + doc_misses(c0, bs.skip(i as int + 1)));
                        done = done + seq![b];
                        assert(done[done.len() - 1] == b);
                    }
                },
            }
        }
        i = i + 1;
    }
    proof {
        assert(bs.skip(bs.len() as int) =~= Seq::<BlockSpec>::empty());
        assert(done + Seq::<BlockSpec>::empty() =~= done);
    }
    (blocks, decisions, requests)
}

/// The cache after absorbing one successful render: insert-if-absent, so an
/// entry once present is kept as it is.
pub open spec fn cache_absorb(c: Map<u64, Seq<u8>>, k: u64, p: Seq<u8>) -> Map<u64, Seq<u8>> {
    if c.contains_key(k) {
        c
    } else {
        c.insert(k, p)
    }
}

proof fn lemma_doc_step_no_render(
    c0: Map<u64, Seq<u8>>,
    c: Map<u64, Seq<u8>>,
    bs: Seq<BlockSpec>,
    outs: Seq<Option<Seq<u8>>>,
)
    requires
        bs.len() > 0,
        !block_needs_render(c0, bs[0]),
    ensures
        doc_misses(c0, bs) == doc_misses(c0, bs.skip(1)),
        doc_replacements(c0, bs, outs) == seq![block_replacement(c0, bs[0], None::<Seq<u8>>)]
            + doc_replacements(c0, bs.skip(1), outs),
        doc_cache(c0, c, bs, outs) == doc_cache(c0, c, bs.skip(1), outs),
        block_renderable(bs[0]) ==> doc_writes(c0, c, bs, outs) == seq![
            (block_key(bs[0]), c[block_key(bs[0])]),
        ] + doc_writes(c0, c, bs.skip(1), outs),
        !block_renderable(bs[0]) ==> doc_writes(c0, c, bs, outs) == doc_writes(
            c0,
            c,
            bs.skip(1),
            outs,
        ),
{
}

proof fn lemma_doc_step_miss(
    c0: Map<u64, Seq<u8>>,
    c: Map<u64, Seq<u8>>,
    bs: Seq<BlockSpec>,
    outs: Seq<Option<Seq<u8>>>,
)
    requires
        bs.len() > 0,
        outs.len() > 0,
        block_needs_render(c0, bs[0]),
    ensures
        doc_misses(c0, bs) == seq![bs[0]] + doc_misses(c0, bs.skip(1)),
        doc_replacements(c0, bs, outs) == seq![block_replacement(c0, bs[0], outs[0])]
            + doc_replacements(c0, bs.skip(1), outs.skip(1)),
        outs[0] is Some ==> doc_cache(c0, c, bs, outs) == doc_cache(
            c0,
            cache_absorb(c, block_key(bs[0]), outs[0].unwrap()),
            bs.skip(1),
            outs.skip(1),
        ),
        outs[0] is None ==> doc_cache(c0, c, bs, outs) == doc_cache(
            c0,
            c,
            bs.skip(1),
            outs.skip(1),
        ),
        outs[0] is Some ==> doc_writes(c0, c, bs, outs) == seq![
            (
                block_key(bs[0]),
                cache_absorb(c, block_key(bs[0]), outs[0].unwrap())[block_key(bs[0])],
            ),
        ] + doc_writes(
            c0,
            cache_absorb(c, block_key(bs[0]), outs[0].unwrap()),
            bs.skip(1),
            outs.skip(1),
        ),
        outs[0] is None ==> doc_writes(c0, c, bs, outs) == doc_writes(
            c0,
            c,
            bs.skip(1),
            outs.skip(1),
        ),
{
}

/// Finishes one document, given one render outcome per planned miss, in
/// order. Successful payloads go into the cache (insert-if-absent); the
/// output text embeds hits and successes and keeps rejected and failed
/// blocks verbatim; the returned writes are the files to materialize.
#[verifier::rlimit(100)]
pub fn complete_document(
    text: &[u8],
    blocks: &Vec<Block>,
    decisions: &Vec<BlockDecision>,
    outcomes: &Vec<RenderResult>,
    cache: &mut CacheStore,
) -> (r: (Vec<u8>, Vec<(u64, Vec<u8>)>))
    requires
        old(cache).wf(),
        block_views(blocks@) == scan(text@, 0),
        blocks_sorted_wf(text@, block_views(blocks@), 0),
        decisions@.len() == blocks@.len(),
        forall|i: int|
            0 <= i < decisions@.len() ==> decisions@[i] == block_decision(
                old(cache).as_map(),
                block_views(blocks@)[i],
            ),
        outcomes@.len() == doc_misses(old(cache).as_map(), scan(text@, 0)).len(),
    ensures
        final (cache).wf(),
        final (cache).as_map() == doc_cache(
            old(cache).as_map(),
            old(cache).as_map(),
            scan(text@, 0),
            outcome_views(outcomes@),
        ),
        r.0@ == doc_output(text@, old(cache).as_map(), outcome_views(outcomes@)),
        crate::cache::entry_views(r.1@) == doc_writes(
            old(cache).as_map(),
            old(cache).as_map(),
            scan(text@, 0),
            outcome_views(outcomes@),
        ),
{
    let ghost c0 = old(cache).as_map();
    let ghost bs = block_views(blocks@);
    let ghost outs = outcome_views(outcomes@);
    let olen = outcomes.len();
    let mut reps: Vec<Vec<u8>> = Vec::new();
    let mut writes: Vec<(u64, Vec<u8>)> = Vec::new();
    let mut i: usize = 0;
    let mut oi: usize = 0;
    proof {
        assert(bs.skip(0) =~= bs);
        assert(outs.skip(0) =~= outs);
        assert(rep_views(reps@) + doc_replacements(c0, bs, outs) =~= doc_replacements(
            c0,
            bs,
            outs,
        ));
        assert(crate::cache::entry_views(writes@) + doc_writes(c0, c0, bs, outs) =~= doc_writes(
            c0,
            c0,
            bs,
            outs,
        ));
    }
    while i < blocks.len()
        invariant
            cache.wf(),
            bs == block_views(blocks@),
            blocks_sorted_wf(text@, bs, 0),
            outs == outcome_views(outcomes@),
            outs.len() == olen,
            decisions@.len() == bs.len(),
            forall|x: int| 0 <= x < bs.len() ==> decisions@[x] == block_decision(c0, bs[x]),
            i <= bs.len(),
            oi <= olen,
            reps@.len() == i,
            outs.len() - oi == doc_misses(c0, bs.skip(i as int)).len(),
            forall|k: u64|
                c0.contains_key(k) ==> #[trigger] cache.as_map().contains_key(k)
                    && cache.as_map()[k] == c0[k],
            doc_replacements(c0, bs, outs) == rep_views(reps@) + doc_replacements(
                c0,
                bs.skip(i as int),
                outs.skip(oi as int),
            ),
            doc_cache(c0, c0, bs, outs) == doc_cache(
                c0,
                cache.as_map(),
                bs.skip(i as int),
                outs.skip(oi as int),
            ),
            doc_writes(c0, c0, bs, outs) == crate::cache::entry_views(writes@) + doc_writes(
                c0,
                cache.as_map(),
                bs.skip(i as int),
                outs.skip(oi as int),
            ),
        decreases bs.len() - i,
    {
        let ghost b = bs[i as int];
        let ghost csnap = cache.as_map();
        let ghost bsk = bs.skip(i as int);
        let ghost osk = outs.skip(oi as int);
        proof {
            assert(b == blocks@[i as int]@);
            assert(bsk[0] == b);
            assert(bsk.skip(1) =~= bs.skip(i as int + 1));
            assert(crate::extract::block_wf(text@, b));
        }
        let ghost reps0 = reps@;
        let ghost writes0 = writes@;
        match decisions[i] {
            BlockDecision::Reject => {
                let rep = crate::extract::copy_range(text, blocks[i].start, blocks[i].end);
                reps.push(rep);
                proof {
                    lemma_doc_step_no_render(c0, csnap, bsk, osk);
                    assert(rep_views(reps@) =~= rep_views(reps0).push(block_text(b)));
                    assert(rep_views(reps0) + (seq![block_replacement(c0, b, None::<Seq<u8>>)]
                        + doc_replacements(c0, bsk.skip(1), osk)) =~= rep_views(reps@)
                        + doc_replacements(c0, bsk.skip(1), osk));
                }
            },
            BlockDecision::Hit => {
                let key = fingerprint(blocks[i].tag.as_slice(), blocks[i].body.as_slice(), false);
                proof {
                    assert(key == block_key(b));
                    assert(c0.contains_key(key));
                    assert(cache.as_map().contains_key(key));
                }
                let payload = match cache.get(key) {
                    Some(p) => vstd::slice::slice_to_vec(p.as_slice()),
                    None => Vec::new(),
                };
                writes.push((key, payload));
                let rep = embed_replacement(key);
                reps.push(rep);
                proof {
                    lemma_doc_step_no_render(c0, csnap, bsk, osk);
                    assert(block_replacement(c0, b, None::<Seq<u8>>) == embed_text(key));
                    assert(rep_views(reps@) =~= rep_views(reps0).push(embed_text(key)));
                    assert(rep_views(reps0) + (seq![block_replacement(c0, b, None::<Seq<u8>>)]
                        + doc_replacements(c0, bsk.skip(1), osk)) =~= rep_views(reps@)
                        + doc_replacements(c0, bsk.skip(1), osk));
                    assert(crate::cache::entry_views(writes@) =~= crate::cache::entry_views(
                        writes0,
                    ).push((key, csnap[key])));
                    assert(crate::cache::entry_views(writes0) + (seq![(key, csnap[key])]
                        + doc_writes(c0, csnap, bsk.skip(1), osk)) =~= crate::cache::entry_views(
                        writes@,
                    ) + doc_writes(c0, csnap, bsk.skip(1), osk));
                }
            },
            BlockDecision::Miss => {
                let key = fingerprint(blocks[i].tag.as_slice(), blocks[i].body.as_slice(), false);
                proof {
                    assert(key == block_key(b));
                    assert(block_needs_render(c0, b));
                    assert(doc_misses(c0, bsk).len() > 0) by {
                        lemma_doc_step_miss_len(c0, bsk);
                    }
                    assert(oi < olen);
                    assert(osk[0] == outs[oi as int]);
                    assert(osk.skip(1) =~= outs.skip(oi as int + 1));
                    assert(outs[oi as int] == outcome_view(outcomes@[oi as int]));
                    lemma_doc_step_miss(c0, csnap, bsk, osk);
                }
                match &outcomes[oi] {
                    RenderResult::Success(p) => {
                        let payload = vstd::slice::slice_to_vec(p.as_slice());
                        cache.put_if_absent(key, payload);
                        let stored = match cache.get(key) {
                            Some(q) => vstd::slice::slice_to_vec(q.as_slice()),
                            None => Vec::new(),
                        };
                        let ghost c2 = cache.as_map();
                        proof {
                            assert(osk[0] == Some(p@));
                            assert(c2 == cache_absorb(csnap, key, p@));
                            assert(stored@ == c2[key]);
                        }
                        writes.push((key, stored));
                        let rep = embed_replacement(key);
                        reps.push(rep);
                        proof {
                            assert(block_replacement(c0, b, osk[0]) == embed_text(key));
                            assert(rep_views(reps@) =~= rep_views(reps0).push(embed_text(key)));
                            assert(rep_views(reps0) + (seq![block_replacement(c0, b, osk[0])]
                                + doc_replacements(c0, bsk.skip(1), osk.skip(1))) =~= rep_views(
                                reps@,
                            ) + doc_replacements(c0, bsk.skip(1), osk.skip(1)));
                            assert(crate::cache::entry_views(writes@)
                                =~= crate::cache::entry_views(writes0).push((key, c2[key])));
                            assert(crate::cache::entry_views(writes0) + (seq![(key, c2[key])]
                                + doc_writes(c0, c2, bsk.skip(1), osk.skip(1)))
                                =~= crate::cache::entry_views(writes@) + doc_writes(
                                c0,
                                c2,
                                bsk.skip(1),
                                osk.skip(1),
                            ));
                            assert forall|k: u64| c0.contains_key(k) implies #[trigger] cache.as_map().contains_key(k)
                                && cache.as_map()[k] == c0[k] by {
                                assert(k != key);
                            }
                        }
                    },
                    RenderResult::Failure => {
                        let rep = crate::extract::copy_range(text, blocks[i].start, blocks[i].end);
                        reps.push(rep);
                        proof {
                            assert(osk[0] is None);
                            assert(block_replacement(c0, b, osk[0]) == block_text(b));
                            assert(rep_views(reps@) =~= rep_views(reps0).push(block_text(b)));
                            assert(rep_views(reps0) + (seq![block_replacement(c0, b, osk[0])]
                                + doc_replacements(c0, bsk.skip(1), osk.skip(1))) =~= rep_views(
                                reps@,
                            ) + doc_replacements(c0, bsk.skip(1), osk.skip(1)));
                        }
                    },
                }
                oi = oi + 1;
            },
        }
        i = i + 1;
    }
    proof {
        assert(bs.skip(bs.len() as int) =~= Seq::<BlockSpec>::empty());
        assert(outs.skip(oi as int).len() == 0);
        assert(outs.skip(oi as int) =~= Seq::<Option<Seq<u8>>>::empty());
        assert(rep_views(reps@) + Seq::<Seq<u8>>::empty() =~= rep_views(reps@));
        assert(crate::cache::entry_views(writes@) + Seq::<(u64, Seq<u8>)>::empty()
            =~= crate::cache::entry_views(writes@));
        assert(reps@.len() == blocks@.len());
    }
    let out = substitute(text, blocks, &reps);
    (out, writes)
}

proof fn lemma_doc_step_miss_len(c0: Map<u64, Seq<u8>>, bs: Seq<BlockSpec>)
    requires
        bs.len() > 0,
        block_needs_render(c0, bs[0]),
    ensures
        doc_misses(c0, bs).len() > 0,
{
}

/// Every renderable block of `bs` already has its fingerprint in `c`.
pub open spec fn warm(c: Map<u64, Seq<u8>>, bs: Seq<BlockSpec>) -> bool {
    forall|i: int|
        0 <= i < bs.len() && block_renderable(#[trigger] bs[i]) ==> c.contains_key(
            block_key(bs[i]),
        )
}

proof fn lemma_warm_doc(
    c0: Map<u64, Seq<u8>>,
    c: Map<u64, Seq<u8>>,
    bs: Seq<BlockSpec>,
    outs: Seq<Option<Seq<u8>>>,
)
    requires
        warm(c0, bs),
    ensures
        doc_misses(c0, bs).len() == 0,
        doc_cache(c0, c, bs, outs) == c,
    decreases bs.len(),
{
    if bs.len() > 0 {
        assert(!block_needs_render(c0, bs[0]));
        assert(warm(c0, bs.skip(1))) by {
            assert forall|i: int|
                0 <= i < bs.skip(1).len() && block_renderable(
                    #[trigger] bs.skip(1)[i],
                ) implies c0.contains_key(block_key(bs.skip(1)[i])) by {
                assert(bs.skip(1)[i] == bs[i + 1]);
            }
        }
        lemma_warm_doc(c0, c, bs.skip(1), outs);
    }
}

/// Law (idempotence on a warm cache): when every renderable block of the
/// text already has its fingerprint in the cache, processing the document
/// plans zero render calls and leaves the cache unchanged, so a second run
/// on the same text, with the cache the first run left behind, produces
/// byte-identical output and again zero render calls.
pub proof fn lemma_warm_cache_idempotent(t: Seq<u8>, c: Map<u64, Seq<u8>>)
    requires
        warm(c, scan(t, 0)),
    ensures
        doc_misses(c, scan(t, 0)).len() == 0,
        doc_cache(c, c, scan(t, 0), Seq::empty()) == c,
        doc_output(
            t,
            doc_cache(c, c, scan(t, 0), Seq::empty()),
            Seq::empty(),
        ) == doc_output(t, c, Seq::empty()),
{
    lemma_warm_doc(c, c, scan(t, 0), Seq::empty());
}

proof fn lemma_doc_cache_monotone(
    c0: Map<u64, Seq<u8>>,
    c: Map<u64, Seq<u8>>,
    bs: Seq<BlockSpec>,
    outs: Seq<Option<Seq<u8>>>,
)
    ensures
        forall|k: u64|
            c.contains_key(k) ==> #[trigger] doc_cache(c0, c, bs, outs).contains_key(k),
    decreases bs.len(),
{
    if bs.len() > 0 {
        if block_needs_render(c0, bs[0]) {
            match outs[0] {
                Some(p) => {
                    let c2 = cache_absorb(c, block_key(bs[0]), p);
                    lemma_doc_cache_monotone(c0, c2, bs.skip(1), outs.skip(1));
                    assert(doc_cache(c0, c, bs, outs) == doc_cache(
                        c0,
                        c2,
                        bs.skip(1),
                        outs.skip(1),
                    ));
                    assert forall|k: u64| c.contains_key(k) implies #[trigger] doc_cache(
                        c0,
                        c,
                        bs,
                        outs,
                    ).contains_key(k) by {
                        assert(c2.contains_key(k));
                        assert(doc_cache(c0, c2, bs.skip(1), outs.skip(1)).contains_key(k));
                    }
                },
                None => {
                    lemma_doc_cache_monotone(c0, c, bs.skip(1), outs.skip(1));
                    assert(doc_cache(c0, c, bs, outs) == doc_cache(
                        c0,
                        c,
                        bs.skip(1),
                        outs.skip(1),
                    ));
                },
            }
        } else {
            lemma_doc_cache_monotone(c0, c, bs.skip(1), outs);
            assert(doc_cache(c0, c, bs, outs) == doc_cache(c0, c, bs.skip(1), outs));
        }
    }
}

proof fn lemma_successful_run_warms(
    c0: Map<u64, Seq<u8>>,
    c: Map<u64, Seq<u8>>,
    bs: Seq<BlockSpec>,
    outs: Seq<Option<Seq<u8>>>,
)
    requires
        outs.len() == doc_misses(c0, bs).len(),
        forall|i: int| 0 <= i < outs.len() ==> outs[i] is Some,
        forall|i: int|
            0 <= i < bs.len() && block_renderable(#[trigger] bs[i]) && c0.contains_key(
                block_key(bs[i]),
            ) ==> c.contains_key(block_key(bs[i])),
    ensures
        warm(doc_cache(c0, c, bs, outs), bs),
    decreases bs.len(),
{
    if bs.len() > 0 {
        let b = bs[0];
        assert forall|i: int| 0 <= i < bs.skip(1).len() implies bs.skip(1)[i] == bs[i + 1] by {}
        if block_needs_render(c0, b) {
            assert(doc_misses(c0, bs) == seq![b] + doc_misses(c0, bs.skip(1)));
            assert(outs.len() > 0);
            assert(outs[0] is Some);
            let p = outs[0].unwrap();
            let c2 = cache_absorb(c, block_key(b), p);
            assert(c2.contains_key(block_key(b)));
            assert forall|i: int| 0 <= i < outs.skip(1).len() implies outs.skip(1)[i] is Some by {
                assert(outs.skip(1)[i] == outs[i + 1]);
            }
            lemma_successful_run_warms(c0, c2, bs.skip(1), outs.skip(1));
            lemma_doc_cache_monotone(c0, c2, bs.skip(1), outs.skip(1));
            assert(doc_cache(c0, c, bs, outs) == doc_cache(c0, c2, bs.skip(1), outs.skip(1)));
            let cw = doc_cache(c0, c, bs, outs);
            assert forall|i: int|
                0 <= i < bs.len() && block_renderable(#[trigger] bs[i]) implies cw.contains_key(
                block_key(bs[i]),
            ) by {
                if i > 0 {
                    assert(bs.skip(1)[i - 1] == bs[i]);
                }
            }
        } else {
            lemma_successful_run_warms(c0, c, bs.skip(1), outs);
            lemma_doc_cache_monotone(c0, c, bs.skip(1), outs);
            assert(doc_cache(c0, c, bs, outs) == doc_cache(c0, c, bs.skip(1), outs));
            let cw = doc_cache(c0, c, bs, outs);
            assert forall|i: int|
                0 <= i < bs.len() && block_renderable(#[trigger] bs[i]) implies cw.contains_key(
                block_key(bs[i]),
            ) by {
                if i > 0 {
                    assert(bs.skip(1)[i - 1] == bs[i]);
                } else {
                    assert(c.contains_key(block_key(b)));
                }
            }
        }
    }
}

proof fn lemma_warm_replacements(
    c0: Map<u64, Seq<u8>>,
    cw: Map<u64, Seq<u8>>,
    bs: Seq<BlockSpec>,
    outs: Seq<Option<Seq<u8>>>,
)
    requires
        warm(cw, bs),
        outs.len() == doc_misses(c0, bs).len(),
        forall|i: int| 0 <= i < outs.len() ==> outs[i] is Some,
    ensures
        doc_replacements(cw, bs, Seq::empty()) == doc_replacements(c0, bs, outs),
    decreases bs.len(),
{
    if bs.len() > 0 {
        let b = bs[0];
        assert forall|i: int| 0 <= i < bs.skip(1).len() implies bs.skip(1)[i] == bs[i + 1] by {}
        assert(!block_needs_render(cw, b));
        if block_needs_render(c0, b) {
            assert(doc_misses(c0, bs) == seq![b] + doc_misses(c0, bs.skip(1)));
            assert(outs.len() > 0);
            assert(outs[0] is Some);
            assert(block_replacement(c0, b, outs[0]) == embed_text(block_key(b)));
            assert(block_replacement(cw, b, None::<Seq<u8>>) == embed_text(block_key(b)));
            assert forall|i: int| 0 <= i < outs.skip(1).len() implies outs.skip(1)[i] is Some by {
                assert(outs.skip(1)[i] == outs[i + 1]);
            }
            lemma_warm_replacements(c0, cw, bs.skip(1), outs.skip(1));
        } else {
            assert(block_replacement(cw, b, None::<Seq<u8>>) == block_replacement(
                c0,
                b,
                None::<Seq<u8>>,
            ));
            lemma_warm_replacements(c0, cw, bs.skip(1), outs);
        }
    }
}

/// Law (idempotence): a run whose render calls all succeeded leaves a cache
/// that is warm for the same text, so a second run of the pipeline on that
/// text plans zero render calls and produces byte-identical output to the
/// first.
pub proof fn lemma_idempotent_after_success(
    t: Seq<u8>,
    c0: Map<u64, Seq<u8>>,
    outs: Seq<Option<Seq<u8>>>,
)
    requires
        outs.len() == doc_misses(c0, scan(t, 0)).len(),
        forall|i: int| 0 <= i < outs.len() ==> outs[i] is Some,
    ensures
        warm(doc_cache(c0, c0, scan(t, 0), outs), scan(t, 0)),
        doc_misses(doc_cache(c0, c0, scan(t, 0), outs), scan(t, 0)).len() == 0,
        doc_output(t, doc_cache(c0, c0, scan(t, 0), outs), Seq::empty()) == doc_output(
            t,
            c0,
            outs,
        ),
{
    let bs = scan(t, 0);
    let cw = doc_cache(c0, c0, bs, outs);
    lemma_successful_run_warms(c0, c0, bs, outs);
    lemma_warm_doc(cw, cw, bs, Seq::empty());
    lemma_warm_replacements(c0, cw, bs, outs);
}

/// Law (no-block identity): a document in which no block was found is
/// returned byte-identical, and neither render calls nor cache changes
/// happen for it.
pub proof fn lemma_no_block_identity(t: Seq<u8>, c: Map<u64, Seq<u8>>, outs: Seq<Option<Seq<u8>>>)
    requires
        scan(t, 0).len() == 0,
    ensures
        doc_output(t, c, outs) == t,
        doc_misses(c, scan(t, 0)).len() == 0,
        doc_cache(c, c, scan(t, 0), outs) == c,
{
    assert(scan(t, 0) =~= Seq::<BlockSpec>::empty());
    crate::rewrite::lemma_no_blocks_identity(t, doc_replacements(c, scan(t, 0), outs));
}

/// Law (fallback on failure): a block that needed a render whose call failed
/// is replaced by its own original fenced text, and the cache is not mutated
/// for it.
pub proof fn lemma_fallback_on_failure(c0: Map<u64, Seq<u8>>, c: Map<u64, Seq<u8>>, b: BlockSpec)
    requires
        block_needs_render(c0, b),
    ensures
        block_replacement(c0, b, None::<Seq<u8>>) == block_text(b),
        doc_cache(c0, c, seq![b], seq![None::<Seq<u8>>]) == c,
        doc_writes(c0, c, seq![b], seq![None::<Seq<u8>>]).len() == 0,
{
    assert(seq![b].skip(1) =~= Seq::<BlockSpec>::empty());
    assert(seq![None::<Seq<u8>>].skip(1) =~= Seq::<Option<Seq<u8>>>::empty());
    assert(doc_cache(c0, c, Seq::<BlockSpec>::empty(), Seq::<Option<Seq<u8>>>::empty()) == c);
    assert(doc_writes(c0, c, Seq::<BlockSpec>::empty(), Seq::<Option<Seq<u8>>>::empty()).len()
        == 0);
}

/// Law (cache-hit bypass): a renderable block whose fingerprint is in the
/// cache plans no render call, is replaced by the embed named by that
/// fingerprint, and the payload materialized for it is the cached one.
pub proof fn lemma_cache_hit_bypass(c0: Map<u64, Seq<u8>>, b: BlockSpec)
    requires
        block_renderable(b),
        c0.contains_key(block_key(b)),
    ensures
        doc_misses(c0, seq![b]).len() == 0,
        block_replacement(c0, b, None::<Seq<u8>>) == embed_text(block_key(b)),
        doc_writes(c0, c0, seq![b], Seq::empty()) == seq![(block_key(b), c0[block_key(b)])],
{
    assert(seq![b].skip(1) =~= Seq::<BlockSpec>::empty());
    assert(doc_misses(c0, Seq::<BlockSpec>::empty()).len() == 0);
    assert(doc_writes(c0, c0, seq![b].skip(1), Seq::empty()) == Seq::<(u64, Seq<u8>)>::empty());
    assert(seq![(block_key(b), c0[block_key(b)])] + Seq::<(u64, Seq<u8>)>::empty() =~= seq![
        (block_key(b), c0[block_key(b)]),
    ]);
}

} // verus!
