use rkroki::cache::CacheStore;
use rkroki::fingerprint::fingerprint;
use rkroki::pipeline::{complete_document, plan_document, BlockDecision, RenderResult};

const INPUT: &[u8] = b"```graphviz\ndigraph G { A->B }\n```";
const KEY: u64 = 7377346012883739973;
const EMBED: &[u8] = b"<img src=\"assets/7377346012883739973.svg\" />";

#[test]
fn scenario_first_run_renders_and_caches() {
    let mut cache = CacheStore::new();
    let (blocks, decisions, requests) = plan_document(INPUT, &cache);
    assert_eq!(blocks.len(), 1);
    assert_eq!(requests.len(), 1);
    assert!(matches!(decisions[0], BlockDecision::Miss));
    assert_eq!(requests[0].key, KEY);
    assert_eq!(requests[0].key, fingerprint(b"graphviz", b"digraph G { A->B }", false));
    assert_eq!(requests[0].dtype, b"graphviz".to_vec());
    assert_eq!(requests[0].source, b"digraph G { A->B }".to_vec());

    let outcomes = vec![RenderResult::Success(b"<svg>ok</svg>".to_vec())];
    let (out, writes) = complete_document(INPUT, &blocks, &decisions, &outcomes, &mut cache);
    assert_eq!(out, EMBED.to_vec());
    assert_eq!(cache.len(), 1);
    assert_eq!(cache.get(KEY).unwrap(), &b"<svg>ok</svg>".to_vec());
    assert_eq!(writes, vec![(KEY, b"<svg>ok</svg>".to_vec())]);
}

#[test]
fn scenario_second_run_is_idempotent_with_zero_render_calls() {
    // First run.
    let mut cache = CacheStore::new();
    let (blocks, decisions, _) = plan_document(INPUT, &cache);
    let outcomes = vec![RenderResult::Success(b"<svg>ok</svg>".to_vec())];
    let (out1, _) = complete_document(INPUT, &blocks, &decisions, &outcomes, &mut cache);

    // Second run with the cache the first run left behind: zero requests.
    let (blocks2, decisions2, requests2) = plan_document(INPUT, &cache);
    assert_eq!(requests2.len(), 0);
    assert!(matches!(decisions2[0], BlockDecision::Hit));
    let no_outcomes: Vec<RenderResult> = Vec::new();
    let (out2, _) = complete_document(INPUT, &blocks2, &decisions2, &no_outcomes, &mut cache);
    assert_eq!(out1, out2);
    assert_eq!(cache.len(), 1);
    assert_eq!(cache.get(KEY).unwrap(), &b"<svg>ok</svg>".to_vec());
}

#[test]
fn cache_hit_bypasses_render_and_embeds_seeded_payload() {
    let mut cache = CacheStore::new();
    cache.put(KEY, b"<svg>seeded</svg>".to_vec());
    let (blocks, decisions, requests) = plan_document(INPUT, &cache);
    assert_eq!(requests.len(), 0);
    let no_outcomes: Vec<RenderResult> = Vec::new();
    let (out, writes) = complete_document(INPUT, &blocks, &decisions, &no_outcomes, &mut cache);
    assert_eq!(out, EMBED.to_vec());
    assert_eq!(writes, vec![(KEY, b"<svg>seeded</svg>".to_vec())]);
    assert_eq!(cache.get(KEY).unwrap(), &b"<svg>seeded</svg>".to_vec());
}

#[test]
fn failed_render_keeps_block_verbatim_and_cache_untouched() {
    let text = b"before\n```graphviz\ndigraph G { A->B }\n```\nafter";
    let mut cache = CacheStore::new();
    let (blocks, decisions, requests) = plan_document(text, &cache);
    assert_eq!(requests.len(), 1);
    let outcomes = vec![RenderResult::Failure];
    let (out, writes) = complete_document(text, &blocks, &decisions, &outcomes, &mut cache);
    assert_eq!(out, text.to_vec());
    assert_eq!(cache.len(), 0);
    assert!(cache.get(KEY).is_none());
    assert_eq!(writes.len(), 0);
}

#[test]
fn document_without_blocks_is_unchanged() {
    let text = b"no diagrams in here\njust prose\n";
    let mut cache = CacheStore::new();
    let (blocks, decisions, requests) = plan_document(text, &cache);
    assert_eq!(blocks.len(), 0);
    assert_eq!(requests.len(), 0);
    let no_outcomes: Vec<RenderResult> = Vec::new();
    let (out, writes) = complete_document(text, &blocks, &decisions, &no_outcomes, &mut cache);
    assert_eq!(out, text.to_vec());
    assert_eq!(cache.len(), 0);
    assert_eq!(writes.len(), 0);
}

#[test]
fn empty_tag_block_is_rejected_verbatim() {
    let text = b"```\nno type tag\n```";
    let mut cache = CacheStore::new();
    let (blocks, decisions, requests) = plan_document(text, &cache);
    assert_eq!(blocks.len(), 1);
    assert!(matches!(decisions[0], BlockDecision::Reject));
    assert_eq!(requests.len(), 0);
    let no_outcomes: Vec<RenderResult> = Vec::new();
    let (out, writes) = complete_document(text, &blocks, &decisions, &no_outcomes, &mut cache);
    assert_eq!(out, text.to_vec());
    assert_eq!(cache.len(), 0);
    assert_eq!(writes.len(), 0);
}

#[test]
fn mixed_document_hit_miss_and_failure() {
    let text = b"a\n```one\nO\n```\nb\n```two\nT\n```\nc\n```three\nTH\n```\nd";
    let k1 = fingerprint(b"one", b"O", false);
    let k2 = fingerprint(b"two", b"T", false);
    let k3 = fingerprint(b"three", b"TH", false);
    let mut cache = CacheStore::new();
    cache.put(k2, b"cached-two".to_vec());
    let (blocks, decisions, requests) = plan_document(text, &cache);
    assert_eq!(blocks.len(), 3);
    assert_eq!(requests.len(), 2);
    assert_eq!(requests[0].key, k1);
    assert_eq!(requests[1].key, k3);
    // First miss succeeds, second fails.
    let outcomes = vec![
        RenderResult::Success(b"svg-one".to_vec()),
        RenderResult::Failure,
    ];
    let (out, writes) = complete_document(text, &blocks, &decisions, &outcomes, &mut cache);
    let expected: Vec<u8> = [
        b"a\n".to_vec(),
        format!("<img src=\"assets/{}.svg\" />", k1).into_bytes(),
        b"\nb\n".to_vec(),
        format!("<img src=\"assets/{}.svg\" />", k2).into_bytes(),
        b"\nc\n```three\nTH\n```\nd".to_vec(),
    ]
    .concat();
    assert_eq!(out, expected);
    assert_eq!(cache.len(), 2);
    assert_eq!(cache.get(k1).unwrap(), &b"svg-one".to_vec());
    assert_eq!(cache.get(k2).unwrap(), &b"cached-two".to_vec());
    assert!(cache.get(k3).is_none());
    assert_eq!(
        writes,
        vec![(k1, b"svg-one".to_vec()), (k2, b"cached-two".to_vec())]
    );
}

#[test]
fn duplicate_blocks_share_one_cache_entry() {
    let text = b"```d\nX\n```\n```d\nX\n```";
    let k = fingerprint(b"d", b"X", false);
    let mut cache = CacheStore::new();
    let (blocks, decisions, requests) = plan_document(text, &cache);
    // Decisions are fixed at plan time: both equal blocks are misses.
    assert_eq!(requests.len(), 2);
    let outcomes = vec![
        RenderResult::Success(b"first".to_vec()),
        RenderResult::Success(b"second".to_vec()),
    ];
    let (out, writes) = complete_document(text, &blocks, &decisions, &outcomes, &mut cache);
    // Insert-if-absent: the first payload wins and is what both embeds name.
    assert_eq!(cache.len(), 1);
    assert_eq!(cache.get(k).unwrap(), &b"first".to_vec());
    assert_eq!(
        writes,
        vec![(k, b"first".to_vec()), (k, b"first".to_vec())]
    );
    let embed = format!("<img src=\"assets/{}.svg\" />", k).into_bytes();
    assert_eq!(out, [embed.clone(), b"\n".to_vec(), embed].concat());
}

#[test]
fn warm_cache_run_touches_nothing() {
    let text = b"x ```t\nbody\n``` y";
    let k = fingerprint(b"t", b"body", false);
    let mut cache = CacheStore::new();
    cache.put(k, b"payload".to_vec());
    let before = rkroki::codec::to_bytes(&cache);
    let (blocks, decisions, requests) = plan_document(text, &cache);
    assert_eq!(requests.len(), 0);
    let no_outcomes: Vec<RenderResult> = Vec::new();
    let (_, _) = complete_document(text, &blocks, &decisions, &no_outcomes, &mut cache);
    let after = rkroki::codec::to_bytes(&cache);
    // The persisted image is byte-identical: the run changed nothing.
    assert_eq!(before, after);
}
