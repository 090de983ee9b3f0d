use rkroki::cache::CacheStore;
use rkroki::codec::{from_bytes, to_bytes};
use rkroki::extract::extract;
use rkroki::fingerprint::fingerprint;
use rkroki::pipeline::{embed_replacement, output_path, render_url, u64_decimal};
use rkroki::rewrite::substitute;

#[test]
fn fingerprint_is_deterministic() {
    let a = fingerprint(b"abc", b"xyz", false);
    let b = fingerprint(b"abc", b"xyz", false);
    assert_eq!(a, b);
    let c = fingerprint(b"abc", b"xyz", true);
    let d = fingerprint(b"abc", b"xyz", true);
    assert_eq!(c, d);
}

#[test]
fn fingerprint_known_values() {
    assert_eq!(
        fingerprint(b"graphviz", b"digraph G { A->B }", false),
        7377346012883739973u64
    );
    assert_eq!(fingerprint(b"abc", b"xyz", false), 3268470687815949745u64);
    assert_eq!(fingerprint(b"abc", b"xyz", true), 3268469588304321534u64);
}

#[test]
fn fingerprint_mode_changes_key() {
    assert_ne!(
        fingerprint(b"abc", b"xyz", false),
        fingerprint(b"abc", b"xyz", true)
    );
    assert_ne!(fingerprint(b"", b"", false), fingerprint(b"", b"", true));
}

#[test]
fn fingerprint_separates_tag_and_source() {
    // The separator keeps ("ab", "c") and ("a", "bc") apart.
    assert_ne!(fingerprint(b"ab", b"c", false), fingerprint(b"a", b"bc", false));
}

#[test]
fn extract_no_blocks() {
    assert_eq!(extract(b"plain text, nothing fenced").len(), 0);
    assert_eq!(extract(b"").len(), 0);
    assert_eq!(extract(b"`` not a fence ``").len(), 0);
}

#[test]
fn extract_single_block() {
    let text = b"before\n```graphviz\ndigraph G { A->B }\n```\nafter";
    let blocks = extract(text);
    assert_eq!(blocks.len(), 1);
    assert_eq!(blocks[0].tag, b"graphviz".to_vec());
    assert_eq!(blocks[0].body, b"digraph G { A->B }".to_vec());
    assert_eq!(blocks[0].start, 7);
    assert_eq!(blocks[0].end, 41);
    assert_eq!(
        &text[blocks[0].start..blocks[0].end],
        b"```graphviz\ndigraph G { A->B }\n```"
    );
}

#[test]
fn extract_empty_tag() {
    let blocks = extract(b"```\nbody\n```");
    assert_eq!(blocks.len(), 1);
    assert_eq!(blocks[0].tag, Vec::<u8>::new());
    assert_eq!(blocks[0].body, b"body".to_vec());
}

#[test]
fn extract_tag_with_space_is_no_block() {
    assert_eq!(extract(b"``` two words\nbody\n```").len(), 0);
}

#[test]
fn extract_unclosed_fence_is_no_block() {
    assert_eq!(extract(b"```dot\nnever closed").len(), 0);
    assert_eq!(extract(b"```dot\n```").len(), 0); // empty body is no block
}

#[test]
fn extract_multiline_body_and_two_blocks() {
    let text = b"```a\nline one\nline two\n```\nmid\n```b\nx\n```";
    let blocks = extract(text);
    assert_eq!(blocks.len(), 2);
    assert_eq!(blocks[0].tag, b"a".to_vec());
    assert_eq!(blocks[0].body, b"line one\nline two".to_vec());
    assert_eq!(blocks[1].tag, b"b".to_vec());
    assert_eq!(blocks[1].body, b"x".to_vec());
}

#[test]
fn extract_first_closing_fence_wins() {
    // The body stops at the first closing fence; the rest is scanned anew.
    let text = b"```a\nbody\n```\ntrailing\n```";
    let blocks = extract(text);
    assert_eq!(blocks.len(), 1);
    assert_eq!(blocks[0].body, b"body".to_vec());
}

#[test]
fn substitute_no_blocks_is_identity() {
    let text = b"nothing to do here";
    let blocks = extract(text);
    let reps: Vec<Vec<u8>> = Vec::new();
    let out = substitute(text, &blocks, &reps);
    assert_eq!(out, text.to_vec());
}

#[test]
fn substitute_replaces_span_and_keeps_rest() {
    let text = b"head ```t\nbb\n``` tail";
    let blocks = extract(text);
    assert_eq!(blocks.len(), 1);
    let reps = vec![b"X".to_vec()];
    let out = substitute(text, &blocks, &reps);
    assert_eq!(out, b"head X tail".to_vec());
}

#[test]
fn cache_get_and_put() {
    let mut c = CacheStore::new();
    assert!(c.get(7).is_none());
    c.put(7, b"seven".to_vec());
    assert_eq!(c.get(7).unwrap(), &b"seven".to_vec());
    c.put(7, b"new seven".to_vec());
    assert_eq!(c.get(7).unwrap(), &b"new seven".to_vec());
    assert_eq!(c.len(), 1);
}

#[test]
fn cache_put_if_absent_keeps_first() {
    let mut c = CacheStore::new();
    c.put_if_absent(1, b"first".to_vec());
    c.put_if_absent(1, b"second".to_vec());
    assert_eq!(c.get(1).unwrap(), &b"first".to_vec());
    assert_eq!(c.len(), 1);
    c.put_if_absent(2, b"two".to_vec());
    assert_eq!(c.len(), 2);
}

#[test]
fn codec_roundtrip() {
    let mut c = CacheStore::new();
    c.put(1, b"one".to_vec());
    c.put(0xffff_ffff_ffff_ffff, Vec::new());
    c.put(42, b"<svg>ok</svg>".to_vec());
    let bytes = to_bytes(&c);
    let d = from_bytes(&bytes);
    assert_eq!(d.len(), 3);
    assert_eq!(d.get(1).unwrap(), &b"one".to_vec());
    assert_eq!(d.get(0xffff_ffff_ffff_ffff).unwrap(), &Vec::<u8>::new());
    assert_eq!(d.get(42).unwrap(), &b"<svg>ok</svg>".to_vec());
}

#[test]
fn codec_empty_store_roundtrip() {
    let c = CacheStore::new();
    let bytes = to_bytes(&c);
    assert_eq!(bytes.len(), 8);
    let d = from_bytes(&bytes);
    assert_eq!(d.len(), 0);
}

#[test]
fn codec_malformed_loads_empty() {
    assert_eq!(from_bytes(b"").len(), 0);
    assert_eq!(from_bytes(b"short").len(), 0);
    // A count that promises more entries than the bytes hold.
    let mut c = CacheStore::new();
    c.put(5, b"five".to_vec());
    let mut bytes = to_bytes(&c);
    bytes[0] = 2;
    assert_eq!(from_bytes(&bytes).len(), 0);
    // Trailing garbage after a complete encoding.
    let mut bytes2 = to_bytes(&c);
    bytes2.push(0);
    assert_eq!(from_bytes(&bytes2).len(), 0);
}

#[test]
fn decimal_rendering() {
    assert_eq!(u64_decimal(0), b"0".to_vec());
    assert_eq!(u64_decimal(907), b"907".to_vec());
    assert_eq!(
        u64_decimal(18446744073709551615),
        b"18446744073709551615".to_vec()
    );
}

#[test]
fn embed_and_path_texts() {
    assert_eq!(embed_replacement(5), b"<img src=\"assets/5.svg\" />".to_vec());
    assert_eq!(output_path(12345), b"public/assets/12345.svg".to_vec());
}

#[test]
fn render_url_lowercases() {
    assert_eq!(
        render_url(b"https://kroki.io", b"GraphViz"),
        b"https://kroki.io/graphviz/svg".to_vec()
    );
    assert_eq!(render_url(b"http://X", b"d2"), b"http://x/d2/svg".to_vec());
}
