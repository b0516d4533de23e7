use codeinput::build_cache;
use codeinput::decode_cache;
use codeinput::encode_cache;
use codeinput::parse_codeowners;
use codeinput::CacheEncoding;
use codeinput::CodeownersCache;
use codeinput::Error;

fn sample_hash(seed: u8) -> Vec<u8> {
    let mut h = Vec::new();
    for i in 0..32u8 {
        h.push(seed.wrapping_add(i.wrapping_mul(7)));
    }
    h
}

fn sample_cache() -> CodeownersCache {
    // Identifiers exercise quoting, escapes and non-ASCII characters.
    let entries = parse_codeowners(
        "* @default-team\n*.rs @rust-team #rust #backend\ndocs/ docs@example.com #d\u{00e9}tail\n",
        "/pr\u{00f8}ject/CODEOWNERS",
    )
    .unwrap();
    let files = vec![
        "/pr\u{00f8}ject/src/main.rs".to_string(),
        "/pr\u{00f8}ject/app \"quoted\\path\".js".to_string(),
    ];
    build_cache(entries, files, Vec::new(), sample_hash(11)).unwrap()
}

fn assert_caches_equal(a: &CodeownersCache, b: &CodeownersCache) {
    assert_eq!(a.version, b.version);
    assert_eq!(a.hash, b.hash);
    assert_eq!(a.entries.len(), b.entries.len());
    for (x, y) in a.entries.iter().zip(b.entries.iter()) {
        assert_eq!(x.source_file, y.source_file);
        assert_eq!(x.line_number, y.line_number);
        assert_eq!(x.pattern, y.pattern);
        assert_eq!(x.owners, y.owners);
        assert_eq!(x.tags, y.tags);
    }
    assert_eq!(a.files.len(), b.files.len());
    for (x, y) in a.files.iter().zip(b.files.iter()) {
        assert_eq!(x.path, y.path);
        assert_eq!(x.owners, y.owners);
        assert_eq!(x.tags, y.tags);
    }
    assert_eq!(a.owners_map, b.owners_map);
    assert_eq!(a.tags_map, b.tags_map);
}

#[test]
fn test_binary_round_trip_reproduces_cache() {
    let cache = sample_cache();
    let bytes = encode_cache(&cache, CacheEncoding::Bincode);
    let loaded = decode_cache(&bytes).unwrap();
    assert_caches_equal(&cache, &loaded);
}

#[test]
fn test_text_round_trip_reproduces_cache() {
    let cache = sample_cache();
    let bytes = encode_cache(&cache, CacheEncoding::Json);
    // The text form is self-describing: it opens with a brace.
    assert_eq!(bytes[0], b'{');
    let loaded = decode_cache(&bytes).unwrap();
    assert_caches_equal(&cache, &loaded);
}

#[test]
fn test_load_detects_encoding_by_first_byte() {
    let cache = sample_cache();
    let bin = encode_cache(&cache, CacheEncoding::Bincode);
    let text = encode_cache(&cache, CacheEncoding::Json);
    assert_ne!(bin[0], b'{');
    assert_eq!(text[0], b'{');
    // Both load without being told their format.
    assert_caches_equal(&cache, &decode_cache(&bin).unwrap());
    assert_caches_equal(&cache, &decode_cache(&text).unwrap());
}

#[test]
fn test_truncated_cache_is_a_decode_failure() {
    let cache = sample_cache();
    for encoding in [CacheEncoding::Bincode, CacheEncoding::Json] {
        let bytes = encode_cache(&cache, encoding);
        for cut in [0, 1, bytes.len() / 2, bytes.len() - 1] {
            let truncated: Vec<u8> = bytes[..cut].to_vec();
            assert_eq!(decode_cache(&truncated).unwrap_err(), Error::CorruptCache);
        }
    }
}

#[test]
fn test_trailing_garbage_is_a_decode_failure() {
    let cache = sample_cache();
    for encoding in [CacheEncoding::Bincode, CacheEncoding::Json] {
        let mut bytes = encode_cache(&cache, encoding);
        bytes.push(0);
        assert_eq!(decode_cache(&bytes).unwrap_err(), Error::CorruptCache);
    }
}

#[test]
fn test_empty_cache_round_trips() {
    let cache = build_cache(Vec::new(), Vec::new(), Vec::new(), sample_hash(0)).unwrap();
    for encoding in [CacheEncoding::Bincode, CacheEncoding::Json] {
        let bytes = encode_cache(&cache, encoding);
        let loaded = decode_cache(&bytes).unwrap();
        assert_caches_equal(&cache, &loaded);
    }
}
