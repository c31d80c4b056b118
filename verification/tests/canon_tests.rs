use xray::canon::{add_pairs, canonicalize, is_canonical};

#[test]
fn canonicalize_lowercases_and_strips() {
    assert_eq!(canonicalize("Hello!"), Some(String::from("hello")));
    assert_eq!(canonicalize("WORLD"), Some(String::from("world")));
    assert_eq!(canonicalize("foo|bar"), Some(String::from("foobar")));
}

#[test]
fn canonicalize_rejects_short_and_long_tokens() {
    assert_eq!(canonicalize("ab"), None);
    assert_eq!(canonicalize("abc"), Some(String::from("abc")));
    // 24 bytes is accepted, 25 is not
    assert_eq!(
        canonicalize("abcdefghijklmnopqrstuvwx"),
        Some(String::from("abcdefghijklmnopqrstuvwx"))
    );
    assert_eq!(canonicalize("abcdefghijklmnopqrstuvwxy"), None);
}

#[test]
fn canonicalize_rejects_stripped_to_short() {
    // a token of length 3 made only of stripped characters yields nothing
    assert_eq!(canonicalize("!?."), None);
    assert_eq!(canonicalize("[,]"), None);
    // stripping that leaves exactly 2 characters also fails
    assert_eq!(canonicalize("ab!"), None);
}

#[test]
fn canonicalize_is_idempotent_on_its_output() {
    for raw in ["Hello!", "WoRlD,", "abc", "t.e.s.t.s"] {
        let first = canonicalize(raw).unwrap();
        assert_eq!(canonicalize(&first), Some(first.clone()));
    }
}

#[test]
fn is_canonical_matches_strip_set() {
    for c in ['.', '\'', '?', '!', ',', '(', ')', '$', '&', '[', ']', '"', ':', ';', '@', '|'] {
        assert!(!is_canonical(&c));
    }
    for c in ['a', 'z', '0', '-', '_', '%'] {
        assert!(is_canonical(&c));
    }
}

#[test]
fn add_pairs_appends_adjacent_bigrams_in_order() {
    let mut words = vec![
        String::from("aaa"),
        String::from("bbb"),
        String::from("ccc"),
    ];
    add_pairs(&mut words);
    assert_eq!(
        words,
        vec![
            String::from("aaa"),
            String::from("bbb"),
            String::from("ccc"),
            String::from("aaa|bbb"),
            String::from("bbb|ccc"),
        ]
    );
}

#[test]
fn add_pairs_drops_oversized_bigrams() {
    let long_a = "a".repeat(200);
    let long_b = "b".repeat(200);
    let mut words = vec![long_a.clone(), long_b.clone(), String::from("ccc")];
    add_pairs(&mut words);
    // a|b is 401 bytes and is dropped; b|ccc is 204 bytes and kept
    assert_eq!(words.len(), 4);
    assert_eq!(words[3], format!("{}|ccc", long_b));
}

#[test]
fn add_pairs_leaves_empty_input_alone() {
    let mut words: Vec<String> = Vec::new();
    add_pairs(&mut words);
    assert!(words.is_empty());
}
