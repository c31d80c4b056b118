use xray::index_shard::{store_indexed_bytes, IndexedStore};
use xray::url_shard::{store_urls_bytes, UrlStore};

fn posting(word: &str, ids: &[u64]) -> (Vec<u8>, Vec<u64>) {
    (word.as_bytes().to_vec(), ids.to_vec())
}

#[test]
fn indexed_shard_round_trip() {
    let postings = vec![
        posting("alpha", &[1, 5, 9]),
        posting("beta", &[2]),
        posting("gamma", &[0, 7]),
    ];
    let bytes = store_indexed_bytes(&postings);
    let store = IndexedStore::load(
        String::from("indexed_by_word_0.xraystore"),
        String::from("by_word"),
        3,
        bytes,
    )
    .unwrap();
    let words: Vec<Vec<u8>> = postings.iter().map(|p| p.0.clone()).collect();
    let back = store.get_words(&words);
    assert_eq!(back, postings);
    let all = store.get_all_words();
    assert_eq!(all, postings);
}

#[test]
fn indexed_shard_get_words_skips_absent() {
    let postings = vec![posting("bb", &[1]), posting("dd", &[2])];
    let bytes = store_indexed_bytes(&postings);
    let store = IndexedStore::load(String::from("x"), String::from("by_word"), 2, bytes).unwrap();
    let queries = vec![
        b"aa".to_vec(),
        b"bb".to_vec(),
        b"cc".to_vec(),
        b"dd".to_vec(),
        b"ee".to_vec(),
    ];
    let back = store.get_words(&queries);
    assert_eq!(back, postings);
}

#[test]
fn indexed_shard_subset_walks_ranges() {
    let mut postings = Vec::new();
    for i in 0..50u64 {
        postings.push(posting(&format!("w{:03}", i), &[i]));
    }
    let bytes = store_indexed_bytes(&postings);
    let store = IndexedStore::load(String::from("x"), String::from("by_word"), 50, bytes).unwrap();
    assert_eq!(store.get_subset_of_words(0, 10), postings[0..10].to_vec());
    assert_eq!(store.get_subset_of_words(40, 20), postings[40..50].to_vec());
    assert_eq!(store.get_subset_of_words(60, 5), Vec::new());
}

#[test]
fn indexed_shard_jump_table_spans_strides() {
    // more than one stride of postings exercises the jump table
    let mut postings = Vec::new();
    for i in 0..2500u64 {
        postings.push(posting(&format!("w{:05}", i), &[i, i + 10_000]));
    }
    let bytes = store_indexed_bytes(&postings);
    let store =
        IndexedStore::load(String::from("x"), String::from("by_word"), 2500, bytes).unwrap();
    let queries = vec![
        b"w00000".to_vec(),
        b"w01000".to_vec(),
        b"w02345".to_vec(),
        b"w02499".to_vec(),
    ];
    let back = store.get_words(&queries);
    assert_eq!(back.len(), 4);
    assert_eq!(back[0], postings[0]);
    assert_eq!(back[1], postings[1000]);
    assert_eq!(back[2], postings[2345]);
    assert_eq!(back[3], postings[2499]);
    assert_eq!(store.get_subset_of_words(2100, 5), postings[2100..2105].to_vec());
}

#[test]
fn indexed_shard_exact_layout_of_tiny_shard() {
    // one posting: word "ab", ids [7]; jump table pins index 0 twice
    let postings = vec![posting("ab", &[7])];
    let bytes = store_indexed_bytes(&postings);
    let mut expected: Vec<u8> = Vec::new();
    expected.extend_from_slice(&1u64.to_le_bytes()); // num_entries
    expected.extend_from_slice(&2u64.to_le_bytes()); // jump_table_len
    expected.extend_from_slice(&1000u32.to_le_bytes()); // jump_stride
    for _ in 0..2 {
        expected.push(2); // word len
        expected.extend_from_slice(b"ab");
        expected.extend_from_slice(&0u64.to_le_bytes()); // offset
    }
    expected.push(2);
    expected.extend_from_slice(b"ab");
    expected.extend_from_slice(&1u64.to_le_bytes()); // set len
    expected.extend_from_slice(&7u64.to_le_bytes()); // the id
    assert_eq!(bytes, expected);
}

#[test]
fn indexed_shard_load_rejects_corruption() {
    let postings = vec![posting("abc", &[1, 2])];
    let bytes = store_indexed_bytes(&postings);
    // wrong catalog count
    assert!(IndexedStore::load(String::from("x"), String::from("t"), 2, bytes.clone()).is_err());
    // truncated file
    let cut = bytes[..bytes.len() - 1].to_vec();
    assert!(IndexedStore::load(String::from("x"), String::from("t"), 1, cut).is_err());
    // unsorted words
    let bad = store_unsorted();
    assert!(IndexedStore::load(String::from("x"), String::from("t"), 2, bad).is_err());
}

fn store_unsorted() -> Vec<u8> {
    // hand-build a shard whose words are out of order
    let good = store_indexed_bytes(&vec![posting("aa", &[1]), posting("bb", &[2])]);
    let mut bad = good.clone();
    // swap the content words: find them at the tail
    let n = bad.len();
    // content region: [len 2]['a''a'][setlen][id][len 2]['b''b'][setlen][id]
    let entry = 2 + 1 + 8 + 8;
    let c0 = n - 2 * entry;
    bad[c0 + 1] = b'b';
    bad[c0 + 2] = b'b';
    bad[c0 + entry + 1] = b'a';
    bad[c0 + entry + 2] = b'a';
    bad
}

#[test]
fn url_shard_round_trip() {
    let urls = vec![
        (5u64, b"http://a/".to_vec()),
        (6u64, b"http://b/longer".to_vec()),
        (7u64, b"http://c/".to_vec()),
    ];
    let bytes = store_urls_bytes(&urls);
    let store = UrlStore::load(String::from("urls_5.xraystore"), 5, 3, bytes).unwrap();
    let got = store.get_urls(&vec![5, 7]);
    assert_eq!(
        got,
        vec![
            (5u64, String::from("http://a/")),
            (7u64, String::from("http://c/")),
        ]
    );
}

#[test]
fn url_shard_rejects_wrong_catalog_data() {
    let dense = vec![(5u64, b"http://a/".to_vec()), (6u64, b"http://b/".to_vec())];
    let bytes = store_urls_bytes(&dense);
    // wrong first_index: the ids inside the file do not start there
    assert!(UrlStore::load(String::from("x"), 4, 2, bytes.clone()).is_err());
    // wrong count
    assert!(UrlStore::load(String::from("x"), 5, 3, bytes).is_err());
}

#[test]
fn url_shard_many_entries_uses_jump_table() {
    let mut urls = Vec::new();
    for i in 0..2500u64 {
        urls.push((1000 + i, format!("http://site/{}", i).into_bytes()));
    }
    let bytes = store_urls_bytes(&urls);
    let store = UrlStore::load(String::from("x"), 1000, 2500, bytes).unwrap();
    let got = store.get_urls(&vec![1000, 2100, 3400, 3499]);
    assert_eq!(got[0].1, "http://site/0");
    assert_eq!(got[1].1, "http://site/1100");
    assert_eq!(got[2].1, "http://site/2400");
    assert_eq!(got[3].1, "http://site/2499");
}
