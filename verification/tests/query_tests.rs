use xray::index_shard::IndexedStore;
use xray::lang::LangCode;
use xray::optimize::{merge_ids, merge_postings, merge_subsets};
use xray::query::{
    canonical_terms, fetch_tag_postings, intersect_ids, lang_ids, rank_documents,
    restrict_postings,
};
use xray::store::{persist_indexed, Storage};

fn load_store(tag: &str, out: (String, Vec<u8>, Vec<u8>), n: u64) -> IndexedStore {
    IndexedStore::load(out.0.clone(), String::from(tag), n, out.1).unwrap()
}

#[test]
fn canonical_terms_sorts_and_dedups_with_pairs() {
    let terms = canonical_terms(&vec![
        String::from("Hello"),
        String::from("World"),
        String::from("hello"),
    ]);
    assert_eq!(
        terms,
        vec![
            b"hello".to_vec(),
            b"hello|world".to_vec(),
            b"world".to_vec(),
            b"world|hello".to_vec(),
        ]
    );
}

#[test]
fn merge_ids_unions_sorted() {
    let r = merge_ids(&vec![1, 3, 5], &vec![2, 3, 6]);
    assert_eq!(r, vec![1, 2, 3, 5, 6]);
    assert_eq!(intersect_ids(&vec![1, 3, 5], &vec![2, 3, 5]), vec![3, 5]);
}

#[test]
fn merge_postings_unions_words_and_ids() {
    let a = vec![(b"aa".to_vec(), vec![1u64]), (b"cc".to_vec(), vec![2u64])];
    let b = vec![(b"aa".to_vec(), vec![3u64]), (b"bb".to_vec(), vec![4u64])];
    let r = merge_postings(&a, &b);
    assert_eq!(
        r,
        vec![
            (b"aa".to_vec(), vec![1u64, 3u64]),
            (b"bb".to_vec(), vec![4u64]),
            (b"cc".to_vec(), vec![2u64]),
        ]
    );
}

#[test]
fn language_filter_keeps_only_the_chosen_language() {
    // two documents carry the same word in different languages
    let mut s = Storage::new(0);
    let a = s.insert_url(String::from("http://eng/"));
    let b = s.insert_url(String::from("http://spa/"));
    s.insert_lang(a, LangCode::Eng);
    s.insert_lang(b, LangCode::Spa);
    s.insert_word(a, false, &b"hola".to_vec());
    s.insert_word(b, false, &b"hola".to_vec());
    let langs = std::mem::take(&mut s.by_language);
    let by_word = std::mem::take(&mut s.by_word);
    let lang_out = persist_indexed(&String::from("by_language"), 0, langs).unwrap();
    let word_out = persist_indexed(&String::from("by_word"), 0, by_word).unwrap();
    let lang_store = load_store("by_language", lang_out, 2);
    let word_store = load_store("by_word", word_out, 1);
    // assemble the in-memory language sets like a reload does
    let codes = canonical_terms(&vec![String::from("eng"), String::from("fra"), String::from("spa")]);
    let lang_posts = lang_store.get_words(&codes);
    let eng = lang_ids(&lang_posts, LangCode::Eng);
    let spa = lang_ids(&lang_posts, LangCode::Spa);
    let fra = lang_ids(&lang_posts, LangCode::Fra);
    assert_eq!(eng, vec![0]);
    assert_eq!(spa, vec![1]);
    assert!(fra.is_empty());
    // query `hola` in each language
    let terms = canonical_terms(&vec![String::from("hola")]);
    let stores = vec![word_store];
    let content = fetch_tag_postings(&stores, &String::from("by_word"), &terms);
    let for_eng = restrict_postings(&content, &eng);
    let for_spa = restrict_postings(&content, &spa);
    let rank_eng = rank_documents(&Vec::new(), &for_eng);
    let rank_spa = rank_documents(&Vec::new(), &for_spa);
    assert_eq!(rank_eng.len(), 1);
    assert_eq!(rank_eng[0].0, 0);
    assert_eq!(rank_spa.len(), 1);
    assert_eq!(rank_spa[0].0, 1);
}

#[test]
fn title_match_outranks_body_match() {
    // doc 0 carries `search` in its title only, doc 1 in its body only
    let mut s = Storage::new(0);
    let a = s.insert_url(String::from("http://title/"));
    let b = s.insert_url(String::from("http://body/"));
    s.insert_word(a, true, &b"search".to_vec());
    s.insert_word(b, false, &b"search".to_vec());
    let titles = std::mem::take(&mut s.by_title_word);
    let words = std::mem::take(&mut s.by_word);
    let t_out = persist_indexed(&String::from("by_title_word"), 0, titles).unwrap();
    let w_out = persist_indexed(&String::from("by_word"), 0, words).unwrap();
    let t_store = load_store("by_title_word", t_out, 1);
    let w_store = load_store("by_word", w_out, 1);
    let terms = canonical_terms(&vec![String::from("search")]);
    let title_posts = fetch_tag_postings(&vec![t_store], &String::from("by_title_word"), &terms);
    let word_posts = fetch_tag_postings(&vec![w_store], &String::from("by_word"), &terms);
    let ranked = rank_documents(&title_posts, &word_posts);
    assert_eq!(ranked.len(), 2);
    // title earns twice the byte length: 12 beats 6
    assert_eq!(ranked[0], (a, 12));
    assert_eq!(ranked[1], (b, 6));
}

#[test]
fn optimize_merges_chunks_without_losing_pairs() {
    // two shards of the same tag, overlapping words
    let p1 = vec![
        (b"aa".to_vec(), vec![0u64]),
        (b"bb".to_vec(), vec![1u64]),
    ];
    let p2 = vec![
        (b"bb".to_vec(), vec![2u64]),
        (b"cc".to_vec(), vec![3u64]),
    ];
    let s1 = load_store(
        "by_word",
        persist_indexed(&String::from("by_word"), 0, p1.clone()).unwrap(),
        2,
    );
    let s2 = load_store(
        "by_word",
        persist_indexed(&String::from("by_word"), 1, p2.clone()).unwrap(),
        2,
    );
    // one optimize chunk wide enough for both shards
    let subsets = vec![s1.get_subset_of_words(0, 10), s2.get_subset_of_words(0, 10)];
    let merged = merge_subsets(&subsets);
    assert_eq!(
        merged,
        vec![
            (b"aa".to_vec(), vec![0u64]),
            (b"bb".to_vec(), vec![1u64, 2u64]),
            (b"cc".to_vec(), vec![3u64]),
        ]
    );
    // the merged shard round trips and answers queries like the pair did
    let merged_out = persist_indexed(&String::from("by_word"), 9, merged.clone()).unwrap();
    assert_eq!(merged_out.0, "indexed_by_word_9.xraystore");
    let merged_store = load_store("by_word", merged_out, 3);
    let terms = vec![b"bb".to_vec()];
    let before = fetch_tag_postings(&vec![s1, s2], &String::from("by_word"), &terms);
    let after = fetch_tag_postings(&vec![merged_store], &String::from("by_word"), &terms);
    assert_eq!(before, after);
}

#[test]
fn chunked_optimize_covers_every_posting() {
    let mut p = Vec::new();
    for i in 0..30u64 {
        p.push((format!("w{:02}", i).into_bytes(), vec![i]));
    }
    let store = load_store(
        "by_word",
        persist_indexed(&String::from("by_word"), 0, p.clone()).unwrap(),
        30,
    );
    // chunks of 7 postings cover the word-index space
    let mut rebuilt = Vec::new();
    let mut start = 0u64;
    while start < 30 {
        let chunk = merge_subsets(&vec![store.get_subset_of_words(start, 7)]);
        rebuilt.extend(chunk);
        start += 7;
    }
    assert_eq!(rebuilt, p);
}
