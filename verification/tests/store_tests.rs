use xray::lang::LangCode;
use xray::store::{persist_indexed, Storage};
use xray::url_shard::UrlStore;

#[test]
fn ids_are_dense_and_increasing() {
    let mut s = Storage::new(0);
    let a = s.insert_url(String::from("http://a/"));
    let b = s.insert_url(String::from("http://b/"));
    let c = s.insert_url(String::from("http://c/"));
    assert_eq!((a, b, c), (0, 1, 2));
    // a later session continues where the last stopped
    let mut s2 = Storage::new(3);
    assert_eq!(s2.insert_url(String::from("http://d/")), 3);
}

#[test]
fn persist_urls_writes_shard_and_catalog_entry() {
    let mut s = Storage::new(0);
    s.insert_url(String::from("http://a/"));
    s.insert_url(String::from("http://b/"));
    let out = s.persist_urls().unwrap();
    assert_eq!(out.0, 0);
    assert_eq!(out.1, "urls_0.xraystore");
    let store = UrlStore::load(out.1.clone(), 0, 2, out.2).unwrap();
    let urls = store.get_urls(&vec![0, 1]);
    assert_eq!(urls[0].1, "http://a/");
    assert_eq!(urls[1].1, "http://b/");
    // the map is cleared: persisting again yields nothing
    assert!(s.persist_urls().is_none());
    // the catalog entry decodes back to the same record
    let entries = xray::catalog::load_url_catalog(&out.3).unwrap();
    assert_eq!(entries.len(), 1);
    assert_eq!(entries[0].first_index, 0);
    assert_eq!(entries[0].num_entries, 2);
    assert_eq!(entries[0].path, "urls_0.xraystore");
}

#[test]
fn insert_word_accumulates_sorted_postings() {
    let mut s = Storage::new(0);
    let id0 = s.insert_url(String::from("http://a/"));
    let id1 = s.insert_url(String::from("http://b/"));
    s.insert_word(id0, false, &b"zebra".to_vec());
    s.insert_word(id0, false, &b"apple".to_vec());
    s.insert_word(id1, false, &b"apple".to_vec());
    s.insert_word(id1, true, &b"title".to_vec());
    s.insert_lang(id0, LangCode::Eng);
    s.insert_lang(id1, LangCode::Spa);
    let by_word = std::mem::take(&mut s.by_word);
    let out = persist_indexed(&String::from("by_word"), 0, by_word).unwrap();
    assert_eq!(out.0, "indexed_by_word_0.xraystore");
    let store = xray::index_shard::IndexedStore::load(
        out.0.clone(),
        String::from("by_word"),
        2,
        out.1,
    )
    .unwrap();
    let all = store.get_all_words();
    assert_eq!(
        all,
        vec![
            (b"apple".to_vec(), vec![0u64, 1u64]),
            (b"zebra".to_vec(), vec![0u64]),
        ]
    );
    let entries = xray::catalog::load_index_catalog(&out.2).unwrap();
    assert_eq!(entries[0].tag, "by_word");
    assert_eq!(entries[0].num_entries, 2);
}

#[test]
fn persist_indexed_skips_empty_maps() {
    assert!(persist_indexed(&String::from("by_word"), 0, Vec::new()).is_none());
}

#[test]
fn file_names_render_decimals() {
    let mut s = Storage::new(9);
    s.insert_url(String::from("http://a/"));
    let out = s.persist_urls().unwrap();
    assert_eq!(out.1, "urls_9.xraystore");
    let out2 = persist_indexed(
        &String::from("by_title_word"),
        1234567890123,
        vec![(b"abc".to_vec(), vec![1])],
    )
    .unwrap();
    assert_eq!(out2.0, "indexed_by_title_word_1234567890123.xraystore");
}

#[test]
fn tmp_tagged_shards_carry_no_catalog_record() {
    let data = vec![(b"abc".to_vec(), vec![1u64])];
    let out = persist_indexed(&String::from("by_word_tmp"), 2, data.clone()).unwrap();
    assert_eq!(out.0, "indexed_by_word_tmp_2.xraystore");
    assert!(out.2.is_empty());
    // the same shard under a plain tag is registered
    let out = persist_indexed(&String::from("by_word"), 2, data).unwrap();
    assert!(!out.2.is_empty());
    let entries = xray::catalog::load_index_catalog(&out.2).unwrap();
    assert_eq!(entries[0].tag, "by_word");
}

#[test]
fn persist_emits_exactly_the_nonempty_maps() {
    let mut s = Storage::new(0);
    let a = s.insert_url(String::from("http://a/"));
    s.insert_lang(a, LangCode::Eng);
    s.insert_word(a, false, &b"apple".to_vec());
    // no title words this chunk
    let out = s.persist(4);
    let urls = out.urls.unwrap();
    assert_eq!(urls.0, 0);
    assert_eq!(urls.1, "urls_0.xraystore");
    assert_eq!(out.shards.len(), 2);
    assert_eq!(out.shards[0].0, "indexed_by_language_4.xraystore");
    assert_eq!(out.shards[1].0, "indexed_by_word_4.xraystore");
    // everything is cleared: a second persist emits nothing
    let out2 = s.persist(5);
    assert!(out2.urls.is_none());
    assert!(out2.shards.is_empty());
}
