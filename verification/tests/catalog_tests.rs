use xray::catalog::{
    append_index_catalog, append_url_catalog, load_index_catalog, load_url_catalog,
    rebuild_entry_for,
};

#[test]
fn url_catalog_round_trip() {
    let mut bytes = Vec::new();
    bytes.extend(append_url_catalog(0, 3, &String::from("urls_0.xraystore")));
    bytes.extend(append_url_catalog(3, 2, &String::from("urls_3.xraystore")));
    let entries = load_url_catalog(&bytes).unwrap();
    assert_eq!(entries.len(), 2);
    assert_eq!(entries[0].first_index, 0);
    assert_eq!(entries[0].num_entries, 3);
    assert_eq!(entries[0].path, "urls_0.xraystore");
    assert_eq!(entries[1].first_index, 3);
    assert_eq!(entries[1].num_entries, 2);
    assert_eq!(entries[1].path, "urls_3.xraystore");
}

#[test]
fn index_catalog_round_trip() {
    let mut bytes = Vec::new();
    bytes.extend(append_index_catalog(
        &String::from("by_word"),
        7,
        &String::from("indexed_by_word_0.xraystore"),
    ));
    bytes.extend(append_index_catalog(
        &String::from("by_language"),
        1,
        &String::from("indexed_by_language_0.xraystore"),
    ));
    let entries = load_index_catalog(&bytes).unwrap();
    assert_eq!(entries.len(), 2);
    assert_eq!(entries[0].tag, "by_word");
    assert_eq!(entries[0].num_entries, 7);
    assert_eq!(entries[0].path, "indexed_by_word_0.xraystore");
    assert_eq!(entries[1].tag, "by_language");
}

#[test]
fn index_catalog_truncation_drops_only_last_record() {
    // crash safety: cutting the last byte loses the partial record only
    let mut bytes = Vec::new();
    bytes.extend(append_index_catalog(
        &String::from("by_word"),
        7,
        &String::from("indexed_by_word_0.xraystore"),
    ));
    bytes.extend(append_index_catalog(
        &String::from("by_title_word"),
        4,
        &String::from("indexed_by_title_word_0.xraystore"),
    ));
    for cut in 1..3 {
        let truncated = bytes[..bytes.len() - cut].to_vec();
        let entries = load_index_catalog(&truncated).unwrap();
        assert_eq!(entries.len(), 1);
        assert_eq!(entries[0].tag, "by_word");
        assert_eq!(entries[0].num_entries, 7);
    }
}

#[test]
fn url_catalog_truncation_drops_only_last_record() {
    let mut bytes = Vec::new();
    bytes.extend(append_url_catalog(0, 1, &String::from("urls_0.xraystore")));
    bytes.extend(append_url_catalog(1, 1, &String::from("urls_1.xraystore")));
    let truncated = bytes[..bytes.len() - 1].to_vec();
    let entries = load_url_catalog(&truncated).unwrap();
    assert_eq!(entries.len(), 1);
    assert_eq!(entries[0].path, "urls_0.xraystore");
}

#[test]
fn empty_catalogs_load_empty() {
    assert_eq!(load_url_catalog(&Vec::new()).unwrap().len(), 0);
    assert_eq!(load_index_catalog(&Vec::new()).unwrap().len(), 0);
}

#[test]
fn catalog_rejects_invalid_utf8_path() {
    let mut bytes = Vec::new();
    bytes.extend(append_url_catalog(0, 1, &String::from("ab")));
    // the path bytes are the last two: overwrite with invalid UTF-8
    let n = bytes.len();
    bytes[n - 2] = 0xff;
    bytes[n - 1] = 0xfe;
    assert!(load_url_catalog(&bytes).is_err());
}

#[test]
fn rebuild_promotes_tmp_names_and_derives_tags() {
    let r = rebuild_entry_for(&String::from("indexed_by_word_tmp_3.xraystore")).unwrap();
    assert_eq!(r.0, "indexed_by_word_3.xraystore");
    assert_eq!(r.1, "by_word");
    let r = rebuild_entry_for(&String::from("indexed_by_title_word_12.xraystore")).unwrap();
    assert_eq!(r.0, "indexed_by_title_word_12.xraystore");
    assert_eq!(r.1, "by_title_word");
    assert!(rebuild_entry_for(&String::from("urls_0.xraystore")).is_none());
    assert!(rebuild_entry_for(&String::from("notes.txt")).is_none());
}
