use xray::pipeline::{load_source, process_document, split_tokens};
use xray::wet::{next_wet_ref, wet_documents, WetRef};

fn conversion_record(url: &str, content: &str) -> String {
    format!(
        "WARC/1.0\r\nWARC-Type: conversion\r\nWARC-Target-URI: {}\r\nWARC-Date: 2020-01-01\r\nWARC-Record-ID: <urn:id:1>\r\nWARC-Refers-To: <urn:id:0>\r\nWARC-Block-Digest: sha1:x\r\nContent-Type: text/plain\r\nContent-Length: {}\r\n\r\n{}\r\n\r\n",
        url,
        content.len(),
        content
    )
}

fn warcinfo_record() -> String {
    let content = "software: test";
    format!(
        "WARC/1.0\r\nWARC-Type: warcinfo\r\nWARC-Date: 2020-01-01\r\nWARC-Filename: f.wet\r\nWARC-Record-ID: <urn:id:9>\r\nContent-Type: application/warc-fields\r\nContent-Length: {}\r\n\r\n{}\r\n\r\n",
        content.len(),
        content
    )
}

#[test]
fn parses_conversion_record() {
    let raw = conversion_record("http://a/", "some body text here");
    let bytes = raw.into_bytes();
    let (rec, used) = next_wet_ref(&bytes, 0).unwrap();
    assert_eq!(used, bytes.len());
    match rec {
        WetRef::Conversion { url, content, .. } => {
            assert_eq!(url, "http://a/");
            assert_eq!(content, "some body text here");
        },
        _ => panic!("expected a conversion record"),
    }
}

#[test]
fn parses_warcinfo_record() {
    let bytes = warcinfo_record().into_bytes();
    let (rec, _) = next_wet_ref(&bytes, 0).unwrap();
    match rec {
        WetRef::WarcInfo { filename, .. } => assert_eq!(filename, "f.wet"),
        _ => panic!("expected a warcinfo record"),
    }
}

#[test]
fn malformed_record_is_an_error() {
    let bytes = b"WARC/1.0\r\nWARC-Type: conversion\r\nbroken".to_vec();
    assert!(next_wet_ref(&bytes, 0).is_err());
}

#[test]
fn warcinfo_only_stream_yields_no_documents() {
    let mut raw = String::new();
    raw.push_str(&warcinfo_record());
    raw.push_str(&warcinfo_record());
    let docs = wet_documents(&raw.into_bytes()).unwrap();
    assert!(docs.is_empty());
}

#[test]
fn mixed_stream_yields_conversions_in_order() {
    let mut raw = String::new();
    raw.push_str(&warcinfo_record());
    raw.push_str(&conversion_record("http://a/", "first body"));
    raw.push_str(&conversion_record("http://b/", "second body"));
    let docs = wet_documents(&raw.into_bytes()).unwrap();
    assert_eq!(docs.len(), 2);
    assert_eq!(docs[0].0, "http://a/");
    assert_eq!(docs[0].1, "first body");
    assert_eq!(docs[1].0, "http://b/");
}

#[test]
fn split_tokens_on_whitespace() {
    let toks = split_tokens("  hello \t world\nagain ");
    assert_eq!(
        toks,
        vec![
            String::from("hello"),
            String::from("world"),
            String::from("again"),
        ]
    );
    assert!(split_tokens("   ").is_empty());
}

const ENGLISH_PAD: &str = "The quick brown fox jumps over the lazy dog while the patient reader keeps reading this plain English sentence about nothing in particular";

#[test]
fn nine_distinct_tokens_rejected_ten_accepted() {
    // the token rule is checked through a text whose language reliably
    // detects as English; repeated words do not raise the distinct count
    let ten = "hello world this text speaks about many different things today";
    let nine = "hello world this text speaks about many different things";
    let content10 = format!("\n{} {}", ten, "hello hello hello");
    let content9 = format!("\n{} {}", nine, "hello hello hello hello");
    assert_eq!(xray::lang::detect_lang(&content10), Some(xray::lang::LangCode::Eng));
    assert_eq!(xray::lang::detect_lang(&content9), Some(xray::lang::LangCode::Eng));
    assert!(process_document(String::from("http://a/"), content10).is_some());
    assert!(process_document(String::from("http://a/"), content9).is_none());
}

#[test]
fn title_of_250_bytes_kept_251_cleared() {
    let body = ENGLISH_PAD;
    // a 250-byte title line is kept; one byte more clears it
    let word = "searching";
    let pad = "x".repeat(250 - word.len() - 1);
    let title250 = format!("{} {}", word, pad);
    assert_eq!(title250.len(), 250);
    let title251 = format!("{} {}x", word, pad);
    assert_eq!(title251.len(), 251);
    let kept = format!("{}\n{}", title250, body);
    let cleared = format!("{}\n{}", title251, body);
    assert_eq!(xray::lang::detect_lang(&kept), Some(xray::lang::LangCode::Eng));
    assert_eq!(xray::lang::detect_lang(&cleared), Some(xray::lang::LangCode::Eng));
    let p = process_document(String::from("http://a/"), kept).unwrap();
    assert!(p.1.title.contains(&b"searching".to_vec()));
    let p = process_document(String::from("http://a/"), cleared).unwrap();
    assert!(p.1.title.is_empty());
}

#[test]
fn load_source_keeps_accepted_documents() {
    let mut raw = String::new();
    raw.push_str(&warcinfo_record());
    raw.push_str(&conversion_record("http://a/", &format!("\n{}", ENGLISH_PAD)));
    raw.push_str(&conversion_record("http://b/", "too short"));
    let pages = load_source(&raw.into_bytes(), false).unwrap();
    assert_eq!(pages.len(), 1);
    assert_eq!(pages[0].0, "http://a/");
    assert_eq!(pages[0].1.lang, xray::lang::LangCode::Eng);
    assert!(pages[0].1.words.contains(&b"quick".to_vec()));
    // pairs are indexed too
    assert!(pages[0].1.words.contains(&b"quick|brown".to_vec()));
}

#[test]
fn load_source_gunzips_compressed_input() {
    let mut raw = String::new();
    raw.push_str(&conversion_record("http://a/", &format!("\n{}", ENGLISH_PAD)));
    let mut enc =
        flate2::write::GzEncoder::new(Vec::new(), flate2::Compression::default());
    std::io::Write::write_all(&mut enc, raw.as_bytes()).unwrap();
    let gz = enc.finish().unwrap();
    let pages = load_source(&gz, true).unwrap();
    let plain = load_source(&raw.into_bytes(), false).unwrap();
    assert_eq!(pages.len(), plain.len());
    // a malformed stream is an error
    assert!(load_source(&b"not gzip at all".to_vec(), true).is_err());
}
