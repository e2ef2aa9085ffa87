use courses_data::error::Error;
use courses_data::index::Index;
use courses_data::layout::FORMAT_VERSION;
use courses_data::model::Document;

fn doc(id: u32, contents: &str) -> Document {
    Document { id, contents: contents.to_string() }
}

fn sample() -> Index {
    Index::build(&[
        doc(1, "machine learning fundamentals"),
        doc(2, "intro to machine learning"),
        doc(40, "Größe und Maß — 日本語のテキスト"),
        doc(7, ""),
    ])
    .unwrap()
}

fn u32le(out: &mut Vec<u8>, x: u32) {
    out.extend_from_slice(&x.to_le_bytes());
}

fn u64le(out: &mut Vec<u8>, x: u64) {
    out.extend_from_slice(&x.to_le_bytes());
}

fn u128le(out: &mut Vec<u8>, x: u128) {
    out.extend_from_slice(&x.to_le_bytes());
}

fn text(out: &mut Vec<u8>, s: &[u8]) {
    u64le(out, s.len() as u64);
    out.extend_from_slice(s);
}

/// A payload written by hand: documents as (id, length, text bytes), tokens as
/// (text bytes, postings as (id, frequency)).
fn payload(
    version: u32,
    total: u128,
    docs: &[(u32, u64, &[u8])],
    terms: &[(&[u8], &[(u32, u64)])],
) -> Vec<u8> {
    let mut out = Vec::new();
    u32le(&mut out, version);
    u64le(&mut out, docs.len() as u64);
    u128le(&mut out, total);
    u32le(&mut out, 1200);
    u32le(&mut out, 750);
    for (id, length, contents) in docs {
        u32le(&mut out, *id);
        u64le(&mut out, *length);
        text(&mut out, contents);
    }
    u64le(&mut out, terms.len() as u64);
    for (token, postings) in terms {
        text(&mut out, token);
        u64le(&mut out, postings.len() as u64);
        for (id, freq) in *postings {
            u32le(&mut out, *id);
            u64le(&mut out, *freq);
        }
    }
    out
}

fn same_index(a: &Index, b: &Index) {
    assert_eq!(a.stats(), b.stats());
    assert_eq!(a.doc_count(), b.doc_count());
    for (x, y) in a.documents().iter().zip(b.documents().iter()) {
        assert_eq!((x.id, x.length, &x.contents), (y.id, y.length, &y.contents));
    }
    assert_eq!(a.terms().len(), b.terms().len());
    for t in a.terms() {
        assert_eq!(Some(&t.postings), b.postings(&t.token));
    }
}

#[test]
fn format_version_is_one() {
    assert_eq!(FORMAT_VERSION, 1);
}

#[test]
fn empty_index_has_exact_bytes() {
    let bytes = Index::build(&[]).unwrap().serialize();
    let mut expected = vec![1u8, 0, 0, 0];
    expected.extend_from_slice(&[0u8; 8]);
    expected.extend_from_slice(&[0u8; 16]);
    expected.extend_from_slice(&[0xb0, 0x04, 0, 0]);
    expected.extend_from_slice(&[0xee, 0x02, 0, 0]);
    expected.extend_from_slice(&[0u8; 8]);
    assert_eq!(bytes, expected);
    assert_eq!(bytes.len(), 44);
}

#[test]
fn one_document_index_has_exact_bytes() {
    let bytes = Index::build(&[doc(9, "aBc")]).unwrap().serialize();
    let expected = payload(1, 1, &[(9, 1, b"aBc")], &[(b"abc", &[(9, 1)])]);
    assert_eq!(bytes, expected);
}

#[test]
fn round_trip_gives_the_same_index() {
    let ix = sample();
    let back = Index::deserialize(&ix.serialize()).unwrap();
    same_index(&ix, &back);
    assert_eq!(back.serialize(), ix.serialize());
}

#[test]
fn round_trip_of_the_empty_index() {
    let ix = Index::build(&[]).unwrap();
    let back = Index::deserialize(&ix.serialize()).unwrap();
    same_index(&ix, &back);
}

#[test]
fn loaded_index_answers_like_the_built_one() {
    let ix = sample();
    let back = Index::deserialize(&ix.serialize()).unwrap();
    for q in ["machine", "learning", "日本語", "zzz", ""] {
        assert_eq!(format!("{:?}", ix.matches(q)), format!("{:?}", back.matches(q)));
    }
}

#[test]
fn hand_written_payload_is_read() {
    let bytes = payload(
        1,
        5,
        &[(3, 2, "abcd".as_bytes()), (1, 3, "bcdé!".as_bytes())],
        &[(b"abc", &[(3, 1)]), (b"bcd", &[(3, 1), (1, 1)])],
    );
    let ix = Index::deserialize(&bytes).unwrap();
    assert_eq!(ix.doc_count(), 2);
    assert_eq!(ix.document(1).unwrap().contents, "bcdé!");
    assert_eq!(ix.postings("bcd").unwrap().len(), 2);
    assert_eq!(ix.serialize(), bytes);
}

#[test]
fn other_version_tag_is_unsupported() {
    let mut bytes = sample().serialize();
    bytes[0] = 2;
    assert!(matches!(Index::deserialize(&bytes), Err(Error::UnsupportedFormatVersion)));
    let only_tag = vec![0u8, 0, 0, 0];
    assert!(matches!(Index::deserialize(&only_tag), Err(Error::UnsupportedFormatVersion)));
    let bytes = payload(7, 0, &[], &[]);
    assert!(matches!(Index::deserialize(&bytes), Err(Error::UnsupportedFormatVersion)));
}

#[test]
fn bytes_too_short_for_a_tag_are_corrupt() {
    assert!(matches!(Index::deserialize(&[]), Err(Error::TruncatedOrCorruptPayload)));
    assert!(matches!(Index::deserialize(&[1, 0, 0]), Err(Error::TruncatedOrCorruptPayload)));
}

#[test]
fn every_truncation_is_refused() {
    let bytes = sample().serialize();
    for cut in 0..bytes.len() {
        let r = Index::deserialize(&bytes[..cut]);
        assert!(matches!(r, Err(Error::TruncatedOrCorruptPayload)), "cut at {}", cut);
    }
}

#[test]
fn bytes_left_over_are_refused() {
    let mut bytes = sample().serialize();
    bytes.push(0);
    assert!(matches!(Index::deserialize(&bytes), Err(Error::TruncatedOrCorruptPayload)));
}

#[test]
fn text_that_is_not_utf8_is_refused() {
    let bytes = payload(1, 0, &[(1, 0, &[0xff, 0xfe])], &[]);
    assert!(matches!(Index::deserialize(&bytes), Err(Error::TruncatedOrCorruptPayload)));
    let bytes = payload(1, 0, &[(1, 0, b"ok")], &[(&[0xc3], &[(1, 1)])]);
    assert!(matches!(Index::deserialize(&bytes), Err(Error::TruncatedOrCorruptPayload)));
}

#[test]
fn duplicate_document_id_in_payload_is_refused() {
    let bytes = payload(1, 2, &[(1, 1, b"abc"), (1, 1, b"abd")], &[]);
    assert!(matches!(Index::deserialize(&bytes), Err(Error::TruncatedOrCorruptPayload)));
}

#[test]
fn duplicate_token_in_payload_is_refused() {
    let bytes = payload(1, 1, &[(1, 1, b"abc")], &[(b"abc", &[(1, 1)]), (b"abc", &[(1, 1)])]);
    assert!(matches!(Index::deserialize(&bytes), Err(Error::TruncatedOrCorruptPayload)));
}

#[test]
fn wrong_total_length_in_payload_is_refused() {
    let bytes = payload(1, 3, &[(1, 1, b"abc"), (2, 1, b"abd")], &[]);
    assert!(matches!(Index::deserialize(&bytes), Err(Error::TruncatedOrCorruptPayload)));
    let bytes = payload(1, 2, &[(1, 1, b"abc"), (2, 1, b"abd")], &[]);
    assert!(Index::deserialize(&bytes).is_ok());
}

#[test]
fn posting_for_unknown_document_is_refused() {
    let bytes = payload(1, 1, &[(1, 1, b"abc")], &[(b"abc", &[(2, 1)])]);
    assert!(matches!(Index::deserialize(&bytes), Err(Error::TruncatedOrCorruptPayload)));
}

#[test]
fn postings_out_of_document_order_are_refused() {
    let docs: [(u32, u64, &[u8]); 2] = [(1, 1, b"abc"), (2, 1, b"abc")];
    let bytes = payload(1, 2, &docs, &[(b"abc", &[(2, 1), (1, 1)])]);
    assert!(matches!(Index::deserialize(&bytes), Err(Error::TruncatedOrCorruptPayload)));
    let bytes = payload(1, 2, &docs, &[(b"abc", &[(1, 1), (1, 1)])]);
    assert!(matches!(Index::deserialize(&bytes), Err(Error::TruncatedOrCorruptPayload)));
    let bytes = payload(1, 2, &docs, &[(b"abc", &[(1, 1), (2, 1)])]);
    assert!(Index::deserialize(&bytes).is_ok());
}

#[test]
fn huge_counts_are_refused_without_allocating() {
    let mut bytes = Vec::new();
    u32le(&mut bytes, 1);
    u64le(&mut bytes, u64::MAX);
    u128le(&mut bytes, 0);
    u32le(&mut bytes, 1200);
    u32le(&mut bytes, 750);
    assert!(matches!(Index::deserialize(&bytes), Err(Error::TruncatedOrCorruptPayload)));
    let mut bytes = payload(1, 0, &[], &[]);
    let n = bytes.len();
    bytes[n - 8..].copy_from_slice(&u64::MAX.to_le_bytes());
    assert!(matches!(Index::deserialize(&bytes), Err(Error::TruncatedOrCorruptPayload)));
    let mut bytes = Vec::new();
    u32le(&mut bytes, 1);
    u64le(&mut bytes, 1);
    u128le(&mut bytes, 0);
    u32le(&mut bytes, 1200);
    u32le(&mut bytes, 750);
    u32le(&mut bytes, 1);
    u64le(&mut bytes, 0);
    u64le(&mut bytes, u64::MAX);
    assert!(matches!(Index::deserialize(&bytes), Err(Error::TruncatedOrCorruptPayload)));
}

#[test]
fn error_messages() {
    assert_eq!(Error::MalformedSourceRecord.message(), "malformed source record");
    assert_eq!(Error::DuplicateDocumentId.message(), "duplicate document id");
    assert_eq!(Error::UnsupportedFormatVersion.message(), "unsupported format version");
    assert_eq!(Error::TruncatedOrCorruptPayload.message(), "truncated or corrupt payload");
    assert_eq!(Error::DecompressionFailure.message(), "decompression failure");
    assert_eq!(Error::CompressionFailure.message(), "compression failure");
}
