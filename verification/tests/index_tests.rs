use courses_data::error::Error;
use courses_data::index::{CorpusStats, Index};
use courses_data::model::{Document, Posting, DEFAULT_B_MILLI, DEFAULT_K1_MILLI};

fn doc(id: u32, contents: &str) -> Document {
    Document { id, contents: contents.to_string() }
}

fn build(docs: &[Document]) -> Index {
    Index::build(docs).unwrap()
}

#[test]
fn empty_corpus_gives_empty_index() {
    let ix = build(&[]);
    assert_eq!(ix.doc_count(), 0);
    assert!(ix.documents().is_empty());
    assert!(ix.terms().is_empty());
    assert_eq!(
        ix.stats(),
        CorpusStats { doc_count: 0, total_length: 0, k1_milli: 1200, b_milli: 750 }
    );
    assert!(ix.matches("anything").is_empty());
}

#[test]
fn hyperparameters_are_fixed() {
    assert_eq!(DEFAULT_K1_MILLI, 1200);
    assert_eq!(DEFAULT_B_MILLI, 750);
    let ix = build(&[doc(1, "abc")]);
    assert_eq!(ix.stats().k1_milli, 1200);
    assert_eq!(ix.stats().b_milli, 750);
}

#[test]
fn duplicate_document_id_is_refused() {
    let r = Index::build(&[doc(1, "abc"), doc(2, "def"), doc(1, "ghi")]);
    assert!(matches!(r, Err(Error::DuplicateDocumentId)));
}

#[test]
fn duplicate_text_under_two_ids_is_accepted() {
    let ix = build(&[doc(1, "abcd"), doc(2, "abcd")]);
    assert_eq!(ix.doc_count(), 2);
    assert_eq!(
        ix.postings("abc").unwrap(),
        &vec![Posting { doc_id: 1, term_freq: 1 }, Posting { doc_id: 2, term_freq: 1 }]
    );
}

#[test]
fn document_length_counts_tokens_with_repeats() {
    let ix = build(&[doc(7, "aaaaa"), doc(9, "ab"), doc(3, "abcabc")]);
    let docs = ix.documents();
    assert_eq!(docs.len(), 3);
    assert_eq!((docs[0].id, docs[0].length), (7, 3));
    assert_eq!((docs[1].id, docs[1].length), (9, 0));
    assert_eq!((docs[2].id, docs[2].length), (3, 4));
    assert_eq!(docs[0].contents, "aaaaa");
    assert_eq!(ix.stats().total_length, 7);
    assert_eq!(ix.stats().doc_count, 3);
}

#[test]
fn total_length_is_sum_of_document_lengths() {
    let ix = build(&[doc(1, "machine learning"), doc(2, "x"), doc(3, "deep learning")]);
    let sum: u128 = ix.documents().iter().map(|d| d.length as u128).sum();
    assert_eq!(ix.stats().total_length, sum);
    assert_eq!(sum, 14 + 0 + 11);
}

#[test]
fn term_frequency_counts_repeats_in_one_document() {
    let ix = build(&[doc(5, "aaaaa"), doc(6, "abcabc")]);
    assert_eq!(ix.postings("aaa").unwrap(), &vec![Posting { doc_id: 5, term_freq: 3 }]);
    assert_eq!(ix.postings("abc").unwrap(), &vec![Posting { doc_id: 6, term_freq: 2 }]);
    assert_eq!(ix.postings("bca").unwrap(), &vec![Posting { doc_id: 6, term_freq: 1 }]);
    assert!(ix.postings("zzz").is_none());
}

#[test]
fn postings_follow_corpus_order() {
    let ix = build(&[doc(30, "xabcx"), doc(10, "no match"), doc(20, "abcabcabc")]);
    assert_eq!(
        ix.postings("abc").unwrap(),
        &vec![Posting { doc_id: 30, term_freq: 1 }, Posting { doc_id: 20, term_freq: 3 }]
    );
}

#[test]
fn tokens_stand_in_order_of_first_occurrence() {
    let ix = build(&[doc(1, "abcd"), doc(2, "bcde")]);
    let tokens: Vec<&str> = ix.terms().iter().map(|t| t.token.as_str()).collect();
    assert_eq!(tokens, vec!["abc", "bcd", "cde"]);
}

#[test]
fn index_tokens_are_lowercase() {
    let ix = build(&[doc(1, "ABC")]);
    assert!(ix.postings("abc").is_some());
    assert!(ix.postings("ABC").is_none());
}

#[test]
fn every_posting_names_a_document_of_the_index() {
    let ix = build(&[doc(4, "search engines"), doc(2, "engine search"), doc(8, "se")]);
    for t in ix.terms() {
        assert!(!t.postings.is_empty());
        for p in &t.postings {
            let d = ix.document(p.doc_id).unwrap();
            assert!(p.term_freq >= 1 && p.term_freq <= d.length);
        }
        let mut ids: Vec<u32> = t.postings.iter().map(|p| p.doc_id).collect();
        ids.sort();
        ids.dedup();
        assert_eq!(ids.len(), t.postings.len());
    }
}

#[test]
fn document_lookup_by_id() {
    let ix = build(&[doc(4, "first"), doc(2, "second")]);
    assert_eq!(ix.document(2).unwrap().contents, "second");
    assert_eq!(ix.document(4).unwrap().length, 3);
    assert!(ix.document(3).is_none());
}

#[test]
fn two_builds_of_one_corpus_agree() {
    let corpus = [doc(1, "machine learning fundamentals"), doc(2, "intro to machine learning")];
    let a = build(&corpus);
    let b = build(&corpus);
    assert_eq!(a.serialize(), b.serialize());
    assert_eq!(format!("{:?}", a.matches("machine")), format!("{:?}", b.matches("machine")));
}

#[test]
fn builds_and_queries_a_corpus_of_many_records() {
    let mut corpus = Vec::new();
    for i in 0..400u32 {
        let mut text = format!("{:05} {:05} {:05} | Course {} Course {} Course {} | ", i, i, i, i, i, i);
        for w in 0..60u32 {
            text.push_str(["algebra ", "systems ", "theory ", "design ", "données "][((i + w * 7) % 5) as usize]);
            text.push_str(&format!("{} ", (i * 31 + w * 17) % 97));
        }
        corpus.push(doc(i, &text));
    }
    let ix = build(&corpus);
    assert_eq!(ix.doc_count(), 400);
    let sum: u128 = ix.documents().iter().map(|d| d.length as u128).sum();
    assert_eq!(ix.stats().total_length, sum);
    let m = ix.matches("00017 systems theory");
    assert!(m.len() == 400);
    let first = ix.matches("00017");
    assert!(first.iter().any(|d| d.doc_id == 17 && d.hits.iter().any(|h| h.term_freq == 3)));
    let back = Index::deserialize(&ix.serialize()).unwrap();
    assert_eq!(back.serialize(), ix.serialize());
}
