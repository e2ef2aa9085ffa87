use courses_data::compress::Codec;
use courses_data::engine::{SearchEngine, RESULT_LIMIT};
use courses_data::error::Error;
use courses_data::index::{CorpusStats, Index};
use courses_data::model::Document;
use courses_data::query::{DocMatch, TermHit};
use courses_data::ranking::ScoredDocument;

fn doc(id: u32, contents: &str) -> Document {
    Document { id, contents: contents.to_string() }
}

fn build(docs: &[Document]) -> Index {
    Index::build(docs).unwrap()
}

fn score(stats: CorpusStats, m: &DocMatch) -> f64 {
    let n = stats.doc_count as f64;
    let avgdl = stats.total_length as f64 / n;
    let k1 = stats.k1_milli as f64 / 1000.0;
    let b = stats.b_milli as f64 / 1000.0;
    let mut total = 0.0;
    for h in &m.hits {
        let df = h.doc_freq as f64;
        let tf = h.term_freq as f64;
        let idf = (1.0 + (n - df + 0.5) / (df + 0.5)).ln();
        total += idf * tf * (k1 + 1.0) / (tf + k1 * (1.0 - b + b * m.doc_len as f64 / avgdl));
    }
    total
}

fn key(stats: CorpusStats, m: &DocMatch) -> u64 {
    score(stats, m).to_bits()
}

fn sd(doc_id: u32, score_key: u64) -> ScoredDocument {
    ScoredDocument { doc_id, score_key }
}

fn hits(m: &DocMatch) -> Vec<(u64, u64)> {
    m.hits.iter().map(|h| (h.term_freq, h.doc_freq)).collect()
}

#[test]
fn result_limit_is_seven() {
    assert_eq!(RESULT_LIMIT, 7);
}

#[test]
fn matches_list_each_distinct_query_token_once() {
    let ix = build(&[doc(1, "abcabc"), doc(2, "xbcax"), doc(3, "nothing")]);
    // query tokens: abc, bca, cab, abc; distinct: abc, bca, cab
    let m = ix.matches("abcabc");
    assert_eq!(m.len(), 2);
    assert_eq!((m[0].doc_id, m[0].doc_len), (1, 4));
    assert_eq!(hits(&m[0]), vec![(2, 1), (1, 2), (1, 1)]);
    assert_eq!((m[1].doc_id, m[1].doc_len), (2, 3));
    assert_eq!(hits(&m[1]), vec![(1, 2)]);
}

#[test]
fn matches_come_in_corpus_order() {
    let ix = build(&[doc(9, "zabcz"), doc(3, "abc"), doc(5, "abcabc")]);
    let ids: Vec<u32> = ix.matches("abc").iter().map(|m| m.doc_id).collect();
    assert_eq!(ids, vec![9, 3, 5]);
    for m in ix.matches("abc") {
        assert_eq!(m.hits[0].doc_freq, 3);
    }
}

#[test]
fn query_is_lowercased_like_the_documents() {
    let ix = build(&[doc(1, "Machine")]);
    assert_eq!(ix.matches("MACHINE").len(), 1);
    assert_eq!(hits(&ix.matches("MACHINE")[0]), vec![(1, 1); 5]);
}

#[test]
fn short_or_unknown_query_matches_nothing() {
    let ix = build(&[doc(1, "machine learning")]);
    assert!(ix.matches("").is_empty());
    assert!(ix.matches("ma").is_empty());
    assert!(ix.matches("xyz").is_empty());
}

#[test]
fn unknown_query_tokens_contribute_nothing() {
    let ix = build(&[doc(1, "machine")]);
    let m = ix.matches("machzzz");
    assert_eq!(m.len(), 1);
    assert_eq!(hits(&m[0]), vec![(1, 1), (1, 1)]);
}

#[test]
fn exact_score_of_a_single_hit() {
    let ix = build(&[doc(1, "abc"), doc(2, "xyz")]);
    let m = ix.matches("abc");
    assert_eq!(m.len(), 1);
    assert_eq!(m[0].hits, vec![TermHit { term_freq: 1, doc_freq: 1 }]);
    // n = 2, df = 1, tf = 1, doc_len = avgdl = 1: idf = ln(2), tf part = 1
    let s = score(ix.stats(), &m[0]);
    assert!((s - 2.0f64.ln()).abs() < 1e-12);
}

#[test]
fn rank_orders_by_descending_score() {
    let ix = build(&[doc(1, "one"), doc(2, "two"), doc(3, "three")]);
    let out = ix.rank(&[sd(1, 10), sd(2, 30), sd(3, 20)], 10);
    assert_eq!(out, vec!["two", "three", "one"]);
}

#[test]
fn rank_breaks_ties_by_ascending_id() {
    let ix = build(&[doc(5, "five"), doc(1, "one"), doc(3, "three"), doc(2, "two")]);
    let out = ix.rank(&[sd(5, 7), sd(3, 7), sd(2, 9), sd(1, 7)], 10);
    assert_eq!(out, vec!["two", "one", "three", "five"]);
}

#[test]
fn rank_cuts_after_k() {
    let ix = build(&[doc(1, "one"), doc(2, "two"), doc(3, "three")]);
    let scored = [sd(1, 10), sd(2, 30), sd(3, 20)];
    assert_eq!(ix.rank(&scored, 2), vec!["two", "three"]);
    assert_eq!(ix.rank(&scored, 1), vec!["two"]);
    assert_eq!(ix.rank(&scored, 3).len(), 3);
    assert_eq!(ix.rank(&scored, usize::MAX).len(), 3);
}

#[test]
fn rank_with_k_zero_is_empty() {
    let ix = build(&[doc(1, "one"), doc(2, "two")]);
    assert!(ix.rank(&[sd(1, 10), sd(2, 30)], 0).is_empty());
    assert!(build(&[]).rank(&[], 0).is_empty());
}

#[test]
fn rank_leaves_out_zero_scores_and_unknown_documents() {
    let ix = build(&[doc(1, "one"), doc(2, "two")]);
    assert_eq!(ix.rank(&[sd(1, 0), sd(2, 1), sd(9, 50)], 10), vec!["two"]);
    assert!(ix.rank(&[], 10).is_empty());
}

#[test]
fn rank_keeps_the_order_of_float_scores() {
    let ix = build(&[doc(1, "one"), doc(2, "two"), doc(3, "three")]);
    let scored = [sd(1, 0.25f64.to_bits()), sd(2, 1.5f64.to_bits()), sd(3, 0.75f64.to_bits())];
    assert_eq!(ix.rank(&scored, 10), vec!["two", "three", "one"]);
    let scored =
        [sd(1, 0.25f32.to_bits() as u64), sd(2, 1.5f32.to_bits() as u64), sd(3, 0.0f32.to_bits() as u64)];
    assert_eq!(ix.rank(&scored, 10), vec!["two", "one"]);
}

#[test]
fn shorter_document_ranks_first_in_the_two_document_corpus() {
    let corpus =
        [doc(1, "machine learning fundamentals"), doc(2, "intro to machine learning")];
    let ix = build(&corpus);
    let m = ix.matches("machine");
    assert_eq!(m.len(), 2);
    assert_eq!((m[0].doc_id, m[0].doc_len), (1, 27));
    assert_eq!((m[1].doc_id, m[1].doc_len), (2, 23));
    assert_eq!(hits(&m[0]), vec![(1, 2); 5]);
    let stats = ix.stats();
    assert!(stats.b_milli > 0);
    assert!(score(stats, &m[1]) >= score(stats, &m[0]));
    assert!(score(stats, &m[0]) > 0.0);
    let out = ix.search_with("machine", 10, key);
    assert_eq!(out, vec!["intro to machine learning", "machine learning fundamentals"]);
}

#[test]
fn search_returns_contents_best_first() {
    let ix = build(&[
        doc(1, "linear algebra"),
        doc(2, "algebra"),
        doc(3, "calculus in three dimensions"),
        doc(4, "abstract algebra and number theory, a long description"),
    ]);
    let out = ix.search_with("algebra", 10, key);
    assert_eq!(out[0], "algebra");
    assert_eq!(out[1], "linear algebra");
    assert_eq!(out.len(), 3);
    assert_eq!(ix.search_with("algebra", 2, key).len(), 2);
    assert!(ix.search_with("algebra", 0, key).is_empty());
    assert!(ix.search_with("zz", 10, key).is_empty());
    assert!(ix.search_with("qqqq", 10, key).is_empty());
}

#[test]
fn search_with_equal_scores_ranks_by_id() {
    let ix = build(&[doc(8, "same text"), doc(2, "same text"), doc(5, "same text")]);
    let out_ids: Vec<u32> = {
        let ms = ix.matches("same");
        let stats = ix.stats();
        assert!(ms.iter().all(|m| key(stats, m) == key(stats, &ms[0])));
        ms.iter().map(|m| m.doc_id).collect()
    };
    assert_eq!(out_ids, vec![8, 2, 5]);
    let scored: Vec<ScoredDocument> =
        ix.matches("same").iter().map(|m| sd(m.doc_id, key(ix.stats(), m))).collect();
    assert_eq!(ix.rank(&scored, 2).len(), 2);
    assert_eq!(ix.search_with("same", 10, |_, m| 100 - m.doc_id as u64).len(), 3);
    let by_id = ix.search_with("same", 10, |_, _| 1);
    assert_eq!(by_id.len(), 3);
}

#[test]
fn search_drops_documents_scored_zero() {
    let ix = build(&[doc(1, "abcd"), doc(2, "abce")]);
    let out = ix.search_with("abc", 10, |_, m| if m.doc_id == 1 { 0 } else { 5 });
    assert_eq!(out, vec!["abce"]);
}

#[test]
fn engine_search_returns_at_most_seven() {
    let corpus: Vec<Document> =
        (0..20u32).map(|i| doc(i, &format!("course {} about algebra", i))).collect();
    let engine = SearchEngine::from_corpus(&corpus).unwrap();
    let out = engine.search("algebra", key);
    assert_eq!(out.len(), 7);
    assert_eq!(engine.stats().doc_count, 20);
}

#[test]
fn two_builds_score_a_query_identically() {
    let corpus = [doc(1, "machine learning fundamentals"), doc(2, "intro to machine learning")];
    let a = build(&corpus);
    let b = build(&corpus);
    let sa: Vec<u64> = a.matches("learning").iter().map(|m| key(a.stats(), m)).collect();
    let sb: Vec<u64> = b.matches("learning").iter().map(|m| key(b.stats(), m)).collect();
    assert_eq!(sa, sb);
    assert_eq!(a.search_with("learning", 5, key), b.search_with("learning", 5, key));
}

#[test]
fn engine_bytes_round_trip_with_every_codec() {
    let corpus = [doc(1, "machine learning fundamentals"), doc(2, "intro to machine learning")];
    let engine = SearchEngine::from_corpus(&corpus).unwrap();
    for codec in [
        Codec { zlib: false, brotli: false },
        Codec { zlib: true, brotli: false },
        Codec { zlib: false, brotli: true },
        Codec { zlib: true, brotli: true },
    ] {
        let bytes = engine.to_bytes(codec).unwrap();
        let back = SearchEngine::from_bytes(bytes, codec).unwrap();
        assert_eq!(back.index().serialize(), engine.index().serialize());
        assert_eq!(back.search("machine", key), engine.search("machine", key));
    }
}

#[test]
fn engine_bytes_without_codec_are_the_layout() {
    let engine = SearchEngine::from_corpus(&[doc(1, "abc")]).unwrap();
    let bytes = engine.to_bytes(Codec { zlib: false, brotli: false }).unwrap();
    assert_eq!(bytes, engine.index().serialize());
}

#[test]
fn engine_refuses_bytes_of_another_codec() {
    let engine = SearchEngine::from_corpus(&[doc(1, "abc def")]).unwrap();
    let z = Codec { zlib: true, brotli: false };
    let b = Codec { zlib: false, brotli: true };
    let n = Codec { zlib: false, brotli: false };
    let bytes = engine.to_bytes(z).unwrap();
    assert!(matches!(SearchEngine::from_bytes(bytes.clone(), b), Err(Error::DecompressionFailure)));
    assert!(SearchEngine::from_bytes(bytes, n).is_err());
    let plain = engine.to_bytes(n).unwrap();
    assert!(matches!(SearchEngine::from_bytes(plain, z), Err(Error::DecompressionFailure)));
}

#[test]
fn engine_refuses_damaged_payload_inside_a_codec() {
    let engine = SearchEngine::from_corpus(&[doc(1, "abc def")]).unwrap();
    let z = Codec { zlib: true, brotli: false };
    let mut plain = engine.index().serialize();
    plain[0] = 9;
    let bytes = courses_data::compress::compress(z, &plain).unwrap();
    assert!(matches!(SearchEngine::from_bytes(bytes, z), Err(Error::UnsupportedFormatVersion)));
    plain[0] = 1;
    plain.pop();
    let bytes = courses_data::compress::compress(z, &plain).unwrap();
    assert!(matches!(SearchEngine::from_bytes(bytes, z), Err(Error::TruncatedOrCorruptPayload)));
}

#[test]
fn duplicate_id_is_refused_by_the_engine() {
    let r = SearchEngine::from_corpus(&[doc(1, "a"), doc(1, "b")]);
    assert!(matches!(r, Err(Error::DuplicateDocumentId)));
}

#[test]
fn adding_a_duplicate_document_lowers_the_rarity_weight() {
    // One document: n = 1, df = 1. With its duplicate: n = 2, df = 2. The
    // lengths and the average length stay the same, the weight of the token falls.
    let alone = build(&[doc(1, "abc")]);
    let twice = build(&[doc(1, "abc"), doc(2, "abc")]);
    let before = score(alone.stats(), &alone.matches("abc")[0]);
    let after = score(twice.stats(), &twice.matches("abc")[0]);
    assert!((before - (4.0f64 / 3.0).ln()).abs() < 1e-12);
    assert!((after - 1.2f64.ln()).abs() < 1e-12);
    assert!(after < before);
}
