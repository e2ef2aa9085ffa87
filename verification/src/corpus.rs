//! What the index of a corpus is: a function from the corpus to the model of
//! its index.

use vstd::prelude::*;
use crate::model::{
    distinct_ids, has_doc, in_doc_order, lemma_slot_of_position, slot_of, total_length,
    DocEntryView, DocumentView, IndexView, Posting, TermEntryView, DEFAULT_B_MILLI,
    DEFAULT_K1_MILLI,
};
use crate::tokenizer::tokens;

verus! {

/// How often the token `t` occurs among `toks`.
pub open spec fn occurrences(toks: Seq<Seq<char>>, t: Seq<char>) -> nat
    decreases toks.len(),
{
    if toks.len() == 0 {
        0
    } else {
        occurrences(toks.drop_last(), t) + if toks.last() == t {
            1nat
        } else {
            0nat
        }
    }
}

/// The distinct tokens among `toks`, each at the place of its first
/// occurrence.
pub open spec fn vocabulary(toks: Seq<Seq<char>>) -> Seq<Seq<char>>
    decreases toks.len(),
{
    if toks.len() == 0 {
        Seq::empty()
    } else {
        let front = vocabulary(toks.drop_last());
        if front.contains(toks.last()) {
            front
        } else {
            front.push(toks.last())
        }
    }
}

/// The tokens of all documents of the corpus, one document after the other.
pub open spec fn corpus_tokens(corpus: Seq<DocumentView>) -> Seq<Seq<char>>
    decreases corpus.len(),
{
    if corpus.len() == 0 {
        Seq::empty()
    } else {
        corpus_tokens(corpus.drop_last()) + tokens(corpus.last().contents)
    }
}

/// The postings list of the token `t`: for each document that contains `t`,
/// in corpus order, the document's identifier and how often `t` occurs in it.
pub open spec fn postings_of(corpus: Seq<DocumentView>, t: Seq<char>) -> Seq<Posting>
    decreases corpus.len(),
{
    if corpus.len() == 0 {
        Seq::empty()
    } else {
        let front = postings_of(corpus.drop_last(), t);
        let f = occurrences(tokens(corpus.last().contents), t);
        if f > 0 {
            front.push(Posting { doc_id: corpus.last().id, term_freq: f as u64 })
        } else {
            front
        }
    }
}

/// The entry of the document table for a document: its length is the number
/// of its tokens, repeats included.
pub open spec fn doc_entry_of(d: DocumentView) -> DocEntryView {
    DocEntryView { id: d.id, length: tokens(d.contents).len() as u64, contents: d.contents }
}

/// The document table of a corpus.
pub open spec fn docs_of(corpus: Seq<DocumentView>) -> Seq<DocEntryView> {
    Seq::new(corpus.len(), |i: int| doc_entry_of(corpus[i]))
}

/// The token table of a corpus: its vocabulary, each token with its postings.
pub open spec fn terms_of(corpus: Seq<DocumentView>) -> Seq<TermEntryView> {
    let vocab = vocabulary(corpus_tokens(corpus));
    Seq::new(
        vocab.len(),
        |p: int| TermEntryView { token: vocab[p], postings: postings_of(corpus, vocab[p]) },
    )
}

/// The index that `Index::build` makes of a corpus.
pub open spec fn index_of_corpus(corpus: Seq<DocumentView>) -> IndexView {
    IndexView {
        docs: docs_of(corpus),
        terms: terms_of(corpus),
        total_length: total_length(docs_of(corpus)) as u128,
        k1_milli: DEFAULT_K1_MILLI,
        b_milli: DEFAULT_B_MILLI,
    }
}

/// No identifier occurs twice in the corpus.
pub open spec fn distinct_corpus_ids(corpus: Seq<DocumentView>) -> bool {
    forall|i: int, j: int|
        0 <= i < j < corpus.len() ==> (#[trigger] corpus[i]).id != (#[trigger] corpus[j]).id
}

/// A token occurs among `toks` at most as often as `toks` is long.
pub proof fn lemma_occurrences_bound(toks: Seq<Seq<char>>, t: Seq<char>)
    ensures
        occurrences(toks, t) <= toks.len(),
    decreases toks.len(),
{
    if toks.len() > 0 {
        lemma_occurrences_bound(toks.drop_last(), t);
    }
}

/// A token occurs at least once among `toks` exactly if `toks` contains it.
pub proof fn lemma_occurrences_contains(toks: Seq<Seq<char>>, t: Seq<char>)
    ensures
        occurrences(toks, t) > 0 <==> toks.contains(t),
    decreases toks.len(),
{
    if toks.len() > 0 {
        let front = toks.drop_last();
        lemma_occurrences_contains(front, t);
        if toks.contains(t) {
            let i = choose|i: int| 0 <= i < toks.len() && toks[i] == t;
            if i < toks.len() - 1 {
                assert(front[i] == t);
            }
        }
        if front.contains(t) {
            let i = choose|i: int| 0 <= i < front.len() && front[i] == t;
            assert(toks[i] == t);
        }
        if toks.last() == t {
            assert(toks[toks.len() - 1] == t);
        }
    }
}

/// The vocabulary holds exactly the tokens that occur.
pub proof fn lemma_vocabulary_contains(toks: Seq<Seq<char>>, t: Seq<char>)
    ensures
        vocabulary(toks).contains(t) <==> toks.contains(t),
    decreases toks.len(),
{
    if toks.len() > 0 {
        let front = toks.drop_last();
        let v = vocabulary(front);
        lemma_vocabulary_contains(front, t);
        lemma_vocabulary_contains(front, toks.last());
        if toks.contains(t) {
            let i = choose|i: int| 0 <= i < toks.len() && toks[i] == t;
            if i < toks.len() - 1 {
                assert(front[i] == t);
            }
        }
        if front.contains(t) {
            let i = choose|i: int| 0 <= i < front.len() && front[i] == t;
            assert(toks[i] == t);
        }
        assert(toks[toks.len() - 1] == toks.last());
        if v.contains(toks.last()) {
        } else {
            let w = v.push(toks.last());
            assert(w[v.len() as int] == toks.last());
            if v.contains(t) {
                let i = choose|i: int| 0 <= i < v.len() && v[i] == t;
                assert(w[i] == t);
            }
            if w.contains(t) {
                let i = choose|i: int| 0 <= i < w.len() && w[i] == t;
                if i < v.len() {
                    assert(v[i] == t);
                }
            }
        }
    }
}

/// The tokens of a corpus contain the tokens of each of its parts.
pub proof fn lemma_corpus_tokens_push(corpus: Seq<DocumentView>, d: DocumentView)
    ensures
        corpus_tokens(corpus.push(d)) == corpus_tokens(corpus) + tokens(d.contents),
{
    assert(corpus.push(d).drop_last() =~= corpus);
}

/// Every posting of a token belongs to a document of the corpus, and a token
/// with a posting occurs among the tokens of the corpus.
pub proof fn lemma_postings_come_from_corpus(corpus: Seq<DocumentView>, t: Seq<char>)
    ensures
        forall|k: int|
            0 <= k < postings_of(corpus, t).len() ==> exists|i: int|
                0 <= i < corpus.len() && (#[trigger] corpus[i]).id == (#[trigger] postings_of(
                    corpus,
                    t,
                )[k]).doc_id,
        postings_of(corpus, t).len() > 0 ==> corpus_tokens(corpus).contains(t),
    decreases corpus.len(),
{
    if corpus.len() > 0 {
        let front = corpus.drop_last();
        let last = corpus.last();
        lemma_postings_come_from_corpus(front, t);
        let ps = postings_of(corpus, t);
        let fp = postings_of(front, t);
        let toks = tokens(last.contents);
        assert forall|k: int| 0 <= k < ps.len() implies exists|i: int|
            0 <= i < corpus.len() && (#[trigger] corpus[i]).id == (#[trigger] ps[k]).doc_id by {
            if k < fp.len() {
                assert(ps[k] == fp[k]);
                let i = choose|i: int|
                    0 <= i < front.len() && (#[trigger] front[i]).id == fp[k].doc_id;
                assert(corpus[i].id == ps[k].doc_id);
            } else {
                assert(corpus[corpus.len() - 1].id == ps[k].doc_id);
            }
        }
        if ps.len() > 0 {
            let all = corpus_tokens(corpus);
            let ft = corpus_tokens(front);
            if fp.len() > 0 {
                let i = choose|i: int| 0 <= i < ft.len() && ft[i] == t;
                assert(all[i] == t);
            } else {
                lemma_occurrences_contains(toks, t);
                let i = choose|i: int| 0 <= i < toks.len() && toks[i] == t;
                assert(all[ft.len() + i] == t);
            }
        }
    }
}

/// With unique identifiers, a document keeps its position when the table
/// grows at its end.
pub proof fn lemma_slot_stays(corpus: Seq<DocumentView>, id: u32)
    requires
        corpus.len() > 0,
        distinct_corpus_ids(corpus),
        has_doc(docs_of(corpus.drop_last()), id),
    ensures
        has_doc(docs_of(corpus), id),
        slot_of(docs_of(corpus), id) == slot_of(docs_of(corpus.drop_last()), id),
        slot_of(docs_of(corpus), id) < corpus.len() - 1,
{
    let front = docs_of(corpus.drop_last());
    let all = docs_of(corpus);
    let s = slot_of(front, id);
    assert(0 <= s < front.len() && front[s].id == id);
    assert(all[s].id == id);
    lemma_docs_of_distinct(corpus);
    lemma_slot_of_position(all, s);
}

/// The document table of a corpus with unique identifiers has unique
/// identifiers.
pub proof fn lemma_docs_of_distinct(corpus: Seq<DocumentView>)
    requires
        distinct_corpus_ids(corpus),
    ensures
        distinct_ids(docs_of(corpus)),
{
    let docs = docs_of(corpus);
    assert forall|i: int, j: int| 0 <= i < j < docs.len() implies (#[trigger] docs[i]).id != (
    #[trigger] docs[j]).id by {
        assert(corpus[i].id != corpus[j].id);
    }
}

/// In a corpus with unique identifiers, every postings list names documents
/// of the corpus, in corpus order.
pub proof fn lemma_postings_in_doc_order(corpus: Seq<DocumentView>, t: Seq<char>)
    requires
        distinct_corpus_ids(corpus),
    ensures
        in_doc_order(docs_of(corpus), postings_of(corpus, t)),
    decreases corpus.len(),
{
    let all = docs_of(corpus);
    let ps = postings_of(corpus, t);
    if corpus.len() > 0 {
        let front = corpus.drop_last();
        let fp = postings_of(front, t);
        assert forall|i: int, j: int| 0 <= i < j < front.len() implies (#[trigger] front[i]).id != (
        #[trigger] front[j]).id by {
            assert(corpus[i].id != corpus[j].id);
        }
        lemma_postings_in_doc_order(front, t);
        lemma_docs_of_distinct(corpus);
        let n = corpus.len() - 1;
        lemma_slot_of_position(all, n);
        assert forall|k: int| 0 <= k < ps.len() implies has_doc(all, (#[trigger] ps[k]).doc_id)
            && (k < fp.len() ==> slot_of(all, ps[k].doc_id) < n) && (k >= fp.len() ==> slot_of(
            all,
            ps[k].doc_id,
        ) == n) by {
            if k < fp.len() {
                assert(ps[k] == fp[k]);
                lemma_slot_stays(corpus, fp[k].doc_id);
            }
        }
        assert forall|j: int, k: int| 0 <= j < k < ps.len() implies slot_of(
            all,
            (#[trigger] ps[j]).doc_id,
        ) < slot_of(all, (#[trigger] ps[k]).doc_id) by {
            assert(ps[j] == fp[j]);
            lemma_slot_stays(corpus, fp[j].doc_id);
            if k < fp.len() {
                assert(ps[k] == fp[k]);
                lemma_slot_stays(corpus, fp[k].doc_id);
            }
        }
    }
}

} // verus!
