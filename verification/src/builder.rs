//! Building the index of a corpus, in one pass over its documents.

use std::collections::HashMap;
use vstd::prelude::*;
use vstd::hash_map::StringHashMap;
use crate::corpus::{
    corpus_tokens, distinct_corpus_ids, doc_entry_of, docs_of, index_of_corpus,
    lemma_corpus_tokens_push, lemma_occurrences_bound, lemma_occurrences_contains,
    lemma_postings_come_from_corpus, lemma_postings_in_doc_order, lemma_vocabulary_contains,
    occurrences, postings_of, terms_of, vocabulary,
};
use crate::error::Error;
use crate::index::{
    doc_slots_agree, lemma_doc_slots_distinct, lemma_term_slots_distinct, term_slots_agree, Index,
};
use crate::model::{
    corpus_view, doc_views, lemma_total_length_bound, lemma_total_length_push, term_views,
    total_length, DocEntry, Document, DocumentView, Posting, TermEntry, TermEntryView,
    DEFAULT_B_MILLI, DEFAULT_K1_MILLI,
};
use crate::tokenizer::{string_views, tokens, NGramTokenizer};

verus! {

broadcast use vstd::std_specs::hash::group_hash_axioms;

/// The postings of `t` while a document is being read: those of the
/// documents before it and, once `t` has been seen in it, one more for the
/// document itself.
spec fn pending_postings(
    done: Seq<DocumentView>,
    doc_id: u32,
    seen: Seq<Seq<char>>,
    t: Seq<char>,
) -> Seq<Posting> {
    let f = occurrences(seen, t);
    if f > 0 {
        postings_of(done, t).push(Posting { doc_id, term_freq: f as u64 })
    } else {
        postings_of(done, t)
    }
}

/// The token table and its lookup table stand for the documents `done` and
/// the tokens `seen` of the document `doc_id` that follows them.
spec fn tables_hold(
    terms: Seq<TermEntryView>,
    slots: Map<Seq<char>, usize>,
    done: Seq<DocumentView>,
    doc_id: u32,
    seen: Seq<Seq<char>>,
) -> bool {
    &&& term_slots_agree(slots, terms)
    &&& terms.len() == vocabulary(corpus_tokens(done) + seen).len()
    &&& forall|p: int|
        0 <= p < terms.len() ==> (#[trigger] terms[p]).token == vocabulary(
            corpus_tokens(done) + seen,
        )[p]
    &&& forall|p: int|
        0 <= p < terms.len() ==> (#[trigger] terms[p]).postings == pending_postings(
            done,
            doc_id,
            seen,
            terms[p].token,
        )
}

/// Counts one more occurrence of `token` in the document `doc_id`.
fn add_token(
    terms: &mut Vec<TermEntry>,
    term_slot: &mut StringHashMap<usize>,
    token: &String,
    doc_id: u32,
    Ghost(done): Ghost<Seq<DocumentView>>,
    Ghost(seen): Ghost<Seq<Seq<char>>>,
)
    requires
        tables_hold(term_views(old(terms)@), old(term_slot)@, done, doc_id, seen),
        forall|i: int| 0 <= i < done.len() ==> (#[trigger] done[i]).id != doc_id,
        seen.len() < usize::MAX,
    ensures
        tables_hold(term_views(final(terms)@), final(term_slot)@, done, doc_id, seen.push(token@)),
{
    let ghost t = token@;
    let ghost before = term_views(terms@);
    let ghost slots_before = term_slot@;
    let ghost all = corpus_tokens(done) + seen;
    let ghost next = corpus_tokens(done) + seen.push(t);
    let ghost f = occurrences(seen, t);
    proof {
        assert(next =~= all.push(t));
        assert(next.drop_last() =~= all);
        assert(seen.push(t).drop_last() =~= seen);
        lemma_occurrences_bound(seen, t);
        lemma_postings_come_from_corpus(done, t);
        lemma_vocabulary_contains(all, t);
    }
    let found: Option<usize> = match term_slot.get(token.as_str()) {
        Some(p) => Some(*p),
        None => None,
    };
    match found {
        Some(p) => {
            assert(before[p as int].token == t);
            assert(vocabulary(all)[p as int] == t);
            assert(vocabulary(all).contains(t));
            assert(vocabulary(next) == vocabulary(all));
            let len: usize = terms[p].postings.len();
            assert(terms@[p as int].postings@ == before[p as int].postings);
            if len > 0 && terms[p].postings[len - 1].doc_id == doc_id {
                proof {
                    if f == 0 {
                        let ps = postings_of(done, t);
                        let i = choose|i: int|
                            0 <= i < done.len() && (#[trigger] done[i]).id == (#[trigger] ps[len
                                - 1]).doc_id;
                        assert(done[i].id != doc_id);
                    }
                    assert(f > 0);
                }
                terms[p].postings[len - 1].term_freq += 1;
                proof {
                    assert(terms@[p as int].postings@ =~= postings_of(done, t).push(
                        Posting { doc_id, term_freq: (f + 1) as u64 },
                    ));
                }
            } else {
                proof {
                    assert(f == 0);
                }
                terms[p].postings.push(Posting { doc_id, term_freq: 1 });
            }
            proof {
                let after = term_views(terms@);
                assert(after.len() == before.len());
                assert forall|q: int| 0 <= q < after.len() implies (#[trigger] after[q]).token
                    == before[q].token by {
                    if q != p {
                        assert(terms@[q] == old(terms)@[q]);
                    }
                }
                assert forall|q: int| 0 <= q < after.len() implies (#[trigger] after[q]).postings
                    == pending_postings(done, doc_id, seen.push(t), after[q].token) by {
                    if q != p {
                        assert(terms@[q] == old(terms)@[q]);
                        assert(after[q].postings == before[q].postings);
                        assert(before[q].token != t) by {
                            if before[q].token == t {
                                assert(slots_before[before[q].token] == q);
                            }
                        }
                    }
                }
                assert(term_slots_agree(term_slot@, after)) by {
                    assert forall|q: int| 0 <= q < after.len() implies term_slot@.contains_key(
                        (#[trigger] after[q]).token,
                    ) && term_slot@[after[q].token] == q by {
                        assert(before[q].token == after[q].token);
                    }
                    assert forall|x: Seq<char>| #[trigger]
                        term_slot@.contains_key(x) implies 0 <= term_slot@[x] < after.len()
                        && after[term_slot@[x] as int].token == x by {
                        assert(before[term_slot@[x] as int].token == x);
                    }
                }
            }
        },
        None => {
            proof {
                if vocabulary(all).contains(t) {
                    let i = choose|i: int| 0 <= i < vocabulary(all).len() && vocabulary(all)[i] == t;
                    assert(before[i].token == t);
                    assert(slots_before.contains_key(before[i].token));
                }
                assert(!all.contains(t));
                lemma_occurrences_contains(seen, t);
                if seen.contains(t) {
                    let i = choose|i: int| 0 <= i < seen.len() && seen[i] == t;
                    assert(all[corpus_tokens(done).len() + i] == t);
                }
                if postings_of(done, t).len() > 0 {
                    let i = choose|i: int|
                        0 <= i < corpus_tokens(done).len() && corpus_tokens(done)[i] == t;
                    assert(all[i] == t);
                }
                assert(f == 0);
                assert(postings_of(done, t) =~= Seq::empty());
                assert(vocabulary(next) == vocabulary(all).push(t));
            }
            let slot: usize = terms.len();
            let mut postings: Vec<Posting> = Vec::new();
            postings.push(Posting { doc_id, term_freq: 1 });
            terms.push(TermEntry { token: token.clone(), postings });
            term_slot.insert(token.clone(), slot);
            proof {
                let after = term_views(terms@);
                assert(after =~= before.push(TermEntryView { token: t, postings: postings@ }));
                assert(after[slot as int].postings =~= pending_postings(
                    done,
                    doc_id,
                    seen.push(t),
                    t,
                ));
                assert forall|q: int| 0 <= q < after.len() implies (#[trigger] after[q]).postings
                    == pending_postings(done, doc_id, seen.push(t), after[q].token) by {
                    if q < slot {
                        assert(after[q] == before[q]);
                        assert(before[q].token != t) by {
                            if before[q].token == t {
                                assert(slots_before.contains_key(before[q].token));
                            }
                        }
                    }
                }
                assert(term_slots_agree(term_slot@, after)) by {
                    assert forall|q: int| 0 <= q < after.len() implies term_slot@.contains_key(
                        (#[trigger] after[q]).token,
                    ) && term_slot@[after[q].token] == q by {
                        if q < slot {
                            assert(after[q] == before[q]);
                            assert(slots_before.contains_key(before[q].token));
                        }
                    }
                    assert forall|x: Seq<char>| #[trigger]
                        term_slot@.contains_key(x) implies 0 <= term_slot@[x] < after.len()
                        && after[term_slot@[x] as int].token == x by {
                        if x != t {
                            assert(slots_before.contains_key(x));
                            assert(before[slots_before[x] as int].token == x);
                        }
                    }
                }
            }
        },
    }
}

impl Index {
    /// The index of a corpus. Each document is tokenized once; its length is
    /// the number of its tokens, and each of its distinct tokens gets one
    /// posting with the number of its occurrences. The empty corpus gives an
    /// empty index. A corpus in which an identifier occurs twice is refused.
    pub fn build(corpus: &[Document]) -> (out: Result<Index, Error>)
        ensures
            match out {
                Ok(ix) => distinct_corpus_ids(corpus_view(corpus@)) && ix.wf() && ix@
                    == index_of_corpus(corpus_view(corpus@)),
                Err(e) => e == Error::DuplicateDocumentId && !distinct_corpus_ids(
                    corpus_view(corpus@),
                ),
            },
    {
        let ghost cv = corpus_view(corpus@);
        let tokenizer = NGramTokenizer;
        let mut docs: Vec<DocEntry> = Vec::new();
        let mut terms: Vec<TermEntry> = Vec::new();
        let mut doc_slot: HashMap<u32, usize> = HashMap::new();
        let mut term_slot: StringHashMap<usize> = StringHashMap::new();
        let mut total: u128 = 0;
        let mut i: usize = 0;
        proof {
            assert(cv.take(0) =~= Seq::empty());
            assert(doc_views(docs@) =~= docs_of(cv.take(0)));
            assert(corpus_tokens(cv.take(0)) + Seq::<Seq<char>>::empty() =~= Seq::empty());
        }
        while i < corpus.len()
            invariant
                i <= corpus@.len(),
                cv == corpus_view(corpus@),
                doc_views(docs@) == docs_of(cv.take(i as int)),
                doc_slots_agree(doc_slot@, doc_views(docs@)),
                tables_hold(term_views(terms@), term_slot@, cv.take(i as int), 0, Seq::empty()),
                total as nat == total_length(doc_views(docs@)),
            decreases corpus@.len() - i,
        {
            let ghost done = cv.take(i as int);
            let ghost cur = cv[i as int];
            let id: u32 = corpus[i].id;
            if doc_slot.contains_key(&id) {
                proof {
                    let j = doc_slot@[id] as int;
                    assert(doc_views(docs@)[j].id == id);
                    assert(cv[j].id == cv[i as int].id);
                }
                return Err(Error::DuplicateDocumentId);
            }
            proof {
                assert forall|k: int| 0 <= k < done.len() implies (#[trigger] done[k]).id != id by {
                    if done[k].id == id {
                        assert(doc_views(docs@)[k].id == id);
                        assert(doc_slot@.contains_key(doc_views(docs@)[k].id));
                    }
                }
            }
            let toks: Vec<String> = tokenizer.tokenize(corpus[i].contents.as_str());
            let ghost tv = string_views(toks@);
            let mut j: usize = 0;
            proof {
                assert(tv.take(0) =~= Seq::empty());
                assert forall|p: int| 0 <= p < terms@.len() implies (#[trigger] term_views(
                    terms@,
                )[p]).postings == pending_postings(
                    done,
                    id,
                    Seq::empty(),
                    term_views(terms@)[p].token,
                ) by {}
            }
            while j < toks.len()
                invariant
                    j <= toks@.len(),
                    tv == string_views(toks@),
                    forall|k: int| 0 <= k < done.len() ==> (#[trigger] done[k]).id != id,
                    tables_hold(term_views(terms@), term_slot@, done, id, tv.take(j as int)),
                decreases toks@.len() - j,
            {
                add_token(
                    &mut terms,
                    &mut term_slot,
                    &toks[j],
                    id,
                    Ghost(done),
                    Ghost(tv.take(j as int)),
                );
                proof {
                    assert(tv.take(j as int).push(toks@[j as int]@) =~= tv.take(j + 1));
                }
                j += 1;
            }
            let ghost docs_before = doc_views(docs@);
            let ghost slots_before = doc_slot@;
            let length: u64 = toks.len() as u64;
            docs.push(DocEntry { id, length, contents: corpus[i].contents.clone() });
            doc_slot.insert(id, i);
            proof {
                let next = cv.take(i + 1);
                assert(tv.take(j as int) =~= tv);
                assert(tv == tokens(cur.contents));
                assert(next =~= done.push(cur));
                assert(next.drop_last() =~= done);
                lemma_corpus_tokens_push(done, cur);
                assert(corpus_tokens(next) + Seq::<Seq<char>>::empty() =~= corpus_tokens(done)
                    + tv);
                let entry = doc_entry_of(cur);
                assert(doc_views(docs@) =~= docs_before.push(entry));
                assert(doc_views(docs@) =~= docs_of(next));
                let tvs = term_views(terms@);
                assert forall|p: int| 0 <= p < tvs.len() implies (#[trigger] tvs[p]).postings
                    == pending_postings(next, 0, Seq::empty(), tvs[p].token) by {
                    assert(tvs[p].postings == pending_postings(done, id, tv, tvs[p].token));
                }
                lemma_total_length_push(docs_before, entry);
                lemma_total_length_bound(docs_before);
                assert(docs_before.len() * 0xffff_ffff_ffff_ffff + 0xffff_ffff_ffff_ffff
                    <= u128::MAX) by (nonlinear_arith)
                    requires
                        docs_before.len() <= 0xffff_ffff_ffff_ffff,
                ;
                let after = doc_views(docs@);
                assert forall|k: int| 0 <= k < after.len() implies doc_slot@.contains_key(
                    (#[trigger] after[k]).id,
                ) && doc_slot@[after[k].id] == k by {
                    if k < i {
                        assert(after[k] == docs_before[k]);
                        assert(slots_before.contains_key(docs_before[k].id));
                    }
                }
                assert forall|x: u32| #[trigger] doc_slot@.contains_key(x) implies 0
                    <= doc_slot@[x] < after.len() && after[doc_slot@[x] as int].id == x by {
                    if x != id {
                        assert(slots_before.contains_key(x));
                        assert(docs_before[slots_before[x] as int].id == x);
                    }
                }
            }
            total = total + length as u128;
            i += 1;
        }
        proof {
            assert(cv.take(i as int) =~= cv);
            assert(corpus_tokens(cv) + Seq::<Seq<char>>::empty() =~= corpus_tokens(cv));
            let tvs = term_views(terms@);
            assert(tvs =~= terms_of(cv));
            lemma_doc_slots_distinct(doc_slot@, doc_views(docs@));
            lemma_term_slots_distinct(term_slot@, tvs);
            assert forall|a: int, c: int| 0 <= a < c < cv.len() implies (#[trigger] cv[a]).id != (
            #[trigger] cv[c]).id by {
                assert(docs_of(cv)[a].id != docs_of(cv)[c].id);
            }
            assert forall|p: int| 0 <= p < tvs.len() implies crate::model::in_doc_order(
                docs_of(cv),
                (#[trigger] tvs[p]).postings,
            ) by {
                lemma_postings_in_doc_order(cv, tvs[p].token);
            }
        }
        Ok(
            Index {
                docs,
                terms,
                total_length: total,
                k1_milli: DEFAULT_K1_MILLI,
                b_milli: DEFAULT_B_MILLI,
                doc_slot,
                term_slot,
            },
        )
    }
}

} // verus!
