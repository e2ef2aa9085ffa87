//! Finding the documents that a query touches, with the statistics that the
//! ranking formula reads.
//!
//! The formula itself works on real numbers and is applied by the caller:
//! `Index::matches` hands out, for every document that shares a token with
//! the query, the integers that the formula reads, and `Index::rank` orders
//! the documents by the scores that the caller computed from them.

use vstd::prelude::*;
use vstd::hash_map::StringHashMap;
use crate::corpus::{index_of_corpus, vocabulary};
use crate::index::{lemma_doc_slots_distinct, lemma_term_slots_distinct, Index};
use crate::model::{
    distinct_ids, distinct_tokens, has_doc, in_doc_order, lemma_slot_of_position, slot_of,
    DocEntryView, DocumentView, IndexView, Posting, TermEntryView,
};
use crate::tokenizer::{string_views, tokens, NGramTokenizer};

verus! {

/// One token of the query found in one document: how often the document holds
/// the token, and how many documents hold it.
#[derive(Clone, Copy, Debug, PartialEq, Eq, Structural)]
pub struct TermHit {
    pub term_freq: u64,
    pub doc_freq: u64,
}

/// A document that shares at least one token with the query. `hits` has one
/// entry for each distinct token of the query that the document holds, in the
/// order in which the query first names them.
#[derive(Debug)]
pub struct DocMatch {
    pub doc_id: u32,
    pub doc_len: u64,
    pub hits: Vec<TermHit>,
}

/// The model of a `DocMatch`.
pub struct DocMatchView {
    pub doc_id: u32,
    pub doc_len: u64,
    pub hits: Seq<TermHit>,
}

impl View for DocMatch {
    type V = DocMatchView;

    open spec fn view(&self) -> DocMatchView {
        DocMatchView { doc_id: self.doc_id, doc_len: self.doc_len, hits: self.hits@ }
    }
}

/// The models of a list of matches.
pub open spec fn match_views(v: Seq<DocMatch>) -> Seq<DocMatchView> {
    Seq::new(v.len(), |i: int| v[i]@)
}

/// The token table has an entry for `t`.
pub open spec fn has_term(terms: Seq<TermEntryView>, t: Seq<char>) -> bool {
    exists|p: int| 0 <= p < terms.len() && (#[trigger] terms[p]).token == t
}

/// The entry of the token table for `t`.
pub open spec fn term_for(terms: Seq<TermEntryView>, t: Seq<char>) -> TermEntryView {
    terms[choose|p: int| 0 <= p < terms.len() && (#[trigger] terms[p]).token == t]
}

/// The postings list has a posting for the document `id`.
pub open spec fn names_doc(postings: Seq<Posting>, id: u32) -> bool {
    exists|k: int| 0 <= k < postings.len() && (#[trigger] postings[k]).doc_id == id
}

/// The posting of the list for the document `id`.
pub open spec fn posting_for(postings: Seq<Posting>, id: u32) -> Posting {
    postings[choose|k: int| 0 <= k < postings.len() && (#[trigger] postings[k]).doc_id == id]
}

/// What the token `t` contributes to the document `id`: nothing where the
/// index does not know the token or the document does not hold it; else the
/// token's frequency in the document and the length of its postings list.
pub open spec fn hit_of(v: IndexView, t: Seq<char>, id: u32) -> Option<TermHit> {
    if has_term(v.terms, t) && names_doc(term_for(v.terms, t).postings, id) {
        let postings = term_for(v.terms, t).postings;
        Some(
            TermHit {
                term_freq: posting_for(postings, id).term_freq,
                doc_freq: postings.len() as u64,
            },
        )
    } else {
        None
    }
}

/// The hits of the document `id` for the query tokens `qterms`, in their
/// order.
pub open spec fn hits_of(v: IndexView, qterms: Seq<Seq<char>>, id: u32) -> Seq<TermHit>
    decreases qterms.len(),
{
    if qterms.len() == 0 {
        Seq::empty()
    } else {
        let front = hits_of(v, qterms.drop_last(), id);
        match hit_of(v, qterms.last(), id) {
            Some(h) => front.push(h),
            None => front,
        }
    }
}

/// The matches among `docs`, in their order: every document with at least
/// one hit.
pub open spec fn matches_among(v: IndexView, docs: Seq<DocEntryView>, qterms: Seq<Seq<char>>) -> Seq<
    DocMatchView,
>
    decreases docs.len(),
{
    if docs.len() == 0 {
        Seq::empty()
    } else {
        let front = matches_among(v, docs.drop_last(), qterms);
        let hits = hits_of(v, qterms, docs.last().id);
        if hits.len() > 0 {
            front.push(DocMatchView { doc_id: docs.last().id, doc_len: docs.last().length, hits })
        } else {
            front
        }
    }
}

/// The matches of a query: its text is tokenized as the documents were, each
/// distinct token counts once, and the documents come in the order of the
/// document table.
pub open spec fn matches_of(v: IndexView, query: Seq<char>) -> Seq<DocMatchView> {
    matches_among(v, v.docs, vocabulary(tokens(query)))
}

/// For each distinct token of the query, its place in the token table, if it
/// has one.
spec fn slots_match(
    terms: Seq<TermEntryView>,
    qterms: Seq<Seq<char>>,
    slots: Seq<Option<usize>>,
) -> bool {
    &&& slots.len() == qterms.len()
    &&& forall|k: int|
        0 <= k < slots.len() ==> match #[trigger] slots[k] {
            Some(p) => p < terms.len() && terms[p as int].token == qterms[k],
            None => !has_term(terms, qterms[k]),
        }
}

/// The postings before position `c` belong to documents before position `i`
/// of the document table, and the others to documents from `i` on.
spec fn cursor_at(docs: Seq<DocEntryView>, postings: Seq<Posting>, i: int, c: int) -> bool {
    &&& 0 <= c <= postings.len()
    &&& forall|x: int| 0 <= x < c ==> slot_of(docs, (#[trigger] postings[x]).doc_id) < i
    &&& forall|x: int|
        c <= x < postings.len() ==> slot_of(docs, (#[trigger] postings[x]).doc_id) >= i
}

/// With unique tokens, the entry at position `p` is the one that `term_for`
/// finds for its token.
pub proof fn lemma_term_for_position(terms: Seq<TermEntryView>, p: int)
    requires
        distinct_tokens(terms),
        0 <= p < terms.len(),
    ensures
        has_term(terms, terms[p].token),
        term_for(terms, terms[p].token) == terms[p],
{
    let t = terms[p].token;
    let q = choose|q: int| 0 <= q < terms.len() && (#[trigger] terms[q]).token == t;
    if q < p {
        assert(terms[q].token != terms[p].token);
    } else if p < q {
        assert(terms[p].token != terms[q].token);
    }
}

/// Moving the cursor of one postings list past the document at position `i`:
/// the list has a posting for that document exactly if the posting under the
/// cursor names it.
proof fn lemma_cursor_step(docs: Seq<DocEntryView>, postings: Seq<Posting>, i: int, c: int)
    requires
        distinct_ids(docs),
        in_doc_order(docs, postings),
        0 <= i < docs.len(),
        cursor_at(docs, postings, i, c),
    ensures
        c < postings.len() && postings[c].doc_id == docs[i].id ==> names_doc(postings, docs[i].id)
            && posting_for(postings, docs[i].id) == postings[c] && cursor_at(
            docs,
            postings,
            i + 1,
            c + 1,
        ),
        !(c < postings.len() && postings[c].doc_id == docs[i].id) ==> !names_doc(
            postings,
            docs[i].id,
        ) && cursor_at(docs, postings, i + 1, c),
{
    let id = docs[i].id;
    lemma_slot_of_position(docs, i);
    if c < postings.len() && postings[c].doc_id == id {
        let k = choose|k: int| 0 <= k < postings.len() && (#[trigger] postings[k]).doc_id == id;
        if k < c {
            assert(slot_of(docs, postings[k].doc_id) < slot_of(docs, postings[c].doc_id));
        } else if c < k {
            assert(slot_of(docs, postings[c].doc_id) < slot_of(docs, postings[k].doc_id));
        }
        assert forall|x: int| c + 1 <= x < postings.len() implies slot_of(
            docs,
            (#[trigger] postings[x]).doc_id,
        ) >= i + 1 by {
            assert(slot_of(docs, postings[c].doc_id) < slot_of(docs, postings[x].doc_id));
        }
    } else {
        assert forall|x: int| c <= x < postings.len() implies slot_of(
            docs,
            (#[trigger] postings[x]).doc_id,
        ) >= i + 1 by {
            let s = slot_of(docs, postings[x].doc_id);
            assert(has_doc(docs, postings[x].doc_id));
            assert(docs[s].id == postings[x].doc_id);
            if x > c {
                assert(slot_of(docs, postings[c].doc_id) < slot_of(docs, postings[x].doc_id));
            }
        }
        if names_doc(postings, id) {
            let k = choose|k: int| 0 <= k < postings.len() && (#[trigger] postings[k]).doc_id == id;
            if k < c {
                assert(slot_of(docs, postings[k].doc_id) < i);
            } else {
                assert(slot_of(docs, postings[k].doc_id) >= i + 1);
            }
        }
    }
}

/// Determinism: two indexes built from the same corpus are the same index,
/// and give every query the same matches with the same statistics. A score
/// computed from the matches and the scalars is therefore the same for both.
pub proof fn lemma_builds_agree(
    a: IndexView,
    b: IndexView,
    corpus: Seq<DocumentView>,
    query: Seq<char>,
)
    requires
        a == index_of_corpus(corpus),
        b == index_of_corpus(corpus),
    ensures
        a == b,
        matches_of(a, query) == matches_of(b, query),
        crate::index::stats_of(a) == crate::index::stats_of(b),
{
}

impl Index {
    /// The postings list of a token, if the index knows the token.
    pub fn postings(&self, token: &str) -> (out: Option<&Vec<Posting>>)
        requires
            self.wf(),
        ensures
            match out {
                Some(p) => has_term(self@.terms, token@) && p@ == term_for(
                    self@.terms,
                    token@,
                ).postings,
                None => !has_term(self@.terms, token@),
            },
    {
        let ghost terms = self@.terms;
        proof {
            lemma_term_slots_distinct(self.term_slot@, terms);
            if has_term(terms, token@) {
                let w = choose|w: int|
                    0 <= w < terms.len() && (#[trigger] terms[w]).token == token@;
                assert(self.term_slot@.contains_key(terms[w].token));
            }
        }
        match self.term_slot.get(token) {
            Some(slot) => {
                proof {
                    assert(terms[*slot as int].token == token@);
                    lemma_term_for_position(terms, *slot as int);
                }
                Some(&self.terms[*slot].postings)
            },
            None => None,
        }
    }

    /// For each distinct token of the query, in the order of its first
    /// occurrence, the token's place in the token table.
    fn query_slots(&self, query: &str) -> (slots: Vec<Option<usize>>)
        requires
            self.wf(),
        ensures
            slots_match(self@.terms, vocabulary(tokens(query@)), slots@),
    {
        let tokenizer = NGramTokenizer;
        let toks: Vec<String> = tokenizer.tokenize(query);
        let ghost tv = string_views(toks@);
        let mut seen: StringHashMap<bool> = StringHashMap::new();
        let mut slots: Vec<Option<usize>> = Vec::new();
        let mut j: usize = 0;
        assert(tv.take(0) =~= Seq::empty());
        while j < toks.len()
            invariant
                self.wf(),
                j <= toks@.len(),
                tv == string_views(toks@),
                slots_match(self@.terms, vocabulary(tv.take(j as int)), slots@),
                forall|t: Seq<char>| #[trigger]
                    seen@.contains_key(t) <==> vocabulary(tv.take(j as int)).contains(t),
            decreases toks@.len() - j,
        {
            let ghost before = vocabulary(tv.take(j as int));
            let ghost t = toks@[j as int]@;
            proof {
                assert(tv.take(j + 1).drop_last() =~= tv.take(j as int));
                assert(tv.take(j + 1).last() == t);
            }
            if !seen.contains_key(toks[j].as_str()) {
                let slot: Option<usize> = match self.term_slot.get(toks[j].as_str()) {
                    Some(p) => Some(*p),
                    None => None,
                };
                proof {
                    if has_term(self@.terms, t) {
                        let p = choose|p: int|
                            0 <= p < self@.terms.len() && (#[trigger] self@.terms[p]).token == t;
                        assert(self.term_slot@.contains_key(self@.terms[p].token));
                    }
                }
                slots.push(slot);
                seen.insert(toks[j].clone(), true);
                proof {
                    let after = before.push(t);
                    assert(vocabulary(tv.take(j + 1)) == after);
                    assert forall|x: Seq<char>| #[trigger]
                        seen@.contains_key(x) <==> after.contains(x) by {
                        if before.contains(x) {
                            let i = choose|i: int| 0 <= i < before.len() && before[i] == x;
                            assert(after[i] == x);
                        }
                        if after.contains(x) {
                            let i = choose|i: int| 0 <= i < after.len() && after[i] == x;
                            if i < before.len() {
                                assert(before[i] == x);
                            }
                        }
                        assert(after[before.len() as int] == t);
                    }
                }
            }
            j += 1;
        }
        assert(tv.take(j as int) =~= tv);
        slots
    }

    /// The documents that share a token with the query, in the order of the
    /// document table, each with the statistics of the tokens it shares.
    /// A query shorter than one token, and a query none of whose tokens the
    /// index knows, match nothing.
    pub fn matches(&self, query: &str) -> (out: Vec<DocMatch>)
        requires
            self.wf(),
        ensures
            match_views(out@) == matches_of(self@, query@),
            out@.len() == matches_of(self@, query@).len(),
    {
        let ghost v = self@;
        let ghost qterms = vocabulary(tokens(query@));
        let slots: Vec<Option<usize>> = self.query_slots(query);
        let mut cursors: Vec<usize> = Vec::new();
        let mut k: usize = 0;
        proof {
            lemma_doc_slots_distinct(self.doc_slot@, v.docs);
            lemma_term_slots_distinct(self.term_slot@, v.terms);
        }
        while k < slots.len()
            invariant
                k <= slots@.len(),
                cursors@.len() == k,
                v == self@,
                self.wf(),
                slots_match(v.terms, qterms, slots@),
                forall|x: int|
                    0 <= x < k ==> (#[trigger] slots@[x] matches Some(p) ==> cursor_at(
                        v.docs,
                        v.terms[p as int].postings,
                        0,
                        cursors@[x] as int,
                    )),
            decreases slots@.len() - k,
        {
            cursors.push(0);
            proof {
                if let Some(p) = slots@[k as int] {
                    let postings = v.terms[p as int].postings;
                    assert forall|x: int| 0 <= x < postings.len() implies slot_of(
                        v.docs,
                        (#[trigger] postings[x]).doc_id,
                    ) >= 0 by {
                        assert(has_doc(v.docs, postings[x].doc_id));
                    }
                }
            }
            k += 1;
        }
        let mut out: Vec<DocMatch> = Vec::new();
        let mut i: usize = 0;
        assert(v.docs.take(0) =~= Seq::empty());
        assert(match_views(out@) =~= matches_among(v, v.docs.take(0), qterms));
        while i < self.docs.len()
            invariant
                i <= self.docs@.len(),
                v == self@,
                self.wf(),
                distinct_ids(v.docs),
                distinct_tokens(v.terms),
                slots_match(v.terms, qterms, slots@),
                cursors@.len() == slots@.len(),
                forall|x: int|
                    0 <= x < slots@.len() ==> (#[trigger] slots@[x] matches Some(p) ==> cursor_at(
                        v.docs,
                        v.terms[p as int].postings,
                        i as int,
                        cursors@[x] as int,
                    )),
                match_views(out@) == matches_among(v, v.docs.take(i as int), qterms),
            decreases self.docs@.len() - i,
        {
            let id: u32 = self.docs[i].id;
            assert(v.docs[i as int].id == id);
            let mut hits: Vec<TermHit> = Vec::new();
            let mut k: usize = 0;
            assert(qterms.take(0) =~= Seq::empty());
            while k < slots.len()
                invariant
                    k <= slots@.len(),
                    i < self.docs@.len(),
                    v == self@,
                    self.wf(),
                    v.docs[i as int].id == id,
                    distinct_ids(v.docs),
                    distinct_tokens(v.terms),
                    slots_match(v.terms, qterms, slots@),
                    cursors@.len() == slots@.len(),
                    forall|x: int|
                        0 <= x < k ==> (#[trigger] slots@[x] matches Some(p) ==> cursor_at(
                            v.docs,
                            v.terms[p as int].postings,
                            i + 1,
                            cursors@[x] as int,
                        )),
                    forall|x: int|
                        k <= x < slots@.len() ==> (#[trigger] slots@[x] matches Some(p)
                            ==> cursor_at(
                            v.docs,
                            v.terms[p as int].postings,
                            i as int,
                            cursors@[x] as int,
                        )),
                    hits@ == hits_of(v, qterms.take(k as int), id),
                decreases slots@.len() - k,
            {
                proof {
                    assert(qterms.take(k + 1).drop_last() =~= qterms.take(k as int));
                    assert(qterms.take(k + 1).last() == qterms[k as int]);
                }
                match slots[k] {
                    Some(p) => {
                        let postings = &self.terms[p].postings;
                        let c: usize = cursors[k];
                        proof {
                            assert(v.terms[p as int].postings == postings@);
                            assert(in_doc_order(v.docs, v.terms[p as int].postings));
                            lemma_cursor_step(v.docs, postings@, i as int, c as int);
                            lemma_term_for_position(v.terms, p as int);
                        }
                        if c < postings.len() && postings[c].doc_id == id {
                            hits.push(
                                TermHit {
                                    term_freq: postings[c].term_freq,
                                    doc_freq: postings.len() as u64,
                                },
                            );
                            cursors.set(k, c + 1);
                        }
                    },
                    None => {},
                }
                k += 1;
            }
            proof {
                assert(qterms.take(k as int) =~= qterms);
                assert(v.docs.take(i + 1).drop_last() =~= v.docs.take(i as int));
                assert(v.docs.take(i + 1).last() == v.docs[i as int]);
            }
            if hits.len() > 0 {
                let ghost before = match_views(out@);
                let m = DocMatch { doc_id: id, doc_len: self.docs[i].length, hits };
                out.push(m);
                assert(match_views(out@) =~= before.push(m@));
            }
            i += 1;
        }
        assert(v.docs.take(i as int) =~= v.docs);
        out
    }
}

} // verus!
