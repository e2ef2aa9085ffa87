//! The inverted index: the document table, the token table with its postings
//! lists, and the scalars of the ranking formula.

use std::collections::HashMap;
use vstd::prelude::*;
use vstd::hash_map::StringHashMap;
use crate::model::{
    distinct_ids, distinct_tokens, doc_views, has_doc, in_doc_order, lemma_slot_of_position,
    lemma_total_length_bound, lemma_total_length_push, slot_of, term_views, total_length, valid,
    DocEntry, DocEntryView, IndexView, Posting, TermEntry, TermEntryView,
};

verus! {

broadcast use vstd::std_specs::hash::group_hash_axioms;

/// The lookup table of documents gives, for every identifier of the document
/// table, its position there, and holds no other identifier.
pub open spec fn doc_slots_agree(slots: Map<u32, usize>, docs: Seq<DocEntryView>) -> bool {
    &&& forall|i: int|
        0 <= i < docs.len() ==> slots.contains_key((#[trigger] docs[i]).id) && slots[docs[i].id]
            == i
    &&& forall|id: u32| #[trigger]
        slots.contains_key(id) ==> 0 <= slots[id] < docs.len() && docs[slots[id] as int].id == id
}

/// The lookup table of tokens gives, for every token of the token table, its
/// position there, and holds no other token.
pub open spec fn term_slots_agree(slots: Map<Seq<char>, usize>, terms: Seq<TermEntryView>) -> bool {
    &&& forall|p: int|
        0 <= p < terms.len() ==> slots.contains_key((#[trigger] terms[p]).token)
            && slots[terms[p].token] == p
    &&& forall|t: Seq<char>| #[trigger]
        slots.contains_key(t) ==> 0 <= slots[t] < terms.len() && terms[slots[t] as int].token == t
}

/// The scalars of the ranking formula: the number of documents, the sum of
/// their lengths (the average length is the quotient of the two), and `k1`
/// and `b` in thousandths.
#[derive(Clone, Copy, Debug, PartialEq, Eq, Structural)]
pub struct CorpusStats {
    pub doc_count: u64,
    pub total_length: u128,
    pub k1_milli: u32,
    pub b_milli: u32,
}

/// The scalars of an index.
pub open spec fn stats_of(v: IndexView) -> CorpusStats {
    CorpusStats {
        doc_count: v.docs.len() as u64,
        total_length: v.total_length,
        k1_milli: v.k1_milli,
        b_milli: v.b_milli,
    }
}

/// An inverted index over a fixed corpus. It is made once, by `Index::build`
/// or by `Index::deserialize`, and is only read afterwards.
pub struct Index {
    pub(crate) docs: Vec<DocEntry>,
    pub(crate) terms: Vec<TermEntry>,
    pub(crate) total_length: u128,
    pub(crate) k1_milli: u32,
    pub(crate) b_milli: u32,
    pub(crate) doc_slot: HashMap<u32, usize>,
    pub(crate) term_slot: StringHashMap<usize>,
}

impl View for Index {
    type V = IndexView;

    open(crate) spec fn view(&self) -> IndexView {
        IndexView {
            docs: doc_views(self.docs@),
            terms: term_views(self.terms@),
            total_length: self.total_length,
            k1_milli: self.k1_milli,
            b_milli: self.b_milli,
        }
    }
}

impl Index {
    /// The model satisfies the invariants of an index, and the two lookup
    /// tables agree with the document table and the token table.
    pub open(crate) spec fn wf(&self) -> bool {
        &&& valid(self@)
        &&& doc_slots_agree(self.doc_slot@, self@.docs)
        &&& term_slots_agree(self.term_slot@, self@.terms)
    }

    /// A well-formed index has a valid model.
    pub proof fn lemma_wf_valid(&self)
        requires
            self.wf(),
        ensures
            valid(self@),
    {
    }

    /// The scalars that the ranking formula reads.
    pub fn stats(&self) -> (out: CorpusStats)
        ensures
            out == stats_of(self@),
    {
        CorpusStats {
            doc_count: self.docs.len() as u64,
            total_length: self.total_length,
            k1_milli: self.k1_milli,
            b_milli: self.b_milli,
        }
    }

    /// The number of documents.
    pub fn doc_count(&self) -> (out: usize)
        ensures
            out == self@.docs.len(),
    {
        self.docs.len()
    }

    /// The document table, in corpus order.
    pub fn documents(&self) -> (out: &Vec<DocEntry>)
        ensures
            doc_views(out@) == self@.docs,
    {
        &self.docs
    }

    /// The token table.
    pub fn terms(&self) -> (out: &Vec<TermEntry>)
        ensures
            term_views(out@) == self@.terms,
    {
        &self.terms
    }

    /// The entry of the document with this identifier, if the index holds it.
    pub fn document(&self, id: u32) -> (out: Option<&DocEntry>)
        requires
            self.wf(),
        ensures
            match out {
                Some(d) => has_doc(self@.docs, id) && d@ == self@.docs[slot_of(self@.docs, id)],
                None => !has_doc(self@.docs, id),
            },
    {
        let ghost docs = self@.docs;
        proof {
            lemma_doc_slots_distinct(self.doc_slot@, docs);
            if has_doc(docs, id) {
                let w = choose|w: int| 0 <= w < docs.len() && (#[trigger] docs[w]).id == id;
                assert(self.doc_slot@.contains_key(docs[w].id));
            }
        }
        match self.doc_slot.get(&id) {
            Some(slot) => {
                proof {
                    assert(docs[*slot as int].id == id);
                    lemma_slot_of_position(docs, *slot as int);
                }
                Some(&self.docs[*slot])
            },
            None => None,
        }
    }
}

/// A lookup table that agrees with the document table shows that no
/// identifier occurs twice there.
pub proof fn lemma_doc_slots_distinct(slots: Map<u32, usize>, docs: Seq<DocEntryView>)
    requires
        doc_slots_agree(slots, docs),
    ensures
        distinct_ids(docs),
{
    assert forall|i: int, j: int| 0 <= i < j < docs.len() implies (#[trigger] docs[i]).id != (
    #[trigger] docs[j]).id by {
        if docs[i].id == docs[j].id {
            assert(slots[docs[i].id] == i);
            assert(slots[docs[j].id] == j);
        }
    }
}

/// A lookup table that agrees with the token table shows that no token occurs
/// twice there.
pub proof fn lemma_term_slots_distinct(slots: Map<Seq<char>, usize>, terms: Seq<TermEntryView>)
    requires
        term_slots_agree(slots, terms),
    ensures
        distinct_tokens(terms),
{
    assert forall|i: int, j: int| 0 <= i < j < terms.len() implies (#[trigger] terms[i]).token != (
    #[trigger] terms[j]).token by {
        if terms[i].token == terms[j].token {
            assert(slots[terms[i].token] == i);
            assert(slots[terms[j].token] == j);
        }
    }
}

/// The lookup table of a document table, or `None` where an identifier occurs
/// twice.
pub(crate) fn index_docs(docs: &Vec<DocEntry>) -> (out: Option<HashMap<u32, usize>>)
    ensures
        match out {
            Some(slots) => doc_slots_agree(slots@, doc_views(docs@)),
            None => !distinct_ids(doc_views(docs@)),
        },
{
    let mut slots: HashMap<u32, usize> = HashMap::new();
    let ghost all = doc_views(docs@);
    let mut i: usize = 0;
    while i < docs.len()
        invariant
            i <= docs@.len(),
            all == doc_views(docs@),
            doc_slots_agree(slots@, all.take(i as int)),
        decreases docs@.len() - i,
    {
        let id: u32 = docs[i].id;
        if slots.contains_key(&id) {
            proof {
                let j = slots@[id] as int;
                assert(all.take(i as int)[j].id == id);
                assert(all[j].id == all[i as int].id);
            }
            return None;
        }
        let ghost before = slots@;
        slots.insert(id, i);
        proof {
            let front = all.take(i as int);
            let next = all.take(i + 1);
            assert forall|k: int| 0 <= k < next.len() implies slots@.contains_key(
                (#[trigger] next[k]).id,
            ) && slots@[next[k].id] == k by {
                if k < i {
                    assert(front[k].id == next[k].id);
                    assert(before.contains_key(front[k].id));
                }
            }
            assert forall|x: u32| #[trigger] slots@.contains_key(x) implies 0 <= slots@[x]
                < next.len() && next[slots@[x] as int].id == x by {
                if x != id {
                    assert(before.contains_key(x));
                    assert(front[before[x] as int].id == x);
                }
            }
        }
        i += 1;
    }
    assert(all.take(i as int) =~= all);
    Some(slots)
}

/// The lookup table of a token table, or `None` where a token occurs twice.
pub(crate) fn index_terms(terms: &Vec<TermEntry>) -> (out: Option<StringHashMap<usize>>)
    ensures
        match out {
            Some(slots) => term_slots_agree(slots@, term_views(terms@)),
            None => !distinct_tokens(term_views(terms@)),
        },
{
    let mut slots: StringHashMap<usize> = StringHashMap::new();
    let ghost all = term_views(terms@);
    let mut p: usize = 0;
    while p < terms.len()
        invariant
            p <= terms@.len(),
            all == term_views(terms@),
            term_slots_agree(slots@, all.take(p as int)),
        decreases terms@.len() - p,
    {
        if slots.contains_key(terms[p].token.as_str()) {
            proof {
                let t = all[p as int].token;
                let j = slots@[t] as int;
                assert(all.take(p as int)[j].token == t);
                assert(all[j].token == all[p as int].token);
            }
            return None;
        }
        let ghost before = slots@;
        let ghost t = all[p as int].token;
        slots.insert(terms[p].token.clone(), p);
        proof {
            let front = all.take(p as int);
            let next = all.take(p + 1);
            assert forall|k: int| 0 <= k < next.len() implies slots@.contains_key(
                (#[trigger] next[k]).token,
            ) && slots@[next[k].token] == k by {
                if k < p {
                    assert(front[k].token == next[k].token);
                    assert(before.contains_key(front[k].token));
                }
            }
            assert forall|x: Seq<char>| #[trigger] slots@.contains_key(x) implies 0 <= slots@[x]
                < next.len() && next[slots@[x] as int].token == x by {
                if x != t {
                    assert(before.contains_key(x));
                    assert(front[before[x] as int].token == x);
                }
            }
        }
        p += 1;
    }
    assert(all.take(p as int) =~= all);
    Some(slots)
}

/// The sum of the document lengths. It cannot overflow: a table has at most
/// `usize::MAX` entries, each of a length of at most `u64::MAX`.
pub(crate) fn sum_lengths(docs: &Vec<DocEntry>) -> (out: u128)
    ensures
        out as nat == total_length(doc_views(docs@)),
{
    let ghost all = doc_views(docs@);
    let mut total: u128 = 0;
    let mut i: usize = 0;
    assert(all.take(0) =~= Seq::empty());
    while i < docs.len()
        invariant
            i <= docs@.len(),
            all == doc_views(docs@),
            total as nat == total_length(all.take(i as int)),
        decreases docs@.len() - i,
    {
        proof {
            let front = all.take(i as int);
            lemma_total_length_bound(front);
            lemma_total_length_push(front, all[i as int]);
            assert(front.push(all[i as int]) =~= all.take(i + 1));
            assert(front.len() * 0xffff_ffff_ffff_ffff + 0xffff_ffff_ffff_ffff <= u128::MAX)
                by (nonlinear_arith)
                requires
                    front.len() <= 0xffff_ffff_ffff_ffff,
            ;
        }
        total = total + docs[i].length as u128;
        i += 1;
    }
    assert(all.take(i as int) =~= all);
    total
}

/// Whether every posting names a document of the table and the postings
/// follow the order of the table.
pub(crate) fn postings_in_order(
    slots: &HashMap<u32, usize>,
    docs: &Vec<DocEntry>,
    postings: &Vec<Posting>,
) -> (out: bool)
    requires
        doc_slots_agree(slots@, doc_views(docs@)),
    ensures
        out == in_doc_order(doc_views(docs@), postings@),
{
    let ghost all = doc_views(docs@);
    proof {
        lemma_doc_slots_distinct(slots@, all);
    }
    let mut prev: usize = 0;
    let mut j: usize = 0;
    while j < postings.len()
        invariant
            j <= postings@.len(),
            all == doc_views(docs@),
            doc_slots_agree(slots@, all),
            distinct_ids(all),
            in_doc_order(all, postings@.take(j as int)),
            j > 0 ==> prev == slot_of(all, postings@[j - 1].doc_id),
        decreases postings@.len() - j,
    {
        let id: u32 = postings[j].doc_id;
        let slot: usize = match slots.get(&id) {
            Some(s) => *s,
            None => {
                proof {
                    if has_doc(all, id) {
                        let w = choose|w: int| 0 <= w < all.len() && (#[trigger] all[w]).id == id;
                        assert(slots@.contains_key(all[w].id));
                    }
                    assert(postings@[j as int].doc_id == id);
                }
                return false;
            },
        };
        proof {
            lemma_slot_of_position(all, slot as int);
            assert(slot_of(all, id) == slot);
        }
        if j > 0 && slot <= prev {
            proof {
                assert(postings@[j - 1].doc_id == postings@.take(j as int)[j - 1].doc_id);
                assert(!(slot_of(all, postings@[j - 1].doc_id) < slot_of(
                    all,
                    postings@[j as int].doc_id,
                )));
            }
            return false;
        }
        proof {
            let front = postings@.take(j as int);
            let next = postings@.take(j + 1);
            assert forall|a: int| 0 <= a < next.len() implies has_doc(
                all,
                (#[trigger] next[a]).doc_id,
            ) by {
                if a < j {
                    assert(front[a] == next[a]);
                }
            }
            assert forall|a: int, c: int| 0 <= a < c < next.len() implies slot_of(
                all,
                (#[trigger] next[a]).doc_id,
            ) < slot_of(all, (#[trigger] next[c]).doc_id) by {
                assert(front[a] == next[a]);
                if c < j {
                    assert(front[c] == next[c]);
                } else if a < j - 1 {
                    assert(front[j - 1] == postings@[j - 1]);
                    assert(slot_of(all, front[a].doc_id) < slot_of(all, front[j - 1].doc_id));
                }
            }
        }
        prev = slot;
        j += 1;
    }
    assert(postings@.take(j as int) =~= postings@);
    true
}

impl Index {
    /// Puts an index together from its tables and scalars, after checking the
    /// invariants of an index on them.
    pub(crate) fn assemble(
        docs: Vec<DocEntry>,
        terms: Vec<TermEntry>,
        total_length: u128,
        k1_milli: u32,
        b_milli: u32,
    ) -> (out: Option<Index>)
        ensures
            match out {
                Some(ix) => ix.wf() && ix@ == (IndexView {
                    docs: doc_views(docs@),
                    terms: term_views(terms@),
                    total_length,
                    k1_milli,
                    b_milli,
                }),
                None => !valid(
                    IndexView {
                        docs: doc_views(docs@),
                        terms: term_views(terms@),
                        total_length,
                        k1_milli,
                        b_milli,
                    },
                ),
            },
    {
        let ghost v = IndexView {
            docs: doc_views(docs@),
            terms: term_views(terms@),
            total_length,
            k1_milli,
            b_milli,
        };
        let doc_slot = match index_docs(&docs) {
            Some(m) => m,
            None => {
                return None;
            },
        };
        if sum_lengths(&docs) != total_length {
            return None;
        }
        let term_slot = match index_terms(&terms) {
            Some(m) => m,
            None => {
                return None;
            },
        };
        let mut p: usize = 0;
        while p < terms.len()
            invariant
                p <= terms@.len(),
                doc_slots_agree(doc_slot@, doc_views(docs@)),
                v.docs == doc_views(docs@),
                v.terms == term_views(terms@),
                forall|q: int| 0 <= q < p ==> in_doc_order(v.docs, (#[trigger] v.terms[q]).postings),
            decreases terms@.len() - p,
        {
            if !postings_in_order(&doc_slot, &docs, &terms[p].postings) {
                proof {
                    assert(v.terms[p as int].postings == terms@[p as int].postings@);
                }
                return None;
            }
            proof {
                assert(v.terms[p as int].postings == terms@[p as int].postings@);
            }
            p += 1;
        }
        proof {
            lemma_doc_slots_distinct(doc_slot@, v.docs);
            lemma_term_slots_distinct(term_slot@, v.terms);
        }
        Some(Index { docs, terms, total_length, k1_milli, b_milli, doc_slot, term_slot })
    }
}

} // verus!
