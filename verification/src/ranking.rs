//! Ordering the scored documents of a query.
//!
//! A score reaches this module as an unsigned integer that grows with the
//! score and is zero exactly for the score zero. The bit pattern of a
//! non-negative IEEE 754 number is such an integer.

use vstd::prelude::*;
use vstd::relations::{sorted_by, total_ordering};
use vstd::seq_lib::{lemma_sorted_unique, to_multiset_build, to_multiset_insert};
use crate::index::Index;
use crate::model::{has_doc, lemma_slot_of_position, slot_of, DocEntryView, IndexView};
use crate::tokenizer::string_views;

verus! {

broadcast use vstd::std_specs::hash::group_hash_axioms;

/// A document with the score that the caller computed for it.
#[derive(Clone, Copy, Debug, PartialEq, Eq, Structural)]
pub struct ScoredDocument {
    pub doc_id: u32,
    pub score_key: u64,
}

/// `a` may stand before `b` in a ranking: its score is higher, or the scores
/// are equal and its identifier is not the larger one.
pub open spec fn outranks(a: ScoredDocument, b: ScoredDocument) -> bool {
    a.score_key > b.score_key || (a.score_key == b.score_key && a.doc_id <= b.doc_id)
}

/// The order of the ranking, as a relation.
pub open spec fn rank_order() -> spec_fn(ScoredDocument, ScoredDocument) -> bool {
    |a: ScoredDocument, b: ScoredDocument| outranks(a, b)
}

/// A scored document takes part in the ranking if its score is not zero and
/// the index holds the document.
pub open spec fn eligible(docs: Seq<DocEntryView>, s: ScoredDocument) -> bool {
    s.score_key > 0 && has_doc(docs, s.doc_id)
}

/// Eligibility in a document table, as a predicate.
pub open spec fn eligible_in(docs: Seq<DocEntryView>) -> spec_fn(ScoredDocument) -> bool {
    |s: ScoredDocument| eligible(docs, s)
}

/// The ranking: the eligible documents by descending score, ties by
/// ascending identifier, cut after the first `k`.
pub open spec fn ranking(docs: Seq<DocEntryView>, scored: Seq<ScoredDocument>, k: nat) -> Seq<
    ScoredDocument,
> {
    let all = scored.filter(eligible_in(docs)).sort_by(rank_order());
    if k < all.len() {
        all.take(k as int)
    } else {
        all
    }
}

/// The text of the document `id`.
pub open spec fn contents_of(docs: Seq<DocEntryView>, id: u32) -> Seq<char> {
    docs[slot_of(docs, id)].contents
}

/// The texts of the ranked documents, best first.
pub open spec fn ranked_contents(v: IndexView, scored: Seq<ScoredDocument>, k: nat) -> Seq<
    Seq<char>,
> {
    let r = ranking(v.docs, scored, k);
    Seq::new(r.len(), |i: int| contents_of(v.docs, r[i].doc_id))
}

/// The order of the ranking is total: any two scored documents can be
/// compared, and only equal ones stand on a par.
pub proof fn lemma_rank_order_total()
    ensures
        total_ordering(rank_order()),
{
    let r = rank_order();
    assert forall|x: ScoredDocument| #[trigger] r(x, x) by {}
    assert forall|x: ScoredDocument, y: ScoredDocument| #[trigger]
        r(x, y) && #[trigger] r(y, x) implies x == y by {}
    assert forall|x: ScoredDocument, y: ScoredDocument, z: ScoredDocument| #[trigger]
        r(x, y) && #[trigger] r(y, z) implies r(x, z) by {}
    assert forall|x: ScoredDocument, y: ScoredDocument| #[trigger] r(x, y) || #[trigger] r(y, x) by {}
}

/// The eligible documents, fully ranked, are sorted and are a rearrangement
/// of the eligible documents.
pub proof fn lemma_ranking_sorted(docs: Seq<DocEntryView>, scored: Seq<ScoredDocument>, k: nat)
    ensures
        sorted_by(ranking(docs, scored, k), rank_order()),
        ranking(docs, scored, k).len() <= k,
        ranking(docs, scored, k).len() <= scored.len(),
        forall|i: int|
            0 <= i < ranking(docs, scored, k).len() ==> eligible(
                docs,
                #[trigger] ranking(docs, scored, k)[i],
            ),
{
    lemma_rank_order_total();
    let f = scored.filter(eligible_in(docs));
    let all = f.sort_by(rank_order());
    f.lemma_sort_by_ensures(rank_order());
    scored.lemma_filter_len(eligible_in(docs));
    f.to_multiset_ensures();
    all.to_multiset_ensures();
    let r = ranking(docs, scored, k);
    assert forall|i: int| 0 <= i < r.len() implies eligible(docs, #[trigger] r[i]) by {
        assert(r[i] == all[i]);
        assert(all.contains(all[i]));
        if !f.contains(all[i]) {
            assert(!all.contains(all[i]));
        }
        let j = choose|j: int| 0 <= j < f.len() && f[j] == all[i];
        scored.lemma_filter_pred(eligible_in(docs), j);
    }
    assert forall|i: int, j: int| 0 <= i < j < r.len() implies #[trigger] rank_order()(
        r[i],
        r[j],
    ) by {
        assert(rank_order()(all[i], all[j]));
    }
}

/// In a ranking the scores never rise, and of two documents with the same
/// score the one with the smaller identifier comes first.
pub proof fn lemma_ties_rank_by_id(
    docs: Seq<DocEntryView>,
    scored: Seq<ScoredDocument>,
    k: nat,
    i: int,
    j: int,
)
    requires
        0 <= i < j < ranking(docs, scored, k).len(),
    ensures
        ranking(docs, scored, k)[i].score_key >= ranking(docs, scored, k)[j].score_key,
        ranking(docs, scored, k)[i].score_key == ranking(docs, scored, k)[j].score_key ==> ranking(
            docs,
            scored,
            k,
        )[i].doc_id <= ranking(docs, scored, k)[j].doc_id,
{
    lemma_ranking_sorted(docs, scored, k);
    let r = ranking(docs, scored, k);
    assert(rank_order()(r[i], r[j]));
}

/// Asking for no result gives none, whatever the index and the scores hold.
pub proof fn lemma_rank_none(v: IndexView, scored: Seq<ScoredDocument>)
    ensures
        ranking(v.docs, scored, 0).len() == 0,
        ranked_contents(v, scored, 0).len() == 0,
{
}

fn ranks_before(a: ScoredDocument, b: ScoredDocument) -> (out: bool)
    ensures
        out == outranks(a, b),
{
    a.score_key > b.score_key || (a.score_key == b.score_key && a.doc_id <= b.doc_id)
}

/// Puts `s` at its place in a ranked vector.
fn insert_ranked(sorted: &mut Vec<ScoredDocument>, s: ScoredDocument)
    requires
        sorted_by(old(sorted)@, rank_order()),
    ensures
        sorted_by(final(sorted)@, rank_order()),
        final(sorted)@.to_multiset() == old(sorted)@.to_multiset().insert(s),
{
    let mut pos: usize = 0;
    while pos < sorted.len() && ranks_before(sorted[pos], s)
        invariant
            pos <= sorted@.len(),
            sorted@ == old(sorted)@,
            forall|x: int| 0 <= x < pos ==> outranks(#[trigger] sorted@[x], s),
        decreases sorted@.len() - pos,
    {
        pos += 1;
    }
    let ghost before = sorted@;
    sorted.insert(pos, s);
    proof {
        to_multiset_insert(before, pos as int, s);
        let after = sorted@;
        assert forall|x: int, y: int| 0 <= x < y < after.len() implies #[trigger] rank_order()(
            after[x],
            after[y],
        ) by {
            if y < pos {
                assert(rank_order()(before[x], before[y]));
            } else if y == pos {
                assert(outranks(before[x], s));
            } else if x == pos {
                assert(!outranks(before[pos as int], s));
                if y - 1 > pos {
                    assert(rank_order()(before[pos as int], before[y - 1]));
                }
            } else if x < pos {
                assert(rank_order()(before[x], before[y - 1]));
            } else {
                assert(rank_order()(before[x - 1], before[y - 1]));
            }
        }
    }
}

impl Index {
    /// The texts of the best `k` documents, best first. A document with the
    /// score zero, and one that the index does not hold, is left out. Equal
    /// scores are ordered by ascending identifier. With `k` zero the result is
    /// empty.
    pub fn rank(&self, scored: &[ScoredDocument], k: usize) -> (out: Vec<String>)
        requires
            self.wf(),
        ensures
            string_views(out@) == ranked_contents(self@, scored@, k as nat),
            out@.len() <= k,
    {
        let ghost docs = self@.docs;
        let ghost pred = eligible_in(docs);
        let mut sorted: Vec<ScoredDocument> = Vec::new();
        let mut i: usize = 0;
        proof {
            assert(scored@.take(0) =~= Seq::empty());
            reveal(Seq::filter);
            assert(scored@.take(0).filter(pred) =~= Seq::empty());
        }
        while i < scored.len()
            invariant
                i <= scored@.len(),
                self.wf(),
                docs == self@.docs,
                pred == eligible_in(docs),
                sorted_by(sorted@, rank_order()),
                sorted@.to_multiset() == scored@.take(i as int).filter(pred).to_multiset(),
            decreases scored@.len() - i,
        {
            let s: ScoredDocument = scored[i];
            proof {
                let front = scored@.take(i as int);
                assert(front.push(s) =~= scored@.take(i + 1));
                front.lemma_filter_push(s, pred);
                to_multiset_build(front.filter(pred), s);
                if has_doc(docs, s.doc_id) {
                    let w = choose|w: int| 0 <= w < docs.len() && (#[trigger] docs[w]).id == s.doc_id;
                    assert(self.doc_slot@.contains_key(docs[w].id));
                }
                if self.doc_slot@.contains_key(s.doc_id) {
                    assert(docs[self.doc_slot@[s.doc_id] as int].id == s.doc_id);
                }
            }
            if s.score_key > 0 && self.doc_slot.contains_key(&s.doc_id) {
                insert_ranked(&mut sorted, s);
            }
            i += 1;
        }
        proof {
            assert(scored@.take(i as int) =~= scored@);
            lemma_rank_order_total();
            let f = scored@.filter(pred);
            f.lemma_sort_by_ensures(rank_order());
            lemma_sorted_unique(sorted@, f.sort_by(rank_order()), rank_order());
            assert(sorted@ == f.sort_by(rank_order()));
            lemma_ranking_sorted(docs, scored@, sorted@.len() as nat);
            crate::index::lemma_doc_slots_distinct(self.doc_slot@, docs);
        }
        let limit: usize = if k < sorted.len() {
            k
        } else {
            sorted.len()
        };
        let ghost r = ranking(docs, scored@, k as nat);
        assert(r =~= sorted@.take(limit as int));
        let mut out: Vec<String> = Vec::new();
        let mut j: usize = 0;
        while j < limit
            invariant
                j <= limit <= sorted@.len(),
                self.wf(),
                docs == self@.docs,
                crate::model::distinct_ids(docs),
                r == sorted@.take(limit as int),
                forall|x: int| 0 <= x < sorted@.len() ==> eligible(docs, #[trigger] sorted@[x]),
                out@.len() == j,
                forall|x: int| 0 <= x < j ==> (#[trigger] out@[x])@ == contents_of(docs, r[x].doc_id),
            decreases limit - j,
        {
            let id: u32 = sorted[j].doc_id;
            assert(eligible(docs, sorted@[j as int]));
            proof {
                if has_doc(docs, id) {
                    let w = choose|w: int| 0 <= w < docs.len() && (#[trigger] docs[w]).id == id;
                    assert(self.doc_slot@.contains_key(docs[w].id));
                }
            }
            let slot: usize = match self.doc_slot.get(&id) {
                Some(s) => *s,
                None => 0,
            };
            proof {
                lemma_slot_of_position(docs, slot as int);
                assert(docs[slot as int].contents == self.docs@[slot as int].contents@);
            }
            out.push(self.docs[slot].contents.clone());
            j += 1;
        }
        assert(string_views(out@) =~= ranked_contents(self@, scored@, k as nat));
        out
    }
}

} // verus!
