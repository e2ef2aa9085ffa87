//! The data of the engine and its mathematical model.
//!
//! Every executable type has a view made of sequences and integers. The
//! contracts of the crate speak of those views.

use vstd::prelude::*;

verus! {

/// Multiplier `k1` of the ranking formula that `Index::build` stores, in
/// thousandths.
pub const DEFAULT_K1_MILLI: u32 = 1200;

/// Length-normalisation weight `b` of the ranking formula that `Index::build`
/// stores, in thousandths.
pub const DEFAULT_B_MILLI: u32 = 750;

/// One record of the corpus: an identifier chosen by the caller and the text
/// to search.
#[derive(Debug)]
pub struct Document {
    pub id: u32,
    pub contents: String,
}

/// The model of a `Document`.
pub struct DocumentView {
    pub id: u32,
    pub contents: Seq<char>,
}

impl View for Document {
    type V = DocumentView;

    open spec fn view(&self) -> DocumentView {
        DocumentView { id: self.id, contents: self.contents@ }
    }
}

/// How often a token occurs in one document.
#[derive(Clone, Copy, Debug, PartialEq, Eq, Structural)]
pub struct Posting {
    pub doc_id: u32,
    pub term_freq: u64,
}

/// A document as the index keeps it: its identifier, its length in tokens and
/// its text.
#[derive(Debug)]
pub struct DocEntry {
    pub id: u32,
    pub length: u64,
    pub contents: String,
}

/// The model of a `DocEntry`.
pub struct DocEntryView {
    pub id: u32,
    pub length: u64,
    pub contents: Seq<char>,
}

impl View for DocEntry {
    type V = DocEntryView;

    open spec fn view(&self) -> DocEntryView {
        DocEntryView { id: self.id, length: self.length, contents: self.contents@ }
    }
}

/// A token and the documents that contain it.
#[derive(Debug)]
pub struct TermEntry {
    pub token: String,
    pub postings: Vec<Posting>,
}

/// The model of a `TermEntry`.
pub struct TermEntryView {
    pub token: Seq<char>,
    pub postings: Seq<Posting>,
}

impl View for TermEntry {
    type V = TermEntryView;

    open spec fn view(&self) -> TermEntryView {
        TermEntryView { token: self.token@, postings: self.postings@ }
    }
}

/// The model of an index: the document table in corpus order, the token table,
/// and the scalars of the ranking formula. The average document length is kept
/// exactly, as `total_length` over the number of documents.
pub struct IndexView {
    pub docs: Seq<DocEntryView>,
    pub terms: Seq<TermEntryView>,
    pub total_length: u128,
    pub k1_milli: u32,
    pub b_milli: u32,
}

/// The models of the documents of a corpus.
pub open spec fn corpus_view(corpus: Seq<Document>) -> Seq<DocumentView> {
    Seq::new(corpus.len(), |i: int| corpus[i]@)
}

/// The models of the entries of a document table.
pub open spec fn doc_views(docs: Seq<DocEntry>) -> Seq<DocEntryView> {
    Seq::new(docs.len(), |i: int| docs[i]@)
}

/// The models of the entries of a token table.
pub open spec fn term_views(terms: Seq<TermEntry>) -> Seq<TermEntryView> {
    Seq::new(terms.len(), |i: int| terms[i]@)
}

/// Some entry of the document table has this identifier.
pub open spec fn has_doc(docs: Seq<DocEntryView>, id: u32) -> bool {
    exists|i: int| 0 <= i < docs.len() && (#[trigger] docs[i]).id == id
}

/// The position in the document table of the entry with this identifier.
pub open spec fn slot_of(docs: Seq<DocEntryView>, id: u32) -> int {
    choose|i: int| 0 <= i < docs.len() && (#[trigger] docs[i]).id == id
}

/// No identifier occurs twice in the document table.
pub open spec fn distinct_ids(docs: Seq<DocEntryView>) -> bool {
    forall|i: int, j: int|
        0 <= i < j < docs.len() ==> (#[trigger] docs[i]).id != (#[trigger] docs[j]).id
}

/// No token occurs twice in the token table.
pub open spec fn distinct_tokens(terms: Seq<TermEntryView>) -> bool {
    forall|i: int, j: int|
        0 <= i < j < terms.len() ==> (#[trigger] terms[i]).token != (#[trigger] terms[j]).token
}

/// Every posting names a document of the table, and the postings follow the
/// order of the table. A document therefore occurs at most once in the list.
pub open spec fn in_doc_order(docs: Seq<DocEntryView>, postings: Seq<Posting>) -> bool {
    &&& forall|j: int| 0 <= j < postings.len() ==> has_doc(docs, (#[trigger] postings[j]).doc_id)
    &&& forall|j: int, k: int|
        0 <= j < k < postings.len() ==> slot_of(docs, (#[trigger] postings[j]).doc_id) < slot_of(
            docs,
            (#[trigger] postings[k]).doc_id,
        )
}

/// The sum of the lengths of the documents.
pub open spec fn total_length(docs: Seq<DocEntryView>) -> nat
    decreases docs.len(),
{
    if docs.len() == 0 {
        0
    } else {
        total_length(docs.drop_last()) + docs.last().length as nat
    }
}

/// The invariants of an index: identifiers and tokens are unique, every
/// postings list refers to documents of the table, in table order, and the
/// stored total is the sum of the document lengths, so that the average
/// document length is their arithmetic mean.
pub open spec fn valid(v: IndexView) -> bool {
    &&& distinct_ids(v.docs)
    &&& distinct_tokens(v.terms)
    &&& forall|p: int| 0 <= p < v.terms.len() ==> in_doc_order(v.docs, (#[trigger] v.terms[p]).postings)
    &&& v.total_length as nat == total_length(v.docs)
}

/// With unique identifiers, the entry at position `i` is the one that
/// `slot_of` finds for its identifier.
pub proof fn lemma_slot_of_position(docs: Seq<DocEntryView>, i: int)
    requires
        distinct_ids(docs),
        0 <= i < docs.len(),
    ensures
        has_doc(docs, docs[i].id),
        slot_of(docs, docs[i].id) == i,
{
    let id = docs[i].id;
    let s = slot_of(docs, id);
    assert(0 <= s < docs.len() && docs[s].id == id);
    if s < i {
        assert(docs[s].id != docs[i].id);
    } else if i < s {
        assert(docs[i].id != docs[s].id);
    }
}

/// The total length of a table grows with each entry by that entry's length.
pub proof fn lemma_total_length_push(docs: Seq<DocEntryView>, d: DocEntryView)
    ensures
        total_length(docs.push(d)) == total_length(docs) + d.length as nat,
{
    assert(docs.push(d).drop_last() =~= docs);
}

/// No entry adds more than `u64::MAX` to the total length of a table.
pub proof fn lemma_total_length_bound(docs: Seq<DocEntryView>)
    ensures
        total_length(docs) <= docs.len() * 0xffff_ffff_ffff_ffff,
    decreases docs.len(),
{
    if docs.len() > 0 {
        lemma_total_length_bound(docs.drop_last());
        assert(total_length(docs.drop_last()) + docs.last().length as nat <= (docs.len() - 1)
            * 0xffff_ffff_ffff_ffff + 0xffff_ffff_ffff_ffff);
        assert((docs.len() - 1) * 0xffff_ffff_ffff_ffff + 0xffff_ffff_ffff_ffff == docs.len()
            * 0xffff_ffff_ffff_ffff) by (nonlinear_arith);
    }
}

} // verus!
