//! The binary layout of a stored index, as a function from the model to bytes
//! and a parser from bytes to the model.
//!
//! All integers are little-endian. In order: the version tag (4 bytes), the
//! number of documents (8), the total number of tokens (16), `k1` and `b` in
//! thousandths (4 each), the document table, the number of tokens (8) and the
//! token table. A document is its identifier (4), its length (8) and its text;
//! a token is its text, the number of its postings (8) and the postings, each
//! a document identifier (4) and a frequency (8). A text is the number of its
//! UTF-8 bytes (8) and then those bytes.

use vstd::prelude::*;
use vstd::bytes::*;
use vstd::utf8::*;
use crate::error::Error;
use crate::model::{valid, DocEntryView, IndexView, Posting, TermEntryView};

verus! {

/// The version tag that starts every stored index.
pub const FORMAT_VERSION: u32 = 1;

/// Four bytes, least significant first.
pub open spec fn enc_u32(x: u32) -> Seq<u8> {
    spec_u32_to_le_bytes(x)
}

/// Eight bytes, least significant first.
pub open spec fn enc_u64(x: u64) -> Seq<u8> {
    spec_u64_to_le_bytes(x)
}

/// Sixteen bytes, least significant first.
pub open spec fn enc_u128(x: u128) -> Seq<u8> {
    spec_u128_to_le_bytes(x)
}

/// A text: the number of its UTF-8 bytes, then the bytes.
pub open spec fn enc_text(s: Seq<char>) -> Seq<u8> {
    enc_u64(encode_utf8(s).len() as u64) + encode_utf8(s)
}

/// A document: identifier, length, text.
pub open spec fn enc_doc(d: DocEntryView) -> Seq<u8> {
    enc_u32(d.id) + enc_u64(d.length) + enc_text(d.contents)
}

/// The documents of a table, one after the other.
pub open spec fn enc_docs(docs: Seq<DocEntryView>) -> Seq<u8>
    decreases docs.len(),
{
    if docs.len() == 0 {
        Seq::empty()
    } else {
        enc_docs(docs.drop_last()) + enc_doc(docs.last())
    }
}

/// A posting: document identifier, frequency.
pub open spec fn enc_posting(p: Posting) -> Seq<u8> {
    enc_u32(p.doc_id) + enc_u64(p.term_freq)
}

/// The postings of a list, one after the other.
pub open spec fn enc_postings(postings: Seq<Posting>) -> Seq<u8>
    decreases postings.len(),
{
    if postings.len() == 0 {
        Seq::empty()
    } else {
        enc_postings(postings.drop_last()) + enc_posting(postings.last())
    }
}

/// A token: its text, the number of its postings, the postings.
pub open spec fn enc_term(t: TermEntryView) -> Seq<u8> {
    enc_text(t.token) + enc_u64(t.postings.len() as u64) + enc_postings(t.postings)
}

/// The tokens of a table, one after the other.
pub open spec fn enc_terms(terms: Seq<TermEntryView>) -> Seq<u8>
    decreases terms.len(),
{
    if terms.len() == 0 {
        Seq::empty()
    } else {
        enc_terms(terms.drop_last()) + enc_term(terms.last())
    }
}

/// What follows the version tag.
pub open spec fn enc_body(v: IndexView) -> Seq<u8> {
    enc_u64(v.docs.len() as u64) + enc_u128(v.total_length) + enc_u32(v.k1_milli) + enc_u32(
        v.b_milli,
    ) + enc_docs(v.docs) + enc_u64(v.terms.len() as u64) + enc_terms(v.terms)
}

/// The bytes that store an index.
pub open spec fn encoding(v: IndexView) -> Seq<u8> {
    enc_u32(FORMAT_VERSION) + enc_body(v)
}

/// The UTF-8 form of a text is short enough for its length field.
pub open spec fn text_fits(s: Seq<char>) -> bool {
    encode_utf8(s).len() <= u64::MAX
}

/// Every count and every text length of the model fits the field that the
/// layout gives it. This holds of every index in memory.
pub open spec fn encodable(v: IndexView) -> bool {
    &&& v.docs.len() <= u64::MAX
    &&& v.terms.len() <= u64::MAX
    &&& forall|i: int| 0 <= i < v.docs.len() ==> text_fits((#[trigger] v.docs[i]).contents)
    &&& forall|p: int|
        0 <= p < v.terms.len() ==> text_fits((#[trigger] v.terms[p]).token)
            && v.terms[p].postings.len() <= u64::MAX
}

/// Reads four bytes as an integer and hands back what follows them.
pub open spec fn parse_u32(b: Seq<u8>) -> Option<(u32, Seq<u8>)> {
    if b.len() >= 4 {
        Some((spec_u32_from_le_bytes(b.take(4)), b.skip(4)))
    } else {
        None
    }
}

/// Reads eight bytes as an integer and hands back what follows them.
pub open spec fn parse_u64(b: Seq<u8>) -> Option<(u64, Seq<u8>)> {
    if b.len() >= 8 {
        Some((spec_u64_from_le_bytes(b.take(8)), b.skip(8)))
    } else {
        None
    }
}

/// Reads sixteen bytes as an integer and hands back what follows them.
pub open spec fn parse_u128(b: Seq<u8>) -> Option<(u128, Seq<u8>)> {
    if b.len() >= 16 {
        Some((spec_u128_from_le_bytes(b.take(16)), b.skip(16)))
    } else {
        None
    }
}

/// Reads a text: its length, then that many bytes, which must be UTF-8.
pub open spec fn parse_text(b: Seq<u8>) -> Option<(Seq<char>, Seq<u8>)> {
    match parse_u64(b) {
        Some((n, r)) => if n <= r.len() && valid_utf8(r.take(n as int)) {
            Some((decode_utf8(r.take(n as int)), r.skip(n as int)))
        } else {
            None
        },
        None => None,
    }
}

/// Reads one document.
pub open spec fn parse_doc(b: Seq<u8>) -> Option<(DocEntryView, Seq<u8>)> {
    match parse_u32(b) {
        Some((id, r1)) => match parse_u64(r1) {
            Some((length, r2)) => match parse_text(r2) {
                Some((contents, r3)) => Some((DocEntryView { id, length, contents }, r3)),
                None => None,
            },
            None => None,
        },
        None => None,
    }
}

/// Parses `n` documents, one after the other.
pub open spec fn parse_docs(b: Seq<u8>, n: nat) -> Option<(Seq<DocEntryView>, Seq<u8>)>
    decreases n,
{
    if n == 0 {
        Some((Seq::empty(), b))
    } else {
        match parse_docs(b, (n - 1) as nat) {
            Some((docs, r)) => match parse_doc(r) {
                Some((d, r2)) => Some((docs.push(d), r2)),
                None => None,
            },
            None => None,
        }
    }
}

/// Reads one posting.
pub open spec fn parse_posting(b: Seq<u8>) -> Option<(Posting, Seq<u8>)> {
    match parse_u32(b) {
        Some((doc_id, r1)) => match parse_u64(r1) {
            Some((term_freq, r2)) => Some((Posting { doc_id, term_freq }, r2)),
            None => None,
        },
        None => None,
    }
}

/// Parses `n` postings, one after the other.
pub open spec fn parse_postings(b: Seq<u8>, n: nat) -> Option<(Seq<Posting>, Seq<u8>)>
    decreases n,
{
    if n == 0 {
        Some((Seq::empty(), b))
    } else {
        match parse_postings(b, (n - 1) as nat) {
            Some((postings, r)) => match parse_posting(r) {
                Some((p, r2)) => Some((postings.push(p), r2)),
                None => None,
            },
            None => None,
        }
    }
}

/// Reads one token with its postings.
pub open spec fn parse_term(b: Seq<u8>) -> Option<(TermEntryView, Seq<u8>)> {
    match parse_text(b) {
        Some((token, r1)) => match parse_u64(r1) {
            Some((n, r2)) => match parse_postings(r2, n as nat) {
                Some((postings, r3)) => Some((TermEntryView { token, postings }, r3)),
                None => None,
            },
            None => None,
        },
        None => None,
    }
}

/// Parses `n` tokens with their postings, one after the other.
pub open spec fn parse_terms(b: Seq<u8>, n: nat) -> Option<(Seq<TermEntryView>, Seq<u8>)>
    decreases n,
{
    if n == 0 {
        Some((Seq::empty(), b))
    } else {
        match parse_terms(b, (n - 1) as nat) {
            Some((terms, r)) => match parse_term(r) {
                Some((t, r2)) => Some((terms.push(t), r2)),
                None => None,
            },
            None => None,
        }
    }
}

/// The scalars that precede the document table: the number of documents, the
/// total length, `k1` and `b`.
pub open spec fn parse_scalars(b: Seq<u8>) -> Option<((u64, u128, u32, u32), Seq<u8>)> {
    match parse_u64(b) {
        Some((n, r1)) => match parse_u128(r1) {
            Some((total, r2)) => match parse_u32(r2) {
                Some((k1, r3)) => match parse_u32(r3) {
                    Some((bm, r4)) => Some(((n, total, k1, bm), r4)),
                    None => None,
                },
                None => None,
            },
            None => None,
        },
        None => None,
    }
}

/// Parses what follows the version tag, and hands back what is left over.
pub open spec fn parse_body(b: Seq<u8>) -> Option<(IndexView, Seq<u8>)> {
    match parse_scalars(b) {
        Some(((n, total_length, k1_milli, b_milli), r1)) => match parse_docs(r1, n as nat) {
            Some((docs, r2)) => match parse_u64(r2) {
                Some((m, r3)) => match parse_terms(r3, m as nat) {
                    Some((terms, r4)) => Some(
                        (IndexView { docs, terms, total_length, k1_milli, b_milli }, r4),
                    ),
                    None => None,
                },
                None => None,
            },
            None => None,
        },
        None => None,
    }
}

/// What a byte string stores. A version tag that can be read and differs from
/// `FORMAT_VERSION` is an unsupported version. Bytes too short to hold a tag, a
/// body that ends early, bytes left over after the body, and a body that
/// breaks an invariant of the index are all a corrupt payload.
pub open spec fn parse_index(b: Seq<u8>) -> Result<IndexView, Error> {
    match parse_u32(b) {
        None => Err(Error::TruncatedOrCorruptPayload),
        Some((tag, r)) => if tag != FORMAT_VERSION {
            Err(Error::UnsupportedFormatVersion)
        } else {
            match parse_body(r) {
                Some((v, rest)) => if rest.len() == 0 && valid(v) {
                    Ok(v)
                } else {
                    Err(Error::TruncatedOrCorruptPayload)
                },
                None => Err(Error::TruncatedOrCorruptPayload),
            }
        },
    }
}

proof fn lemma_parse_enc_u32(x: u32, r: Seq<u8>)
    ensures
        parse_u32(enc_u32(x) + r) == Some((x, r)),
        enc_u32(x).len() == 4,
{
    lemma_auto_spec_u32_to_from_le_bytes();
    let b = enc_u32(x) + r;
    assert(b.take(4) =~= enc_u32(x));
    assert(b.skip(4) =~= r);
}

proof fn lemma_parse_enc_u64(x: u64, r: Seq<u8>)
    ensures
        parse_u64(enc_u64(x) + r) == Some((x, r)),
        enc_u64(x).len() == 8,
{
    lemma_auto_spec_u64_to_from_le_bytes();
    let b = enc_u64(x) + r;
    assert(b.take(8) =~= enc_u64(x));
    assert(b.skip(8) =~= r);
}

proof fn lemma_parse_enc_u128(x: u128, r: Seq<u8>)
    ensures
        parse_u128(enc_u128(x) + r) == Some((x, r)),
        enc_u128(x).len() == 16,
{
    lemma_auto_spec_u128_to_from_le_bytes();
    let b = enc_u128(x) + r;
    assert(b.take(16) =~= enc_u128(x));
    assert(b.skip(16) =~= r);
}

proof fn lemma_parse_enc_text(s: Seq<char>, r: Seq<u8>)
    requires
        text_fits(s),
    ensures
        parse_text(enc_text(s) + r) == Some((s, r)),
{
    let bytes = encode_utf8(s);
    let n = bytes.len() as u64;
    let tail = bytes + r;
    assert(enc_text(s) + r =~= enc_u64(n) + tail);
    lemma_parse_enc_u64(n, tail);
    assert(tail.take(n as int) =~= bytes);
    assert(tail.skip(n as int) =~= r);
    encode_utf8_valid_utf8(s);
    encode_utf8_decode_utf8(s);
}

proof fn lemma_parse_enc_doc(d: DocEntryView, r: Seq<u8>)
    requires
        text_fits(d.contents),
    ensures
        parse_doc(enc_doc(d) + r) == Some((d, r)),
{
    let r2 = enc_text(d.contents) + r;
    let r1 = enc_u64(d.length) + r2;
    assert(enc_doc(d) + r =~= enc_u32(d.id) + r1);
    lemma_parse_enc_u32(d.id, r1);
    lemma_parse_enc_u64(d.length, r2);
    lemma_parse_enc_text(d.contents, r);
}

proof fn lemma_parse_enc_docs(docs: Seq<DocEntryView>, r: Seq<u8>)
    requires
        forall|i: int| 0 <= i < docs.len() ==> text_fits((#[trigger] docs[i]).contents),
    ensures
        parse_docs(enc_docs(docs) + r, docs.len()) == Some((docs, r)),
    decreases docs.len(),
{
    if docs.len() == 0 {
        assert(enc_docs(docs) + r =~= r);
        assert(docs =~= Seq::empty());
    } else {
        let front = docs.drop_last();
        let tail = enc_doc(docs.last()) + r;
        assert(enc_docs(docs) + r =~= enc_docs(front) + tail);
        lemma_parse_enc_docs(front, tail);
        lemma_parse_enc_doc(docs.last(), r);
        assert(front.push(docs.last()) =~= docs);
    }
}

proof fn lemma_parse_enc_posting(p: Posting, r: Seq<u8>)
    ensures
        parse_posting(enc_posting(p) + r) == Some((p, r)),
{
    let r1 = enc_u64(p.term_freq) + r;
    assert(enc_posting(p) + r =~= enc_u32(p.doc_id) + r1);
    lemma_parse_enc_u32(p.doc_id, r1);
    lemma_parse_enc_u64(p.term_freq, r);
}

proof fn lemma_parse_enc_postings(postings: Seq<Posting>, r: Seq<u8>)
    ensures
        parse_postings(enc_postings(postings) + r, postings.len()) == Some((postings, r)),
    decreases postings.len(),
{
    if postings.len() == 0 {
        assert(enc_postings(postings) + r =~= r);
        assert(postings =~= Seq::empty());
    } else {
        let front = postings.drop_last();
        let tail = enc_posting(postings.last()) + r;
        assert(enc_postings(postings) + r =~= enc_postings(front) + tail);
        lemma_parse_enc_postings(front, tail);
        lemma_parse_enc_posting(postings.last(), r);
        assert(front.push(postings.last()) =~= postings);
    }
}

proof fn lemma_parse_enc_term(t: TermEntryView, r: Seq<u8>)
    requires
        text_fits(t.token),
        t.postings.len() <= u64::MAX,
    ensures
        parse_term(enc_term(t) + r) == Some((t, r)),
{
    let n = t.postings.len() as u64;
    let r2 = enc_postings(t.postings) + r;
    let r1 = enc_u64(n) + r2;
    assert(enc_term(t) + r =~= enc_text(t.token) + r1);
    lemma_parse_enc_text(t.token, r1);
    lemma_parse_enc_u64(n, r2);
    lemma_parse_enc_postings(t.postings, r);
}

proof fn lemma_parse_enc_terms(terms: Seq<TermEntryView>, r: Seq<u8>)
    requires
        forall|p: int|
            0 <= p < terms.len() ==> text_fits((#[trigger] terms[p]).token)
                && terms[p].postings.len() <= u64::MAX,
    ensures
        parse_terms(enc_terms(terms) + r, terms.len()) == Some((terms, r)),
    decreases terms.len(),
{
    if terms.len() == 0 {
        assert(enc_terms(terms) + r =~= r);
        assert(terms =~= Seq::empty());
    } else {
        let front = terms.drop_last();
        let tail = enc_term(terms.last()) + r;
        assert(enc_terms(terms) + r =~= enc_terms(front) + tail);
        lemma_parse_enc_terms(front, tail);
        lemma_parse_enc_term(terms.last(), r);
        assert(front.push(terms.last()) =~= terms);
    }
}

proof fn lemma_parse_enc_scalars(n: u64, total: u128, k1: u32, bm: u32, r: Seq<u8>)
    ensures
        parse_scalars(enc_u64(n) + enc_u128(total) + enc_u32(k1) + enc_u32(bm) + r) == Some(
            ((n, total, k1, bm), r),
        ),
{
    let r3 = enc_u32(bm) + r;
    let r2 = enc_u32(k1) + r3;
    let r1 = enc_u128(total) + r2;
    assert(enc_u64(n) + enc_u128(total) + enc_u32(k1) + enc_u32(bm) + r =~= enc_u64(n) + r1);
    lemma_parse_enc_u64(n, r1);
    lemma_parse_enc_u128(total, r2);
    lemma_parse_enc_u32(k1, r3);
    lemma_parse_enc_u32(bm, r);
}

proof fn lemma_parse_enc_tables(
    docs: Seq<DocEntryView>,
    terms: Seq<TermEntryView>,
    r: Seq<u8>,
)
    requires
        docs.len() <= u64::MAX,
        terms.len() <= u64::MAX,
        forall|i: int| 0 <= i < docs.len() ==> text_fits((#[trigger] docs[i]).contents),
        forall|p: int|
            0 <= p < terms.len() ==> text_fits((#[trigger] terms[p]).token)
                && terms[p].postings.len() <= u64::MAX,
    ensures
        parse_docs(
            enc_docs(docs) + enc_u64(terms.len() as u64) + enc_terms(terms) + r,
            docs.len(),
        ) == Some((docs, enc_u64(terms.len() as u64) + enc_terms(terms) + r)),
        parse_u64(enc_u64(terms.len() as u64) + enc_terms(terms) + r) == Some(
            (terms.len() as u64, enc_terms(terms) + r),
        ),
        parse_terms(enc_terms(terms) + r, terms.len()) == Some((terms, r)),
{
    let m = terms.len() as u64;
    let r2 = enc_terms(terms) + r;
    let r1 = enc_u64(m) + r2;
    assert(enc_docs(docs) + enc_u64(m) + enc_terms(terms) + r =~= enc_docs(docs) + r1);
    assert(enc_u64(m) + enc_terms(terms) + r =~= r1);
    lemma_parse_enc_docs(docs, r1);
    lemma_parse_enc_u64(m, r2);
    lemma_parse_enc_terms(terms, r);
}

/// Parsing the body of an encoding gives the model back, with nothing left
/// over.
pub proof fn lemma_parse_enc_body(v: IndexView, r: Seq<u8>)
    requires
        encodable(v),
    ensures
        parse_body(enc_body(v) + r) == Some((v, r)),
{
    let n = v.docs.len() as u64;
    let m = v.terms.len() as u64;
    let tables = enc_docs(v.docs) + enc_u64(m) + enc_terms(v.terms) + r;
    assert(enc_body(v) + r =~= enc_u64(n) + enc_u128(v.total_length) + enc_u32(v.k1_milli)
        + enc_u32(v.b_milli) + tables);
    lemma_parse_enc_scalars(n, v.total_length, v.k1_milli, v.b_milli, tables);
    lemma_parse_enc_tables(v.docs, v.terms, r);
}

/// Round trip: the encoding of a valid index parses to that index. Its
/// document count, total length, `k1`, `b`, every document's length and text,
/// and every token's postings come back unchanged.
pub proof fn lemma_parse_encoding(v: IndexView)
    requires
        encodable(v),
        valid(v),
    ensures
        parse_index(encoding(v)) == Ok::<IndexView, Error>(v),
{
    let body = enc_body(v);
    lemma_parse_enc_u32(FORMAT_VERSION, body);
    lemma_parse_enc_body(v, Seq::empty());
    assert(body + Seq::<u8>::empty() =~= body);
}

proof fn lemma_enc_parse_u32(b: Seq<u8>)
    requires
        parse_u32(b) is Some,
    ensures
        b == enc_u32(parse_u32(b)->Some_0.0) + parse_u32(b)->Some_0.1,
{
    lemma_auto_spec_u32_to_from_le_bytes();
    assert(b =~= b.take(4) + b.skip(4));
}

proof fn lemma_enc_parse_u64(b: Seq<u8>)
    requires
        parse_u64(b) is Some,
    ensures
        b == enc_u64(parse_u64(b)->Some_0.0) + parse_u64(b)->Some_0.1,
{
    lemma_auto_spec_u64_to_from_le_bytes();
    assert(b =~= b.take(8) + b.skip(8));
}

proof fn lemma_enc_parse_u128(b: Seq<u8>)
    requires
        parse_u128(b) is Some,
    ensures
        b == enc_u128(parse_u128(b)->Some_0.0) + parse_u128(b)->Some_0.1,
{
    lemma_auto_spec_u128_to_from_le_bytes();
    assert(b =~= b.take(16) + b.skip(16));
}

proof fn lemma_enc_parse_text(b: Seq<u8>)
    requires
        parse_text(b) is Some,
    ensures
        b == enc_text(parse_text(b)->Some_0.0) + parse_text(b)->Some_0.1,
        text_fits(parse_text(b)->Some_0.0),
{
    lemma_enc_parse_u64(b);
    let (n, r) = parse_u64(b)->Some_0;
    let raw = r.take(n as int);
    decode_utf8_encode_utf8(raw);
    assert(r =~= raw + r.skip(n as int));
    assert(b =~= enc_u64(n) + raw + r.skip(n as int));
}

proof fn lemma_enc_parse_doc(b: Seq<u8>)
    requires
        parse_doc(b) is Some,
    ensures
        b == enc_doc(parse_doc(b)->Some_0.0) + parse_doc(b)->Some_0.1,
        text_fits(parse_doc(b)->Some_0.0.contents),
{
    lemma_enc_parse_u32(b);
    let (id, r1) = parse_u32(b)->Some_0;
    lemma_enc_parse_u64(r1);
    let (length, r2) = parse_u64(r1)->Some_0;
    lemma_enc_parse_text(r2);
    let (contents, r3) = parse_text(r2)->Some_0;
    assert(b =~= enc_u32(id) + enc_u64(length) + enc_text(contents) + r3);
}

proof fn lemma_enc_parse_docs(b: Seq<u8>, n: nat)
    requires
        parse_docs(b, n) is Some,
    ensures
        parse_docs(b, n)->Some_0.0.len() == n,
        b == enc_docs(parse_docs(b, n)->Some_0.0) + parse_docs(b, n)->Some_0.1,
        forall|i: int|
            0 <= i < n ==> text_fits((#[trigger] parse_docs(b, n)->Some_0.0[i]).contents),
    decreases n,
{
    if n == 0 {
        assert(b =~= enc_docs(Seq::empty()) + b);
    } else {
        lemma_enc_parse_docs(b, (n - 1) as nat);
        let (front, r) = parse_docs(b, (n - 1) as nat)->Some_0;
        lemma_enc_parse_doc(r);
        let (d, r2) = parse_doc(r)->Some_0;
        let docs = front.push(d);
        assert(docs.drop_last() =~= front);
        assert(b =~= enc_docs(docs) + r2);
    }
}

proof fn lemma_enc_parse_posting(b: Seq<u8>)
    requires
        parse_posting(b) is Some,
    ensures
        b == enc_posting(parse_posting(b)->Some_0.0) + parse_posting(b)->Some_0.1,
{
    lemma_enc_parse_u32(b);
    let (id, r1) = parse_u32(b)->Some_0;
    lemma_enc_parse_u64(r1);
    let (f, r2) = parse_u64(r1)->Some_0;
    assert(b =~= enc_u32(id) + enc_u64(f) + r2);
}

proof fn lemma_enc_parse_postings(b: Seq<u8>, n: nat)
    requires
        parse_postings(b, n) is Some,
    ensures
        parse_postings(b, n)->Some_0.0.len() == n,
        b == enc_postings(parse_postings(b, n)->Some_0.0) + parse_postings(b, n)->Some_0.1,
    decreases n,
{
    if n == 0 {
        assert(b =~= enc_postings(Seq::empty()) + b);
    } else {
        lemma_enc_parse_postings(b, (n - 1) as nat);
        let (front, r) = parse_postings(b, (n - 1) as nat)->Some_0;
        lemma_enc_parse_posting(r);
        let (p, r2) = parse_posting(r)->Some_0;
        let postings = front.push(p);
        assert(postings.drop_last() =~= front);
        assert(b =~= enc_postings(postings) + r2);
    }
}

proof fn lemma_enc_parse_term(b: Seq<u8>)
    requires
        parse_term(b) is Some,
    ensures
        b == enc_term(parse_term(b)->Some_0.0) + parse_term(b)->Some_0.1,
        text_fits(parse_term(b)->Some_0.0.token),
        parse_term(b)->Some_0.0.postings.len() <= u64::MAX,
{
    lemma_enc_parse_text(b);
    let (token, r1) = parse_text(b)->Some_0;
    lemma_enc_parse_u64(r1);
    let (n, r2) = parse_u64(r1)->Some_0;
    lemma_enc_parse_postings(r2, n as nat);
    let (postings, r3) = parse_postings(r2, n as nat)->Some_0;
    assert(b =~= enc_text(token) + enc_u64(n) + enc_postings(postings) + r3);
}

proof fn lemma_enc_parse_terms(b: Seq<u8>, n: nat)
    requires
        parse_terms(b, n) is Some,
    ensures
        parse_terms(b, n)->Some_0.0.len() == n,
        b == enc_terms(parse_terms(b, n)->Some_0.0) + parse_terms(b, n)->Some_0.1,
        forall|p: int|
            0 <= p < n ==> text_fits((#[trigger] parse_terms(b, n)->Some_0.0[p]).token)
                && parse_terms(b, n)->Some_0.0[p].postings.len() <= u64::MAX,
    decreases n,
{
    if n == 0 {
        assert(b =~= enc_terms(Seq::empty()) + b);
    } else {
        lemma_enc_parse_terms(b, (n - 1) as nat);
        let (front, r) = parse_terms(b, (n - 1) as nat)->Some_0;
        lemma_enc_parse_term(r);
        let (t, r2) = parse_term(r)->Some_0;
        let terms = front.push(t);
        assert(terms.drop_last() =~= front);
        assert(b =~= enc_terms(terms) + r2);
    }
}

proof fn lemma_enc_parse_scalars(b: Seq<u8>)
    requires
        parse_scalars(b) is Some,
    ensures
        ({
            let ((n, total, k1, bm), r) = parse_scalars(b)->Some_0;
            b == enc_u64(n) + enc_u128(total) + enc_u32(k1) + enc_u32(bm) + r
        }),
{
    lemma_enc_parse_u64(b);
    let (n, r1) = parse_u64(b)->Some_0;
    lemma_enc_parse_u128(r1);
    let (total, r2) = parse_u128(r1)->Some_0;
    lemma_enc_parse_u32(r2);
    let (k1, r3) = parse_u32(r2)->Some_0;
    lemma_enc_parse_u32(r3);
    let (bm, r4) = parse_u32(r3)->Some_0;
    assert(r2 =~= enc_u32(k1) + enc_u32(bm) + r4);
    assert(r1 =~= enc_u128(total) + enc_u32(k1) + enc_u32(bm) + r4);
    assert(b =~= enc_u64(n) + enc_u128(total) + enc_u32(k1) + enc_u32(bm) + r4);
}

/// What parses as a body is the encoding of what it parses to, followed by
/// what is left over.
pub proof fn lemma_enc_parse_body(b: Seq<u8>)
    requires
        parse_body(b) is Some,
    ensures
        b == enc_body(parse_body(b)->Some_0.0) + parse_body(b)->Some_0.1,
        encodable(parse_body(b)->Some_0.0),
{
    lemma_enc_parse_scalars(b);
    let ((n, total, k1, bm), r4) = parse_scalars(b)->Some_0;
    lemma_enc_parse_docs(r4, n as nat);
    let (docs, r5) = parse_docs(r4, n as nat)->Some_0;
    lemma_enc_parse_u64(r5);
    let (m, r6) = parse_u64(r5)->Some_0;
    lemma_enc_parse_terms(r6, m as nat);
    let (terms, r7) = parse_terms(r6, m as nat)->Some_0;
    let head = enc_u64(n) + enc_u128(total) + enc_u32(k1) + enc_u32(bm);
    assert(b == head + r4);
    assert(r5 =~= enc_u64(m) + enc_terms(terms) + r7);
    assert(r4 =~= enc_docs(docs) + enc_u64(m) + enc_terms(terms) + r7);
    let v = parse_body(b)->Some_0.0;
    assert(v.docs == docs && v.terms == terms);
    assert(enc_body(v) == head + enc_docs(docs) + enc_u64(m) + enc_terms(terms));
    assert(head + (enc_docs(docs) + enc_u64(m) + enc_terms(terms) + r7) =~= head + enc_docs(docs)
        + enc_u64(m) + enc_terms(terms) + r7);
}

/// The layout is canonical: a byte string that is read as an index is the
/// encoding of that index, and of no other.
pub proof fn lemma_parsed_is_encoded(b: Seq<u8>)
    requires
        parse_index(b) is Ok,
    ensures
        b == encoding(parse_index(b)->Ok_0),
        valid(parse_index(b)->Ok_0),
        encodable(parse_index(b)->Ok_0),
{
    lemma_enc_parse_u32(b);
    let (tag, r) = parse_u32(b)->Some_0;
    lemma_enc_parse_body(r);
    let (v, rest) = parse_body(r)->Some_0;
    assert(r =~= enc_body(v));
}

/// The byte strings that are read as an index are exactly the encodings of
/// the valid indexes.
pub proof fn lemma_accepted_iff_encoding(b: Seq<u8>)
    ensures
        parse_index(b) is Ok <==> exists|v: IndexView|
            valid(v) && encodable(v) && #[trigger] encoding(v) == b,
{
    if parse_index(b) is Ok {
        lemma_parsed_is_encoded(b);
        assert(encoding(parse_index(b)->Ok_0) == b);
    }
    if exists|v: IndexView| valid(v) && encodable(v) && #[trigger] encoding(v) == b {
        let v = choose|v: IndexView| valid(v) && encodable(v) && #[trigger] encoding(v) == b;
        lemma_parse_encoding(v);
    }
}

} // verus!
