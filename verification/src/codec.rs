//! Writing an index as bytes and reading it back.

use vstd::prelude::*;
use vstd::bytes::{
    u128_from_le_bytes, u128_to_le_bytes, u32_from_le_bytes, u32_to_le_bytes, u64_from_le_bytes,
    u64_to_le_bytes,
};
use vstd::slice::{slice_subrange, slice_to_vec};
use vstd::string::StrSliceExecFns;
use vstd::utf8::{decode_utf8, valid_utf8};
use crate::error::Error;
use crate::index::Index;
use crate::layout::{
    enc_body, enc_doc, enc_docs, enc_postings, enc_term, enc_terms, enc_text, enc_u128, enc_u32,
    enc_u64, encodable, encoding, lemma_parse_encoding, lemma_parsed_is_encoded, parse_body, parse_doc, parse_docs,
    parse_index, parse_posting, parse_postings, parse_scalars, parse_term, parse_terms,
    parse_text, parse_u128, parse_u32, parse_u64, text_fits, FORMAT_VERSION,
};
use crate::model::{doc_views, term_views, DocEntry, IndexView, Posting, TermEntry};

verus! {

fn put_u32(out: &mut Vec<u8>, x: u32)
    ensures
        final(out)@ == old(out)@ + enc_u32(x),
{
    let mut bytes = u32_to_le_bytes(x);
    out.append(&mut bytes);
}

fn put_u64(out: &mut Vec<u8>, x: u64)
    ensures
        final(out)@ == old(out)@ + enc_u64(x),
{
    let mut bytes = u64_to_le_bytes(x);
    out.append(&mut bytes);
}

fn put_u128(out: &mut Vec<u8>, x: u128)
    ensures
        final(out)@ == old(out)@ + enc_u128(x),
{
    let mut bytes = u128_to_le_bytes(x);
    out.append(&mut bytes);
}

fn put_text(out: &mut Vec<u8>, s: &str)
    ensures
        final(out)@ == old(out)@ + enc_text(s@),
        text_fits(s@),
{
    let mut bytes = s.as_bytes_vec();
    put_u64(out, bytes.len() as u64);
    out.append(&mut bytes);
    assert(out@ =~= old(out)@ + enc_text(s@));
}

fn put_doc(out: &mut Vec<u8>, d: &DocEntry)
    ensures
        final(out)@ == old(out)@ + enc_doc(d@),
        text_fits(d@.contents),
{
    put_u32(out, d.id);
    put_u64(out, d.length);
    put_text(out, d.contents.as_str());
    assert(out@ =~= old(out)@ + enc_doc(d@));
}

fn put_postings(out: &mut Vec<u8>, postings: &Vec<Posting>)
    ensures
        final(out)@ == old(out)@ + enc_postings(postings@),
{
    let mut j: usize = 0;
    assert(postings@.take(0) =~= Seq::empty());
    assert(out@ =~= old(out)@ + enc_postings(postings@.take(0)));
    while j < postings.len()
        invariant
            j <= postings@.len(),
            out@ == old(out)@ + enc_postings(postings@.take(j as int)),
        decreases postings@.len() - j,
    {
        put_u32(out, postings[j].doc_id);
        put_u64(out, postings[j].term_freq);
        proof {
            let next = postings@.take(j + 1);
            assert(next.drop_last() =~= postings@.take(j as int));
            assert(next.last() == postings@[j as int]);
            assert(out@ =~= old(out)@ + enc_postings(next));
        }
        j += 1;
    }
    assert(postings@.take(j as int) =~= postings@);
}

fn put_term(out: &mut Vec<u8>, t: &TermEntry)
    ensures
        final(out)@ == old(out)@ + enc_term(t@),
        text_fits(t@.token),
        t@.postings.len() <= u64::MAX,
{
    put_text(out, t.token.as_str());
    put_u64(out, t.postings.len() as u64);
    put_postings(out, &t.postings);
    assert(out@ =~= old(out)@ + enc_term(t@));
}

/// Calls `String::from_utf8`, which accepts exactly the byte strings that are
/// well-formed UTF-8 and gives the text that they encode.
#[verifier::external_body]
fn string_from_utf8(bytes: Vec<u8>) -> (out: Option<String>)
    ensures
        out is Some <==> valid_utf8(bytes@),
        out matches Some(s) ==> s@ == decode_utf8(bytes@),
{
    String::from_utf8(bytes).ok()
}

fn read_u32(bytes: &[u8], pos: usize) -> (out: Option<(u32, usize)>)
    requires
        pos <= bytes@.len(),
    ensures
        match out {
            Some((x, next)) => pos <= next <= bytes@.len() && parse_u32(bytes@.skip(pos as int))
                == Some((x, bytes@.skip(next as int))),
            None => parse_u32(bytes@.skip(pos as int)) is None,
        },
{
    if bytes.len() - pos < 4 {
        return None;
    }
    let x = u32_from_le_bytes(slice_subrange(bytes, pos, pos + 4));
    proof {
        assert(bytes@.skip(pos as int).take(4) =~= bytes@.subrange(pos as int, pos + 4));
        assert(bytes@.skip(pos as int).skip(4) =~= bytes@.skip(pos + 4));
    }
    Some((x, pos + 4))
}

fn read_u64(bytes: &[u8], pos: usize) -> (out: Option<(u64, usize)>)
    requires
        pos <= bytes@.len(),
    ensures
        match out {
            Some((x, next)) => pos <= next <= bytes@.len() && parse_u64(bytes@.skip(pos as int))
                == Some((x, bytes@.skip(next as int))),
            None => parse_u64(bytes@.skip(pos as int)) is None,
        },
{
    if bytes.len() - pos < 8 {
        return None;
    }
    let x = u64_from_le_bytes(slice_subrange(bytes, pos, pos + 8));
    proof {
        assert(bytes@.skip(pos as int).take(8) =~= bytes@.subrange(pos as int, pos + 8));
        assert(bytes@.skip(pos as int).skip(8) =~= bytes@.skip(pos + 8));
    }
    Some((x, pos + 8))
}

fn read_u128(bytes: &[u8], pos: usize) -> (out: Option<(u128, usize)>)
    requires
        pos <= bytes@.len(),
    ensures
        match out {
            Some((x, next)) => pos <= next <= bytes@.len() && parse_u128(bytes@.skip(pos as int))
                == Some((x, bytes@.skip(next as int))),
            None => parse_u128(bytes@.skip(pos as int)) is None,
        },
{
    if bytes.len() - pos < 16 {
        return None;
    }
    let x = u128_from_le_bytes(slice_subrange(bytes, pos, pos + 16));
    proof {
        assert(bytes@.skip(pos as int).take(16) =~= bytes@.subrange(pos as int, pos + 16));
        assert(bytes@.skip(pos as int).skip(16) =~= bytes@.skip(pos + 16));
    }
    Some((x, pos + 16))
}

fn read_text(bytes: &[u8], pos: usize) -> (out: Option<(String, usize)>)
    requires
        pos <= bytes@.len(),
    ensures
        match out {
            Some((s, next)) => pos <= next <= bytes@.len() && parse_text(bytes@.skip(pos as int))
                == Some((s@, bytes@.skip(next as int))),
            None => parse_text(bytes@.skip(pos as int)) is None,
        },
{
    let (n, start) = match read_u64(bytes, pos) {
        Some(r) => r,
        None => {
            return None;
        },
    };
    if n > (bytes.len() - start) as u64 {
        return None;
    }
    let width: usize = n as usize;
    let raw = slice_to_vec(slice_subrange(bytes, start, start + width));
    proof {
        assert(bytes@.skip(start as int).take(n as int) =~= bytes@.subrange(
            start as int,
            start + width,
        ));
        assert(bytes@.skip(start as int).skip(n as int) =~= bytes@.skip(start + width));
    }
    match string_from_utf8(raw) {
        Some(s) => Some((s, start + width)),
        None => None,
    }
}

fn read_doc(bytes: &[u8], pos: usize) -> (out: Option<(DocEntry, usize)>)
    requires
        pos <= bytes@.len(),
    ensures
        match out {
            Some((d, next)) => pos <= next <= bytes@.len() && parse_doc(bytes@.skip(pos as int))
                == Some((d@, bytes@.skip(next as int))),
            None => parse_doc(bytes@.skip(pos as int)) is None,
        },
{
    let (id, at1) = match read_u32(bytes, pos) {
        Some(r) => r,
        None => {
            return None;
        },
    };
    let (length, at2) = match read_u64(bytes, at1) {
        Some(r) => r,
        None => {
            return None;
        },
    };
    let (contents, at3) = match read_text(bytes, at2) {
        Some(r) => r,
        None => {
            return None;
        },
    };
    Some((DocEntry { id, length, contents }, at3))
}

fn read_posting(bytes: &[u8], pos: usize) -> (out: Option<(Posting, usize)>)
    requires
        pos <= bytes@.len(),
    ensures
        match out {
            Some((p, next)) => pos <= next <= bytes@.len() && parse_posting(
                bytes@.skip(pos as int),
            ) == Some((p, bytes@.skip(next as int))),
            None => parse_posting(bytes@.skip(pos as int)) is None,
        },
{
    let (doc_id, at1) = match read_u32(bytes, pos) {
        Some(r) => r,
        None => {
            return None;
        },
    };
    let (term_freq, at2) = match read_u64(bytes, at1) {
        Some(r) => r,
        None => {
            return None;
        },
    };
    Some((Posting { doc_id, term_freq }, at2))
}

/// Once a prefix of the documents cannot be parsed, no longer run can.
proof fn lemma_parse_docs_fails(b: Seq<u8>, k: nat, n: nat)
    requires
        parse_docs(b, k) is None,
        k <= n,
    ensures
        parse_docs(b, n) is None,
    decreases n,
{
    if k < n {
        lemma_parse_docs_fails(b, k, (n - 1) as nat);
    }
}

proof fn lemma_parse_postings_fails(b: Seq<u8>, k: nat, n: nat)
    requires
        parse_postings(b, k) is None,
        k <= n,
    ensures
        parse_postings(b, n) is None,
    decreases n,
{
    if k < n {
        lemma_parse_postings_fails(b, k, (n - 1) as nat);
    }
}

proof fn lemma_parse_terms_fails(b: Seq<u8>, k: nat, n: nat)
    requires
        parse_terms(b, k) is None,
        k <= n,
    ensures
        parse_terms(b, n) is None,
    decreases n,
{
    if k < n {
        lemma_parse_terms_fails(b, k, (n - 1) as nat);
    }
}

fn read_docs(bytes: &[u8], pos: usize, n: u64) -> (out: Option<(Vec<DocEntry>, usize)>)
    requires
        pos <= bytes@.len(),
    ensures
        match out {
            Some((docs, next)) => pos <= next <= bytes@.len() && parse_docs(
                bytes@.skip(pos as int),
                n as nat,
            ) == Some((doc_views(docs@), bytes@.skip(next as int))),
            None => parse_docs(bytes@.skip(pos as int), n as nat) is None,
        },
{
    let ghost start = bytes@.skip(pos as int);
    let mut docs: Vec<DocEntry> = Vec::new();
    let mut at: usize = pos;
    let mut i: u64 = 0;
    assert(doc_views(docs@) =~= Seq::empty());
    while i < n
        invariant
            i <= n,
            pos <= at <= bytes@.len(),
            start == bytes@.skip(pos as int),
            parse_docs(start, i as nat) == Some((doc_views(docs@), bytes@.skip(at as int))),
        decreases n - i,
    {
        let ghost before = doc_views(docs@);
        match read_doc(bytes, at) {
            Some((d, next)) => {
                docs.push(d);
                at = next;
                assert(doc_views(docs@) =~= before.push(d@));
            },
            None => {
                proof {
                    assert(parse_docs(start, (i + 1) as nat) is None);
                    lemma_parse_docs_fails(start, (i + 1) as nat, n as nat);
                }
                return None;
            },
        }
        i += 1;
    }
    Some((docs, at))
}

fn read_postings(bytes: &[u8], pos: usize, n: u64) -> (out: Option<(Vec<Posting>, usize)>)
    requires
        pos <= bytes@.len(),
    ensures
        match out {
            Some((postings, next)) => pos <= next <= bytes@.len() && parse_postings(
                bytes@.skip(pos as int),
                n as nat,
            ) == Some((postings@, bytes@.skip(next as int))),
            None => parse_postings(bytes@.skip(pos as int), n as nat) is None,
        },
{
    let ghost start = bytes@.skip(pos as int);
    let mut postings: Vec<Posting> = Vec::new();
    let mut at: usize = pos;
    let mut i: u64 = 0;
    assert(postings@ =~= Seq::empty());
    while i < n
        invariant
            i <= n,
            pos <= at <= bytes@.len(),
            start == bytes@.skip(pos as int),
            parse_postings(start, i as nat) == Some((postings@, bytes@.skip(at as int))),
        decreases n - i,
    {
        match read_posting(bytes, at) {
            Some((p, next)) => {
                postings.push(p);
                at = next;
            },
            None => {
                proof {
                    assert(parse_postings(start, (i + 1) as nat) is None);
                    lemma_parse_postings_fails(start, (i + 1) as nat, n as nat);
                }
                return None;
            },
        }
        i += 1;
    }
    Some((postings, at))
}

fn read_term(bytes: &[u8], pos: usize) -> (out: Option<(TermEntry, usize)>)
    requires
        pos <= bytes@.len(),
    ensures
        match out {
            Some((t, next)) => pos <= next <= bytes@.len() && parse_term(bytes@.skip(pos as int))
                == Some((t@, bytes@.skip(next as int))),
            None => parse_term(bytes@.skip(pos as int)) is None,
        },
{
    let (token, at1) = match read_text(bytes, pos) {
        Some(r) => r,
        None => {
            return None;
        },
    };
    let (n, at2) = match read_u64(bytes, at1) {
        Some(r) => r,
        None => {
            return None;
        },
    };
    let (postings, at3) = match read_postings(bytes, at2, n) {
        Some(r) => r,
        None => {
            return None;
        },
    };
    Some((TermEntry { token, postings }, at3))
}

fn read_terms(bytes: &[u8], pos: usize, n: u64) -> (out: Option<(Vec<TermEntry>, usize)>)
    requires
        pos <= bytes@.len(),
    ensures
        match out {
            Some((terms, next)) => pos <= next <= bytes@.len() && parse_terms(
                bytes@.skip(pos as int),
                n as nat,
            ) == Some((term_views(terms@), bytes@.skip(next as int))),
            None => parse_terms(bytes@.skip(pos as int), n as nat) is None,
        },
{
    let ghost start = bytes@.skip(pos as int);
    let mut terms: Vec<TermEntry> = Vec::new();
    let mut at: usize = pos;
    let mut i: u64 = 0;
    assert(term_views(terms@) =~= Seq::empty());
    while i < n
        invariant
            i <= n,
            pos <= at <= bytes@.len(),
            start == bytes@.skip(pos as int),
            parse_terms(start, i as nat) == Some((term_views(terms@), bytes@.skip(at as int))),
        decreases n - i,
    {
        let ghost before = term_views(terms@);
        match read_term(bytes, at) {
            Some((t, next)) => {
                terms.push(t);
                at = next;
                assert(term_views(terms@) =~= before.push(t@));
            },
            None => {
                proof {
                    assert(parse_terms(start, (i + 1) as nat) is None);
                    lemma_parse_terms_fails(start, (i + 1) as nat, n as nat);
                }
                return None;
            },
        }
        i += 1;
    }
    Some((terms, at))
}

fn read_scalars(bytes: &[u8], pos: usize) -> (out: Option<((u64, u128, u32, u32), usize)>)
    requires
        pos <= bytes@.len(),
    ensures
        match out {
            Some((x, next)) => pos <= next <= bytes@.len() && parse_scalars(
                bytes@.skip(pos as int),
            ) == Some((x, bytes@.skip(next as int))),
            None => parse_scalars(bytes@.skip(pos as int)) is None,
        },
{
    let (n, at1) = match read_u64(bytes, pos) {
        Some(r) => r,
        None => {
            return None;
        },
    };
    let (total, at2) = match read_u128(bytes, at1) {
        Some(r) => r,
        None => {
            return None;
        },
    };
    let (k1, at3) = match read_u32(bytes, at2) {
        Some(r) => r,
        None => {
            return None;
        },
    };
    let (bm, at4) = match read_u32(bytes, at3) {
        Some(r) => r,
        None => {
            return None;
        },
    };
    Some(((n, total, k1, bm), at4))
}

impl Index {
    /// The bytes that store this index, in the layout of `encoding`. Reading
    /// them back with `deserialize` gives an index with the same model.
    pub fn serialize(&self) -> (out: Vec<u8>)
        ensures
            out@ == encoding(self@),
            encodable(self@),
            self.wf() ==> parse_index(out@) == Ok::<IndexView, Error>(self@),
    {
        let mut out: Vec<u8> = Vec::new();
        put_u32(&mut out, FORMAT_VERSION);
        let ghost tag = out@;
        put_u64(&mut out, self.docs.len() as u64);
        put_u128(&mut out, self.total_length);
        put_u32(&mut out, self.k1_milli);
        put_u32(&mut out, self.b_milli);
        let ghost scalars = out@;
        let ghost docs = doc_views(self.docs@);
        let ghost terms = term_views(self.terms@);
        let mut i: usize = 0;
        assert(docs.take(0) =~= Seq::empty());
        assert(out@ =~= scalars + enc_docs(docs.take(0)));
        while i < self.docs.len()
            invariant
                i <= self.docs@.len(),
                docs == doc_views(self.docs@),
                out@ == scalars + enc_docs(docs.take(i as int)),
                forall|k: int| 0 <= k < i ==> text_fits((#[trigger] docs[k]).contents),
            decreases self.docs@.len() - i,
        {
            put_doc(&mut out, &self.docs[i]);
            proof {
                let next = docs.take(i + 1);
                assert(next.drop_last() =~= docs.take(i as int));
                assert(next.last() == self.docs@[i as int]@);
                assert(out@ =~= scalars + enc_docs(next));
            }
            i += 1;
        }
        assert(docs.take(i as int) =~= docs);
        put_u64(&mut out, self.terms.len() as u64);
        let ghost counted = out@;
        let mut p: usize = 0;
        assert(terms.take(0) =~= Seq::empty());
        assert(out@ =~= counted + enc_terms(terms.take(0)));
        while p < self.terms.len()
            invariant
                p <= self.terms@.len(),
                terms == term_views(self.terms@),
                out@ == counted + enc_terms(terms.take(p as int)),
                forall|k: int|
                    0 <= k < p ==> text_fits((#[trigger] terms[k]).token)
                        && terms[k].postings.len() <= u64::MAX,
            decreases self.terms@.len() - p,
        {
            put_term(&mut out, &self.terms[p]);
            proof {
                let next = terms.take(p + 1);
                assert(next.drop_last() =~= terms.take(p as int));
                assert(next.last() == self.terms@[p as int]@);
                assert(out@ =~= counted + enc_terms(next));
            }
            p += 1;
        }
        proof {
            assert(terms.take(p as int) =~= terms);
            assert(out@ =~= tag + enc_body(self@));
            assert(encodable(self@));
            if self.wf() {
                lemma_parse_encoding(self@);
            }
        }
        out
    }

    /// Reads an index from the bytes that `serialize` wrote. It succeeds
    /// exactly on the byte strings that `parse_index` accepts, which are the
    /// encodings of the valid indexes, with the model that `parse_index`
    /// gives; every other byte string is refused with the error that
    /// `parse_index` names, and no partly filled index is ever returned.
    pub fn deserialize(bytes: &[u8]) -> (out: Result<Index, Error>)
        ensures
            match out {
                Ok(ix) => ix.wf() && parse_index(bytes@) == Ok::<IndexView, Error>(ix@)
                    && bytes@ == encoding(ix@),
                Err(e) => parse_index(bytes@) == Err::<IndexView, Error>(e),
            },
    {
        proof {
            if parse_index(bytes@) is Ok {
                lemma_parsed_is_encoded(bytes@);
            }
        }
        assert(bytes@.skip(0) =~= bytes@);
        let (tag, at0) = match read_u32(bytes, 0) {
            Some(r) => r,
            None => {
                return Err(Error::TruncatedOrCorruptPayload);
            },
        };
        if tag != FORMAT_VERSION {
            return Err(Error::UnsupportedFormatVersion);
        }
        let ((n, total_length, k1_milli, b_milli), at1) = match read_scalars(bytes, at0) {
            Some(r) => r,
            None => {
                return Err(Error::TruncatedOrCorruptPayload);
            },
        };
        let (docs, at2) = match read_docs(bytes, at1, n) {
            Some(r) => r,
            None => {
                return Err(Error::TruncatedOrCorruptPayload);
            },
        };
        let (m, at3) = match read_u64(bytes, at2) {
            Some(r) => r,
            None => {
                return Err(Error::TruncatedOrCorruptPayload);
            },
        };
        let (terms, at4) = match read_terms(bytes, at3, m) {
            Some(r) => r,
            None => {
                return Err(Error::TruncatedOrCorruptPayload);
            },
        };
        if at4 != bytes.len() {
            return Err(Error::TruncatedOrCorruptPayload);
        }
        match Index::assemble(docs, terms, total_length, k1_milli, b_milli) {
            Some(ix) => Ok(ix),
            None => Err(Error::TruncatedOrCorruptPayload),
        }
    }
}

} // verus!
