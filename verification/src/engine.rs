//! The search engine: an index together with the ways to make one from
//! source records, to store it and to load it.

use vstd::prelude::*;
use crate::compress::{compress, decompress, decompressed, sealed, Codec};
use crate::corpus::{distinct_corpus_ids, index_of_corpus};
use crate::error::Error;
use crate::index::{stats_of, CorpusStats, Index};
use crate::ingest::{
    compose_corpus, corpus_of_records, json_table, parse_records, record_table, record_views,
    SourceRecord, SourceRecordView, COURSE_ID_FIELD, DESC_FIELD, NAME_FIELD,
};
use crate::layout::{encoding, parse_index};
use crate::model::{corpus_view, Document, DocumentView, IndexView};
use crate::query::{match_views, matches_of, DocMatch};
use crate::ranking::{ranked_contents, ScoredDocument};
use crate::search::scored_by;
use crate::tokenizer::string_views;

verus! {

/// How many results `SearchEngine::search` returns at most.
pub const RESULT_LIMIT: usize = 7;

/// A search engine over a fixed corpus.
pub struct SearchEngine {
    pub(crate) index: Index,
}

impl View for SearchEngine {
    type V = IndexView;

    open(crate) spec fn view(&self) -> IndexView {
        self.index@
    }
}

/// What stored bytes hold when read with `codec`: the index that the
/// unwrapped bytes encode, or the reason why there is none.
pub open spec fn stored_index(codec: Codec, bytes: Seq<u8>) -> Result<IndexView, Error> {
    match decompressed(codec, bytes) {
        Some(plain) => parse_index(plain),
        None => Err(Error::DecompressionFailure),
    }
}

/// The records of a table of fields.
pub open spec fn table_records(table: Seq<(Seq<char>, Seq<char>, Seq<char>)>) -> Seq<
    SourceRecordView,
> {
    Seq::new(
        table.len(),
        |i: int| SourceRecordView { course_id: table[i].0, name: table[i].1, desc: table[i].2 },
    )
}

/// The corpus of a table of up to 2^32 records has no identifier twice.
pub proof fn lemma_records_have_distinct_ids(records: Seq<SourceRecordView>)
    requires
        records.len() <= 0x1_0000_0000,
    ensures
        distinct_corpus_ids(corpus_of_records(records)),
{
}

impl SearchEngine {
    /// The index is well formed.
    pub open(crate) spec fn wf(&self) -> bool {
        self.index.wf()
    }

    /// An engine over the given documents. A corpus in which an identifier
    /// occurs twice is refused; every other corpus, the empty one too, gives
    /// an engine.
    pub fn from_corpus(corpus: &[Document]) -> (out: Result<SearchEngine, Error>)
        ensures
            match out {
                Ok(engine) => distinct_corpus_ids(corpus_view(corpus@)) && engine.wf() && engine@
                    == index_of_corpus(corpus_view(corpus@)),
                Err(e) => e == Error::DuplicateDocumentId && !distinct_corpus_ids(
                    corpus_view(corpus@),
                ),
            },
    {
        match Index::build(corpus) {
            Ok(index) => Ok(SearchEngine { index }),
            Err(e) => Err(e),
        }
    }

    /// An engine over the searchable texts of the given records, each under
    /// its position as identifier. Up to 2^32 records always give an engine.
    pub fn from_records(records: &[SourceRecord]) -> (out: Result<SearchEngine, Error>)
        ensures
            match out {
                Ok(engine) => engine.wf() && engine@ == index_of_corpus(
                    corpus_of_records(record_views(records@)),
                ),
                Err(e) => e == Error::DuplicateDocumentId && records@.len() > 0x1_0000_0000,
            },
    {
        let corpus = compose_corpus(records);
        proof {
            if records@.len() <= 0x1_0000_0000 {
                lemma_records_have_distinct_ids(record_views(records@));
            }
        }
        SearchEngine::from_corpus(corpus.as_slice())
    }

    /// An engine over the records of a JSON text: an array of objects, or an
    /// object whose values are objects, each with the fields `courseID`,
    /// `name` and `desc`. A text that is not JSON is refused.
    pub fn from_json(text: &str) -> (out: Result<SearchEngine, Error>)
        ensures
            match json_table(text@, COURSE_ID_FIELD@, NAME_FIELD@, DESC_FIELD@) {
                Some(table) => match out {
                    Ok(engine) => engine.wf() && engine@ == index_of_corpus(
                        corpus_of_records(table_records(table)),
                    ),
                    Err(e) => e == Error::DuplicateDocumentId && table.len() > 0x1_0000_0000,
                },
                None => out matches Err(e) && e == Error::MalformedSourceRecord,
            },
    {
        match parse_records(text) {
            Some(records) => {
                proof {
                    let table = json_table(
                        text@,
                        COURSE_ID_FIELD@,
                        NAME_FIELD@,
                        DESC_FIELD@,
                    )->Some_0;
                    assert(record_table(Some(records))->Some_0 == table);
                    assert(table_records(table) =~= record_views(records@));
                }
                SearchEngine::from_records(records.as_slice())
            },
            None => Err(Error::MalformedSourceRecord),
        }
    }

    /// The bytes to store: the binary layout of the index, wrapped by the
    /// codecs of `codec`. Reading them back with `from_bytes` and the same
    /// `codec` gives an engine with the same model. Without a codec this
    /// always succeeds.
    pub fn to_bytes(&self, codec: Codec) -> (out: Result<Vec<u8>, Error>)
        ensures
            match sealed(codec, encoding(self@)) {
                Some(c) => out matches Ok(v) && v@ == c,
                None => out matches Err(e) && e == Error::CompressionFailure,
            },
            self.wf() ==> (out matches Ok(v) ==> stored_index(codec, v@) == Ok::<IndexView, Error>(
                self@,
            )),
            !codec.zlib && !codec.brotli ==> (out matches Ok(v) && v@ == encoding(self@)),
    {
        let plain = self.index.serialize();
        compress(codec, plain.as_slice())
    }

    /// The engine that stored bytes hold. Bytes that the codec refuses, a
    /// version tag other than this library's, and a payload that is cut
    /// short, has bytes left over or breaks an invariant of the index are
    /// each refused with their own error.
    pub fn from_bytes(serialized_engine: Vec<u8>, codec: Codec) -> (out: Result<SearchEngine, Error>)
        ensures
            match out {
                Ok(engine) => engine.wf() && stored_index(codec, serialized_engine@) == Ok::<
                    IndexView,
                    Error,
                >(engine@),
                Err(e) => stored_index(codec, serialized_engine@) == Err::<IndexView, Error>(e),
            },
    {
        let plain = match decompress(codec, serialized_engine.as_slice()) {
            Ok(p) => p,
            Err(e) => {
                return Err(e);
            },
        };
        match Index::deserialize(plain.as_slice()) {
            Ok(index) => Ok(SearchEngine { index }),
            Err(e) => Err(e),
        }
    }

    /// The index of the engine.
    pub fn index(&self) -> (out: &Index)
        ensures
            out@ == self@,
            out.wf() == self.wf(),
    {
        &self.index
    }

    /// The scalars that the ranking formula reads.
    pub fn stats(&self) -> (out: CorpusStats)
        ensures
            out == stats_of(self@),
    {
        self.index.stats()
    }

    /// The texts of the best documents for a query, best first, at most
    /// `RESULT_LIMIT` of them, ranked by the scores that `score` gives to the
    /// matches of the query.
    pub fn search<F: Fn(CorpusStats, &DocMatch) -> u64>(&self, query: &str, score: F) -> (out: Vec<
        String,
    >)
        requires
            self.wf(),
            forall|m: &DocMatch| #[trigger] score.requires((stats_of(self@), m)),
        ensures
            out@.len() <= RESULT_LIMIT,
            exists|found: Seq<DocMatch>, scored: Seq<ScoredDocument>|
                #![trigger scored_by(score, stats_of(self@), found, scored)]
                {
                    &&& match_views(found) == matches_of(self@, query@)
                    &&& scored_by(score, stats_of(self@), found, scored)
                    &&& string_views(out@) == ranked_contents(self@, scored, RESULT_LIMIT as nat)
                },
    {
        assert(self@ == self.index@);
        self.index.search_with(query, RESULT_LIMIT, score)
    }
}

} // verus!
