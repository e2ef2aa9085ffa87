//! A whole query: matching, scoring by a function of the caller, ranking.

use vstd::prelude::*;
use crate::index::{stats_of, CorpusStats, Index};
use crate::query::{match_views, matches_of, DocMatch};
use crate::ranking::{ranked_contents, ScoredDocument};
use crate::tokenizer::string_views;

verus! {

/// `scored` holds, for each match in turn, the document's identifier and a
/// score that `score` returned for it.
pub open spec fn scored_by<F: Fn(CorpusStats, &DocMatch) -> u64>(
    score: F,
    stats: CorpusStats,
    found: Seq<DocMatch>,
    scored: Seq<ScoredDocument>,
) -> bool {
    &&& scored.len() == found.len()
    &&& forall|i: int|
        0 <= i < found.len() ==> (#[trigger] scored[i]).doc_id == found[i].doc_id && score.ensures(
            (stats, &found[i]),
            scored[i].score_key,
        )
}

impl Index {
    /// The texts of the best `k` documents for a query, best first. The
    /// matches of the query are found, `score` is called once for each of
    /// them, in the order of the document table, and the documents are ranked
    /// by what it returned: descending, ties by ascending identifier,
    /// documents scored zero left out.
    pub fn search_with<F: Fn(CorpusStats, &DocMatch) -> u64>(
        &self,
        query: &str,
        k: usize,
        score: F,
    ) -> (out: Vec<String>)
        requires
            self.wf(),
            forall|m: &DocMatch| #[trigger] score.requires((stats_of(self@), m)),
        ensures
            out@.len() <= k,
            exists|found: Seq<DocMatch>, scored: Seq<ScoredDocument>|
                #![trigger scored_by(score, stats_of(self@), found, scored)]
                {
                    &&& match_views(found) == matches_of(self@, query@)
                    &&& scored_by(score, stats_of(self@), found, scored)
                    &&& string_views(out@) == ranked_contents(self@, scored, k as nat)
                },
    {
        let stats = self.stats();
        let found: Vec<DocMatch> = self.matches(query);
        let mut scored: Vec<ScoredDocument> = Vec::new();
        let mut i: usize = 0;
        while i < found.len()
            invariant
                i <= found@.len(),
                stats == stats_of(self@),
                forall|m: &DocMatch| #[trigger] score.requires((stats, m)),
                scored@.len() == i,
                forall|j: int|
                    0 <= j < i ==> (#[trigger] scored@[j]).doc_id == found@[j].doc_id
                        && score.ensures((stats, &found@[j]), scored@[j].score_key),
            decreases found@.len() - i,
        {
            let key: u64 = score(stats, &found[i]);
            scored.push(ScoredDocument { doc_id: found[i].doc_id, score_key: key });
            i += 1;
        }
        let out = self.rank(scored.as_slice(), k);
        assert(scored_by(score, stats_of(self@), found@, scored@));
        out
    }
}

} // verus!
