//! What ranking reads from the index and the statistics of a document.
//!
//! A relevance score is a sum over the query terms that the document holds.
//! Each summand is made of whole numbers: how often the term occurs in the
//! document, how many documents hold it, the length of the document and the
//! number of documents. This module gathers these numbers; the arithmetic on
//! them is left to the caller.
use crate::document::DocStats;
use crate::index::InvertedIndex;
use crate::strmap::StringMap;
use crate::text::views;
use vstd::prelude::*;

verus! {

/// The numbers of one query term in one document.
#[derive(Clone, Copy, Debug)]
pub struct TermStat {
    /// How often the term occurs in the document.
    pub tf: usize,
    /// How many documents hold the term.
    pub df: usize,
}

/// What the score of one document is computed from.
#[derive(Debug)]
pub struct ScoreInputs {
    /// The number of analyzed terms of the document.
    pub doc_length: usize,
    /// The number of indexed documents.
    pub total_docs: usize,
    /// The numbers of each query term that the document holds, in the order
    /// of the query. A term that the query repeats is repeated here.
    pub terms: Vec<TermStat>,
}

/// A candidate with what its score is computed from.
#[derive(Debug)]
pub struct RankInputs {
    pub doc_id: String,
    pub inputs: ScoreInputs,
}

/// Whether a document with these frequencies holds `term`.
pub open spec fn occurs(frequencies: Map<Seq<char>, usize>, term: Seq<char>) -> bool {
    frequencies.contains_key(term) && frequencies[term] > 0
}

/// The query terms that the document holds, in the order of the query.
pub open spec fn scored_terms(query: Seq<Seq<char>>, frequencies: Map<Seq<char>, usize>) -> Seq<
    Seq<char>,
> {
    query.filter(|t: Seq<char>| occurs(frequencies, t))
}

/// The numbers of each scored term.
pub open spec fn term_stats(
    query: Seq<Seq<char>>,
    frequencies: Map<Seq<char>, usize>,
    index: &InvertedIndex,
) -> Seq<TermStat> {
    let scored = scored_terms(query, frequencies);
    Seq::new(
        scored.len(),
        |i: int| TermStat { tf: frequencies[scored[i]], df: index.posting(scored[i]).len() as usize },
    )
}

/// Gathers what the score of a document for a query is computed from.
pub fn score_inputs(query_terms: &[String], doc_stats: &DocStats, index: &InvertedIndex) -> (inputs:
    ScoreInputs)
    requires
        index.wf(),
        doc_stats.term_frequencies.wf(),
    ensures
        inputs.doc_length == doc_stats.length,
        inputs.total_docs == index.documents().len(),
        inputs.terms@ == term_stats(views(query_terms@), doc_stats@.frequencies, index),
{
    let ghost query = views(query_terms@);
    let ghost frequencies = doc_stats@.frequencies;
    let ghost holds = |t: Seq<char>| occurs(frequencies, t);
    let mut terms: Vec<TermStat> = Vec::new();
    let mut i: usize = 0;
    proof {
        reveal(Seq::filter);
        assert(query.take(0) =~= Seq::<Seq<char>>::empty());
        assert(terms@ =~= term_stats(query.take(0), frequencies, index));
    }
    while i < query_terms.len()
        invariant
            i <= query_terms@.len(),
            query == views(query_terms@),
            frequencies == doc_stats@.frequencies,
            holds == |t: Seq<char>| occurs(frequencies, t),
            index.wf(),
            doc_stats.term_frequencies.wf(),
            terms@ == term_stats(query.take(i as int), frequencies, index),
        decreases query_terms@.len() - i,
    {
        let term: &String = &query_terms[i];
        let ghost seen = query.take(i as int);
        proof {
            assert(query[i as int] == term@);
            assert(query.take(i + 1) =~= seen.push(term@));
            seen.lemma_filter_push(term@, holds);
        }
        let tf = match doc_stats.term_frequencies.get(term.as_str()) {
            Some(count) => *count,
            None => 0,
        };
        if tf > 0 {
            let df = index.doc_frequency(term.as_str());
            terms.push(TermStat { tf, df });
            assert(terms@ =~= term_stats(seen.push(term@), frequencies, index));
        } else {
            assert(terms@ =~= term_stats(seen.push(term@), frequencies, index));
        }
        i = i + 1;
    }
    assert(query.take(query.len() as int) =~= query);
    ScoreInputs { doc_length: doc_stats.length, total_docs: index.total_documents(), terms }
}

/// The candidates that have statistics, in order.
pub open spec fn ranked_candidates(
    candidates: Seq<Seq<char>>,
    doc_stats_map: Map<Seq<char>, DocStats>,
) -> Seq<Seq<char>> {
    candidates.filter(|d: Seq<char>| doc_stats_map.contains_key(d))
}

/// Gathers, for each candidate that has statistics, what its score is
/// computed from. The candidates keep their order.
pub fn rank_inputs(
    query_terms: &[String],
    candidate_docs: &[String],
    doc_stats_map: &StringMap<DocStats>,
    index: &InvertedIndex,
) -> (ranked: Vec<RankInputs>)
    requires
        index.wf(),
        doc_stats_map.wf(),
        forall|d: Seq<char>| #[trigger]
            doc_stats_map@.contains_key(d) ==> doc_stats_map@[d].term_frequencies.wf(),
    ensures
        ranked@.len() == ranked_candidates(views(candidate_docs@), doc_stats_map@).len(),
        forall|i: int|
            0 <= i < ranked@.len() ==> {
                let id = ranked_candidates(views(candidate_docs@), doc_stats_map@)[i];
                &&& (#[trigger] ranked@[i]).doc_id@ == id
                &&& doc_stats_map@.contains_key(id)
                &&& ranked@[i].inputs.doc_length == doc_stats_map@[id].length
                &&& ranked@[i].inputs.total_docs == index.documents().len()
                &&& ranked@[i].inputs.terms@ == term_stats(
                    views(query_terms@),
                    doc_stats_map@[id]@.frequencies,
                    index,
                )
            },
{
    let ghost candidates = views(candidate_docs@);
    let ghost known = |d: Seq<char>| doc_stats_map@.contains_key(d);
    let mut ranked: Vec<RankInputs> = Vec::new();
    let mut i: usize = 0;
    proof {
        reveal(Seq::filter);
        assert(candidates.take(0) =~= Seq::<Seq<char>>::empty());
    }
    while i < candidate_docs.len()
        invariant
            i <= candidate_docs@.len(),
            candidates == views(candidate_docs@),
            known == |d: Seq<char>| doc_stats_map@.contains_key(d),
            index.wf(),
            doc_stats_map.wf(),
            forall|d: Seq<char>| #[trigger]
                doc_stats_map@.contains_key(d) ==> doc_stats_map@[d].term_frequencies.wf(),
            ranked@.len() == ranked_candidates(candidates.take(i as int), doc_stats_map@).len(),
            forall|j: int|
                0 <= j < ranked@.len() ==> {
                    let id = ranked_candidates(candidates.take(i as int), doc_stats_map@)[j];
                    &&& (#[trigger] ranked@[j]).doc_id@ == id
                    &&& doc_stats_map@.contains_key(id)
                    &&& ranked@[j].inputs.doc_length == doc_stats_map@[id].length
                    &&& ranked@[j].inputs.total_docs == index.documents().len()
                    &&& ranked@[j].inputs.terms@ == term_stats(
                        views(query_terms@),
                        doc_stats_map@[id]@.frequencies,
                        index,
                    )
                },
        decreases candidate_docs@.len() - i,
    {
        let doc_id: &String = &candidate_docs[i];
        let ghost seen = candidates.take(i as int);
        proof {
            assert(candidates[i as int] == doc_id@);
            assert(candidates.take(i + 1) =~= seen.push(doc_id@));
            seen.lemma_filter_push(doc_id@, known);
        }
        match doc_stats_map.get(doc_id.as_str()) {
            Some(doc_stats) => {
                let inputs = score_inputs(query_terms, doc_stats, index);
                ranked.push(RankInputs { doc_id: doc_id.clone(), inputs });
            },
            None => {},
        }
        i = i + 1;
    }
    assert(candidates.take(candidates.len() as int) =~= candidates);
    ranked
}

} // verus!
