//! The engine: an inverted index and the statistics of each document, kept
//! in step by `upsert_document` and `delete_document`, and queried by `search`.
use crate::counting::{lemma_sum_bound, sum_of};
use crate::document::{searchable, stats_of, DocStats, DocStatsView, Document};
use crate::index::{IndexStats, InvertedIndex};
use crate::lists::{lemma_without, lemma_without_remove, with_id, without};
use crate::paging::{page_of, page_range};
use crate::state::{
    acceptable, after_upsert, has_all, has_any, lemma_restored, lemma_with_id_prefix, matching,
    names, restored, upserted, with_id_prefix,
};
use crate::strmap::StringMap;
use crate::text::views;
use crate::tokenizer::{analyzed, Tokenizer};
use vstd::prelude::*;

verus! {

/// How the terms of a query select documents.
#[derive(Clone, Copy, Debug)]
pub enum SearchMode {
    /// A document must hold every term.
    And,
    /// A document must hold at least one term.
    Or,
}

/// The options of a search.
#[derive(Clone, Debug)]
pub struct SearchOptions {
    pub mode: SearchMode,
    /// Whether the matches are put in the order of their relevance before
    /// the page is cut. Relevance is a floating-point score, and the order
    /// by it is made by the caller from `ranking::rank_inputs`; `search`
    /// keeps the order of the index.
    pub use_ranking: bool,
    /// The length of a page; without it a page runs to the end.
    pub limit: Option<usize>,
    /// The number of matches before the page.
    pub offset: usize,
}

impl Default for SearchOptions {
    fn default() -> (options: Self)
        ensures
            options.mode is And,
            options.use_ranking,
            options.limit == Some(10usize),
            options.offset == 0,
    {
        SearchOptions { mode: SearchMode::And, use_ranking: true, limit: Some(10), offset: 0 }
    }
}

/// Why the engine refused an input.
#[derive(Clone, Copy, Debug)]
pub enum EngineError {
    /// A document without an id.
    InvalidArgument,
    /// Statistics that no text could have.
    Malformed,
}

impl EngineError {
    /// What went wrong, in words.
    pub fn message(&self) -> (text: &'static str)
        ensures
            text@ == (match self {
                EngineError::InvalidArgument => "invalid argument: a document needs an id"@,
                EngineError::Malformed => "malformed document statistics"@,
            }),
    {
        match self {
            EngineError::InvalidArgument => "invalid argument: a document needs an id",
            EngineError::Malformed => "malformed document statistics",
        }
    }
}

/// What a query has found: its analyzed terms and the ids of the documents
/// that match, each once.
pub struct QueryMatches {
    pub terms: Vec<String>,
    pub ids: Vec<String>,
}

/// One page of what a search has found, and the number of all matches.
pub struct SearchResult {
    pub ids: Vec<String>,
    pub total: usize,
}

/// The documents that the index delivers for `terms`, in its order.
pub open spec fn candidates(
    index: &InvertedIndex,
    terms: Seq<Seq<char>>,
    mode: SearchMode,
) -> Seq<Seq<char>> {
    match mode {
        SearchMode::And => index.conjunction(terms),
        SearchMode::Or => index.disjunction(terms),
    }
}

/// The search engine.
pub struct SearchEngine {
    index: InvertedIndex,
    doc_stats: StringMap<DocStats>,
    tokenizer: Tokenizer,
}

impl SearchEngine {
    /// The inverted index of the engine.
    pub closed spec fn spec_index(&self) -> &InvertedIndex {
        &self.index
    }

    /// The statistics of the documents, by id.
    pub closed spec fn spec_doc_stats(&self) -> &StringMap<DocStats> {
        &self.doc_stats
    }

    /// The invariant of the engine: index and statistics speak of the same
    /// documents, the statistics of each are consistent and stand under its
    /// id, and its terms in the index are those that have a frequency.
    pub open spec fn wf(&self) -> bool {
        &&& self.spec_index().wf()
        &&& self.spec_doc_stats().wf()
        &&& forall|d: Seq<char>| #[trigger]
            self.spec_index()@.contains_key(d) <==> self.spec_doc_stats()@.contains_key(d)
        &&& forall|d: Seq<char>| #[trigger]
            self.spec_doc_stats()@.contains_key(d) ==> {
                &&& self.spec_doc_stats()@[d].id@ == d
                &&& self.spec_doc_stats()@[d].consistent()
                &&& self.spec_doc_stats()@[d].term_frequencies@.dom() == self.spec_index()@[d]
            }
    }

    /// The engine as a map from the id of each live document to its statistics.
    pub open spec fn view(&self) -> Map<Seq<char>, DocStatsView> {
        Map::new(
            |d: Seq<char>| self.spec_doc_stats()@.contains_key(d),
            |d: Seq<char>| self.spec_doc_stats()@[d]@,
        )
    }

    /// An engine without documents.
    pub fn in_memory() -> (engine: Self)
        ensures
            engine.wf(),
            engine@ == Map::<Seq<char>, DocStatsView>::empty(),
            engine.ids() == Seq::<Seq<char>>::empty(),
            engine.index().is_blank(),
    {
        let engine = SearchEngine {
            index: InvertedIndex::new(),
            doc_stats: StringMap::new(),
            tokenizer: Tokenizer::new(),
        };
        assert(engine@ =~= Map::<Seq<char>, DocStatsView>::empty());
        engine
    }

    #[verifier::when_used_as_spec(spec_index)]
    pub fn index(&self) -> (index: &InvertedIndex)
        ensures
            index == self.spec_index(),
    {
        &self.index
    }

    #[verifier::when_used_as_spec(spec_doc_stats)]
    pub fn doc_stats(&self) -> (stats: &StringMap<DocStats>)
        ensures
            stats == self.spec_doc_stats(),
    {
        &self.doc_stats
    }

    /// Inserts a document, or replaces the one with the same id.
    pub fn upsert_document(&mut self, doc: &Document) -> (done: Result<(), EngineError>)
        requires
            old(self).wf(),
        ensures
            final(self).wf(),
            match done {
                Ok(_) => {
                    &&& doc.id@.len() > 0
                    &&& final(self)@ == after_upsert(old(self)@, *doc)
                    &&& final(self).ids() == with_id(old(self).ids(), doc.id@)
                    &&& final(self).index().is_update_of(
                        old(self).index(),
                        doc.id@,
                        analyzed(searchable(doc.title@, doc.content@)),
                    )
                },
                Err(e) => {
                    &&& e is InvalidArgument
                    &&& doc.id@.len() == 0
                    &&& *final(self) == *old(self)
                },
            },
    {
        if doc.id.as_str().is_empty() {
            return Err(EngineError::InvalidArgument);
        }
        let text = doc.searchable_text();
        let terms = self.tokenizer.analyze(text.as_str());
        let stats = DocStats::of_terms(doc.id.clone(), terms.as_slice());
        self.index.update_document(doc.id.as_str(), terms.as_slice());
        self.doc_stats.insert(doc.id.clone(), stats);
        proof {
            let id = doc.id@;
            let all = views(terms@);
            assert(stats.term_frequencies@.dom() =~= all.to_set());
            assert forall|d: Seq<char>| #[trigger]
                self.spec_doc_stats()@.contains_key(d) implies {
                &&& self.spec_doc_stats()@[d].id@ == d
                &&& self.spec_doc_stats()@[d].consistent()
                &&& self.spec_doc_stats()@[d].term_frequencies@.dom() == self.spec_index()@[d]
            } by {
                if d != id {
                    assert(old(self).spec_doc_stats()@.contains_key(d));
                }
            }
            assert(self@ =~= old(self)@.insert(id, stats_of(id, all)));
        }
        Ok(())
    }

    /// Takes a document out. Says whether it was there.
    pub fn delete_document(&mut self, doc_id: &str) -> (existed: bool)
        requires
            old(self).wf(),
        ensures
            final(self).wf(),
            final(self)@ == old(self)@.remove(doc_id@),
            final(self).ids() == without(old(self).ids(), doc_id@),
            final(self).index().is_removal_of(old(self).index(), doc_id@),
            existed == old(self)@.contains_key(doc_id@),
    {
        self.index.remove_document(doc_id);
        let previous = self.doc_stats.remove(doc_id);
        proof {
            let keys = old(self).doc_stats.keys();
            if keys.contains(doc_id@) {
                let at = keys.index_of(doc_id@);
                assert(keys[at] == doc_id@);
                lemma_without_remove(keys, at);
            } else {
                lemma_without(keys, doc_id@);
            }
            assert forall|d: Seq<char>| #[trigger]
                self.spec_doc_stats()@.contains_key(d) implies {
                &&& self.spec_doc_stats()@[d].id@ == d
                &&& self.spec_doc_stats()@[d].consistent()
                &&& self.spec_doc_stats()@[d].term_frequencies@.dom() == self.spec_index()@[d]
            } by {
                assert(old(self).spec_doc_stats()@.contains_key(d));
            }
            assert(self@ =~= old(self)@.remove(doc_id@));
        }
        previous.is_some()
    }

    /// The statistics of one document.
    pub fn get_doc_stats(&self, doc_id: &str) -> (stats: Option<&DocStats>)
        requires
            self.wf(),
        ensures
            match stats {
                Some(s) => self@.contains_key(doc_id@) && s@ == self@[doc_id@] && s.consistent(),
                None => !self@.contains_key(doc_id@),
            },
    {
        self.doc_stats.get(doc_id)
    }

    /// The number of live documents.
    pub fn document_count(&self) -> (n: usize)
        requires
            self.wf(),
        ensures
            n == self@.dom().len(),
            self@.dom().finite(),
    {
        proof {
            self.doc_stats.lemma_view_dom();
            assert(self@.dom() =~= self.doc_stats@.dom());
        }
        self.doc_stats.len()
    }

    /// The counts of the index.
    pub fn stats(&self) -> (stats: IndexStats)
        requires
            self.wf(),
        ensures
            stats.total_documents == self.index().documents().len(),
            stats.total_tokens == self.index().terms().len(),
            stats.total_postings == sum_of(self.index().posting_lengths()),
    {
        self.index.stats()
    }

    /// Forgets every document.
    pub fn clear(&mut self)
        ensures
            final(self).wf(),
            final(self)@ == Map::<Seq<char>, DocStatsView>::empty(),
            final(self).ids() == Seq::<Seq<char>>::empty(),
            final(self).index().is_blank(),
    {
        self.index = InvertedIndex::new();
        self.doc_stats.clear();
        assert(self@ =~= Map::<Seq<char>, DocStatsView>::empty());
    }

    /// Analyzes `query` and finds the documents that its terms select.
    pub fn matches(&self, query: &str, mode: SearchMode) -> (found: QueryMatches)
        requires
            self.wf(),
        ensures
            views(found.terms@) == analyzed(query@),
            views(found.ids@) == candidates(self.index(), analyzed(query@), mode),
            views(found.ids@).no_duplicates(),
            views(found.ids@).to_set() == matching(self@, analyzed(query@), mode),
    {
        let terms = self.tokenizer.analyze(query);
        let ghost all = views(terms@);
        let ids = match mode {
            SearchMode::And => self.index.search_and(terms.as_slice()),
            SearchMode::Or => self.index.search_or(terms.as_slice()),
        };
        proof {
            assert forall|d: Seq<char>| self@.contains_key(d) implies (has_all(self@, d, all)
                <==> self.index.holds_all(d, all)) && (has_any(self@, d, all)
                <==> self.index.holds_any(d, all)) by {
                assert(self.spec_doc_stats()@.contains_key(d));
                assert(self.spec_index()@.contains_key(d));
                let held = self.spec_doc_stats()@[d].term_frequencies@;
                assert(held.dom() == self.index.terms_of(d));
                assert forall|t: Seq<char>| held.contains_key(t) <==> self.index.terms_of(
                    d,
                ).contains(t) by {
                    assert(held.contains_key(t) <==> held.dom().contains(t));
                }
                if has_any(self@, d, all) {
                    let i = choose|i: int|
                        0 <= i < all.len() && self@[d].frequencies.contains_key(#[trigger] all[i]);
                    assert(self.index.terms_of(d).contains(all[i]));
                }
                if self.index.holds_any(d, all) {
                    let i = choose|i: int|
                        0 <= i < all.len() && self.index.terms_of(d).contains(#[trigger] all[i]);
                    assert(self@[d].frequencies.contains_key(all[i]));
                }
            }
            assert forall|d: Seq<char>| self@.contains_key(d) <==> self.index@.contains_key(d) by {
                assert(self.spec_index()@.contains_key(d) <==> self.spec_doc_stats()@.contains_key(d));
            }
            match mode {
                SearchMode::And => {
                    assert(self.index.matching_all(all) =~= matching(self@, all, mode));
                },
                SearchMode::Or => {
                    assert(self.index.matching_any(all) =~= matching(self@, all, mode));
                },
            }
        }
        QueryMatches { terms, ids }
    }

    /// Finds the documents that `query` selects and returns one page of
    /// them, in the order in which the index delivers them, with the number
    /// of all matches. A caller that ranks takes `matches`, puts the ids in
    /// the order of their scores and cuts the page with `page_of`.
    pub fn search(&self, query: &str, options: &SearchOptions) -> (result: SearchResult)
        requires
            self.wf(),
        ensures
            result.total == candidates(self.index(), analyzed(query@), options.mode).len(),
            views(result.ids@) == candidates(
                self.index(),
                analyzed(query@),
                options.mode,
            ).subrange(
                page_range(result.total as int, options.offset as int, options.limit).0,
                page_range(result.total as int, options.offset as int, options.limit).1,
            ),
            matching(self@, analyzed(query@), options.mode).finite(),
            result.total == matching(self@, analyzed(query@), options.mode).len(),
            views(result.ids@).no_duplicates(),
            views(result.ids@).to_set().subset_of(matching(self@, analyzed(query@), options.mode)),
            result.ids@.len() == page_range(
                result.total as int,
                options.offset as int,
                options.limit,
            ).1 - page_range(result.total as int, options.offset as int, options.limit).0,
    {
        let found = self.matches(query, options.mode);
        let page = page_of(found.ids.as_slice(), options.offset, options.limit);
        proof {
            let all = views(found.ids@);
            let shown = views(page@);
            let (start, end) = page_range(all.len() as int, options.offset as int, options.limit);
            all.unique_seq_to_set();
            vstd::seq_lib::seq_to_set_is_finite(all);
            assert forall|i: int, j: int| 0 <= i < j < shown.len() implies shown[i] != shown[j] by {
                assert(shown[i] == all[start + i]);
                assert(shown[j] == all[start + j]);
            }
            assert forall|d: Seq<char>| shown.to_set().contains(d) implies all.to_set().contains(
                d,
            ) by {
                let i = shown.index_of(d);
                assert(shown[i] == d);
                assert(all[start + i] == d);
            }
        }
        SearchResult { ids: page, total: found.ids.len() }
    }

    /// Upserts the documents in turn, and stops at the first without an id.
    pub fn batch_insert(&mut self, docs: &[Document]) -> (done: Result<(), EngineError>)
        requires
            old(self).wf(),
        ensures
            final(self).wf(),
            final(self)@ == upserted(old(self)@, docs@.take(with_id_prefix(docs@) as int)),
            with_id_prefix(docs@) <= docs@.len(),
            match done {
                Ok(_) => with_id_prefix(docs@) == docs@.len(),
                Err(e) => e is InvalidArgument && with_id_prefix(docs@) < docs@.len(),
            },
    {
        let mut i: usize = 0;
        assert(docs@.take(0) =~= Seq::<Document>::empty());
        while i < docs.len()
            invariant
                i <= docs@.len(),
                self.wf(),
                forall|j: int| 0 <= j < i ==> (#[trigger] docs@[j]).id@.len() > 0,
                self@ == upserted(old(self)@, docs@.take(i as int)),
            decreases docs@.len() - i,
        {
            match self.upsert_document(&docs[i]) {
                Ok(_) => {},
                Err(e) => {
                    proof {
                        lemma_with_id_prefix(docs@, i as int);
                    }
                    return Err(e);
                },
            }
            proof {
                assert(docs@.take(i + 1).drop_last() =~= docs@.take(i as int));
                assert(docs@.take(i + 1).last() == docs@[i as int]);
            }
            i = i + 1;
        }
        proof {
            lemma_with_id_prefix(docs@, i as int);
        }
        Ok(())
    }

    /// Builds the engine from the statistics that were kept of each document.
    /// The index is rebuilt from them. Statistics that are not acceptable are
    /// refused.
    pub fn new(stats: Vec<DocStats>) -> (built: Result<Self, EngineError>)
        requires
            forall|i: int| 0 <= i < stats@.len() ==> (#[trigger] stats@[i]).term_frequencies.wf(),
        ensures
            match built {
                Ok(engine) => {
                    &&& engine.wf()
                    &&& engine@ == restored(stats@)
                    &&& forall|i: int| 0 <= i < stats@.len() ==> acceptable(#[trigger] stats@[i])
                },
                Err(e) => {
                    &&& e is Malformed
                    &&& exists|i: int| 0 <= i < stats@.len() && !acceptable(#[trigger] stats@[i])
                },
            },
    {
        let ghost all = stats@;
        let mut engine = SearchEngine::in_memory();
        assert(all.take(0) =~= Seq::<DocStats>::empty());
        for entry in it: stats
            invariant
                it.seq() == all,
                forall|i: int| 0 <= i < all.len() ==> (#[trigger] all[i]).term_frequencies.wf(),
                engine.wf(),
                engine@ == restored(all.take(it.index() as int)),
                forall|i: int| 0 <= i < it.index() ==> acceptable(#[trigger] all[i]),
        {
            let ghost at = it.index() as int;
            let ghost before = engine;
            assert(entry == all[at]);
            if entry.id.as_str().is_empty() || !entry.is_consistent() {
                assert(!acceptable(all[at]));
                return Err(EngineError::Malformed);
            }
            let terms = entry.term_frequencies.key_list();
            engine.index.update_document(entry.id.as_str(), terms.as_slice());
            engine.doc_stats.insert(entry.id.clone(), entry);
            proof {
                let id = entry.id@;
                entry.term_frequencies.lemma_view_dom();
                assert(entry.term_frequencies@.dom() =~= views(terms@).to_set());
                assert forall|d: Seq<char>| #[trigger]
                    engine.spec_doc_stats()@.contains_key(d) implies {
                    &&& engine.spec_doc_stats()@[d].id@ == d
                    &&& engine.spec_doc_stats()@[d].consistent()
                    &&& engine.spec_doc_stats()@[d].term_frequencies@.dom()
                        == engine.spec_index()@[d]
                } by {
                    if d != id {
                        assert(before.spec_doc_stats()@.contains_key(d));
                    }
                }
                assert(all.take(at + 1).drop_last() =~= all.take(at));
                assert(all.take(at + 1).last() == entry);
                assert(engine@ =~= before@.insert(id, entry@));
            }
        }
        assert(all.take(all.len() as int) =~= all);
        Ok(engine)
    }

    /// The ids of the live documents, in the order in which they came.
    pub closed spec fn ids(&self) -> Seq<Seq<char>> {
        self.doc_stats.keys()
    }

    /// The length of each live document, in the order of `ids`.
    pub open spec fn lengths(&self) -> Seq<nat> {
        Seq::new(self.ids().len(), |i: int| self@[self.ids()[i]].length)
    }

    /// `ids` lists the live documents, each once.
    pub proof fn lemma_ids(&self)
        requires
            self.wf(),
        ensures
            self.ids().no_duplicates(),
            self.ids().to_set() == self@.dom(),
            self@.dom().finite(),
            self@.dom().len() == self.ids().len(),
    {
        self.doc_stats.lemma_view_dom();
        assert(self@.dom() =~= self.doc_stats@.dom());
    }

    /// The sum of the lengths of the live documents. Divided by their number
    /// it is the average length of a document.
    pub fn total_length(&self) -> (sum: u128)
        requires
            self.wf(),
        ensures
            sum == sum_of(self.lengths()),
    {
        let ghost lengths = self.lengths();
        let count = self.doc_stats.len();
        let mut sum: u128 = 0;
        let mut i: usize = 0;
        while i < count
            invariant
                i <= count,
                count == self.ids().len(),
                self.wf(),
                lengths == self.lengths(),
                sum == sum_of(lengths.take(i as int)),
                sum <= i * usize::MAX,
            decreases count - i,
        {
            let stats = self.doc_stats.value_at(i);
            proof {
                self.doc_stats.lemma_view_at(i as int);
                assert(lengths.take(i + 1).drop_last() =~= lengths.take(i as int));
                assert(lengths[i as int] == stats.length);
                assert(i * usize::MAX + usize::MAX == (i + 1) * usize::MAX) by (nonlinear_arith);
                assert((i + 1) * usize::MAX <= usize::MAX * usize::MAX) by (nonlinear_arith)
                    requires
                        i + 1 <= usize::MAX,
                ;
                assert(usize::MAX * usize::MAX <= u128::MAX) by (nonlinear_arith)
                    requires
                        usize::MAX <= 0xffff_ffff_ffff_ffff,
                ;
            }
            sum = sum + stats.length as u128;
            i = i + 1;
        }
        assert(lengths.take(lengths.len() as int) =~= lengths);
        sum
    }

    /// The statistics that the engine keeps stand for its state: an engine
    /// that `new` builds from them is in the state of this one.
    pub proof fn lemma_restores(&self)
        requires
            self.wf(),
        ensures
            restored(self.spec_doc_stats().values()) == self@,
    {
        let stats = self.spec_doc_stats().values();
        assert forall|i: int| 0 <= i < stats.len() implies self@.contains_key(
            (#[trigger] stats[i]).id@,
        ) && self@[stats[i].id@] == stats[i]@ by {
            self.doc_stats.lemma_view_at(i);
        }
        assert forall|d: Seq<char>| #[trigger] self@.contains_key(d) implies names(stats, d) by {
            let i = self.doc_stats.keys().index_of(d);
            assert(self.doc_stats.keys()[i] == d);
            self.doc_stats.lemma_view_at(i);
            assert(stats[i].id@ == d);
        }
        lemma_restored(stats, self@);
    }

    /// The number of distinct terms of each live document, in the order in
    /// which the index lists the documents.
    pub open spec fn distinct_term_counts(&self) -> Seq<nat> {
        Seq::new(
            self.index().documents().len(),
            |j: int| self@[self.index().documents()[j]].frequencies.dom().len(),
        )
    }

    /// The index lists the live documents, each once, and the document
    /// frequencies of all terms add up to what the numbers of distinct terms
    /// of all live documents add up to.
    pub proof fn lemma_postings_balance(&self)
        requires
            self.wf(),
        ensures
            self.index().documents().no_duplicates(),
            self.index().documents().to_set() == self@.dom(),
            self.index().documents().len() == self@.dom().len(),
            sum_of(self.index().posting_lengths()) == sum_of(self.distinct_term_counts()),
    {
        let docs = self.index.documents();
        self.index.lemma_postings_balance();
        assert forall|d: Seq<char>| docs.to_set().contains(d) <==> self@.dom().contains(d) by {
            assert(self.spec_index()@.contains_key(d) <==> self.spec_doc_stats()@.contains_key(d));
        }
        assert(docs.to_set() =~= self@.dom());
        docs.unique_seq_to_set();
        assert forall|j: int| 0 <= j < docs.len() implies #[trigger] self.index.term_counts()[j]
            == self.distinct_term_counts()[j] by {
            let d = docs[j];
            assert(docs.contains(d));
            assert(self.spec_index()@.contains_key(d));
            assert(self.spec_doc_stats()@.contains_key(d));
            assert(self.spec_doc_stats()@[d].term_frequencies@.dom() == self.spec_index()@[d]);
        }
        assert(self.index.term_counts() =~= self.distinct_term_counts());
    }

    /// The numbers that a score is made of fit together: a term that a live
    /// document holds is held by at least one and at most all of the indexed
    /// documents, and the document has a length, so that the lengths of all
    /// documents together are more than nothing.
    pub proof fn lemma_ranking_numbers(&self, d: Seq<char>, term: Seq<char>)
        requires
            self.wf(),
            self@.contains_key(d),
            self@[d].frequencies.contains_key(term),
        ensures
            self@[d].frequencies[term] >= 1,
            1 <= self.index().posting(term).len() <= self.index().documents().len(),
            self@[d].frequencies[term] <= self@[d].length,
            self@[d].length <= sum_of(self.lengths()),
    {
        let stats = self.spec_doc_stats()@[d];
        assert(self.spec_doc_stats()@.contains_key(d));
        assert(stats.term_frequencies@.dom().contains(term));
        assert(self.spec_index()@.contains_key(d));
        assert(self.spec_index()@[d].contains(term));
        assert(self.index.posting(term).contains(d));
        self.index.lemma_frequency_bound(term);
        let at = stats.term_frequencies.keys().index_of(term);
        assert(stats.term_frequencies.keys()[at] == term);
        stats.term_frequencies.lemma_view_at(at);
        crate::tokenizer::lemma_total_update(stats.term_frequencies.values(), at, 0);
        let place = self.doc_stats.keys().index_of(d);
        assert(self.doc_stats.keys()[place] == d);
        self.doc_stats.lemma_view_at(place);
        lemma_sum_bound(self.lengths(), place);
    }
}

} // verus!
