//! The inverted index: for each term the list of the documents that hold it.
use crate::counting::{
    column, lemma_column_counts, lemma_exchange, lemma_row_counts, lemma_sum_of_columns,
    lemma_sum_of_rows, row, sum_of,
};
use crate::lists::{
    common, copy_ids, intersect, lemma_common, lemma_merge, lemma_with_id, lemma_without, merge,
    merge_into, remove_id, with_id, without,
};
use crate::strmap::StringMap;
use crate::text::{contains_str, views};
use vstd::prelude::*;

verus! {

/// The list that `postings` has for `term`; the empty list where it has none.
pub open spec fn list_of(postings: Map<Seq<char>, Vec<String>>, term: Seq<char>) -> Seq<Seq<char>> {
    if postings.contains_key(term) {
        views(postings[term]@)
    } else {
        Seq::empty()
    }
}

/// Counts of what an index holds.
#[derive(Clone, Copy, Debug)]
pub struct IndexStats {
    /// The number of indexed documents.
    pub total_documents: usize,
    /// The number of distinct terms.
    pub total_tokens: usize,
    /// The lengths of all posting lists together. Divided by `total_tokens`
    /// it is the mean length of a posting list.
    pub total_postings: u128,
}

/// An inverted index over documents that are known by their ids.
#[derive(Clone, Debug)]
pub struct InvertedIndex {
    index: StringMap<Vec<String>>,
    documents: Vec<String>,
}

impl InvertedIndex {
    /// The posting list of `term`: the ids of the documents that hold it, in
    /// the order in which they were added. It is empty for an unknown term.
    pub closed spec fn posting(&self, term: Seq<char>) -> Seq<Seq<char>> {
        list_of(self.index@, term)
    }

    /// The terms that the index holds, in the order in which they came.
    pub closed spec fn terms(&self) -> Seq<Seq<char>> {
        self.index.keys()
    }

    /// The ids of the indexed documents, in the order in which they came.
    pub closed spec fn documents(&self) -> Seq<Seq<char>> {
        views(self.documents@)
    }

    /// What holds of the representation.
    pub closed spec fn well_kept(&self) -> bool {
        self.index.wf()
    }

    /// The invariant of the index: the terms are those with a posting list
    /// that is not empty, no list holds an id twice, every id in a list is
    /// that of an indexed document, and no document is there twice.
    pub open spec fn wf(&self) -> bool {
        &&& self.well_kept()
        &&& self.terms().no_duplicates()
        &&& self.documents().no_duplicates()
        &&& forall|t: Seq<char>| self.terms().contains(t) <==> (#[trigger] self.posting(t)).len() > 0
        &&& forall|t: Seq<char>| (#[trigger] self.posting(t)).no_duplicates()
        &&& forall|t: Seq<char>, d: Seq<char>| #[trigger]
            self.posting(t).contains(d) ==> self.documents().contains(d)
    }

    /// The terms of document `d`: those whose posting list holds it.
    pub open spec fn terms_of(&self, d: Seq<char>) -> Set<Seq<char>> {
        Set::new(|t: Seq<char>| self.posting(t).contains(d))
    }

    /// The terms that are left when document `id` is taken out: those that
    /// another document holds, in their order.
    pub open spec fn terms_without(&self, id: Seq<char>) -> Seq<Seq<char>> {
        self.terms().filter(self.outlasts(id))
    }

    /// The test that a term is held by another document than `id`.
    pub open spec fn outlasts(&self, id: Seq<char>) -> spec_fn(Seq<char>) -> bool {
        |t: Seq<char>| without(self.posting(t), id).len() > 0
    }

    /// Whether this index is `before` without document `id`: the id has left
    /// every posting list and the documents, and the terms that no other
    /// document holds have left the terms.
    pub open spec fn is_removal_of(&self, before: &InvertedIndex, id: Seq<char>) -> bool {
        &&& self.documents() == without(before.documents(), id)
        &&& self.terms() == before.terms_without(id)
        &&& forall|t: Seq<char>| #[trigger] self.posting(t) == without(before.posting(t), id)
    }

    /// Whether this index is `before` with the terms of document `id`
    /// replaced by `tokens`: the document is the last of the documents and
    /// of each posting list of its terms, and terms that are new follow the
    /// others in the order in which they first occur.
    pub open spec fn is_update_of(
        &self,
        before: &InvertedIndex,
        id: Seq<char>,
        tokens: Seq<Seq<char>>,
    ) -> bool {
        &&& self.documents() == without(before.documents(), id).push(id)
        &&& self.terms() == merge(before.terms_without(id), tokens)
        &&& forall|t: Seq<char>| #[trigger]
            self.posting(t) == if tokens.contains(t) {
                without(before.posting(t), id).push(id)
            } else {
                without(before.posting(t), id)
            }
    }

    /// Whether the index holds nothing.
    pub open spec fn is_blank(&self) -> bool {
        &&& self.documents() == Seq::<Seq<char>>::empty()
        &&& self.terms() == Seq::<Seq<char>>::empty()
        &&& forall|t: Seq<char>| #[trigger] self.posting(t) == Seq::<Seq<char>>::empty()
    }

    /// The index as a map from each indexed document to the set of its terms.
    pub open spec fn view(&self) -> Map<Seq<char>, Set<Seq<char>>> {
        Map::new(|d: Seq<char>| self.documents().contains(d), |d: Seq<char>| self.terms_of(d))
    }

    pub fn new() -> (index: Self)
        ensures
            index.wf(),
            index.is_blank(),
            index@ == Map::<Seq<char>, Set<Seq<char>>>::empty(),
    {
        let index = InvertedIndex { index: StringMap::new(), documents: Vec::new() };
        assert(index.documents() =~= Seq::<Seq<char>>::empty());
        assert(index@ =~= Map::<Seq<char>, Set<Seq<char>>>::empty());
        index
    }

    /// The posting list of `token`, if the index holds the term.
    pub fn get_documents(&self, token: &str) -> (list: Option<&Vec<String>>)
        requires
            self.wf(),
        ensures
            match list {
                Some(ids) => views(ids@) == self.posting(token@) && ids@.len() > 0,
                None => self.posting(token@) == Seq::<Seq<char>>::empty(),
            },
    {
        let list = self.index.get(token);
        proof {
            if list is Some {
                assert(self.terms().contains(token@));
                assert(self.posting(token@).len() > 0);
            }
        }
        list
    }

    /// The number of documents that hold `token`.
    pub fn doc_frequency(&self, token: &str) -> (n: usize)
        requires
            self.wf(),
        ensures
            n == self.posting(token@).len(),
    {
        match self.get_documents(token) {
            Some(ids) => ids.len(),
            None => 0,
        }
    }

    /// The number of indexed documents.
    pub fn total_documents(&self) -> (n: usize)
        ensures
            n == self.documents().len(),
    {
        self.documents.len()
    }

    /// Puts `doc_id` at the end of the posting list of `term`, unless the
    /// list holds it.
    fn add_posting(&mut self, term: &String, doc_id: &str)
        requires
            old(self).well_kept(),
            forall|t: Seq<char>|
                old(self).terms().contains(t) <==> (#[trigger] old(self).posting(t)).len() > 0,
        ensures
            final(self).well_kept(),
            final(self).documents() == old(self).documents(),
            final(self).terms() == with_id(old(self).terms(), term@),
            forall|t: Seq<char>| #[trigger]
                final(self).posting(t) == if t == term@ {
                    with_id(old(self).posting(t), doc_id@)
                } else {
                    old(self).posting(t)
                },
            forall|t: Seq<char>|
                final(self).terms().contains(t) <==> (#[trigger] final(self).posting(t)).len() > 0,
    {
        proof {
            lemma_with_id(self.posting(term@), doc_id@);
        }
        match self.index.position(term.as_str()) {
            Some(at) => {
                proof {
                    self.index.lemma_view_at(at as int);
                }
                if !contains_str(self.index.value_at(at).as_slice(), doc_id) {
                    let mut list = self.index.replace_at(at, Vec::new());
                    let ghost before = views(list@);
                    list.push(doc_id.to_owned());
                    assert(views(list@) =~= before.push(doc_id@));
                    self.index.replace_at(at, list);
                    assert(self.index@ =~= old(self).index@.insert(term@, list));
                }
            },
            None => {
                let mut list: Vec<String> = Vec::new();
                list.push(doc_id.to_owned());
                assert(views(list@) =~= Seq::<Seq<char>>::empty().push(doc_id@));
                assert(old(self).posting(term@).len() == 0);
                self.index.push_new(term.clone(), list);
            },
        }
        proof {
            assert forall|t: Seq<char>| self.terms().contains(t) <==> (#[trigger] self.posting(
                t,
            )).len() > 0 by {
                if t != term@ {
                    assert(old(self).terms().contains(t) <==> old(self).posting(t).len() > 0);
                }
            }
        }
    }

    /// Adds a document with its terms: the id goes to the end of the posting
    /// list of each term that does not hold it yet.
    pub fn add_document(&mut self, doc_id: &str, tokens: &[String])
        requires
            old(self).wf(),
        ensures
            final(self).wf(),
            forall|t: Seq<char>| #[trigger]
                final(self).posting(t) == if views(tokens@).contains(t) {
                    with_id(old(self).posting(t), doc_id@)
                } else {
                    old(self).posting(t)
                },
            final(self).documents() == with_id(old(self).documents(), doc_id@),
            final(self).terms() == merge(old(self).terms(), views(tokens@)),
            final(self)@ == old(self)@.insert(
                doc_id@,
                (if old(self)@.contains_key(doc_id@) {
                    old(self)@[doc_id@]
                } else {
                    Set::empty()
                }).union(views(tokens@).to_set()),
            ),
    {
        let ghost all = views(tokens@);
        let ghost id = doc_id@;
        let mut i: usize = 0;
        while i < tokens.len()
            invariant
                i <= tokens@.len(),
                all == views(tokens@),
                id == doc_id@,
                self.well_kept(),
                self.documents() == old(self).documents(),
                self.terms() == merge(old(self).terms(), all.take(i as int)),
                forall|t: Seq<char>|
                    self.terms().contains(t) <==> (#[trigger] self.posting(t)).len() > 0,
                forall|t: Seq<char>| #[trigger]
                    self.posting(t) == if all.take(i as int).contains(t) {
                        with_id(old(self).posting(t), id)
                    } else {
                        old(self).posting(t)
                    },
            decreases tokens@.len() - i,
        {
            let ghost seen = all.take(i as int);
            self.add_posting(&tokens[i], doc_id);
            proof {
                let term = all[i as int];
                assert(term == tokens@[i as int]@);
                assert(all.take(i + 1) =~= seen.push(term));
                assert(seen.push(term).drop_last() =~= seen);
                lemma_with_id(old(self).posting(term), id);
                assert forall|t: Seq<char>| #[trigger]
                    self.posting(t) == if all.take(i + 1).contains(t) {
                        with_id(old(self).posting(t), id)
                    } else {
                        old(self).posting(t)
                    } by {
                    vstd::seq_lib::lemma_seq_contains_after_push(seen, term, t);
                }
            }
            i = i + 1;
        }
        assert(all.take(all.len() as int) =~= all);
        let ghost docs = self.documents();
        let ghost filled = *self;
        if !contains_str(self.documents.as_slice(), doc_id) {
            self.documents.push(doc_id.to_owned());
            assert(self.documents() =~= docs.push(id));
        }
        proof {
            lemma_with_id(old(self).documents(), id);
            assert forall|t: Seq<char>| #[trigger]
                self.posting(t) == if all.contains(t) {
                    with_id(old(self).posting(t), id)
                } else {
                    old(self).posting(t)
                } by {
                assert(self.posting(t) == filled.posting(t));
            }
            assert forall|t: Seq<char>| self.terms().contains(t) <==> (#[trigger] self.posting(
                t,
            )).len() > 0 by {
                assert(self.posting(t) == filled.posting(t));
            }
            assert forall|t: Seq<char>| (#[trigger] self.posting(t)).no_duplicates() by {
                lemma_with_id(old(self).posting(t), id);
                assert(old(self).posting(t).no_duplicates());
            }
            assert forall|t: Seq<char>, d: Seq<char>| #[trigger]
                self.posting(t).contains(d) implies self.documents().contains(d) by {
                lemma_with_id(old(self).posting(t), id);
                if old(self).posting(t).contains(d) {
                    assert(old(self).documents().contains(d));
                }
            }
            let terms = (if old(self)@.contains_key(id) {
                old(self)@[id]
            } else {
                Set::empty()
            }).union(all.to_set());
            assert forall|d: Seq<char>| self@.contains_key(d) implies #[trigger] self@[d] == old(
                self,
            )@.insert(id, terms)[d] by {
                assert forall|t: Seq<char>| self@[d].contains(t) <==> old(self)@.insert(
                    id,
                    terms,
                )[d].contains(t) by {
                    lemma_with_id(old(self).posting(t), id);
                    if old(self).posting(t).contains(d) {
                        assert(old(self).documents().contains(d));
                    }
                }
                assert(self@[d] =~= old(self)@.insert(id, terms)[d]);
            }
            assert(self@ =~= old(self)@.insert(id, terms));
        }
    }

    /// Takes a document out: its id leaves every posting list, and a list
    /// that is empty then leaves the index with its term.
    pub fn remove_document(&mut self, doc_id: &str)
        requires
            old(self).wf(),
        ensures
            final(self).wf(),
            final(self).is_removal_of(old(self), doc_id@),
            final(self)@ == old(self)@.remove(doc_id@),
    {
        let ghost id = doc_id@;
        let ghost lasting = old(self).outlasts(id);
        let ghost postings = self.index@;
        let ghost terms = self.index.keys();
        let ghost lists = self.index.values();
        let mut taken: StringMap<Vec<String>> = StringMap::new();
        std::mem::swap(&mut self.index, &mut taken);
        proof {
            assert forall|j: int| 0 <= j < terms.len() implies postings.contains_key(
                #[trigger] terms[j],
            ) && postings[terms[j]] == lists[j] by {
                taken.lemma_view_at(j);
            }
            assert forall|t: Seq<char>| (#[trigger] list_of(postings, t)).no_duplicates() by {
                assert(old(self).posting(t).no_duplicates());
            }
            lemma_without(Seq::<Seq<char>>::empty(), id);
        }
        let entries = taken.into_entries();
        proof {
            reveal(Seq::filter);
            assert(terms.take(0) =~= Seq::<Seq<char>>::empty());
            assert(self.index.keys() =~= terms.take(0).filter(lasting));
        }
        for entry in it: entries
            invariant
                id == doc_id@,
                it.seq().len() == terms.len(),
                terms.len() == lists.len(),
                terms.no_duplicates(),
                forall|j: int| 0 <= j < terms.len() ==> (#[trigger] it.seq()[j]).key() == terms[j],
                forall|j: int| 0 <= j < terms.len() ==> (#[trigger] it.seq()[j]).value() == lists[j],
                forall|j: int|
                    0 <= j < terms.len() ==> postings.contains_key(#[trigger] terms[j])
                        && postings[terms[j]] == lists[j],
                forall|t: Seq<char>| (#[trigger] list_of(postings, t)).no_duplicates(),
                self.documents@ == old(self).documents@,
                postings == old(self).index@,
                lasting == old(self).outlasts(id),
                self.index.keys() == terms.take(it.index() as int).filter(lasting),
                self.index.wf(),
                forall|t: Seq<char>|
                    self.index.keys().contains(t) <==> (#[trigger] list_of(self.index@, t)).len()
                        > 0,
                forall|t: Seq<char>| #[trigger]
                    list_of(self.index@, t) == if terms.take(it.index() as int).contains(t) {
                        without(list_of(postings, t), id)
                    } else {
                        Seq::<Seq<char>>::empty()
                    },
        {
            let ghost at = it.index() as int;
            let ghost seen = terms.take(at);
            let ghost before = self.index@;
            let (term, list) = entry.into_pair();
            let mut list = list;
            proof {
                assert(term@ == terms[at]);
                assert(list == lists[at]);
                assert(views(list@) == list_of(postings, term@));
                assert(terms.take(at + 1) =~= seen.push(term@));
                seen.lemma_filter_push(term@, lasting);
                assert(old(self).posting(term@) == list_of(postings, term@));
                assert(!seen.contains(term@)) by {
                    if seen.contains(term@) {
                        let j = seen.index_of(term@);
                        assert(terms[j] == terms[at]);
                    }
                }
                assert(list_of(self.index@, term@).len() == 0);
            }
            remove_id(&mut list, doc_id);
            if list.len() > 0 {
                self.index.push_new(term, list);
            }
            proof {
                assert forall|t: Seq<char>| #[trigger]
                    list_of(self.index@, t) == if terms.take(at + 1).contains(t) {
                        without(list_of(postings, t), id)
                    } else {
                        Seq::<Seq<char>>::empty()
                    } by {
                    vstd::seq_lib::lemma_seq_contains_after_push(seen, term@, t);
                    if t != term@ {
                        assert(list_of(self.index@, t) == list_of(before, t));
                    }
                }
                assert forall|t: Seq<char>|
                    self.index.keys().contains(t) <==> (#[trigger] list_of(self.index@, t)).len()
                        > 0 by {
                    if t != term@ {
                        assert(list_of(self.index@, t) == list_of(before, t));
                    }
                }
            }
        }
        assert(terms.take(terms.len() as int) =~= terms);
        assert(self.index.keys() == old(self).terms_without(id));
        let ghost docs = self.documents();
        remove_id(&mut self.documents, doc_id);
        proof {
            lemma_without(docs, id);
            assert forall|t: Seq<char>| #[trigger]
                self.posting(t) == without(old(self).posting(t), id) by {
                if !terms.contains(t) {
                    assert(list_of(postings, t) == Seq::<Seq<char>>::empty());
                }
            }
            assert forall|t: Seq<char>| (#[trigger] self.posting(t)).no_duplicates() by {
                lemma_without(old(self).posting(t), id);
                assert(old(self).posting(t).no_duplicates());
            }
            assert forall|t: Seq<char>, d: Seq<char>| #[trigger]
                self.posting(t).contains(d) implies self.documents().contains(d) by {
                lemma_without(old(self).posting(t), id);
                assert(old(self).posting(t).contains(d));
                assert(old(self).documents().contains(d));
            }
            assert forall|d: Seq<char>| self@.contains_key(d) implies #[trigger] self@[d] == old(
                self,
            )@.remove(id)[d] by {
                assert forall|t: Seq<char>| self@[d].contains(t) <==> old(self)@.remove(
                    id,
                )[d].contains(t) by {
                    lemma_without(old(self).posting(t), id);
                }
                assert(self@[d] =~= old(self)@.remove(id)[d]);
            }
            assert(self@ =~= old(self)@.remove(id));
        }
    }

    /// Replaces the terms of a document: takes it out, then adds it again.
    pub fn update_document(&mut self, doc_id: &str, tokens: &[String])
        requires
            old(self).wf(),
        ensures
            final(self).wf(),
            final(self).is_update_of(old(self), doc_id@, views(tokens@)),
            final(self)@ == old(self)@.insert(doc_id@, views(tokens@).to_set()),
    {
        self.remove_document(doc_id);
        let ghost between = *self;
        self.add_document(doc_id, tokens);
        proof {
            let id = doc_id@;
            lemma_without(old(self).documents(), id);
            assert forall|t: Seq<char>| #[trigger]
                self.posting(t) == if views(tokens@).contains(t) {
                    without(old(self).posting(t), id).push(id)
                } else {
                    without(old(self).posting(t), id)
                } by {
                lemma_without(old(self).posting(t), id);
                assert(between.posting(t) == without(old(self).posting(t), id));
            }
            assert(Set::<Seq<char>>::empty().union(views(tokens@).to_set()) =~= views(
                tokens@,
            ).to_set());
            assert(!between@.contains_key(id));
            assert(self@ =~= old(self)@.insert(id, views(tokens@).to_set()));
        }
    }

    /// Whether document `d` holds each of `terms`.
    pub open spec fn holds_all(&self, d: Seq<char>, terms: Seq<Seq<char>>) -> bool {
        forall|i: int| 0 <= i < terms.len() ==> self.terms_of(d).contains(#[trigger] terms[i])
    }

    /// Whether document `d` holds one of `terms`.
    pub open spec fn holds_any(&self, d: Seq<char>, terms: Seq<Seq<char>>) -> bool {
        exists|i: int| 0 <= i < terms.len() && self.terms_of(d).contains(#[trigger] terms[i])
    }

    /// The indexed documents that hold every one of `terms`; none where
    /// `terms` is empty.
    pub open spec fn matching_all(&self, terms: Seq<Seq<char>>) -> Set<Seq<char>> {
        Set::new(
            |d: Seq<char>| terms.len() > 0 && self@.contains_key(d) && self.holds_all(d, terms),
        )
    }

    /// The indexed documents that hold at least one of `terms`.
    pub open spec fn matching_any(&self, terms: Seq<Seq<char>>) -> Set<Seq<char>> {
        Set::new(|d: Seq<char>| self@.contains_key(d) && self.holds_any(d, terms))
    }

    /// One more term: a document holds all of `terms` and `term` when it holds
    /// all of `terms` and holds `term`, and likewise for one of them.
    pub proof fn lemma_holds_push(&self, d: Seq<char>, terms: Seq<Seq<char>>, term: Seq<char>)
        ensures
            self.holds_all(d, terms.push(term)) <==> self.holds_all(d, terms) && self.terms_of(d).contains(
                term,
            ),
            self.holds_any(d, terms.push(term)) <==> self.holds_any(d, terms) || self.terms_of(d).contains(
                term,
            ),
    {
        let more = terms.push(term);
        assert(more[terms.len() as int] == term);
        if self.holds_all(d, more) {
            assert forall|i: int| 0 <= i < terms.len() implies self.terms_of(d).contains(
                #[trigger] terms[i],
            ) by {
                assert(more[i] == terms[i]);
            }
        }
        if self.holds_all(d, terms) && self.terms_of(d).contains(term) {
            assert forall|i: int| 0 <= i < more.len() implies self.terms_of(d).contains(
                #[trigger] more[i],
            ) by {
                if i < terms.len() {
                    assert(more[i] == terms[i]);
                }
            }
        }
        if self.holds_any(d, more) {
            let i = choose|i: int| 0 <= i < more.len() && self.terms_of(d).contains(#[trigger] more[i]);
            if i < terms.len() {
                assert(more[i] == terms[i]);
            }
        }
        if self.holds_any(d, terms) {
            let i = choose|i: int| 0 <= i < terms.len() && self.terms_of(d).contains(#[trigger] terms[i]);
            assert(more[i] == terms[i]);
        }
    }

    /// The documents that hold every one of `terms`, in the order of the
    /// posting list of the first term; none where `terms` is empty.
    pub open spec fn conjunction(&self, terms: Seq<Seq<char>>) -> Seq<Seq<char>>
        decreases terms.len(),
    {
        if terms.len() == 0 {
            Seq::empty()
        } else if terms.len() == 1 {
            self.posting(terms[0])
        } else {
            common(self.conjunction(terms.drop_last()), self.posting(terms.last()))
        }
    }

    /// The documents that hold at least one of `terms`: those of the first
    /// term in the order of its posting list, then those that the second
    /// term adds, and so on.
    pub open spec fn disjunction(&self, terms: Seq<Seq<char>>) -> Seq<Seq<char>>
        decreases terms.len(),
    {
        if terms.len() == 0 {
            Seq::empty()
        } else {
            merge(self.disjunction(terms.drop_last()), self.posting(terms.last()))
        }
    }

    /// A conjunction that is empty for some of the terms is empty for all.
    pub proof fn lemma_conjunction_stays_empty(&self, terms: Seq<Seq<char>>, k: int)
        requires
            1 <= k <= terms.len(),
            self.conjunction(terms.take(k)).len() == 0,
        ensures
            self.conjunction(terms).len() == 0,
        decreases terms.len() - k,
    {
        if k < terms.len() {
            let next = terms.take(k + 1);
            assert(next.drop_last() =~= terms.take(k));
            reveal(Seq::filter);
            assert(self.conjunction(next).len() == 0);
            self.lemma_conjunction_stays_empty(terms, k + 1);
        } else {
            assert(terms.take(k) =~= terms);
        }
    }

    /// A conjunction holds the documents that hold every term, each once.
    pub proof fn lemma_conjunction(&self, terms: Seq<Seq<char>>)
        requires
            self.wf(),
        ensures
            self.conjunction(terms).no_duplicates(),
            self.conjunction(terms).to_set() == self.matching_all(terms),
            forall|d: Seq<char>| #[trigger]
                self.conjunction(terms).contains(d) <==> terms.len() > 0 && self.holds_all(d, terms),
        decreases terms.len(),
    {
        if terms.len() == 1 {
            assert(self.posting(terms[0]).no_duplicates());
            assert forall|d: Seq<char>| #[trigger]
                self.conjunction(terms).contains(d) <==> self.holds_all(d, terms) by {
                if self.holds_all(d, terms) {
                    assert(self.terms_of(d).contains(terms[0]));
                }
            }
        } else if terms.len() > 1 {
            let front = terms.drop_last();
            self.lemma_conjunction(front);
            lemma_common(self.conjunction(front), self.posting(terms.last()));
            assert(front.push(terms.last()) =~= terms);
            assert forall|d: Seq<char>| #[trigger]
                self.conjunction(terms).contains(d) <==> self.holds_all(d, terms) by {
                self.lemma_holds_push(d, front, terms.last());
            }
        }
        assert forall|d: Seq<char>| self.conjunction(terms).contains(d) implies self@.contains_key(
            d,
        ) by {
            assert(self.terms_of(d).contains(terms[0]));
            assert(self.posting(terms[0]).contains(d));
        }
        assert(self.conjunction(terms).to_set() =~= self.matching_all(terms));
    }

    /// A disjunction holds the documents that hold at least one term, each
    /// once.
    pub proof fn lemma_disjunction(&self, terms: Seq<Seq<char>>)
        requires
            self.wf(),
        ensures
            self.disjunction(terms).no_duplicates(),
            self.disjunction(terms).to_set() == self.matching_any(terms),
            forall|d: Seq<char>| #[trigger]
                self.disjunction(terms).contains(d) <==> self.holds_any(d, terms),
        decreases terms.len(),
    {
        if terms.len() > 0 {
            let front = terms.drop_last();
            self.lemma_disjunction(front);
            lemma_merge(self.disjunction(front), self.posting(terms.last()));
            assert(front.push(terms.last()) =~= terms);
            assert forall|d: Seq<char>| #[trigger]
                self.disjunction(terms).contains(d) <==> self.holds_any(d, terms) by {
                self.lemma_holds_push(d, front, terms.last());
            }
        }
        assert forall|d: Seq<char>| self.disjunction(terms).contains(d) implies self@.contains_key(
            d,
        ) by {
            let i = choose|i: int|
                0 <= i < terms.len() && self.terms_of(d).contains(#[trigger] terms[i]);
            assert(self.posting(terms[i]).contains(d));
        }
        assert(self.disjunction(terms).to_set() =~= self.matching_any(terms));
    }

    /// The documents that hold all of `tokens`, each once.
    pub fn search_and(&self, tokens: &[String]) -> (ids: Vec<String>)
        requires
            self.wf(),
        ensures
            views(ids@) == self.conjunction(views(tokens@)),
            views(ids@).no_duplicates(),
            views(ids@).to_set() == self.matching_all(views(tokens@)),
    {
        let ghost all = views(tokens@);
        proof {
            self.lemma_conjunction(all);
        }
        let mut ids: Vec<String> = Vec::new();
        if tokens.len() == 0 {
            assert(views(ids@) =~= self.conjunction(all));
            return ids;
        }
        let mut i: usize = 0;
        while i < tokens.len()
            invariant
                i <= tokens@.len(),
                all == views(tokens@),
                self.wf(),
                i == 0 ==> ids@.len() == 0,
                i > 0 ==> views(ids@) == self.conjunction(all.take(i as int)),
            decreases tokens@.len() - i,
        {
            let ghost next = all.take(i + 1);
            proof {
                assert(next.last() == tokens@[i as int]@);
                assert(next.drop_last() =~= all.take(i as int));
            }
            match self.get_documents(tokens[i].as_str()) {
                Some(list) => {
                    if i == 0 {
                        ids = copy_ids(list.as_slice());
                    } else {
                        ids = intersect(ids, list.as_slice());
                    }
                },
                None => {
                    let none: Vec<String> = Vec::new();
                    proof {
                        reveal(Seq::filter);
                        lemma_common(self.conjunction(all.take(i as int)), self.posting(next.last()));
                        let gone = self.conjunction(next);
                        if gone.len() > 0 {
                            assert(gone.contains(gone[0]));
                        }
                        self.lemma_conjunction_stays_empty(all, i + 1);
                        assert(views(none@) =~= self.conjunction(all));
                    }
                    return none;
                },
            }
            i = i + 1;
        }
        assert(all.take(all.len() as int) =~= all);
        ids
    }

    /// The documents that hold at least one of `tokens`, each once.
    pub fn search_or(&self, tokens: &[String]) -> (ids: Vec<String>)
        requires
            self.wf(),
        ensures
            views(ids@) == self.disjunction(views(tokens@)),
            views(ids@).no_duplicates(),
            views(ids@).to_set() == self.matching_any(views(tokens@)),
    {
        let ghost all = views(tokens@);
        proof {
            self.lemma_disjunction(all);
        }
        let mut ids: Vec<String> = Vec::new();
        let mut i: usize = 0;
        assert(views(ids@) =~= self.disjunction(all.take(0)));
        while i < tokens.len()
            invariant
                i <= tokens@.len(),
                all == views(tokens@),
                self.wf(),
                views(ids@) == self.disjunction(all.take(i as int)),
            decreases tokens@.len() - i,
        {
            proof {
                assert(all.take(i + 1).last() == tokens@[i as int]@);
                assert(all.take(i + 1).drop_last() =~= all.take(i as int));
            }
            match self.get_documents(tokens[i].as_str()) {
                Some(list) => {
                    merge_into(&mut ids, list.as_slice());
                },
                None => {},
            }
            i = i + 1;
        }
        assert(all.take(all.len() as int) =~= all);
        ids
    }

    /// The terms of the index, in the order in which they came.
    pub fn all_tokens(&self) -> (tokens: Vec<&String>)
        ensures
            tokens@.len() == self.terms().len(),
            forall|i: int| 0 <= i < tokens@.len() ==> (#[trigger] tokens@[i])@ == self.terms()[i],
    {
        let mut tokens: Vec<&String> = Vec::new();
        let mut i: usize = 0;
        while i < self.index.len()
            invariant
                i <= self.terms().len(),
                tokens@.len() == i,
                forall|j: int| 0 <= j < i ==> (#[trigger] tokens@[j])@ == self.terms()[j],
            decreases self.terms().len() - i,
        {
            tokens.push(self.index.key_at(i));
            i = i + 1;
        }
        tokens
    }

    /// The length of the posting list of each term, in the order of the terms.
    pub open spec fn posting_lengths(&self) -> Seq<nat> {
        Seq::new(self.terms().len(), |i: int| self.posting(self.terms()[i]).len())
    }

    /// The counts of the index.
    pub fn stats(&self) -> (stats: IndexStats)
        requires
            self.wf(),
        ensures
            stats.total_documents == self.documents().len(),
            stats.total_tokens == self.terms().len(),
            stats.total_postings == sum_of(self.posting_lengths()),
    {
        let ghost lengths = self.posting_lengths();
        let count = self.index.len();
        let mut sum: u128 = 0;
        let mut i: usize = 0;
        while i < count
            invariant
                i <= count,
                count == self.terms().len(),
                self.wf(),
                lengths == self.posting_lengths(),
                sum == sum_of(lengths.take(i as int)),
                sum <= i * usize::MAX,
            decreases count - i,
        {
            let list = self.index.value_at(i);
            proof {
                self.index.lemma_view_at(i as int);
                assert(lengths.take(i + 1).drop_last() =~= lengths.take(i as int));
                assert(lengths[i as int] == list@.len());
                assert(i * usize::MAX + usize::MAX == (i + 1) * usize::MAX) by (nonlinear_arith);
                assert((i + 1) * usize::MAX <= usize::MAX * usize::MAX) by (nonlinear_arith)
                    requires
                        i + 1 <= usize::MAX,
                ;
                assert(usize::MAX * usize::MAX <= u128::MAX) by (nonlinear_arith)
                    requires
                        usize::MAX <= 0xffff_ffff_ffff_ffff,
                ;
            }
            sum = sum + list.len() as u128;
            i = i + 1;
        }
        assert(lengths.take(lengths.len() as int) =~= lengths);
        IndexStats {
            total_documents: self.documents.len(),
            total_tokens: count,
            total_postings: sum,
        }
    }

    /// No term is held by more documents than are indexed.
    pub proof fn lemma_frequency_bound(&self, term: Seq<char>)
        requires
            self.wf(),
        ensures
            self.posting(term).len() <= self.documents().len(),
    {
        let list = self.posting(term);
        let docs = self.documents();
        assert(list.no_duplicates());
        list.unique_seq_to_set();
        docs.unique_seq_to_set();
        vstd::seq_lib::seq_to_set_is_finite(docs);
        assert forall|d: Seq<char>| list.to_set().contains(d) implies docs.to_set().contains(d) by {
            assert(self.posting(term).contains(d));
        }
        vstd::set_lib::lemma_len_subset(list.to_set(), docs.to_set());
    }

    /// The number of terms of each indexed document, in the order of the
    /// documents.
    pub open spec fn term_counts(&self) -> Seq<nat> {
        Seq::new(self.documents().len(), |j: int| self.terms_of(self.documents()[j]).len())
    }

    /// The posting lists together are as long as the documents together have
    /// distinct terms: both count the pairs of a term and a document that
    /// holds it.
    pub proof fn lemma_postings_balance(&self)
        requires
            self.wf(),
        ensures
            sum_of(self.posting_lengths()) == sum_of(self.term_counts()),
            forall|d: Seq<char>| (#[trigger] self.terms_of(d)).finite(),
    {
        let terms = self.terms();
        let docs = self.documents();
        let r = |t: Seq<char>, d: Seq<char>| self.posting(t).contains(d);
        assert forall|i: int| 0 <= i < terms.len() implies #[trigger] self.posting_lengths()[i]
            == row(r, terms[i], docs) by {
            let list = self.posting(terms[i]);
            assert(list.no_duplicates());
            assert forall|d: Seq<char>| list.to_set().contains(d) <==> docs.contains(d) && r(
                terms[i],
                d,
            ) by {
                if list.contains(d) {
                    assert(self.posting(terms[i]).contains(d));
                    assert(docs.contains(d));
                }
            }
            lemma_row_counts(r, terms[i], docs, list.to_set());
            list.unique_seq_to_set();
        }
        assert forall|d: Seq<char>| (#[trigger] self.terms_of(d)).finite() && self.terms_of(
            d,
        ).len() == column(r, terms, d) by {
            assert forall|t: Seq<char>| self.terms_of(d).contains(t) <==> terms.contains(t) && r(
                t,
                d,
            ) by {
                if self.posting(t).contains(d) {
                    assert(self.posting(t).len() > 0);
                    assert(terms.contains(t));
                }
            }
            lemma_column_counts(r, terms, d, self.terms_of(d));
        }
        lemma_sum_of_rows(r, terms, docs, self.posting_lengths());
        lemma_sum_of_columns(r, terms, docs, self.term_counts());
        lemma_exchange(r, terms, docs);
    }
}

impl Default for InvertedIndex {
    fn default() -> (index: Self)
        ensures
            index.wf(),
            index.is_blank(),
            index@ == Map::<Seq<char>, Set<Seq<char>>>::empty(),
    {
        InvertedIndex::new()
    }
}

} // verus!
