//! Documents and the statistics that are kept of each.
use crate::strmap::StringMap;
use crate::text::{push_char, views};
use crate::tokenizer::{count_terms, total};
use vstd::prelude::*;
use vstd::string::StringExecFns;

verus! {

/// The text of a document that is searched: title, a space, content.
pub open spec fn searchable(title: Seq<char>, content: Seq<char>) -> Seq<char> {
    title.push(' ') + content
}

/// A document as it is handed in and given back.
#[derive(Clone, Debug)]
pub struct Document {
    pub id: String,
    pub title: String,
    pub content: String,
    pub url: Option<String>,
    pub metadata: StringMap<String>,
}

impl Document {
    pub fn new(id: String, title: String, content: String) -> (doc: Self)
        ensures
            doc.id == id,
            doc.title == title,
            doc.content == content,
            doc.url is None,
            doc.metadata.wf(),
            doc.metadata@ == Map::<Seq<char>, String>::empty(),
    {
        Document { id, title, content, url: None, metadata: StringMap::new() }
    }

    pub fn with_url(self, url: String) -> (doc: Self)
        ensures
            doc.url == Some(url),
            doc.id == self.id,
            doc.title == self.title,
            doc.content == self.content,
            doc.metadata == self.metadata,
    {
        let mut doc = self;
        doc.url = Some(url);
        doc
    }

    /// Sets one entry of the metadata; an entry with the same key is replaced.
    pub fn with_metadata(self, key: String, value: String) -> (doc: Self)
        requires
            self.metadata.wf(),
        ensures
            doc.metadata.wf(),
            doc.metadata@ == self.metadata@.insert(key@, value),
            doc.id == self.id,
            doc.title == self.title,
            doc.content == self.content,
            doc.url == self.url,
    {
        let mut doc = self;
        doc.metadata.insert(key, value);
        doc
    }

    /// The text that is searched.
    pub fn searchable_text(&self) -> (text: String)
        ensures
            text@ == searchable(self.title@, self.content@),
    {
        let mut text = self.title.clone();
        push_char(&mut text, ' ');
        text.append(self.content.as_str());
        text
    }
}

/// The statistics of a document as plain values.
pub struct DocStatsView {
    pub id: Seq<char>,
    pub length: nat,
    pub frequencies: Map<Seq<char>, usize>,
}

/// The statistics of a document whose analyzed terms are `terms`: their
/// number, and for each distinct term how often it occurs.
pub open spec fn stats_of(id: Seq<char>, terms: Seq<Seq<char>>) -> DocStatsView {
    DocStatsView {
        id,
        length: terms.len(),
        frequencies: Map::new(
            |t: Seq<char>| terms.contains(t),
            |t: Seq<char>| terms.to_multiset().count(t) as usize,
        ),
    }
}

/// What is kept of a document for ranking: the number of its analyzed terms
/// and how often each occurs.
#[derive(Clone, Debug)]
pub struct DocStats {
    pub id: String,
    pub length: usize,
    pub term_frequencies: StringMap<usize>,
}

impl View for DocStats {
    type V = DocStatsView;

    open spec fn view(&self) -> DocStatsView {
        DocStatsView {
            id: self.id@,
            length: self.length as nat,
            frequencies: self.term_frequencies@,
        }
    }
}

impl DocStats {
    /// Statistics with a length and no terms yet.
    pub fn new(id: String, length: usize) -> (stats: Self)
        ensures
            stats.id == id,
            stats.length == length,
            stats.term_frequencies.wf(),
            stats.term_frequencies@ == Map::<Seq<char>, usize>::empty(),
    {
        DocStats { id, length, term_frequencies: StringMap::new() }
    }

    /// The frequencies are those of a text of this length: each is positive,
    /// and their sum is the length.
    pub open spec fn consistent(&self) -> bool {
        &&& self.term_frequencies.wf()
        &&& total(self.term_frequencies.values()) == self.length
        &&& forall|i: int|
            0 <= i < self.term_frequencies.values().len() ==> #[trigger] self.term_frequencies.values()[i]
                > 0
    }

    /// The statistics of a document with these analyzed terms.
    pub fn of_terms(id: String, terms: &[String]) -> (stats: Self)
        ensures
            stats.consistent(),
            stats@ == stats_of(id@, views(terms@)),
            stats.term_frequencies.keys() == crate::lists::distinct(views(terms@)),
            stats.id == id,
    {
        let counts = count_terms(terms);
        proof {
            let all = views(terms@);
            assert(counts@ =~= stats_of(id@, all).frequencies);
            assert forall|i: int| 0 <= i < counts.values().len() implies #[trigger] counts.values()[i]
                > 0 by {
                counts.lemma_view_at(i);
                let t = counts.keys()[i];
                assert(all.to_set().contains(t));
                all.to_multiset_ensures();
            }
        }
        DocStats { id, length: terms.len(), term_frequencies: counts }
    }

    /// Tests `consistent`.
    pub fn is_consistent(&self) -> (ok: bool)
        requires
            self.term_frequencies.wf(),
        ensures
            ok == self.consistent(),
    {
        let ghost counts = self.term_frequencies.values();
        let mut sum: usize = 0;
        let mut i: usize = 0;
        while i < self.term_frequencies.len()
            invariant
                i <= counts.len(),
                counts == self.term_frequencies.values(),
                sum == total(counts.take(i as int)),
                sum <= self.length,
                forall|j: int| 0 <= j < i ==> #[trigger] counts[j] > 0,
            decreases counts.len() - i,
        {
            let count = *self.term_frequencies.value_at(i);
            proof {
                assert(counts.take(i + 1).drop_last() =~= counts.take(i as int));
                lemma_total_prefix(counts, i + 1);
            }
            if count == 0 || count > self.length - sum {
                return false;
            }
            sum = sum + count;
            i = i + 1;
        }
        assert(counts.take(counts.len() as int) =~= counts);
        sum == self.length
    }
}

/// The sum of a prefix of the counts is at most the sum of all of them.
pub proof fn lemma_total_prefix(counts: Seq<usize>, n: int)
    requires
        0 <= n <= counts.len(),
    ensures
        total(counts.take(n)) <= total(counts),
    decreases counts.len() - n,
{
    if n < counts.len() {
        lemma_total_prefix(counts, n + 1);
        assert(counts.take(n + 1).drop_last() =~= counts.take(n));
    } else {
        assert(counts.take(n) =~= counts);
    }
}

} // verus!
