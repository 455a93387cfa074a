//! The analysis pipeline: tokenize, lowercase, drop stopwords, stem.
use crate::lists::{distinct, lemma_merge, merge_into};
use crate::stopwords::{is_stopword, list_contains, stopword_list, stopwords};
use crate::strmap::StringMap;
use crate::text::{
    alphanumeric, english_stem, is_alphanumeric, lowercase, push_char, stem, to_lowercase, views,
};
use vstd::prelude::*;

verus! {

/// What a scan from left to right has found at the end of `text`: the tokens
/// that are complete, and the run of alphanumeric characters that is still open.
pub open spec fn scan(text: Seq<char>) -> (Seq<Seq<char>>, Seq<char>)
    decreases text.len(),
{
    if text.len() == 0 {
        (Seq::empty(), Seq::empty())
    } else {
        let (done, run) = scan(text.drop_last());
        if alphanumeric(text.last()) {
            (done, run.push(text.last()))
        } else if run.len() > 0 {
            (done.push(run), Seq::empty())
        } else {
            (done, run)
        }
    }
}

/// The maximal runs of alphanumeric characters of `text`, in order.
pub open spec fn tokens(text: Seq<char>) -> Seq<Seq<char>> {
    let (done, run) = scan(text);
    if run.len() > 0 {
        done.push(run)
    } else {
        done
    }
}

/// Each word in lowercase.
pub open spec fn lowercased(words: Seq<Seq<char>>) -> Seq<Seq<char>> {
    Seq::new(words.len(), |i: int| lowercase(words[i]))
}

/// The words that are no stopwords, in order.
pub open spec fn without_stopwords(words: Seq<Seq<char>>) -> Seq<Seq<char>> {
    words.filter(|w: Seq<char>| !is_stopword(w))
}

/// Each word replaced by its stem.
pub open spec fn stemmed(words: Seq<Seq<char>>) -> Seq<Seq<char>> {
    Seq::new(words.len(), |i: int| english_stem(words[i]))
}

/// The analyzed terms of `text`: its tokens in lowercase, without the
/// stopwords, each replaced by its stem. Duplicates stay, in order.
pub open spec fn analyzed(text: Seq<char>) -> Seq<Seq<char>> {
    stemmed(without_stopwords(lowercased(tokens(text))))
}

/// A word is a non-empty sequence of alphanumeric characters.
pub open spec fn is_word(w: Seq<char>) -> bool {
    &&& w.len() > 0
    &&& forall|j: int| 0 <= j < w.len() ==> alphanumeric(#[trigger] w[j])
}

/// What a scan has completed are words, and the run that it has open holds
/// alphanumeric characters only.
pub proof fn lemma_scan_words(text: Seq<char>)
    ensures
        forall|i: int| 0 <= i < scan(text).0.len() ==> is_word(#[trigger] scan(text).0[i]),
        forall|j: int| 0 <= j < scan(text).1.len() ==> alphanumeric(#[trigger] scan(text).1[j]),
    decreases text.len(),
{
    if text.len() > 0 {
        lemma_scan_words(text.drop_last());
        let (done, run) = scan(text.drop_last());
        if alphanumeric(text.last()) {
        } else if run.len() > 0 {
            assert(is_word(run));
            assert forall|i: int| 0 <= i < done.push(run).len() implies is_word(
                #[trigger] done.push(run)[i],
            ) by {
                if i < done.len() {
                    assert(done.push(run)[i] == done[i]);
                }
            }
        }
    }
}

/// Every token is a word.
pub proof fn lemma_tokens_are_words(text: Seq<char>)
    ensures
        forall|i: int| 0 <= i < tokens(text).len() ==> is_word(#[trigger] tokens(text)[i]),
{
    lemma_scan_words(text);
    let (done, run) = scan(text);
    if run.len() > 0 {
        assert(is_word(run));
        assert forall|i: int| 0 <= i < done.push(run).len() implies is_word(
            #[trigger] done.push(run)[i],
        ) by {
            if i < done.len() {
                assert(done.push(run)[i] == done[i]);
            }
        }
    }
}

/// A text without alphanumeric characters has no tokens.
pub proof fn lemma_tokens_of_separators(text: Seq<char>)
    requires
        forall|i: int| 0 <= i < text.len() ==> !alphanumeric(#[trigger] text[i]),
    ensures
        tokens(text) == Seq::<Seq<char>>::empty(),
        scan(text) == (Seq::<Seq<char>>::empty(), Seq::<char>::empty()),
    decreases text.len(),
{
    if text.len() > 0 {
        lemma_tokens_of_separators(text.drop_last());
    }
}

/// A non-empty text of alphanumeric characters is its own single token.
pub proof fn lemma_tokens_of_word(text: Seq<char>)
    requires
        forall|i: int| 0 <= i < text.len() ==> alphanumeric(#[trigger] text[i]),
    ensures
        scan(text) == (Seq::<Seq<char>>::empty(), text),
        text.len() > 0 ==> tokens(text) == seq![text],
    decreases text.len(),
{
    if text.len() > 0 {
        lemma_tokens_of_word(text.drop_last());
        assert(text.drop_last().push(text.last()) =~= text);
        assert(Seq::<Seq<char>>::empty().push(text) =~= seq![text]);
    } else {
        assert(text =~= Seq::<char>::empty());
    }
}

/// A separator splits a text: the tokens of `left`, a separator and `right`
/// are the tokens of `left` followed by those of `right`.
pub proof fn lemma_tokens_split(left: Seq<char>, separator: char, right: Seq<char>)
    requires
        !alphanumeric(separator),
    ensures
        tokens(left.push(separator) + right) == tokens(left) + tokens(right),
        scan(left.push(separator) + right) == (tokens(left) + scan(right).0, scan(right).1),
    decreases right.len(),
{
    let whole = left.push(separator) + right;
    if right.len() == 0 {
        assert(whole =~= left.push(separator));
        assert(whole.drop_last() =~= left);
        assert(tokens(left) + Seq::<Seq<char>>::empty() =~= tokens(left));
    } else {
        lemma_tokens_split(left, separator, right.drop_last());
        assert(whole.drop_last() =~= left.push(separator) + right.drop_last());
        assert(whole.last() == right.last());
        let (done, run) = scan(right.drop_last());
        assert(tokens(left) + done.push(run) =~= (tokens(left) + done).push(run));
    }
    let (done, run) = scan(right);
    assert(tokens(left) + done.push(run) =~= (tokens(left) + done).push(run));
}

/// The sum of the counts.
pub open spec fn total(counts: Seq<usize>) -> nat
    decreases counts.len(),
{
    if counts.len() == 0 {
        0
    } else {
        total(counts.drop_last()) + counts.last() as nat
    }
}

/// A count that is appended adds to the sum.
pub proof fn lemma_total_push(counts: Seq<usize>, count: usize)
    ensures
        total(counts.push(count)) == total(counts) + count,
{
    assert(counts.push(count).drop_last() =~= counts);
}

/// A count that is replaced changes the sum by the difference, and no count
/// is larger than the sum.
pub proof fn lemma_total_update(counts: Seq<usize>, i: int, count: usize)
    requires
        0 <= i < counts.len(),
    ensures
        total(counts.update(i, count)) == total(counts) - counts[i] + count,
        counts[i] <= total(counts),
    decreases counts.len(),
{
    let last = counts.len() - 1;
    if i == last {
        assert(counts.update(i, count).drop_last() =~= counts.drop_last());
    } else {
        lemma_total_update(counts.drop_last(), i, count);
        assert(counts.update(i, count).drop_last() =~= counts.drop_last().update(i, count));
    }
}

/// Counts how often each term occurs. The keys of the result are the distinct
/// terms, in the order in which they first occur.
pub fn count_terms(terms: &[String]) -> (counts: StringMap<usize>)
    ensures
        counts.wf(),
        counts.keys() == distinct(views(terms@)),
        counts@.dom() == views(terms@).to_set(),
        forall|t: Seq<char>| #[trigger]
            counts@.contains_key(t) ==> counts@[t] == views(terms@).to_multiset().count(t),
        total(counts.values()) == terms@.len(),
{
    broadcast use vstd::seq_lib::to_multiset_build;
    broadcast use vstd::multiset::group_multiset_axioms;

    let ghost all = views(terms@);
    let mut counts: StringMap<usize> = StringMap::new();
    let mut i: usize = 0;
    assert(counts@.dom() =~= all.take(0).to_set());
    while i < terms.len()
        invariant
            i <= terms@.len(),
            all == views(terms@),
            counts.wf(),
            counts.keys() == distinct(all.take(i as int)),
            counts@.dom() == all.take(i as int).to_set(),
            forall|t: Seq<char>| #[trigger]
                counts@.contains_key(t) ==> counts@[t] == all.take(i as int).to_multiset().count(
                    t,
                ),
            total(counts.values()) == i,
        decreases terms@.len() - i,
    {
        let term: &String = &terms[i];
        let ghost before = counts;
        let ghost seen = all.take(i as int);
        proof {
            assert(all[i as int] == term@);
            assert(all.take(i + 1) =~= seen.push(term@));
            assert(seen.push(term@).drop_last() =~= seen);
        }
        let known: usize = match counts.position(term.as_str()) {
            Some(at) => {
                proof {
                    counts.lemma_view_at(at as int);
                    lemma_total_update(counts.values(), at as int, 0);
                }
                *counts.value_at(at)
            },
            None => 0,
        };
        assert(known < terms@.len());
        let previous = counts.insert(term.clone(), known + 1);
        proof {
            match previous {
                Some(v) => {
                    let at = before.keys().index_of(term@);
                    assert(before.keys()[at] == term@);
                    before.lemma_view_at(at);
                    lemma_total_update(before.values(), at, (known + 1) as usize);
                },
                None => {
                    lemma_total_push(before.values(), (known + 1) as usize);
                    assert(!seen.to_set().contains(term@));
                    assert(!seen.contains(term@));
                    seen.to_multiset_ensures();
                    assert(seen.to_multiset().count(term@) == 0);
                },
            }
            vstd::seq_lib::to_multiset_build(seen, term@);
            assert(known == seen.to_multiset().count(term@));
            assert forall|t: Seq<char>| #[trigger] counts@.contains_key(t) implies counts@[t]
                == seen.push(term@).to_multiset().count(t) by {
                if t != term@ {
                    assert(before@.contains_key(t));
                }
            }
            seen.lemma_push_to_set_commute(term@);
            assert(counts@.dom() =~= seen.to_set().insert(term@));
        }
        i = i + 1;
    }
    assert(all.take(all.len() as int) =~= all);
    counts
}

/// The distinct terms, in the order in which they first occur.
pub fn distinct_terms(terms: &[String]) -> (found: Vec<String>)
    ensures
        views(found@) == distinct(views(terms@)),
        views(found@).no_duplicates(),
        views(found@).to_set() == views(terms@).to_set(),
{
    let mut found: Vec<String> = Vec::new();
    assert(views(found@) =~= Seq::<Seq<char>>::empty());
    merge_into(&mut found, terms);
    proof {
        lemma_merge(Seq::<Seq<char>>::empty(), views(terms@));
        assert(views(found@).to_set() =~= views(terms@).to_set());
    }
    found
}

/// The text analyzer. It holds the stopword list.
pub struct Tokenizer {
    stopwords: Vec<&'static str>,
}

impl Tokenizer {
    #[verifier::type_invariant]
    spec fn holds_stopwords(&self) -> bool {
        &&& self.stopwords@.len() == stopwords().len()
        &&& forall|i: int|
            0 <= i < self.stopwords@.len() ==> (#[trigger] self.stopwords@[i])@ == stopwords()[i]
    }

    /// The words that the tokenizer takes for stopwords, in the order in
    /// which it holds them.
    pub closed spec fn dropped_words(&self) -> Seq<Seq<char>> {
        Seq::new(self.stopwords@.len(), |i: int| self.stopwords@[i]@)
    }

    /// A tokenizer that holds the English stopword list.
    pub fn new() -> (tokenizer: Self)
        ensures
            tokenizer.dropped_words() == stopwords(),
    {
        let tokenizer = Tokenizer { stopwords: stopword_list() };
        assert(tokenizer.dropped_words() =~= stopwords());
        tokenizer
    }

    /// Cuts `text` into its maximal runs of alphanumeric characters.
    pub fn tokenize(&self, text: &str) -> (words: Vec<String>)
        ensures
            views(words@) == tokens(text@),
    {
        let mut words: Vec<String> = Vec::new();
        let mut run = String::new();
        assert(views(words@) =~= scan(text@.take(0)).0);
        for c in it: text.chars()
            invariant
                it.seq() == text@,
                views(words@) == scan(text@.take(it.index() as int)).0,
                run@ == scan(text@.take(it.index() as int)).1,
        {
            proof {
                let next = text@.take(it.index() + 1);
                assert(next.drop_last() =~= text@.take(it.index() as int));
                assert(next.last() == c);
            }
            if is_alphanumeric(c) {
                push_char(&mut run, c);
            } else if !run.as_str().is_empty() {
                let ghost before = views(words@);
                let ghost closed = run@;
                words.push(run);
                run = String::new();
                assert(views(words@) =~= before.push(closed));
            }
        }
        assert(text@.take(text@.len() as int) =~= text@);
        if !run.as_str().is_empty() {
            let ghost before = views(words@);
            let ghost closed = run@;
            words.push(run);
            assert(views(words@) =~= before.push(closed));
        }
        words
    }

    /// Puts every word in lowercase.
    pub fn lowercase_filter(&self, words: Vec<String>) -> (lower: Vec<String>)
        ensures
            views(lower@) == lowercased(views(words@)),
    {
        let mut lower: Vec<String> = Vec::new();
        let mut i: usize = 0;
        while i < words.len()
            invariant
                i <= words@.len(),
                lower@.len() == i,
                forall|j: int| 0 <= j < i ==> (#[trigger] lower@[j])@ == lowercase(words@[j]@),
            decreases words@.len() - i,
        {
            lower.push(to_lowercase(words[i].as_str()));
            i = i + 1;
        }
        assert(views(lower@) =~= lowercased(views(words@)));
        lower
    }

    /// Drops the stopwords.
    pub fn stopword_filter(&self, words: Vec<String>) -> (kept: Vec<String>)
        ensures
            views(kept@) == without_stopwords(views(words@)),
    {
        proof {
            use_type_invariant(self);
        }
        let ghost all = views(words@);
        let mut kept: Vec<String> = Vec::new();
        assert(all.take(0) =~= Seq::<Seq<char>>::empty());
        proof {
            reveal(Seq::filter);
        }
        assert(views(kept@) =~= without_stopwords(all.take(0)));
        for word in it: words
            invariant
                views(it.seq()) == all,
                views(kept@) == without_stopwords(all.take(it.index() as int)),
                self.stopwords@.len() == stopwords().len(),
                forall|i: int|
                    0 <= i < self.stopwords@.len() ==> (#[trigger] self.stopwords@[i])@
                        == stopwords()[i],
        {
            proof {
                let at = it.index() as int;
                assert(all[at] == word@);
                assert(all.take(at + 1) =~= all.take(at).push(word@));
                all.take(at).lemma_filter_push(word@, |w: Seq<char>| !is_stopword(w));
            }
            if !list_contains(&self.stopwords, word.as_str()) {
                let ghost before = views(kept@);
                kept.push(word);
                assert(views(kept@) =~= before.push(word@));
            }
        }
        assert(all.take(all.len() as int) =~= all);
        kept
    }

    /// Replaces every word by its stem.
    pub fn stemmer_filter(&self, words: Vec<String>) -> (stems: Vec<String>)
        ensures
            views(stems@) == stemmed(views(words@)),
    {
        let mut stems: Vec<String> = Vec::new();
        let mut i: usize = 0;
        while i < words.len()
            invariant
                i <= words@.len(),
                stems@.len() == i,
                forall|j: int| 0 <= j < i ==> (#[trigger] stems@[j])@ == english_stem(words@[j]@),
            decreases words@.len() - i,
        {
            stems.push(stem(words[i].as_str()));
            i = i + 1;
        }
        assert(views(stems@) =~= stemmed(views(words@)));
        stems
    }

    /// The analyzed terms of `text`, in order and with duplicates.
    pub fn analyze(&self, text: &str) -> (terms: Vec<String>)
        ensures
            views(terms@) == analyzed(text@),
    {
        let words = self.tokenize(text);
        let words = self.lowercase_filter(words);
        let words = self.stopword_filter(words);
        self.stemmer_filter(words)
    }

    /// The distinct analyzed terms of `text`, in the order in which they
    /// first occur.
    pub fn analyze_unique(&self, text: &str) -> (terms: Vec<String>)
        ensures
            views(terms@) == distinct(analyzed(text@)),
            views(terms@).no_duplicates(),
            views(terms@).to_set() == analyzed(text@).to_set(),
    {
        let terms = self.analyze(text);
        distinct_terms(terms.as_slice())
    }

    /// How often each analyzed term occurs in `text`.
    pub fn analyze_with_frequencies(&self, text: &str) -> (counts: StringMap<usize>)
        ensures
            counts.wf(),
            counts.keys() == distinct(analyzed(text@)),
            counts@.dom() == analyzed(text@).to_set(),
            forall|t: Seq<char>| #[trigger]
                counts@.contains_key(t) ==> counts@[t] == analyzed(text@).to_multiset().count(t),
            total(counts.values()) == analyzed(text@).len(),
    {
        let terms = self.analyze(text);
        count_terms(terms.as_slice())
    }
}

impl Default for Tokenizer {
    fn default() -> (tokenizer: Self) {
        Tokenizer::new()
    }
}

} // verus!
