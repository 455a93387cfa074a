//! The fixed list of English stopwords.
use crate::text::str_eq;
use vstd::prelude::*;

verus! {

/// The stopwords, in alphabetical order.
pub open spec fn stopwords() -> Seq<Seq<char>> {
    seq![
        "a"@, "about"@, "above"@, "after"@, "again"@, "against"@,
        "all"@, "am"@, "an"@, "and"@, "any"@, "are"@,
        "aren't"@, "as"@, "at"@, "be"@, "because"@, "been"@,
        "before"@, "being"@, "below"@, "between"@, "both"@, "but"@,
        "by"@, "can't"@, "cannot"@, "could"@, "couldn't"@, "did"@,
        "didn't"@, "do"@, "does"@, "doesn't"@, "doing"@, "don't"@,
        "down"@, "during"@, "each"@, "few"@, "for"@, "from"@,
        "further"@, "had"@, "hadn't"@, "has"@, "hasn't"@, "have"@,
        "haven't"@, "having"@, "he"@, "he'd"@, "he'll"@, "he's"@,
        "her"@, "here"@, "here's"@, "hers"@, "herself"@, "him"@,
        "himself"@, "his"@, "how"@, "how's"@, "i"@, "i'd"@,
        "i'll"@, "i'm"@, "i've"@, "if"@, "in"@, "into"@,
        "is"@, "isn't"@, "it"@, "it's"@, "its"@, "itself"@,
        "let's"@, "me"@, "more"@, "most"@, "mustn't"@, "my"@,
        "myself"@, "no"@, "nor"@, "not"@, "of"@, "off"@,
        "on"@, "once"@, "only"@, "or"@, "other"@, "ought"@,
        "our"@, "ours"@, "ourselves"@, "out"@, "over"@, "own"@,
        "same"@, "shan't"@, "she"@, "she'd"@, "she'll"@, "she's"@,
        "should"@, "shouldn't"@, "so"@, "some"@, "such"@, "than"@,
        "that"@, "that's"@, "the"@, "their"@, "theirs"@, "them"@,
        "themselves"@, "then"@, "there"@, "there's"@, "these"@, "they"@,
        "they'd"@, "they'll"@, "they're"@, "they've"@, "this"@, "those"@,
        "through"@, "to"@, "too"@, "under"@, "until"@, "up"@,
        "very"@, "was"@, "wasn't"@, "we"@, "we'd"@, "we'll"@,
        "we're"@, "we've"@, "were"@, "weren't"@, "what"@, "what's"@,
        "when"@, "when's"@, "where"@, "where's"@, "which"@, "while"@,
        "who"@, "who's"@, "whom"@, "why"@, "why's"@, "with"@,
        "won't"@, "would"@, "wouldn't"@, "you"@, "you'd"@, "you'll"@,
        "you're"@, "you've"@, "your"@, "yours"@, "yourself"@, "yourselves"@,
    ]
}

/// Whether `word` is one of the stopwords.
pub open spec fn is_stopword(word: Seq<char>) -> bool {
    stopwords().contains(word)
}

/// The stopwords as strings, in the order of `stopwords`.
pub fn stopword_list() -> (list: Vec<&'static str>)
    ensures
        list@.len() == stopwords().len(),
        forall|i: int| 0 <= i < list@.len() ==> (#[trigger] list@[i])@ == stopwords()[i],
{
    vec![
        "a", "about", "above", "after", "again", "against", "all", "am",
        "an", "and", "any", "are", "aren't", "as", "at", "be",
        "because", "been", "before", "being", "below", "between", "both", "but",
        "by", "can't", "cannot", "could", "couldn't", "did", "didn't", "do",
        "does", "doesn't", "doing", "don't", "down", "during", "each", "few",
        "for", "from", "further", "had", "hadn't", "has", "hasn't", "have",
        "haven't", "having", "he", "he'd", "he'll", "he's", "her", "here",
        "here's", "hers", "herself", "him", "himself", "his", "how", "how's",
        "i", "i'd", "i'll", "i'm", "i've", "if", "in", "into",
        "is", "isn't", "it", "it's", "its", "itself", "let's", "me",
        "more", "most", "mustn't", "my", "myself", "no", "nor", "not",
        "of", "off", "on", "once", "only", "or", "other", "ought",
        "our", "ours", "ourselves", "out", "over", "own", "same", "shan't",
        "she", "she'd", "she'll", "she's", "should", "shouldn't", "so", "some",
        "such", "than", "that", "that's", "the", "their", "theirs", "them",
        "themselves", "then", "there", "there's", "these", "they", "they'd", "they'll",
        "they're", "they've", "this", "those", "through", "to", "too", "under",
        "until", "up", "very", "was", "wasn't", "we", "we'd", "we'll",
        "we're", "we've", "were", "weren't", "what", "what's", "when", "when's",
        "where", "where's", "which", "while", "who", "who's", "whom", "why",
        "why's", "with", "won't", "would", "wouldn't", "you", "you'd", "you'll",
        "you're", "you've", "your", "yours", "yourself", "yourselves",
    ]
}

/// Looks `word` up in a list that holds the stopwords.
pub fn list_contains(list: &Vec<&'static str>, word: &str) -> (found: bool)
    requires
        list@.len() == stopwords().len(),
        forall|i: int| 0 <= i < list@.len() ==> (#[trigger] list@[i])@ == stopwords()[i],
    ensures
        found == is_stopword(word@),
{
    let mut i: usize = 0;
    while i < list.len()
        invariant
            i <= list@.len(),
            list@.len() == stopwords().len(),
            forall|j: int| 0 <= j < list@.len() ==> (#[trigger] list@[j])@ == stopwords()[j],
            forall|j: int| 0 <= j < i ==> stopwords()[j] != word@,
        decreases list@.len() - i,
    {
        if str_eq(list[i], word) {
            assert(stopwords()[i as int] == word@);
            return true;
        }
        i = i + 1;
    }
    false
}

} // verus!
