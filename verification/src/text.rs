//! Character and string primitives that the analysis pipeline is built on.
//!
//! The functions here are the only places where the crate relies on the
//! behaviour of code that is not verified: the Unicode tables of the standard
//! library and the Snowball stemmer.
use rust_stemmers::{Algorithm, Stemmer};
use vstd::prelude::*;

verus! {

/// Whether `c` is alphanumeric in the sense of Unicode.
pub uninterp spec fn alphanumeric(c: char) -> bool;

/// The Unicode lowercase form of a string.
pub uninterp spec fn lowercase(s: Seq<char>) -> Seq<char>;

/// The stem that the English Snowball algorithm assigns to a word.
pub uninterp spec fn english_stem(word: Seq<char>) -> Seq<char>;

/// The strings of a sequence, each as the sequence of its characters.
pub open spec fn views(s: Seq<String>) -> Seq<Seq<char>> {
    Seq::new(s.len(), |i: int| s[i]@)
}

/// Calls `char::is_alphanumeric`. The result depends on the character alone,
/// and `alphanumeric` is the name of that result.
#[verifier::external_body]
pub(crate) fn is_alphanumeric(c: char) -> (b: bool)
    ensures
        b == alphanumeric(c),
{
    c.is_alphanumeric()
}

/// Calls `str::to_lowercase`. The result depends on the characters of `s`
/// alone, and `lowercase` is the name of that result.
#[verifier::external_body]
pub(crate) fn to_lowercase(s: &str) -> (r: String)
    ensures
        r@ == lowercase(s@),
{
    s.to_lowercase()
}

/// Calls `Stemmer::stem` on the stemmer that `Stemmer::create` makes for
/// `Algorithm::English`. The result depends on the characters of `word`
/// alone, and `english_stem` is the name of that result.
#[verifier::external_body]
pub(crate) fn stem(word: &str) -> (r: String)
    ensures
        r@ == english_stem(word@),
{
    Stemmer::create(Algorithm::English).stem(word).into_owned()
}

/// Calls `str::eq`: two strings are equal when they hold the same characters.
#[verifier::external_body]
pub(crate) fn str_eq(a: &str, b: &str) -> (r: bool)
    ensures
        r == (a@ == b@),
{
    a == b
}

/// Calls `String::push`, which appends one character.
#[verifier::external_body]
pub(crate) fn push_char(s: &mut String, c: char)
    ensures
        final(s)@ == old(s)@.push(c),
{
    s.push(c)
}

/// Whether `list` holds a string with the characters of `s`.
pub fn contains_str(list: &[String], s: &str) -> (found: bool)
    ensures
        found == views(list@).contains(s@),
{
    let mut i: usize = 0;
    while i < list.len()
        invariant
            i <= list@.len(),
            forall|j: int| 0 <= j < i ==> views(list@)[j] != s@,
        decreases list@.len() - i,
    {
        if str_eq(list[i].as_str(), s) {
            assert(views(list@)[i as int] == s@);
            return true;
        }
        i = i + 1;
    }
    false
}

} // verus!
