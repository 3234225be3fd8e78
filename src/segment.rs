//! Sentence and word boundaries, as the `unicode-segmentation` crate draws
//! them (UAX #29, not aware of abbreviations).
use unicode_segmentation::UnicodeSegmentation;
use vstd::prelude::*;

verus! {

/// The sentences that `unicode_sentences` finds in a text: the UAX #29
/// sentence segments that hold an alphanumeric character.
pub uninterp spec fn sentences_of(s: Seq<char>) -> Seq<Seq<char>>;

/// The words that `unicode_words` finds in a text: the UAX #29 word segments
/// that hold an alphanumeric character.
pub uninterp spec fn words_of(s: Seq<char>) -> Seq<Seq<char>>;

/// Relies on `UnicodeSegmentation::unicode_sentences`: the sentences of the
/// text, in order; a text without characters has none.
#[verifier::external_body]
pub(crate) fn unicode_sentences(v: &Vec<char>) -> (r: Vec<Vec<char>>)
    ensures
        r@.map_values(|x: Vec<char>| x@) == sentences_of(v@),
        v@.len() == 0 ==> r@.len() == 0,
{
    let s: String = v.iter().collect();
    s.unicode_sentences().map(|x| x.chars().collect()).collect()
}

/// Relies on `UnicodeSegmentation::unicode_words`: the words of the text,
/// in order; a text without characters has none.
#[verifier::external_body]
pub(crate) fn unicode_words(v: &Vec<char>) -> (r: Vec<Vec<char>>)
    ensures
        r@.map_values(|x: Vec<char>| x@) == words_of(v@),
        v@.len() == 0 ==> r@.len() == 0,
{
    let s: String = v.iter().collect();
    s.unicode_words().map(|x| x.chars().collect()).collect()
}

} // verus!
