//! Stemming: the normal form of a word, as the algorithm of its language
//! gives it.

use rust_stemmers::Algorithm;
use rust_stemmers::Stemmer;
use vstd::prelude::*;
use vstd::string::*;
use vstd::utf8::encode_utf8;

verus! {

/// The languages whose words the library stems. `rust_stemmers` has
/// algorithms for more; offered are those whose code returns for every word
/// of at most `MAX_WORD_BYTES` bytes. Not every algorithm of the crate does:
/// the Greek one panics on `ισαισα`, where it cuts the word a second time at
/// the marks of the first cut.
#[derive(Clone, Copy, PartialEq, Eq, Debug)]
pub enum Language {
    English,
    Russian,
}

/// The longest word, in bytes of UTF-8, that is handed to a stemmer. The
/// stemmers count in 32 bits; a longer word is kept as it is.
pub const MAX_WORD_BYTES: usize = 0x4000_0000;

/// The stem of `word` in `language`: what `rust_stemmers::Stemmer::stem`
/// returns for it under the algorithm of that language.
pub uninterp spec fn stem_of(language: Language, word: Seq<char>) -> Seq<char>;

/// `Stemmer::create` picks the stemming function of the language's algorithm
/// and `Stemmer::stem` runs it on the word; the stem depends on the algorithm
/// and the word alone. The two algorithms move their cursor within the word
/// only and cut it only between marks set since the last cut, so that they
/// return for every word whose length they can count.
#[verifier::external_body]
fn stem(language: Language, word: &str) -> (stemmed: String)
    requires
        word.spec_bytes().len() <= MAX_WORD_BYTES,
    ensures
        stemmed@ == stem_of(language, word@),
{
    let algorithm = match language {
        Language::English => Algorithm::English,
        Language::Russian => Algorithm::Russian,
    };
    Stemmer::create(algorithm).stem(word).into_owned()
}

/// The normal form of `word` in `language`: its stem, or the word itself
/// where it is longer than a stemmer takes.
pub open spec fn stemmed(language: Language, word: Seq<char>) -> Seq<char> {
    if encode_utf8(word).len() <= MAX_WORD_BYTES {
        stem_of(language, word)
    } else {
        word
    }
}

/// The normal form of `word` in `language`.
pub fn stem_word(language: Language, word: &str) -> (normal: String)
    ensures
        normal@ == stemmed(language, word@),
{
    if word.as_bytes().len() <= MAX_WORD_BYTES {
        stem(language, word)
    } else {
        word.to_owned()
    }
}

} // verus!
