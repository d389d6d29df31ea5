//! Numbers: a token that writes a number is annotated with its value, and a
//! minus sign just before it makes the value negative.

use crate::error::{Error, ErrorView};
use crate::sentence::{Loc, Meta, Sentence, SentenceView, TokenView};
use crate::service::{is_tokenization, same_text, Enricher};
use crate::stemming::Language;
use crate::text::{parse_u64, parsed_u64, str_eq};
use vstd::prelude::*;

verus! {

/// Under this name a number token holds the place of its sign token.
pub const SIGN_INDEX: &'static str = "number.sign_index";

/// Under this name a sign token holds the place of its number token.
pub const NUMBER_INDEX: &'static str = "number.number_index";

/// Under this name a number token holds its value.
pub const VALUE: &'static str = "number.number";

/// The three names differ.
pub proof fn lemma_names_differ()
    ensures
        VALUE@ != SIGN_INDEX@,
        VALUE@ != NUMBER_INDEX@,
        SIGN_INDEX@ != NUMBER_INDEX@,
{
    reveal_strlit("number.sign_index");
    reveal_strlit("number.number_index");
    reveal_strlit("number.number");
    assert(VALUE@.len() == 13);
    assert(SIGN_INDEX@.len() == 17);
    assert(NUMBER_INDEX@.len() == 19);
}

/// A number found in a sentence.
#[derive(Clone, Copy, PartialEq, Eq, PartialOrd, Ord, Debug)]
pub enum Number {
    Signed(i64),
    Unsigned(u64),
}

/// The stage that finds numbers.
pub struct NumberEnricher();

/// The text of a token that makes the number behind it negative.
pub open spec fn is_minus(val: Seq<char>) -> bool {
    val == "-"@ || val == "минус"@
}

/// The negative of `magnitude`, where an `i64` can hold it: that is up to
/// 2^63. A greater magnitude has no negative among the signed values.
pub open spec fn negated(magnitude: u64) -> Option<i64> {
    if magnitude <= 0x8000_0000_0000_0000 {
        Some((-(magnitude as int)) as i64)
    } else {
        None
    }
}

/// The negative of `magnitude`, where an `i64` can hold it.
pub fn negate(magnitude: u64) -> (value: Option<i64>)
    ensures
        value == negated(magnitude),
        magnitude <= 0x8000_0000_0000_0000 ==> value is Some && value->0 == -(magnitude as int),
        magnitude > 0x8000_0000_0000_0000 ==> value is None,
{
    if magnitude <= 0x7FFF_FFFF_FFFF_FFFF {
        Some(-(magnitude as i64))
    } else if magnitude == 0x8000_0000_0000_0000 {
        Some(i64::MIN)
    } else {
        None
    }
}

/// The number that the token at `index` stands for, if it writes one. Where
/// the token just before it is a minus sign and the negative of what it
/// writes is a signed value, the number is signed, and is that negative.
/// Elsewhere it is unsigned: without a minus sign before it, and also with
/// one where the magnitude is beyond 2^63, so that no signed value is ever
/// positive.
pub open spec fn number_at(tokens: Seq<TokenView>, index: int) -> Option<Number> {
    match parsed_u64(tokens[index].val) {
        Some(magnitude) => if index > 0 && is_minus(tokens[index - 1].val) {
            match negated(magnitude) {
                Some(value) => Some(Number::Signed(value)),
                None => Some(Number::Unsigned(magnitude)),
            }
        } else {
            Some(Number::Unsigned(magnitude))
        },
        None => None,
    }
}

/// Whether the token at `index` is the sign of the number behind it.
pub open spec fn is_sign_at(tokens: Seq<TokenView>, index: int) -> bool {
    index + 1 < tokens.len() && number_at(tokens, index + 1) matches Some(Number::Signed(_))
}

/// What is attached to the token at `index` once the first `done` tokens
/// have been looked at: a number among them has its value, and the place of
/// its sign if it has one; a sign has the place of its number, if that number
/// is among them.
pub open spec fn number_meta(tokens: Seq<TokenView>, index: int, done: int) -> Map<Seq<char>, Meta> {
    let before = tokens[index].meta;
    let own = if index < done {
        match number_at(tokens, index) {
            Some(Number::Signed(value)) => before.insert(VALUE@, Meta::I64(value)).insert(
                SIGN_INDEX@,
                Meta::Usize((index - 1) as usize),
            ),
            Some(Number::Unsigned(value)) => before.insert(VALUE@, Meta::U64(value)),
            None => before,
        }
    } else {
        before
    };
    if index + 1 < done && is_sign_at(tokens, index) {
        own.insert(NUMBER_INDEX@, Meta::Usize((index + 1) as usize))
    } else {
        own
    }
}

/// The sentence once the first `done` tokens have been looked at.
pub open spec fn numbers_marked(sentence: SentenceView, done: int) -> SentenceView {
    SentenceView {
        raw: sentence.raw,
        tokens: Seq::new(
            sentence.tokens.len(),
            |index: int|
                TokenView { meta: number_meta(sentence.tokens, index, done), ..sentence.tokens[index] },
        ),
    }
}

/// The sentence with every number annotated.
pub open spec fn number_enriched(sentence: SentenceView) -> SentenceView {
    numbers_marked(sentence, sentence.tokens.len() as int)
}

/// What the token at `index` reports as a number: nothing where it has no
/// value attached; the signed value, over the two tokens from the sign on,
/// where the place of a sign is attached too; else the unsigned value, over
/// the token itself. An annotation of another kind than expected is an
/// error.
pub open spec fn reported(tokens: Seq<TokenView>, index: int) -> Option<Result<(Loc, Number), Error>> {
    let meta = tokens[index].meta;
    if !meta.contains_key(VALUE@) {
        None
    } else if meta.contains_key(SIGN_INDEX@) {
        Some(
            match meta[SIGN_INDEX@].spec_as_usize() {
                Err(error) => Err(error),
                Ok(sign) => match meta[VALUE@].spec_as_i64() {
                    Err(error) => Err(error),
                    Ok(value) => Ok((Loc { start_index: sign, len: 2 }, Number::Signed(value))),
                },
            },
        )
    } else {
        Some(
            match meta[VALUE@].spec_as_u64() {
                Err(error) => Err(error),
                Ok(value) => Ok((Loc { start_index: index as usize, len: 1 }, Number::Unsigned(value))),
            },
        )
    }
}

/// The numbers that the first `upto` tokens report, in the order of the
/// tokens, or the first error among them.
pub open spec fn numbers_upto(tokens: Seq<TokenView>, upto: int) -> Result<Seq<(Loc, Number)>, Error>
    decreases upto,
{
    if upto <= 0 {
        Ok(Seq::empty())
    } else {
        match numbers_upto(tokens, upto - 1) {
            Err(error) => Err(error),
            Ok(found) => match reported(tokens, upto - 1) {
                None => Ok(found),
                Some(Ok(number)) => Ok(found.push(number)),
                Some(Err(error)) => Err(error),
            },
        }
    }
}

/// The numbers that a sentence reports.
pub open spec fn numbers_of(sentence: SentenceView) -> Result<Seq<(Loc, Number)>, Error> {
    numbers_upto(sentence.tokens, sentence.tokens.len() as int)
}

impl NumberEnricher {
    /// The numbers that are annotated in `sentence`, in the order of the
    /// tokens, each with the stretch of tokens that it covers.
    pub fn extract(sentence: &Sentence) -> (numbers: Result<Vec<(Loc, Number)>, Error>)
        ensures
            match numbers_of(sentence@) {
                Ok(found) => numbers matches Ok(list) && list@ == found,
                Err(error) => numbers == Err::<Vec<(Loc, Number)>, Error>(error),
            },
    {
        let mut numbers: Vec<(Loc, Number)> = Vec::new();
        let n = sentence.len();
        let mut index: usize = 0;
        while index < n
            invariant
                index <= n,
                n == sentence@.tokens.len(),
                numbers_upto(sentence@.tokens, index as int) == Ok::<Seq<(Loc, Number)>, Error>(numbers@),
            decreases n - index,
        {
            let token = sentence.token(index);
            if let Some(value) = token.get_meta(VALUE) {
                if let Some(sign) = token.get_meta(SIGN_INDEX) {
                    let start = match sign.as_usize() {
                        Ok(start) => start,
                        Err(error) => {
                            proof {
                                lemma_error_stays(sentence@.tokens, index + 1, n as int);
                            }
                            return Err(error);
                        },
                    };
                    let value = match value.as_i64() {
                        Ok(value) => value,
                        Err(error) => {
                            proof {
                                lemma_error_stays(sentence@.tokens, index + 1, n as int);
                            }
                            return Err(error);
                        },
                    };
                    numbers.push((Loc::new(start, 2), Number::Signed(value)));
                } else {
                    let value = match value.as_u64() {
                        Ok(value) => value,
                        Err(error) => {
                            proof {
                                lemma_error_stays(sentence@.tokens, index + 1, n as int);
                            }
                            return Err(error);
                        },
                    };
                    numbers.push((Loc::new(index, 1), Number::Unsigned(value)));
                }
            }
            index += 1;
        }
        Ok(numbers)
    }
}

/// An error among the first tokens is the error of the whole.
proof fn lemma_error_stays(tokens: Seq<TokenView>, from: int, upto: int)
    requires
        0 <= from <= upto,
        numbers_upto(tokens, from) is Err,
    ensures
        numbers_upto(tokens, upto) == numbers_upto(tokens, from),
    decreases upto - from,
{
    if from < upto {
        lemma_error_stays(tokens, from, upto - 1);
    }
}

/// The number that the token at `index` stands for, with the stretch of
/// tokens that it covers: sign and number for a signed one, the token itself
/// for an unsigned one.
pub open spec fn number_found(tokens: Seq<TokenView>, index: int) -> Option<(Loc, Number)> {
    match number_at(tokens, index) {
        Some(Number::Signed(value)) => Some(
            (Loc { start_index: (index - 1) as usize, len: 2 }, Number::Signed(value)),
        ),
        Some(Number::Unsigned(value)) => Some(
            (Loc { start_index: index as usize, len: 1 }, Number::Unsigned(value)),
        ),
        None => None,
    }
}

/// The numbers that the first `upto` tokens stand for, in their order.
pub open spec fn numbers_found(tokens: Seq<TokenView>, upto: int) -> Seq<(Loc, Number)>
    decreases upto,
{
    if upto <= 0 {
        Seq::empty()
    } else {
        match number_found(tokens, upto - 1) {
            Some(number) => numbers_found(tokens, upto - 1).push(number),
            None => numbers_found(tokens, upto - 1),
        }
    }
}

/// No token has a value or the place of a sign attached.
pub open spec fn unmarked(sentence: SentenceView) -> bool {
    forall|i: int|
        0 <= i < sentence.tokens.len() ==> !(#[trigger] sentence.tokens[i]).meta.contains_key(VALUE@)
            && !sentence.tokens[i].meta.contains_key(SIGN_INDEX@)
}

proof fn lemma_reported_after_enrich(sentence: SentenceView, index: int)
    requires
        unmarked(sentence),
        0 <= index < sentence.tokens.len(),
    ensures
        reported(number_enriched(sentence).tokens, index) == match number_found(sentence.tokens, index) {
            Some(number) => Some(Ok::<(Loc, Number), Error>(number)),
            None => None,
        },
{
    lemma_names_differ();
    let meta = number_enriched(sentence).tokens[index].meta;
    assert(meta == number_meta(sentence.tokens, index, sentence.tokens.len() as int));
    assert(!sentence.tokens[index].meta.contains_key(VALUE@));
}

proof fn lemma_numbers_upto_after_enrich(sentence: SentenceView, upto: int)
    requires
        unmarked(sentence),
        0 <= upto <= sentence.tokens.len(),
    ensures
        numbers_upto(number_enriched(sentence).tokens, upto) == Ok::<Seq<(Loc, Number)>, Error>(
            numbers_found(sentence.tokens, upto),
        ),
    decreases upto,
{
    if upto > 0 {
        lemma_numbers_upto_after_enrich(sentence, upto - 1);
        lemma_reported_after_enrich(sentence, upto - 1);
    }
}

/// What is read back after the stage has run on a sentence that bore no
/// number annotations: each token that writes a number, in the order of the
/// tokens; unsigned over its own place, one token long; or, with a minus
/// sign just before it, negative, over the two tokens from the sign on.
/// Reading back never fails then.
pub proof fn lemma_numbers_after_enrich(sentence: SentenceView)
    requires
        unmarked(sentence),
    ensures
        numbers_of(number_enriched(sentence)) == Ok::<Seq<(Loc, Number)>, Error>(
            numbers_found(sentence.tokens, sentence.tokens.len() as int),
        ),
{
    lemma_numbers_upto_after_enrich(sentence, sentence.tokens.len() as int);
}

/// The numbers of a text: what is read back after the stage has run on the
/// tokens of a text, which bear no annotations yet, is every token that
/// writes a number, as `number_found` has it.
pub proof fn lemma_numbers_of_text(language: Language, raw: Seq<char>, tokens: Seq<TokenView>)
    requires
        is_tokenization(language, raw, tokens),
    ensures
        numbers_of(number_enriched(SentenceView { raw, tokens })) == Ok::<Seq<(Loc, Number)>, Error>(
            numbers_found(tokens, tokens.len() as int),
        ),
{
    lemma_numbers_after_enrich(SentenceView { raw, tokens });
}

/// A minus sign attaches to the number just behind it and to no other: the
/// number at `index` is signed exactly where the token at `index - 1` is a
/// minus sign and the magnitude is at most 2^63. A signed number is the
/// negative of what the token writes, and so never positive; an unsigned one
/// is what the token writes.
pub proof fn lemma_sign_is_adjacent(tokens: Seq<TokenView>, index: int)
    requires
        0 <= index < tokens.len(),
    ensures
        number_at(tokens, index) is Some <==> parsed_u64(tokens[index].val) is Some,
        number_at(tokens, index) matches Some(Number::Signed(_)) <==> (parsed_u64(tokens[index].val) is Some
            && parsed_u64(tokens[index].val)->0 <= 0x8000_0000_0000_0000 && index > 0 && is_minus(
            tokens[index - 1].val,
        )),
        number_at(tokens, index) matches Some(Number::Signed(value)) ==> (value <= 0 && value == -(parsed_u64(
            tokens[index].val,
        )->0 as int)),
        number_at(tokens, index) matches Some(Number::Unsigned(magnitude)) ==> parsed_u64(tokens[index].val)
            == Some(magnitude),
{
}

impl Enricher for NumberEnricher {
    /// Every number is annotated; the stage never gives up.
    open spec fn enriched(&self, sentence: SentenceView) -> Result<SentenceView, ErrorView> {
        Ok(number_enriched(sentence))
    }

    /// The stage learns nothing: it stays as it is.
    open spec fn learned(&self, sentence: SentenceView, after: &Self, outcome: Result<(), ErrorView>) -> bool {
        outcome is Ok && *after == *self
    }

    fn enrich(&self, sentence: &mut Sentence) -> (outcome: Result<(), Error>)
        ensures
            outcome is Ok,
            final(sentence)@ == number_enriched(old(sentence)@),
    {
        let ghost before = sentence@;
        let n = sentence.len();
        let mut index: usize = 0;
        assert(sentence@ =~= numbers_marked(before, 0)) by {
            assert(sentence@.tokens =~= numbers_marked(before, 0).tokens);
        }
        while index < n
            invariant
                index <= n,
                n == before.tokens.len(),
                sentence@ == numbers_marked(before, index as int),
            decreases n - index,
        {
            let number = match parse_u64(sentence.token(index).value()) {
                Some(magnitude) => {
                    if index > 0 && (str_eq(sentence.token(index - 1).value(), "-") || str_eq(
                        sentence.token(index - 1).value(),
                        "минус",
                    )) {
                        match negate(magnitude) {
                            Some(value) => Some(Number::Signed(value)),
                            None => Some(Number::Unsigned(magnitude)),
                        }
                    } else {
                        Some(Number::Unsigned(magnitude))
                    }
                },
                None => None,
            };
            assert(number == number_at(before.tokens, index as int));
            match number {
                Some(Number::Signed(value)) => {
                    sentence.annotate(index, VALUE, Meta::I64(value));
                    sentence.annotate(index, SIGN_INDEX, Meta::Usize(index - 1));
                    sentence.annotate(index - 1, NUMBER_INDEX, Meta::Usize(index));
                },
                Some(Number::Unsigned(value)) => {
                    sentence.annotate(index, VALUE, Meta::U64(value));
                },
                None => {},
            }
            index += 1;
            assert(sentence@.tokens =~= numbers_marked(before, index as int).tokens);
        }
        proof {
            assert(same_text(before, sentence@));
        }
        Ok(())
    }

    fn update(&mut self, sentence: &Sentence) -> (outcome: Result<(), Error>) {
        Ok(())
    }
}

} // verus!
