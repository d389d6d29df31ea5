//! Segmentation: which stretches of a text are tokens.
//!
//! A token is a single punctuation character, or a maximal run of digits, or
//! a maximal run of other characters that are neither blank nor punctuation.

use crate::sentence::Loc;
use crate::text::{is_ascii_punct, is_ascii_space, is_decimal_digit, is_numeric_char};
use vstd::prelude::*;

verus! {

/// What a character is to segmentation.
#[derive(Clone, Copy, PartialEq, Eq, Structural, Debug)]
pub enum CharClass {
    /// ASCII white space: it separates tokens and belongs to none.
    Space,
    /// ASCII punctuation: a token of its own.
    Punct,
    /// A numeric character.
    Digit,
    /// Any other character.
    Letter,
}

/// The class of a character.
pub open spec fn class_of(c: char) -> CharClass {
    if is_ascii_space(c) {
        CharClass::Space
    } else if is_ascii_punct(c) {
        CharClass::Punct
    } else if is_numeric_char(c) {
        CharClass::Digit
    } else {
        CharClass::Letter
    }
}

/// The class of an ASCII character: of those the ten digits are numeric and
/// no others.
pub open spec fn class_of_ascii(c: char) -> CharClass {
    if is_ascii_space(c) {
        CharClass::Space
    } else if is_ascii_punct(c) {
        CharClass::Punct
    } else if is_decimal_digit(c) {
        CharClass::Digit
    } else {
        CharClass::Letter
    }
}

/// The class of a character.
pub fn classify(c: char) -> (class: CharClass)
    ensures
        class == class_of(c),
        c as int <= 0x7F ==> class == class_of_ascii(c),
{
    if c.is_ascii_whitespace() {
        CharClass::Space
    } else if c.is_ascii_punctuation() {
        CharClass::Punct
    } else if c.is_numeric() {
        CharClass::Digit
    } else {
        CharClass::Letter
    }
}

/// `span` is a token of a text with the classes `classes`: it is not empty
/// and lies within the text, it holds no blank, its characters are all of one
/// class, punctuation stands alone, and a run of digits or of letters can be
/// extended on neither side.
pub open spec fn is_token_span(classes: Seq<CharClass>, span: Loc) -> bool {
    let start = span.start_index as int;
    let end = span.end();
    &&& span.len >= 1
    &&& end <= classes.len()
    &&& classes[start] != CharClass::Space
    &&& forall|p: int| start <= p < end ==> classes[p] == classes[start]
    &&& classes[start] == CharClass::Punct ==> span.len == 1
    &&& classes[start] != CharClass::Punct ==> {
        &&& start == 0 || classes[start - 1] != classes[start]
        &&& end == classes.len() || classes[end] != classes[start]
    }
}

/// `spans` are the tokens of a text with the classes `classes`: every one of
/// them, each once, in the order of the text.
pub open spec fn is_segmentation(classes: Seq<CharClass>, spans: Seq<Loc>) -> bool {
    &&& forall|i: int| 0 <= i < spans.len() ==> is_token_span(classes, #[trigger] spans[i])
    &&& forall|i: int, j: int|
        0 <= i < j < spans.len() ==> (#[trigger] spans[i]).start_index < (#[trigger] spans[j]).start_index
    &&& forall|span: Loc| is_token_span(classes, span) ==> spans.contains(span)
}

/// A token that starts before another ends before it.
pub proof fn lemma_tokens_apart(classes: Seq<CharClass>, first: Loc, second: Loc)
    requires
        is_token_span(classes, first),
        is_token_span(classes, second),
        first.start_index < second.start_index,
    ensures
        first.end() <= second.start_index,
{
    if second.start_index < first.end() {
        let at = second.start_index as int;
        assert(classes[at] == classes[first.start_index as int]);
        assert(classes[at - 1] == classes[first.start_index as int]);
    }
}

/// Two tokens that start at the same place are the same token.
pub proof fn lemma_token_by_start(classes: Seq<CharClass>, first: Loc, second: Loc)
    requires
        is_token_span(classes, first),
        is_token_span(classes, second),
        first.start_index == second.start_index,
    ensures
        first == second,
{
    if first.len < second.len {
        assert(classes[first.end()] == classes[first.start_index as int]);
    } else if second.len < first.len {
        assert(classes[second.end()] == classes[first.start_index as int]);
    }
}

/// The tokens of a text stand in the order of the text and do not overlap:
/// each ends before the next one starts.
pub proof fn lemma_tokens_ordered(classes: Seq<CharClass>, spans: Seq<Loc>)
    requires
        is_segmentation(classes, spans),
    ensures
        forall|i: int, j: int|
            0 <= i < j < spans.len() ==> (#[trigger] spans[i]).start_index <= (#[trigger] spans[j]).start_index
                && spans[i].end() <= spans[j].start_index,
{
    assert forall|i: int, j: int| 0 <= i < j < spans.len() implies (#[trigger] spans[i]).start_index <= (
    #[trigger] spans[j]).start_index && spans[i].end() <= spans[j].start_index by {
        lemma_tokens_apart(classes, spans[i], spans[j]);
    }
}

/// A token holds characters of one class only, so digits and letters never
/// share a token, and a run of digits or of letters is one token as a whole:
/// the character before it and the one behind it are of another class.
pub proof fn lemma_tokens_are_runs(classes: Seq<CharClass>, spans: Seq<Loc>, i: int)
    requires
        is_segmentation(classes, spans),
        0 <= i < spans.len(),
    ensures
        forall|p: int, q: int|
            spans[i].start_index <= p < spans[i].end() && spans[i].start_index <= q < spans[i].end()
                ==> #[trigger] classes[p] == #[trigger] classes[q],
        forall|p: int| spans[i].start_index <= p < spans[i].end() ==> #[trigger] classes[p] != CharClass::Space,
        classes[spans[i].start_index as int] != CharClass::Punct ==> {
            &&& spans[i].start_index == 0 || classes[spans[i].start_index - 1]
                != classes[spans[i].start_index as int]
            &&& spans[i].end() == classes.len() || classes[spans[i].end()]
                != classes[spans[i].start_index as int]
        },
{
    let span = spans[i];
    assert(is_token_span(classes, span));
    assert forall|p: int, q: int|
        span.start_index <= p < span.end() && span.start_index <= q < span.end() implies #[trigger] classes[p]
        == #[trigger] classes[q] by {
        assert(classes[p] == classes[span.start_index as int]);
        assert(classes[q] == classes[span.start_index as int]);
    }
}

/// Every punctuation character is a token of its own, one character long.
pub proof fn lemma_punctuation_alone(classes: Seq<CharClass>, spans: Seq<Loc>, at: usize)
    requires
        is_segmentation(classes, spans),
        at < classes.len(),
        classes[at as int] == CharClass::Punct,
    ensures
        spans.contains(Loc { start_index: at, len: 1 }),
        forall|i: int|
            0 <= i < spans.len() && (#[trigger] spans[i]).start_index <= at < spans[i].end() ==> spans[i] == (Loc {
                start_index: at,
                len: 1,
            }),
{
    let alone = Loc { start_index: at, len: 1 };
    assert(is_token_span(classes, alone));
    assert forall|i: int|
        0 <= i < spans.len() && (#[trigger] spans[i]).start_index <= at < spans[i].end() implies spans[i]
        == alone by {
        assert(is_token_span(classes, spans[i]));
        assert(classes[at as int] == classes[spans[i].start_index as int]);
    }
}

/// Where the run of equal classes around `at` starts.
pub open spec fn run_start(classes: Seq<CharClass>, at: int) -> int
    decreases at,
{
    if 0 < at < classes.len() && classes[at - 1] == classes[at] {
        run_start(classes, at - 1)
    } else {
        at
    }
}

/// Where the run of equal classes around `at` ends.
pub open spec fn run_end(classes: Seq<CharClass>, at: int) -> int
    decreases classes.len() - at,
{
    if 0 <= at && at + 1 < classes.len() && classes[at + 1] == classes[at] {
        run_end(classes, at + 1)
    } else {
        at + 1
    }
}

proof fn lemma_run_start(classes: Seq<CharClass>, at: int)
    requires
        0 <= at < classes.len(),
    ensures
        0 <= run_start(classes, at) <= at,
        forall|p: int| run_start(classes, at) <= p <= at ==> classes[p] == classes[at],
        run_start(classes, at) == 0 || classes[run_start(classes, at) - 1] != classes[at],
    decreases at,
{
    if 0 < at && classes[at - 1] == classes[at] {
        lemma_run_start(classes, at - 1);
    }
}

proof fn lemma_run_end(classes: Seq<CharClass>, at: int)
    requires
        0 <= at < classes.len(),
    ensures
        at < run_end(classes, at) <= classes.len(),
        forall|p: int| at <= p < run_end(classes, at) ==> classes[p] == classes[at],
        run_end(classes, at) == classes.len() || classes[run_end(classes, at)] != classes[at],
    decreases classes.len() - at,
{
    if at + 1 < classes.len() && classes[at + 1] == classes[at] {
        lemma_run_end(classes, at + 1);
    }
}

/// Every character that is not blank lies in a token, and in one only.
pub proof fn lemma_covered(classes: Seq<CharClass>, spans: Seq<Loc>, at: usize)
    requires
        is_segmentation(classes, spans),
        at < classes.len() <= usize::MAX,
        classes[at as int] != CharClass::Space,
    ensures
        exists|i: int| 0 <= i < spans.len() && (#[trigger] spans[i]).start_index <= at < spans[i].end(),
        forall|i: int, j: int|
            0 <= i < spans.len() && 0 <= j < spans.len() && (#[trigger] spans[i]).start_index <= at
                < spans[i].end() && (#[trigger] spans[j]).start_index <= at < spans[j].end() ==> i == j,
{
    let around = if classes[at as int] == CharClass::Punct {
        Loc { start_index: at, len: 1 }
    } else {
        lemma_run_start(classes, at as int);
        lemma_run_end(classes, at as int);
        Loc {
            start_index: run_start(classes, at as int) as usize,
            len: (run_end(classes, at as int) - run_start(classes, at as int)) as usize,
        }
    };
    assert(is_token_span(classes, around));
    let i = choose|i: int| 0 <= i < spans.len() && spans[i] == around;
    assert(spans[i].start_index <= at < spans[i].end());
    lemma_tokens_ordered(classes, spans);
}

proof fn lemma_prefixes_agree(classes: Seq<CharClass>, a: Seq<Loc>, b: Seq<Loc>, upto: int)
    requires
        is_segmentation(classes, a),
        is_segmentation(classes, b),
        0 <= upto <= a.len(),
    ensures
        upto <= b.len(),
        forall|i: int| 0 <= i < upto ==> a[i] == b[i],
    decreases upto,
{
    if upto > 0 {
        lemma_prefixes_agree(classes, a, b, upto - 1);
        let i = upto - 1;
        assert(is_token_span(classes, a[i]));
        let j = choose|j: int| 0 <= j < b.len() && b[j] == a[i];
        if j < i {
            assert(a[j] == b[j]);
            assert(a[j].start_index < a[i].start_index);
        } else if j > i {
            assert(is_token_span(classes, b[i]));
            let m = choose|m: int| 0 <= m < a.len() && a[m] == b[i];
            assert(b[i].start_index < b[j].start_index);
            if m < i {
                assert(a[m] == b[m]);
                assert(b[m].start_index < b[i].start_index);
            } else if m > i {
                assert(a[i].start_index < a[m].start_index);
            }
        }
    }
}

/// A text has one segmentation only.
pub proof fn lemma_segmentation_unique(classes: Seq<CharClass>, a: Seq<Loc>, b: Seq<Loc>)
    requires
        is_segmentation(classes, a),
        is_segmentation(classes, b),
    ensures
        a == b,
{
    lemma_prefixes_agree(classes, a, b, a.len() as int);
    lemma_prefixes_agree(classes, b, a, b.len() as int);
    assert(a =~= b);
}

/// The tokens of a text: the stretches of `classes` that are tokens, in the
/// order of the text.
pub fn segment(classes: &[CharClass]) -> (spans: Vec<Loc>)
    ensures
        is_segmentation(classes@, spans@),
{
    let n = classes.len();
    let mut spans: Vec<Loc> = Vec::new();
    let mut at: usize = 0;
    while at < n
        invariant
            n == classes@.len(),
            at <= n,
            0 < at < n ==> classes@[at as int] == CharClass::Space || classes@[at as int]
                == CharClass::Punct || classes@[at - 1] != classes@[at as int],
            forall|i: int|
                0 <= i < spans@.len() ==> is_token_span(classes@, #[trigger] spans@[i]) && spans@[i].end()
                    <= at,
            forall|i: int, j: int|
                0 <= i < j < spans@.len() ==> (#[trigger] spans@[i]).start_index < (
                #[trigger] spans@[j]).start_index,
            forall|span: Loc|
                is_token_span(classes@, span) && span.start_index < at ==> spans@.contains(span),
        decreases n - at,
    {
        let ghost before = spans@;
        let start = at;
        let class = classes[at];
        at += 1;
        if class == CharClass::Space {
        } else {
            if class != CharClass::Punct {
                while at < n && classes[at] == class
                    invariant
                        n == classes@.len(),
                        start < at <= n,
                        forall|p: int| start <= p < at ==> classes@[p] == class,
                    decreases n - at,
                {
                    at += 1;
                }
            }
            let span = Loc::new(start, at - start);
            spans.push(span);
            proof {
                assert(is_token_span(classes@, span));
                assert forall|i: int| 0 <= i < spans@.len() implies is_token_span(
                    classes@,
                    #[trigger] spans@[i],
                ) && spans@[i].end() <= at by {
                    if i < before.len() {
                        assert(spans@[i] == before[i]);
                    }
                }
                assert forall|i: int, j: int| 0 <= i < j < spans@.len() implies (
                #[trigger] spans@[i]).start_index < (#[trigger] spans@[j]).start_index by {
                    assert(spans@[i] == before[i]);
                    if j < before.len() {
                        assert(spans@[j] == before[j]);
                    }
                }
            }
        }
        proof {
            assert forall|other: Loc|
                is_token_span(classes@, other) && other.start_index < at implies spans@.contains(
                other,
            ) by {
                if other.start_index < start {
                    let i = choose|i: int| 0 <= i < before.len() && before[i] == other;
                    assert(spans@[i] == other);
                } else if other.start_index == start {
                    lemma_token_by_start(classes@, other, spans@[spans@.len() - 1]);
                } else {
                    assert(classes@[other.start_index - 1] == class);
                    assert(classes@[other.start_index as int] == class);
                }
            }
        }
    }
    spans
}

} // verus!
