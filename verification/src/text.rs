//! Strings as sequences of characters: the order in which keys and words are
//! kept, decimal literals, and the character tests that segmentation rests on.

use vstd::prelude::*;
use vstd::std_specs::iter::IteratorSpec;

verus! {

/// Lexicographic order on character sequences, by code point: the order of
/// `str`.
pub open spec fn lex_lt(a: Seq<char>, b: Seq<char>) -> bool
    decreases a.len(),
{
    if b.len() == 0 {
        false
    } else if a.len() == 0 {
        true
    } else if a[0] != b[0] {
        (a[0] as int) < (b[0] as int)
    } else {
        lex_lt(a.drop_first(), b.drop_first())
    }
}

/// No sequence precedes itself.
pub proof fn lemma_lex_lt_irreflexive(a: Seq<char>)
    ensures
        !lex_lt(a, a),
    decreases a.len(),
{
    if a.len() > 0 {
        lemma_lex_lt_irreflexive(a.drop_first());
    }
}

/// The order is transitive.
pub proof fn lemma_lex_lt_transitive(a: Seq<char>, b: Seq<char>, c: Seq<char>)
    requires
        lex_lt(a, b),
        lex_lt(b, c),
    ensures
        lex_lt(a, c),
    decreases a.len(),
{
    if a.len() > 0 && a[0] == b[0] && b[0] == c[0] {
        lemma_lex_lt_transitive(a.drop_first(), b.drop_first(), c.drop_first());
    }
}

/// Of two different sequences one precedes the other.
pub proof fn lemma_lex_lt_total(a: Seq<char>, b: Seq<char>)
    ensures
        a == b || lex_lt(a, b) || lex_lt(b, a),
    decreases a.len(),
{
    if a.len() == 0 || b.len() == 0 {
        if a.len() == 0 && b.len() == 0 {
            assert(a =~= b);
        }
    } else if a[0] == b[0] {
        lemma_lex_lt_total(a.drop_first(), b.drop_first());
        if a.drop_first() == b.drop_first() {
            assert(a =~= seq![a[0]] + a.drop_first());
            assert(b =~= seq![b[0]] + b.drop_first());
        }
    } else {
        assert(a[0] as int != b[0] as int);
    }
}

/// A common beginning does not decide the order.
pub proof fn lemma_lex_lt_after(before: Seq<char>, a: Seq<char>, b: Seq<char>)
    ensures
        lex_lt(before + a, before + b) == lex_lt(a, b),
    decreases before.len(),
{
    if before.len() > 0 {
        assert((before + a).drop_first() =~= before.drop_first() + a);
        assert((before + b).drop_first() =~= before.drop_first() + b);
        lemma_lex_lt_after(before.drop_first(), a, b);
    } else {
        assert(before + a =~= a);
        assert(before + b =~= b);
    }
}

/// Whether `a` precedes `b`, character by character.
pub fn str_lt(a: &str, b: &str) -> (less: bool)
    ensures
        less == lex_lt(a@, b@),
{
    let mut left = a.chars();
    let mut right = b.chars();
    let ghost mut done: Seq<char> = Seq::empty();
    assert(done + left.remaining() =~= a@);
    assert(done + right.remaining() =~= b@);
    loop
        invariant
            a@ == done + left.remaining(),
            b@ == done + right.remaining(),
        decreases a@.len() - done.len(),
    {
        proof {
            lemma_lex_lt_after(done, left.remaining(), right.remaining());
        }
        let x = left.next();
        let y = right.next();
        match (x, y) {
            (Some(c), Some(d)) => {
                if c != d {
                    return c < d;
                }
                proof {
                    done = done.push(c);
                    assert(done + left.remaining() =~= a@);
                    assert(done + right.remaining() =~= b@);
                }
            },
            (None, Some(_)) => {
                return true;
            },
            (_, None) => {
                return false;
            },
        }
    }
}

/// Whether `a` and `b` hold the same characters.
pub fn str_eq(a: &str, b: &str) -> (same: bool)
    ensures
        same == (a@ == b@),
{
    let mut left = a.chars();
    let mut right = b.chars();
    let ghost mut done: Seq<char> = Seq::empty();
    assert(done + left.remaining() =~= a@);
    assert(done + right.remaining() =~= b@);
    loop
        invariant
            a@ == done + left.remaining(),
            b@ == done + right.remaining(),
        decreases a@.len() - done.len(),
    {
        let x = left.next();
        let y = right.next();
        match (x, y) {
            (Some(c), Some(d)) => {
                if c != d {
                    assert(a@[done.len() as int] == c);
                    assert(b@[done.len() as int] == d);
                    return false;
                }
                proof {
                    done = done.push(c);
                    assert(done + left.remaining() =~= a@);
                    assert(done + right.remaining() =~= b@);
                }
            },
            (None, None) => {
                assert(a@ =~= b@);
                return true;
            },
            _ => {
                assert(a@.len() != b@.len());
                return false;
            },
        }
    }
}

/// `String::push` appends one character.
pub assume_specification[ String::push ](s: &mut String, c: char)
    ensures
        final(s)@ == old(s)@.push(c),
;

/// The five characters that count as white space in ASCII.
pub open spec fn is_ascii_space(c: char) -> bool {
    c == ' ' || c == '\t' || c == '\n' || c == '\x0C' || c == '\r'
}

/// The ASCII characters that are neither letters, digits, blanks nor
/// controls, in their four ranges.
pub open spec fn is_ascii_punct(c: char) -> bool {
    let code = c as int;
    0x21 <= code <= 0x2F || 0x3A <= code <= 0x40 || 0x5B <= code <= 0x60 || 0x7B <= code <= 0x7E
}

/// Whether Unicode counts `c` as numeric: what `char::is_numeric` answers.
pub uninterp spec fn is_numeric_char(c: char) -> bool;

/// `text` in lower case: what `str::to_lowercase` makes of it.
pub uninterp spec fn lowercase_of(text: Seq<char>) -> Seq<char>;

/// `char::is_ascii_whitespace` holds of space, tab, line feed, form feed and
/// carriage return.
pub assume_specification[ char::is_ascii_whitespace ](c: &char) -> (blank: bool)
    ensures
        blank == is_ascii_space(*c),
;

/// `char::is_ascii_punctuation` holds of the ranges `!`..`/`, `:`..`@`,
/// `[`..`` ` `` and `{`..`~`.
pub assume_specification[ char::is_ascii_punctuation ](c: &char) -> (punct: bool)
    ensures
        punct == is_ascii_punct(*c),
;

/// `char::is_numeric` looks the character up in Unicode's tables; its answer
/// depends on the character alone. Of the ASCII characters the ten digits
/// are numeric and no others.
pub assume_specification[ char::is_numeric ](c: char) -> (numeric: bool)
    ensures
        numeric == is_numeric_char(c),
        c as int <= 0x7F ==> numeric == is_decimal_digit(c),
;

/// `str::to_lowercase` maps the text by Unicode's rules, without regard to
/// any locale; its result depends on the text alone.
pub assume_specification[ str::to_lowercase ](text: &str) -> (lowered: String)
    ensures
        lowered@ == lowercase_of(text@),
;

/// One of the ten decimal digits.
pub open spec fn is_decimal_digit(c: char) -> bool {
    0x30 <= c as int <= 0x39
}

/// The number that a sequence of decimal digits writes.
pub open spec fn decimal_value(digits: Seq<char>) -> nat
    decreases digits.len(),
{
    if digits.len() == 0 {
        0
    } else {
        decimal_value(digits.drop_last()) * 10 + (digits.last() as int - 0x30) as nat
    }
}

/// Decimal digits, at least one, and nothing else.
pub open spec fn is_decimal(digits: Seq<char>) -> bool {
    digits.len() > 0 && forall|i: int| 0 <= i < digits.len() ==> is_decimal_digit(#[trigger] digits[i])
}

/// The number that `text` writes as a `u64`: decimal digits, at least one,
/// with or without a `+` before them, and a value that fits.
pub open spec fn parsed_u64(text: Seq<char>) -> Option<u64> {
    let digits = if text.len() > 0 && text[0] == '+' {
        text.drop_first()
    } else {
        text
    };
    if is_decimal(digits) && decimal_value(digits) <= u64::MAX {
        Some(decimal_value(digits) as u64)
    } else {
        None
    }
}

/// The characters of `text`, one by one.
pub fn chars_of(text: &str) -> (chars: Vec<char>)
    ensures
        chars@ == text@,
{
    let mut chars: Vec<char> = Vec::new();
    for c in it: text.chars()
        invariant
            chars@ == it.seq().take(it.index() as int),
    {
        chars.push(c);
    }
    chars
}

/// More digits write no smaller a number.
proof fn lemma_decimal_value_grows(digits: Seq<char>, upto: int)
    requires
        0 <= upto <= digits.len(),
    ensures
        decimal_value(digits.take(upto)) <= decimal_value(digits),
    decreases digits.len() - upto,
{
    if upto < digits.len() {
        lemma_decimal_value_grows(digits, upto + 1);
        assert(digits.take(upto + 1).drop_last() =~= digits.take(upto));
    } else {
        assert(digits.take(upto) =~= digits);
    }
}

/// The number that `text` writes as a `u64`, if it writes one: decimal
/// digits, at least one, with or without a `+` before them, and a value that
/// fits.
pub fn parse_u64(text: &str) -> (number: Option<u64>)
    ensures
        number == parsed_u64(text@),
{
    let chars = chars_of(text);
    let n = chars.len();
    let start: usize = if n > 0 && chars[0] == '+' {
        1
    } else {
        0
    };
    let ghost digits = chars@.skip(start as int);
    assert(digits =~= if text@.len() > 0 && text@[0] == '+' {
        text@.drop_first()
    } else {
        text@
    });
    if start == n {
        return None;
    }
    let mut value: u64 = 0;
    let mut at: usize = start;
    while at < n
        invariant
            start <= at <= n,
            n == chars@.len(),
            digits == chars@.skip(start as int),
            parsed_u64(text@) == if is_decimal(digits) && decimal_value(digits) <= u64::MAX {
                Some(decimal_value(digits) as u64)
            } else {
                None
            },
            forall|k: int| 0 <= k < at - start ==> is_decimal_digit(#[trigger] digits[k]),
            value == decimal_value(digits.take(at - start)),
        decreases n - at,
    {
        let c = chars[at];
        assert(c == digits[at - start]);
        if !('0' <= c && c <= '9') {
            assert(!is_decimal_digit(digits[at - start]));
            return None;
        }
        let digit: u64 = (c as u64) - 0x30;
        proof {
            assert(digits.take(at - start + 1).drop_last() =~= digits.take(at - start));
            assert(decimal_value(digits.take(at - start + 1)) == value * 10 + digit);
            lemma_decimal_value_grows(digits, at - start + 1);
        }
        if value > (u64::MAX - digit) / 10 {
            return None;
        }
        value = value * 10 + digit;
        at += 1;
    }
    assert(digits.take(at - start) =~= digits);
    Some(value)
}

} // verus!
