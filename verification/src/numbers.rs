//! Numbers as text.
use vstd::prelude::*;
use crate::text::{is_ascii_digit, is_text, lowered, rest, skip_run, Class};

verus! {

/// The character of a decimal digit.
pub open spec fn digit_char(d: nat) -> char {
    (48 + d) as char
}

/// The number that a decimal digit stands for.
pub open spec fn digit_value(c: char) -> nat {
    (c as u32 - 48) as nat
}

/// A natural number in decimal, without leading zeros.
pub open spec fn decimal_text(n: nat) -> Seq<char>
    decreases n,
{
    if n < 10 {
        seq![digit_char(n)]
    } else {
        decimal_text(n / 10).push(digit_char(n % 10))
    }
}

fn char_of_digit(d: u64) -> (c: char)
    requires
        d < 10,
    ensures
        c == digit_char(d as nat),
{
    match d {
        0 => '0',
        1 => '1',
        2 => '2',
        3 => '3',
        4 => '4',
        5 => '5',
        6 => '6',
        7 => '7',
        8 => '8',
        _ => '9',
    }
}

/// The number in decimal.
pub fn decimal(n: u64) -> (r: Vec<char>)
    ensures
        r@ == decimal_text(n as nat),
    decreases n,
{
    if n < 10 {
        let mut r: Vec<char> = Vec::new();
        r.push(char_of_digit(n));
        proof {
            assert(r@ =~= seq![digit_char(n as nat)]);
        }
        r
    } else {
        let mut r = decimal(n / 10);
        r.push(char_of_digit(n % 10));
        r
    }
}

/// Whether every character is a decimal digit.
pub open spec fn all_digits(s: Seq<char>) -> bool {
    forall|i: int| 0 <= i < s.len() ==> crate::text::ascii_digit(#[trigger] s[i])
}

/// The number that decimal digits stand for.
pub open spec fn digits_value(s: Seq<char>) -> nat
    decreases s.len(),
{
    if s.len() == 0 {
        0
    } else {
        10 * digits_value(s.drop_last()) + digit_value(s.last())
    }
}

/// A number without the plus sign that it may begin with.
pub open spec fn without_plus(s: Seq<char>) -> Seq<char> {
    if s.len() > 0 && s[0] == '+' {
        s.skip(1)
    } else {
        s
    }
}

/// The natural number up to `max` that a text is: decimal digits, at least one,
/// and perhaps a plus sign before them.
pub open spec fn natural_read(s: Seq<char>, max: nat) -> Option<nat> {
    let t = without_plus(s);
    if t.len() > 0 && all_digits(t) && digits_value(t) <= max {
        Some(digits_value(t))
    } else {
        None
    }
}

/// Longer digits stand for no smaller number.
proof fn lemma_digits_grow(s: Seq<char>, i: int)
    requires
        0 <= i <= s.len(),
        all_digits(s),
    ensures
        digits_value(s.take(i)) <= digits_value(s),
    decreases s.len(),
{
    if i == s.len() {
        assert(s.take(i) =~= s);
    } else {
        assert(s.drop_last().take(i) =~= s.take(i));
        assert(all_digits(s.drop_last()));
        lemma_digits_grow(s.drop_last(), i);
    }
}

/// The natural number up to `max` that a text is.
pub fn parse_natural(s: &[char], max: u64) -> (r: Option<u64>)
    ensures
        match r {
            Some(n) => natural_read(s@, max as nat) == Some(n as nat),
            None => natural_read(s@, max as nat) is None,
        },
{
    let t = if s.len() > 0 && s[0] == '+' {
        rest(s, 1)
    } else {
        s
    };
    if t.len() == 0 {
        return None;
    }
    let mut value: u64 = 0;
    let mut i: usize = 0;
    proof {
        assert(t@.take(0) =~= Seq::<char>::empty());
    }
    while i < t.len()
        invariant
            t@ == without_plus(s@),
            i <= t@.len(),
            value == digits_value(t@.take(i as int)),
            value <= max,
            forall|j: int| 0 <= j < i ==> crate::text::ascii_digit(#[trigger] t@[j]),
        decreases t@.len() - i,
    {
        if !is_ascii_digit(t[i]) {
            return None;
        }
        let d: u64 = (t[i] as u32 - 48) as u64;
        proof {
            assert(t@.take(i + 1).drop_last() =~= t@.take(i as int));
            assert(t@.take(i + 1).last() == t@[i as int]);
        }
        if value > max / 10 || d > max || value * 10 > max - d {
            proof {
                if all_digits(t@) {
                    lemma_digits_grow(t@, i + 1);
                }
            }
            return None;
        }
        value = value * 10 + d;
        i += 1;
    }
    proof {
        assert(t@.take(i as int) =~= t@);
    }
    Some(value)
}

/// The decimal text of a number is read back as that number.
pub proof fn law_decimal_is_read_back(n: nat, max: nat)
    requires
        n <= max,
    ensures
        natural_read(decimal_text(n), max) == Some(n),
{
    lemma_decimal(n);
}

pub proof fn lemma_decimal(n: nat)
    ensures
        decimal_text(n).len() > 0,
        all_digits(decimal_text(n)),
        digits_value(decimal_text(n)) == n,
        decimal_text(n)[0] != '+',
    decreases n,
{
    let s = decimal_text(n);
    if n < 10 {
        assert(s.drop_last() =~= Seq::<char>::empty());
        assert(digits_value(s.drop_last()) == 0);
    } else {
        lemma_decimal(n / 10);
        assert(s.drop_last() =~= decimal_text(n / 10));
    }
}

/// A number without the sign that it may begin with.
pub open spec fn unsigned(s: Seq<char>) -> Seq<char> {
    if s.len() > 0 && (s[0] == '+' || s[0] == '-') {
        s.skip(1)
    } else {
        s
    }
}

/// Whether a text is decimal digits and perhaps a sign before them.
pub open spec fn exponent_text(s: Seq<char>) -> bool {
    unsigned(s).len() > 0 && all_digits(unsigned(s))
}

/// Whether a text is a number in decimal notation: digits, at least one, with at
/// most one point among them, and perhaps an exponent.
pub open spec fn decimal_number_text(s: Seq<char>) -> bool {
    let whole = crate::text::run_end(s, 0, Class::Digit);
    let end = if whole < s.len() && s[whole] == '.' {
        crate::text::run_end(s, whole + 1, Class::Digit)
    } else {
        whole
    };
    let digits = if end == whole {
        whole
    } else {
        end - 1
    };
    digits > 0 && (end == s.len() || ((s[end] == 'e' || s[end] == 'E') && exponent_text(
        s.skip(end + 1),
    )))
}

/// Whether a text reads as a floating-point number, by the grammar of the
/// standard library's `FromStr` for floats.
pub open spec fn float_text(s: Seq<char>) -> bool {
    let t = unsigned(s);
    let word = crate::text::lower_text(t);
    word == "inf"@ || word == "infinity"@ || word == "nan"@ || decimal_number_text(t)
}

fn strip_sign<'a>(s: &'a [char]) -> (r: &'a [char])
    ensures
        r@ == unsigned(s@),
{
    if s.len() > 0 && (s[0] == '+' || s[0] == '-') {
        rest(s, 1)
    } else {
        s
    }
}

fn is_exponent(s: &[char]) -> (r: bool)
    ensures
        r == exponent_text(s@),
{
    let t = strip_sign(s);
    let end = skip_run(t, 0, Class::Digit);
    proof {
        crate::text::lemma_run_end(t@, 0, Class::Digit);
        if end < t@.len() {
            assert(!crate::text::ascii_digit(t@[end as int]));
        }
    }
    t.len() > 0 && end == t.len()
}

fn is_decimal_number(s: &[char]) -> (r: bool)
    ensures
        r == decimal_number_text(s@),
{
    let whole = skip_run(s, 0, Class::Digit);
    let mut end = whole;
    let mut digits = whole;
    if whole < s.len() && s[whole] == '.' {
        end = skip_run(s, whole + 1, Class::Digit);
        digits = end - 1;
    }
    if digits == 0 {
        false
    } else if end == s.len() {
        true
    } else {
        (s[end] == 'e' || s[end] == 'E') && is_exponent(rest(s, end + 1))
    }
}

/// Whether a text reads as a floating-point number.
pub fn reads_as_float(s: &[char]) -> (r: bool)
    ensures
        r == float_text(s@),
{
    let t = strip_sign(s);
    let word = lowered(t);
    is_text(word.as_slice(), "inf") || is_text(word.as_slice(), "infinity") || is_text(
        word.as_slice(),
        "nan",
    ) || is_decimal_number(t)
}

/// A plus sign and zeros before a number do not matter; a number that is too large is not
/// read, nor is an empty text or one with a character that is no digit.
pub proof fn law_numbers_are_digits(n: nat, max: nat, s: Seq<char>, i: int)
    requires
        0 <= i < s.len(),
        !crate::text::ascii_digit(s[i]),
        i > 0 || s[i] != '+',
    ensures
        n <= max ==> natural_read(seq!['+'] + decimal_text(n), max) == Some(n),
        n <= max ==> natural_read(seq!['0'] + decimal_text(n), max) == Some(n),
        n > max ==> natural_read(decimal_text(n), max) is None,
        natural_read(s, max) is None,
        natural_read(Seq::empty(), max) is None,
        natural_read(seq!['+'], max) is None,
{
    let t = decimal_text(n);
    lemma_decimal(n);
    assert((seq!['+'] + t).skip(1) =~= t);
    assert(without_plus(seq!['+']) =~= Seq::<char>::empty());
    let z = seq!['0'] + t;
    assert forall|j: int| 0 <= j < z.len() implies crate::text::ascii_digit(#[trigger] z[j]) by {
        if j > 0 {
            assert(z[j] == t[j - 1]);
        }
    }
    lemma_leading_zero(t);
    if s[0] == '+' {
        assert(without_plus(s)[i - 1] == s[i]);
    } else {
        assert(without_plus(s)[i] == s[i]);
    }
}

proof fn lemma_leading_zero(t: Seq<char>)
    ensures
        digits_value(seq!['0'] + t) == digits_value(t),
    decreases t.len(),
{
    let z = seq!['0'] + t;
    if t.len() == 0 {
        assert(z.drop_last() =~= Seq::<char>::empty());
        assert(digits_value(z.drop_last()) == 0);
        assert(z.last() == '0');
    } else {
        lemma_leading_zero(t.drop_last());
        assert(z.drop_last() =~= seq!['0'] + t.drop_last());
        assert(z.last() == t.last());
    }
}

/// Digits in a row stand for the number that is written so: each one more counts ten times
/// those before it.
pub proof fn law_digits_count_by_tens(s: Seq<char>, d: nat)
    requires
        d < 10,
        all_digits(s),
    ensures
        digits_value(s.push(digit_char(d))) == 10 * digits_value(s) + d,
        digits_value(Seq::empty()) == 0,
        d > 0 ==> decimal_text(d) == seq![digit_char(d)],
{
    assert(s.push(digit_char(d)).drop_last() =~= s);
}

/// What a floating-point number is written like: perhaps a sign, digits, perhaps a point
/// with digits behind it, perhaps an exponent with a sign of its own.
pub proof fn law_floats_are_written(
    sign: Seq<char>,
    whole: Seq<char>,
    part: Seq<char>,
    exp: Seq<char>,
    other: Seq<char>,
)
    requires
        sign.len() == 0 || sign == seq!['-'] || sign == seq!['+'],
        all_digits(whole),
        all_digits(part),
        whole.len() + part.len() > 0,
        all_digits(exp),
        exp.len() > 0,
        other.len() > 0,
        !crate::text::ascii_digit(other[0]) && other[0] != '.' && other[0] != 'e' && other[0]
            != 'E',
    ensures
        whole.len() > 0 ==> float_text(sign + whole),
        float_text(sign + (whole + seq!['.'] + part)),
        float_text(sign + (whole + seq!['.'] + part + (seq!['e'] + exp))),
        float_text(sign + (whole + seq!['.'] + part + (seq!['E', '-'] + exp))),
        whole.len() > 0 ==> !decimal_number_text(whole + other),
        !decimal_number_text(whole + seq!['.'] + part + other),
        !decimal_number_text(seq!['.']),
        !float_text(Seq::empty()),
{
    let none = Seq::<char>::empty();
    lemma_number(whole, part, none);
    lemma_number(whole, part, seq!['e'] + exp);
    lemma_number(whole, part, seq!['E', '-'] + exp);
    lemma_number(whole, part, other);
    assert(whole + seq!['.'] + part + none =~= whole + seq!['.'] + part);
    assert((seq!['e'] + exp).skip(1) =~= exp);
    assert((seq!['E', '-'] + exp).skip(1) =~= seq!['-'] + exp);
    assert((seq!['-'] + exp).skip(1) =~= exp);
    assert(crate::text::ascii_digit(exp[0]));
    if whole.len() > 0 {
        assert(crate::text::ascii_digit(whole[0]));
        lemma_plain(whole, none);
        lemma_plain(whole, other);
        assert(whole + none =~= whole);
        lemma_signed(sign, whole);
    }
    if part.len() > 0 {
        assert(crate::text::ascii_digit(part[0]));
    }
    lemma_signed(sign, whole + seq!['.'] + part);
    lemma_signed(sign, whole + seq!['.'] + part + (seq!['e'] + exp));
    lemma_signed(sign, whole + seq!['.'] + part + (seq!['E', '-'] + exp));
    lemma_point();
    lemma_empty();
}

proof fn lemma_point()
    ensures
        !decimal_number_text(seq!['.']),
{
    let s = seq!['.'];
    crate::text::lemma_run_ends(s, 0, 0, Class::Digit);
    crate::text::lemma_run_ends(s, 1, 1, Class::Digit);
}

proof fn lemma_empty()
    ensures
        !float_text(Seq::empty()),
{
    reveal_strlit("inf");
    reveal_strlit("infinity");
    reveal_strlit("nan");
    let s = Seq::<char>::empty();
    crate::text::lemma_run_ends(s, 0, 0, Class::Digit);
    assert(crate::text::lower_text(s).len() == 0);
}

proof fn lemma_signed(sign: Seq<char>, t: Seq<char>)
    requires
        sign.len() == 0 || sign == seq!['-'] || sign == seq!['+'],
        t.len() > 0,
        t[0] != '+' && t[0] != '-',
    ensures
        unsigned(sign + t) == t,
{
    if sign.len() == 0 {
        assert(sign + t =~= t);
    } else {
        assert((sign + t).skip(1) =~= t);
    }
}

proof fn lemma_plain(whole: Seq<char>, end: Seq<char>)
    requires
        all_digits(whole),
        whole.len() > 0,
        end.len() > 0 ==> !crate::text::ascii_digit(end[0]) && end[0] != '.',
    ensures
        decimal_number_text(whole + end) == (end.len() == 0 || ((end[0] == 'e' || end[0] == 'E')
            && exponent_text(end.skip(1)))),
{
    let s = whole + end;
    let w = whole.len() as int;
    assert forall|j: int| 0 <= j < w implies crate::text::of_class(
        #[trigger] s[j],
        Class::Digit,
    ) by {
        assert(s[j] == whole[j]);
    }
    if end.len() > 0 {
        assert(s[w] == end[0]);
    }
    crate::text::lemma_run_ends(s, 0, w, Class::Digit);
    if end.len() > 0 {
        assert(s.skip(w + 1) =~= end.skip(1));
    }
}

proof fn lemma_number(whole: Seq<char>, part: Seq<char>, end: Seq<char>)
    requires
        all_digits(whole),
        all_digits(part),
        end.len() > 0 ==> !crate::text::ascii_digit(end[0]),
    ensures
        decimal_number_text(whole + seq!['.'] + part + end) == (whole.len() + part.len() > 0 && (
        end.len() == 0 || ((end[0] == 'e' || end[0] == 'E') && exponent_text(end.skip(1))))),
{
    let s = whole + seq!['.'] + part + end;
    let w = whole.len() as int;
    let e = w + 1 + part.len();
    assert forall|j: int| 0 <= j < w implies crate::text::of_class(
        #[trigger] s[j],
        Class::Digit,
    ) by {
        assert(s[j] == whole[j]);
    }
    assert(s[w] == '.');
    assert forall|j: int| w + 1 <= j < e implies crate::text::of_class(
        #[trigger] s[j],
        Class::Digit,
    ) by {
        assert(s[j] == part[j - w - 1]);
    }
    if end.len() > 0 {
        assert(s[e] == end[0]);
    }
    crate::text::lemma_run_ends(s, 0, w, Class::Digit);
    crate::text::lemma_run_ends(s, w + 1, e, Class::Digit);
    if end.len() > 0 {
        assert(s.skip(e + 1) =~= end.skip(1));
    }
}

} // verus!
