//! Reading the text of a mesh file.
//!
//! The text is read line by line. A line is cut into words at white space. A line
//! whose first word is `v` gives a vertex: its next three words are numbers. A
//! line whose first word is `f` gives a face: of each of its next three words the
//! part before the first `/` is the number of a vertex. Every other line is
//! passed over.
//!
//! A number of a vertex is read in decimal notation: a sign or none, then up to
//! eighteen digits with at most one point, then an exponent or none (`1.5e-3`).
//! Its value is cut off after the thirty-second binary place and must be below
//! 2147483648 in size. Refused, as no number, are: more than eighteen digits in
//! the mantissa or in the exponent, a number of that size or above, and the words
//! for infinity and for what is not a number.

use super::types::{ObjFace, ObjVertex};
use crate::geometry::fixed::ONE;
use std::collections::VecDeque;
use vstd::prelude::*;
use vstd::slice::slice_subrange;

verus! {

/// The kinds of bytes that the reader looks for.
#[derive(Clone, Copy, Debug, PartialEq, Eq)]
pub enum Class {
    /// White space: a blank, a tab, a line feed, a vertical tab, a form feed or a
    /// carriage return.
    Space,
    /// Anything but white space.
    Ink,
    /// A line feed.
    Newline,
    /// The stroke `/`.
    Slash,
    /// The point `.`.
    Point,
    /// The letter `e` or `E`, which begins an exponent.
    Exponent,
}

/// Whether the byte `b` is white space.
pub open spec fn is_space(b: u8) -> bool {
    b == 32 || (9 <= b && b <= 13)
}

/// Whether the byte `b` is a decimal digit.
pub open spec fn is_digit(b: u8) -> bool {
    48 <= b && b <= 57
}

/// Whether the byte `b` is of the kind `class`.
pub open spec fn is_of(b: u8, class: Class) -> bool {
    match class {
        Class::Space => is_space(b),
        Class::Ink => !is_space(b),
        Class::Newline => b == 10,
        Class::Slash => b == 47,
        Class::Point => b == 46,
        Class::Exponent => b == 101 || b == 69,
    }
}

/// The first position at or after `from` that holds a byte of the kind `class`,
/// or the length of `s` if there is none.
pub open spec fn first(s: Seq<u8>, from: int, class: Class) -> int
    decreases s.len() - from,
{
    if from < 0 || from >= s.len() {
        s.len() as int
    } else if is_of(s[from], class) {
        from
    } else {
        first(s, from + 1, class)
    }
}

/// What `first` finds lies between `from` and the end, and no byte before it is
/// of the kind looked for.
pub proof fn lemma_first(s: Seq<u8>, from: int, class: Class)
    requires
        0 <= from <= s.len(),
    ensures
        from <= first(s, from, class) <= s.len(),
        first(s, from, class) < s.len() ==> is_of(s[first(s, from, class)], class),
        forall|i: int| from <= i < first(s, from, class) ==> !is_of(#[trigger] s[i], class),
    decreases s.len() - from,
{
    if from < s.len() && !is_of(s[from], class) {
        lemma_first(s, from + 1, class);
    }
}

/// Whether the byte `b` is of the kind `class`.
fn belongs(b: u8, class: Class) -> (yes: bool)
    ensures
        yes == is_of(b, class),
{
    let space = b == 32 || (9 <= b && b <= 13);
    match class {
        Class::Space => space,
        Class::Ink => !space,
        Class::Newline => b == 10,
        Class::Slash => b == 47,
        Class::Point => b == 46,
        Class::Exponent => b == 101 || b == 69,
    }
}

/// The first position at or after `from` that holds a byte of the kind `class`,
/// or the length of `text` if there is none.
pub fn seek(text: &[u8], from: usize, class: Class) -> (at: usize)
    requires
        from <= text@.len(),
    ensures
        at == first(text@, from as int, class),
        from <= at <= text@.len(),
{
    let mut at = from;
    while at < text.len() && !belongs(text[at], class)
        invariant
            from <= at <= text@.len(),
            first(text@, from as int, class) == first(text@, at as int, class),
        decreases text@.len() - at,
    {
        at = at + 1;
    }
    at
}

/// The number that the decimal digits `s` spell.
pub open spec fn decimal(s: Seq<u8>) -> nat
    decreases s.len(),
{
    if s.len() == 0 {
        0
    } else {
        decimal(s.drop_last()) * 10 + (s.last() - 48) as nat
    }
}

/// Whether every byte of `s` is a decimal digit.
pub open spec fn all_digits(s: Seq<u8>) -> bool {
    forall|i: int| 0 <= i < s.len() ==> is_digit(#[trigger] s[i])
}

/// The vertex number that the word `word` spells: one or more decimal digits,
/// with or without a `+` before them, that spell a number which `usize` can hold.
pub open spec fn index_value(word: Seq<u8>) -> Option<usize> {
    let body = if word.len() > 0 && word[0] == 43 {
        word.skip(1)
    } else {
        word
    };
    if body.len() >= 1 && all_digits(body) && decimal(body) <= usize::MAX {
        Some(decimal(body) as usize)
    } else {
        None
    }
}

/// Digits that follow do not make a number smaller.
pub proof fn lemma_decimal_grows(s: Seq<u8>, n: int)
    requires
        all_digits(s),
        0 <= n <= s.len(),
    ensures
        decimal(s.take(n)) <= decimal(s),
    decreases s.len() - n,
{
    if n < s.len() {
        lemma_decimal_grows(s, n + 1);
        assert(s.take(n + 1).drop_last() =~= s.take(n));
        assert(is_digit(s[n]));
    } else {
        assert(s.take(n) =~= s);
    }
}

/// The vertex number that `word` spells, if it spells one.
pub fn parse_index(word: &[u8]) -> (value: Option<usize>)
    ensures
        value == index_value(word@),
{
    let start: usize = if word.len() > 0 && word[0] == 43 {
        1
    } else {
        0
    };
    let ghost body = word@.skip(start as int);
    assert(word@.skip(0) =~= word@);
    if start == word.len() {
        return None;
    }
    let mut value: usize = 0;
    let mut i = start;
    assert(body.take(0) =~= Seq::<u8>::empty());
    while i < word.len()
        invariant
            start <= i <= word@.len(),
            body == word@.skip(start as int),
            body == if word@.len() > 0 && word@[0] == 43 {
                word@.skip(1)
            } else {
                word@
            },
            all_digits(body.take(i - start)),
            value == decimal(body.take(i - start)),
        decreases word@.len() - i,
    {
        let b = word[i];
        assert(b == body[i - start]);
        if !(48 <= b && b <= 57) {
            return None;
        }
        let d = (b - 48) as usize;
        proof {
            assert(body.take(i + 1 - start).drop_last() =~= body.take(i - start));
            assert(all_digits(body.take(i + 1 - start)));
        }
        assert(decimal(body.take(i + 1 - start)) == value * 10 + d);
        if value > (usize::MAX - d) / 10 {
            proof {
                if all_digits(body) {
                    lemma_decimal_grows(body, i + 1 - start);
                }
            }
            return None;
        }
        value = value * 10 + d;
        i = i + 1;
    }
    assert(body.take(i - start) =~= body);
    Some(value)
}

/// Ten to the power of `n`.
pub open spec fn pow10(n: nat) -> nat
    decreases n,
{
    if n == 0 {
        1
    } else {
        10 * pow10((n - 1) as nat)
    }
}

/// The largest count of digits that a number may have.
pub const MAX_DIGITS: usize = 18;

/// The digits of a number without its sign: those before the point, and those
/// after it.
pub open spec fn digits_of(body: Seq<u8>) -> (Seq<u8>, Seq<u8>) {
    let point = first(body, 0, Class::Point);
    if point < body.len() {
        (body.take(point), body.skip(point + 1))
    } else {
        (body, Seq::empty())
    }
}

/// The number that the digits of a mantissa spell, the point left out, and the
/// count of the digits after the point. A mantissa is digits with at most one
/// point before, among or after them: at least one digit, at most
/// [`MAX_DIGITS`].
pub open spec fn mantissa_value(body: Seq<u8>) -> Option<(nat, nat)> {
    let (before, after) = digits_of(body);
    let digits = before + after;
    if all_digits(digits) && 1 <= digits.len() <= MAX_DIGITS {
        Some((decimal(digits), after.len()))
    } else {
        None
    }
}

/// The number that an exponent spells: a sign or none, then at least one digit
/// and at most [`MAX_DIGITS`].
pub open spec fn exponent_value(part: Seq<u8>) -> Option<int> {
    let signed = part.len() > 0 && (part[0] == 43 || part[0] == 45);
    let digits = if signed {
        part.skip(1)
    } else {
        part
    };
    if all_digits(digits) && 1 <= digits.len() <= MAX_DIGITS {
        if part[0] == 45 {
            Some(-(decimal(digits) as int))
        } else {
            Some(decimal(digits) as int)
        }
    } else {
        None
    }
}

/// The fixed-point number `n` times ten to the power of `shift`. What lies
/// beyond the last binary place is cut off.
pub open spec fn shifted(n: nat, shift: int) -> int {
    if shift >= 0 {
        n * pow10(shift as nat) * ONE
    } else {
        (n * ONE) / (pow10((-shift) as nat) as int)
    }
}

/// The fixed-point number that the word `word` spells: a sign or none, a
/// mantissa, and an exponent or none after the letter `e` or `E`. The value is
/// the mantissa times ten to the power of the exponent; what lies beyond the last
/// binary place is cut off. A number too large for `i64` is no number.
pub open spec fn number_value(word: Seq<u8>) -> Option<i64> {
    let signed = word.len() > 0 && (word[0] == 43 || word[0] == 45);
    let body = if signed {
        word.skip(1)
    } else {
        word
    };
    let mark = first(body, 0, Class::Exponent);
    let exponent = if mark < body.len() {
        exponent_value(body.skip(mark + 1))
    } else {
        Some(0int)
    };
    match (mantissa_value(body.take(mark)), exponent) {
        (Some((n, places)), Some(e)) => {
            let magnitude = shifted(n, e - places);
            if magnitude > i64::MAX {
                None
            } else if word[0] == 45 {
                Some((-magnitude) as i64)
            } else {
                Some(magnitude as i64)
            }
        },
        _ => None,
    }
}

/// The position that `first` finds is the one before which no byte is of the
/// kind looked for and at which one is, or the text ends.
pub proof fn lemma_first_is(s: Seq<u8>, from: int, class: Class, at: int)
    requires
        0 <= from <= at <= s.len(),
        forall|i: int| from <= i < at ==> !is_of(#[trigger] s[i], class),
        at < s.len() ==> is_of(s[at], class),
    ensures
        first(s, from, class) == at,
    decreases at - from,
{
    if from < at {
        lemma_first_is(s, from + 1, class, at);
    }
}

/// Digits spell a number below ten to the power of their count.
pub proof fn lemma_decimal_bounded(s: Seq<u8>)
    requires
        all_digits(s),
    ensures
        decimal(s) < pow10(s.len()),
    decreases s.len(),
{
    if s.len() > 0 {
        lemma_decimal_bounded(s.drop_last());
        assert(is_digit(s.last()));
    }
}

/// Ten to a power grows with the power, and to the power of eighteen it is a
/// one with eighteen noughts, and so on.
pub proof fn lemma_pow10(n: nat, m: nat)
    requires
        n <= m,
    ensures
        1 <= pow10(n) <= pow10(m),
        pow10(18) == 1_000_000_000_000_000_000,
        pow10(19) == 10_000_000_000_000_000_000,
        pow10(28) == 10_000_000_000_000_000_000_000_000_000,
        pow10(29) == 100_000_000_000_000_000_000_000_000_000,
    decreases m,
{
    if n < m {
        lemma_pow10(n, (m - 1) as nat);
    } else if n > 0 {
        lemma_pow10((n - 1) as nat, (m - 1) as nat);
    }
    assert(pow10(18) == 1_000_000_000_000_000_000) by {
        reveal_with_fuel(pow10, 19);
    }
    assert(pow10(19) == 10 * pow10(18));
    assert(pow10(28) == 10_000_000_000 * pow10(18)) by {
        reveal_with_fuel(pow10, 11);
    }
    assert(pow10(29) == 10 * pow10(28));
}

/// The digits of two runs, one after the other, spell the number of the first,
/// moved left by the length of the second, plus the number of the second.
pub proof fn lemma_decimal_joined(a: Seq<u8>, b: Seq<u8>)
    ensures
        decimal(a + b) == decimal(a) * pow10(b.len()) + decimal(b),
    decreases b.len(),
{
    if b.len() == 0 {
        assert(a + b =~= a);
        assert(decimal(a) * 1 == decimal(a)) by (nonlinear_arith);
    } else {
        lemma_decimal_joined(a, b.drop_last());
        assert((a + b).drop_last() =~= a + b.drop_last());
        assert((a + b).last() == b.last());
        let x = decimal(a) as int;
        let y = decimal(b.drop_last()) as int;
        let small = pow10((b.len() - 1) as nat) as int;
        let big = pow10(b.len()) as int;
        assert((x * small + y) * 10 == x * big + y * 10) by (nonlinear_arith)
            requires
                big == 10 * small,
        ;
        assert(decimal(a + b.drop_last()) == x * small + y);
        assert(decimal(a + b) == decimal(a + b.drop_last()) * 10 + (b.last() - 48) as nat);
        assert(decimal(b) == y * 10 + (b.last() - 48) as nat);
    }
}

/// The number that the digits `run` spell, if they are digits and no more than
/// [`MAX_DIGITS`].
fn read_digits(run: &[u8]) -> (value: Option<u64>)
    ensures
        value == if all_digits(run@) && run@.len() <= MAX_DIGITS {
            Some(decimal(run@) as u64)
        } else {
            None
        },
        value is Some ==> decimal(run@) < pow10(run@.len()) && value->Some_0 == decimal(run@),
{
    if run.len() > MAX_DIGITS {
        return None;
    }
    let mut number: u64 = 0;
    let mut i: usize = 0;
    proof {
        lemma_pow10(0, 18);
        assert(run@.take(0) =~= Seq::<u8>::empty());
    }
    while i < run.len()
        invariant
            0 <= i <= run@.len() <= MAX_DIGITS,
            all_digits(run@.take(i as int)),
            number == decimal(run@.take(i as int)),
            pow10(18) == 1_000_000_000_000_000_000,
        decreases run@.len() - i,
    {
        let b = run[i];
        if !(48 <= b && b <= 57) {
            return None;
        }
        proof {
            lemma_decimal_bounded(run@.take(i as int));
            lemma_pow10(i as nat, 17);
            assert(run@.take(i + 1).drop_last() =~= run@.take(i as int));
        }
        number = number * 10 + (b - 48) as u64;
        i = i + 1;
    }
    proof {
        assert(run@.take(i as int) =~= run@);
        lemma_decimal_bounded(run@);
    }
    Some(number)
}

/// The largest power of ten that is asked for.
const MAX_POWER: usize = 28;

/// Ten to the power of `n`.
fn power_of_ten(n: usize) -> (p: u128)
    requires
        n <= MAX_POWER,
    ensures
        p == pow10(n as nat),
        1 <= p <= 10_000_000_000_000_000_000_000_000_000,
{
    let mut p: u128 = 1;
    let mut i: usize = 0;
    proof {
        lemma_pow10(0, 28);
    }
    while i < n
        invariant
            0 <= i <= n <= MAX_POWER,
            p == pow10(i as nat),
            pow10(28) == 10_000_000_000_000_000_000_000_000_000,
        decreases n - i,
    {
        proof {
            lemma_pow10(i as nat, 27);
            lemma_pow10(27, 28);
            assert(pow10(28) == 10 * pow10(27));
        }
        p = p * 10;
        i = i + 1;
    }
    proof {
        lemma_pow10(n as nat, 28);
    }
    p
}

/// The number that the digits of the mantissa `body` spell and the count of the
/// digits after the point, if it is a mantissa.
fn read_mantissa(body: &[u8]) -> (value: Option<(u64, usize)>)
    ensures
        match value {
            Some((n, places)) => mantissa_value(body@) == Some((n as nat, places as nat)) && n
                < 1_000_000_000_000_000_000 && places <= MAX_DIGITS,
            None => mantissa_value(body@) is None,
        },
{
    let point = seek(body, 0, Class::Point);
    let before = if point < body.len() {
        slice_subrange(body, 0, point)
    } else {
        body
    };
    let after = if point < body.len() {
        slice_subrange(body, point + 1, body.len())
    } else {
        slice_subrange(body, body.len(), body.len())
    };
    proof {
        assert(body@.subrange(0, point as int) =~= body@.take(point as int));
        if point < body@.len() {
            assert(body@.subrange(point + 1, body@.len() as int) =~= body@.skip(point + 1));
        } else {
            assert(body@.subrange(body@.len() as int, body@.len() as int) =~= Seq::<u8>::empty());
        }
        assert(digits_of(body@) == (before@, after@));
    }
    let ghost digits = before@ + after@;
    proof {
        assert(all_digits(digits) <==> all_digits(before@) && all_digits(after@)) by {
            if all_digits(digits) {
                assert forall|i: int| 0 <= i < before@.len() implies is_digit(
                    #[trigger] before@[i],
                ) by {
                    assert(digits[i] == before@[i]);
                }
                assert forall|i: int| 0 <= i < after@.len() implies is_digit(
                    #[trigger] after@[i],
                ) by {
                    assert(digits[before@.len() + i] == after@[i]);
                }
            }
        }
        lemma_decimal_joined(before@, after@);
    }
    let whole_part = match read_digits(before) {
        Some(n) => n,
        None => {
            return None;
        },
    };
    let fraction = match read_digits(after) {
        Some(n) => n,
        None => {
            return None;
        },
    };
    let count = before.len() + after.len();
    if count == 0 || count > MAX_DIGITS {
        return None;
    }
    let scale = power_of_ten(after.len());
    proof {
        lemma_decimal_bounded(digits);
        lemma_pow10(count as nat, 18);
        lemma_pow10(after@.len(), 18);
        assert(whole_part * scale == decimal(before@) * pow10(after@.len())) by (nonlinear_arith)
            requires
                whole_part == decimal(before@),
                scale == pow10(after@.len()),
        ;
        assert(0 <= whole_part * scale);
        assert(whole_part * scale + fraction == decimal(digits));
    }
    let number: u128 = (whole_part as u128) * scale + (fraction as u128);
    Some((number as u64, after.len()))
}

/// The number that the exponent `part` spells, if it is an exponent.
fn read_exponent(part: &[u8]) -> (value: Option<i64>)
    ensures
        match value {
            Some(e) => exponent_value(part@) == Some(e as int) && -1_000_000_000_000_000_000 < e
                < 1_000_000_000_000_000_000,
            None => exponent_value(part@) is None,
        },
{
    let signed = part.len() > 0 && (part[0] == 43 || part[0] == 45);
    let negative = part.len() > 0 && part[0] == 45;
    let start: usize = if signed {
        1
    } else {
        0
    };
    let digits = slice_subrange(part, start, part.len());
    proof {
        assert(part@.subrange(0, part@.len() as int) =~= part@);
        if part@.len() >= 1 {
            assert(part@.subrange(1, part@.len() as int) =~= part@.skip(1));
        }
        lemma_pow10(digits@.len(), if digits@.len() <= 18 {
            18
        } else {
            digits@.len()
        });
    }
    if digits.len() == 0 {
        return None;
    }
    match read_digits(digits) {
        Some(n) => {
            if negative {
                Some(-(n as i64))
            } else {
                Some(n as i64)
            }
        },
        None => None,
    }
}

/// The fixed-point number `n` times ten to the power of `shift`, if `i64` can
/// hold it.
fn shift_number(n: u64, shift: i64) -> (value: Option<i64>)
    requires
        n < 1_000_000_000_000_000_000,
        -2_000_000_000_000_000_000 < shift < 2_000_000_000_000_000_000,
    ensures
        value == if shifted(n as nat, shift as int) > i64::MAX {
            None
        } else {
            Some(shifted(n as nat, shift as int) as i64)
        },
        shifted(n as nat, shift as int) >= 0,
{
    proof {
        lemma_pow10(0, 28);
        if shift >= 0 {
            lemma_pow10(0, shift as nat);
            assert(n * pow10(shift as nat) * ONE >= 0) by (nonlinear_arith)
                requires
                    n >= 0,
                    pow10(shift as nat) >= 1,
                    ONE > 0,
            ;
        } else {
            lemma_pow10(0, (-shift) as nat);
            let d = pow10((-shift) as nat) as int;
            assert((n * ONE) / d >= 0) by (nonlinear_arith)
                requires
                    n * ONE >= 0,
                    d >= 1,
            ;
        }
    }
    if shift >= 0 {
        if n == 0 {
            proof {
                assert(0 * pow10(shift as nat) * ONE == 0) by (nonlinear_arith);
            }
            return Some(0);
        }
        if shift > 18 {
            proof {
                lemma_pow10(19, shift as nat);
                assert(n * pow10(shift as nat) * ONE > i64::MAX) by (nonlinear_arith)
                    requires
                        n >= 1,
                        pow10(shift as nat) >= 10_000_000_000_000_000_000,
                        ONE == 0x1_0000_0000,
                ;
            }
            return None;
        }
        let power = power_of_ten(shift as usize);
        proof {
            lemma_pow10(shift as nat, 18);
            assert(n * power <= 1_000_000_000_000_000_000 * 1_000_000_000_000_000_000)
                by (nonlinear_arith)
                requires
                    0 <= n <= 1_000_000_000_000_000_000,
                    0 <= power <= 1_000_000_000_000_000_000,
            ;
        }
        let wide: u128 = (n as u128) * power;
        if wide > 0x7fff_ffff {
            proof {
                assert(wide * ONE > i64::MAX) by (nonlinear_arith)
                    requires
                        wide >= 0x8000_0000,
                        ONE == 0x1_0000_0000,
                ;
            }
            None
        } else {
            proof {
                assert(0 <= wide * ONE <= i64::MAX) by (nonlinear_arith)
                    requires
                        0 <= wide <= 0x7fff_ffff,
                        ONE == 0x1_0000_0000,
                ;
            }
            Some((wide * (ONE as u128)) as i64)
        }
    } else {
        proof {
            assert(0 <= n * ONE < 10_000_000_000_000_000_000_000_000_000) by (nonlinear_arith)
                requires
                    0 <= n < 1_000_000_000_000_000_000,
                    ONE == 0x1_0000_0000,
            ;
        }
        let top: u128 = (n as u128) * (ONE as u128);
        if shift < -28 {
            proof {
                lemma_pow10(28, (-shift) as nat);
                let d = pow10((-shift) as nat) as int;
                assert((n * ONE) / d == 0) by (nonlinear_arith)
                    requires
                        0 <= n * ONE < d,
                ;
            }
            return Some(0);
        }
        let power = power_of_ten((-shift) as usize);
        let q = top / power;
        proof {
            assert(q >= 0);
        }
        if q > i64::MAX as u128 {
            None
        } else {
            Some(q as i64)
        }
    }
}

/// The fixed-point number that `word` spells, if it spells one.
pub fn parse_number(word: &[u8]) -> (value: Option<i64>)
    ensures
        value == number_value(word@),
{
    let signed = word.len() > 0 && (word[0] == 43 || word[0] == 45);
    let negative = word.len() > 0 && word[0] == 45;
    let start: usize = if signed {
        1
    } else {
        0
    };
    let body = slice_subrange(word, start, word.len());
    proof {
        assert(word@.subrange(0, word@.len() as int) =~= word@);
        if word@.len() >= 1 {
            assert(word@.subrange(1, word@.len() as int) =~= word@.skip(1));
        }
    }
    let mark = seek(body, 0, Class::Exponent);
    proof {
        assert(body@.subrange(0, mark as int) =~= body@.take(mark as int));
        if mark < body@.len() {
            assert(body@.subrange(mark + 1, body@.len() as int) =~= body@.skip(mark + 1));
        }
    }
    let (n, places) = match read_mantissa(slice_subrange(body, 0, mark)) {
        Some(found) => found,
        None => {
            return None;
        },
    };
    let exponent: i64 = if mark < body.len() {
        match read_exponent(slice_subrange(body, mark + 1, body.len())) {
            Some(e) => e,
            None => {
                return None;
            },
        }
    } else {
        0
    };
    proof {
        let (before, after) = digits_of(body@.take(mark as int));
        assert((before + after).len() >= 1);
        assert(word@.len() >= 1);
    }
    let shift = exponent - places as i64;
    let scaled = shift_number(n, shift);
    match scaled {
        Some(magnitude) => {
            if negative {
                Some(-magnitude)
            } else {
                Some(magnitude)
            }
        },
        None => None,
    }
}

/// What a line of a mesh file gives.
#[derive(Debug, PartialEq, Eq)]
pub enum ObjLine {
    /// A vertex.
    Vertex(ObjVertex),
    /// A face.
    Face(ObjFace),
    /// Nothing: the line is empty or begins with another word than `v` or `f`.
    Other,
}

/// What is wrong with a line of a mesh file.
#[derive(Clone, Copy, Debug, PartialEq, Eq)]
pub enum LineError {
    /// The line of a vertex or a face has fewer than three words after the first.
    MissingField,
    /// One of the three words is not a number of the kind that its line takes.
    BadNumber,
}

/// A line of a mesh file that cannot be read.
#[derive(Clone, Copy, Debug, PartialEq, Eq)]
pub struct ParseError {
    /// The number of the line, counted from one.
    pub line: usize,
    /// What is wrong with it.
    pub kind: LineError,
}

/// The first word of `line` at or after `from`: where it begins and where it
/// ends. It begins at the end of the line if there is none.
pub open spec fn word_after(line: Seq<u8>, from: int) -> (int, int) {
    let begin = first(line, from, Class::Ink);
    (begin, first(line, begin, Class::Space))
}

/// The coordinate that the first word at or after `from` spells, and where the
/// word ends.
pub open spec fn number_after(line: Seq<u8>, from: int) -> Result<(i64, int), LineError> {
    let (begin, end) = word_after(line, from);
    if begin >= line.len() {
        Err(LineError::MissingField)
    } else {
        match number_value(line.subrange(begin, end)) {
            Some(n) => Ok((n, end)),
            None => Err(LineError::BadNumber),
        }
    }
}

/// The vertex number that the first word at or after `from` spells before its
/// first stroke, and where the word ends.
pub open spec fn index_after(line: Seq<u8>, from: int) -> Result<(usize, int), LineError> {
    let (begin, end) = word_after(line, from);
    let word = line.subrange(begin, end);
    if begin >= line.len() {
        Err(LineError::MissingField)
    } else {
        match index_value(word.take(first(word, 0, Class::Slash))) {
            Some(n) => Ok((n, end)),
            None => Err(LineError::BadNumber),
        }
    }
}

/// The vertex that the three words at or after `from` spell.
pub open spec fn vertex_after(line: Seq<u8>, from: int) -> Result<ObjVertex, LineError> {
    match number_after(line, from) {
        Err(e) => Err(e),
        Ok((x, after_x)) => match number_after(line, after_x) {
            Err(e) => Err(e),
            Ok((y, after_y)) => match number_after(line, after_y) {
                Err(e) => Err(e),
                Ok((z, _)) => Ok(ObjVertex([x, y, z])),
            },
        },
    }
}

/// The face that the three words at or after `from` spell.
pub open spec fn face_after(line: Seq<u8>, from: int) -> Result<ObjFace, LineError> {
    match index_after(line, from) {
        Err(e) => Err(e),
        Ok((a, after_a)) => match index_after(line, after_a) {
            Err(e) => Err(e),
            Ok((b, after_b)) => match index_after(line, after_b) {
                Err(e) => Err(e),
                Ok((c, _)) => Ok(ObjFace([a, b, c])),
            },
        },
    }
}

/// What the line `line` gives.
pub open spec fn line_meaning(line: Seq<u8>) -> Result<ObjLine, LineError> {
    let (begin, end) = word_after(line, 0);
    if end - begin == 1 && line[begin] == 118 {
        match vertex_after(line, end) {
            Ok(v) => Ok(ObjLine::Vertex(v)),
            Err(e) => Err(e),
        }
    } else if end - begin == 1 && line[begin] == 102 {
        match face_after(line, end) {
            Ok(f) => Ok(ObjLine::Face(f)),
            Err(e) => Err(e),
        }
    } else {
        Ok(ObjLine::Other)
    }
}

/// The first word of `line` at or after `from`.
fn next_word(line: &[u8], from: usize) -> (word: (usize, usize))
    requires
        from <= line@.len(),
    ensures
        (word.0 as int, word.1 as int) == word_after(line@, from as int),
        from <= word.0 <= word.1 <= line@.len(),
{
    let begin = seek(line, from, Class::Ink);
    let end = seek(line, begin, Class::Space);
    (begin, end)
}

/// The coordinate that the first word at or after `from` spells.
fn read_number(line: &[u8], from: usize) -> (result: Result<(i64, usize), LineError>)
    requires
        from <= line@.len(),
    ensures
        match result {
            Ok((n, end)) => number_after(line@, from as int) == Ok::<(i64, int), LineError>(
                (n, end as int),
            ) && end <= line@.len(),
            Err(e) => number_after(line@, from as int) == Err::<(i64, int), LineError>(e),
        },
{
    let (begin, end) = next_word(line, from);
    if begin >= line.len() {
        return Err(LineError::MissingField);
    }
    match parse_number(slice_subrange(line, begin, end)) {
        Some(n) => Ok((n, end)),
        None => Err(LineError::BadNumber),
    }
}

/// The vertex number that the first word at or after `from` spells.
fn read_index(line: &[u8], from: usize) -> (result: Result<(usize, usize), LineError>)
    requires
        from <= line@.len(),
    ensures
        match result {
            Ok((n, end)) => index_after(line@, from as int) == Ok::<(usize, int), LineError>(
                (n, end as int),
            ) && end <= line@.len(),
            Err(e) => index_after(line@, from as int) == Err::<(usize, int), LineError>(e),
        },
{
    let (begin, end) = next_word(line, from);
    if begin >= line.len() {
        return Err(LineError::MissingField);
    }
    let word = slice_subrange(line, begin, end);
    let stroke = seek(word, 0, Class::Slash);
    proof {
        assert(word@.subrange(0, stroke as int) =~= word@.take(stroke as int));
    }
    match parse_index(slice_subrange(word, 0, stroke)) {
        Some(n) => Ok((n, end)),
        None => Err(LineError::BadNumber),
    }
}

/// What the line `line` gives, or what is wrong with it.
pub fn parse_line(line: &[u8]) -> (result: Result<ObjLine, LineError>)
    ensures
        result == line_meaning(line@),
{
    let (begin, end) = next_word(line, 0);
    if end - begin == 1 && line[begin] == 118 {
        let (x, after_x) = match read_number(line, end) {
            Ok(found) => found,
            Err(e) => {
                return Err(e);
            },
        };
        let (y, after_y) = match read_number(line, after_x) {
            Ok(found) => found,
            Err(e) => {
                return Err(e);
            },
        };
        let (z, _) = match read_number(line, after_y) {
            Ok(found) => found,
            Err(e) => {
                return Err(e);
            },
        };
        Ok(ObjLine::Vertex(ObjVertex([x, y, z])))
    } else if end - begin == 1 && line[begin] == 102 {
        let (a, after_a) = match read_index(line, end) {
            Ok(found) => found,
            Err(e) => {
                return Err(e);
            },
        };
        let (b, after_b) = match read_index(line, after_a) {
            Ok(found) => found,
            Err(e) => {
                return Err(e);
            },
        };
        let (c, _) = match read_index(line, after_b) {
            Ok(found) => found,
            Err(e) => {
                return Err(e);
            },
        };
        Ok(ObjLine::Face(ObjFace([a, b, c])))
    } else {
        Ok(ObjLine::Other)
    }
}

/// What a mesh file gives: its vertices and its faces, each in the order of the
/// text.
pub struct Mesh {
    pub vertices: Seq<ObjVertex>,
    pub faces: Seq<ObjFace>,
}

/// What the lines of `text` from the position `from` on add to `mesh`. The line
/// at `from` has the number `number`. The first line that cannot be read ends the
/// reading: the result is then the number of that line and what is wrong with it.
pub open spec fn read_from(text: Seq<u8>, from: int, number: int, mesh: Mesh) -> Result<
    Mesh,
    (int, LineError),
>
    decreases text.len() + 1 - from,
{
    if from < 0 || from >= text.len() {
        Ok(mesh)
    } else {
        proof {
            lemma_first(text, from, Class::Newline);
        }
        let end = first(text, from, Class::Newline);
        match line_meaning(text.subrange(from, end)) {
            Err(kind) => Err((number, kind)),
            Ok(ObjLine::Vertex(v)) => read_from(
                text,
                end + 1,
                number + 1,
                Mesh { vertices: mesh.vertices.push(v), faces: mesh.faces },
            ),
            Ok(ObjLine::Face(f)) => read_from(
                text,
                end + 1,
                number + 1,
                Mesh { vertices: mesh.vertices, faces: mesh.faces.push(f) },
            ),
            Ok(ObjLine::Other) => read_from(text, end + 1, number + 1, mesh),
        }
    }
}

/// What the mesh file `text` gives.
pub open spec fn mesh_of(text: Seq<u8>) -> Result<Mesh, (int, LineError)> {
    read_from(text, 0, 1, Mesh { vertices: Seq::empty(), faces: Seq::empty() })
}

/// Reads a mesh file: the vertices and the faces of its lines, each in the order
/// of the text, or the first line that cannot be read.
pub fn parse_obj(text: &[u8]) -> (result: Result<(VecDeque<ObjVertex>, VecDeque<ObjFace>), ParseError>)
    ensures
        match result {
            Ok((vertices, faces)) => mesh_of(text@) == Ok::<Mesh, (int, LineError)>(
                Mesh { vertices: vertices@, faces: faces@ },
            ),
            Err(e) => mesh_of(text@) == Err::<Mesh, (int, LineError)>((e.line as int, e.kind)),
        },
{
    let mut vertices = VecDeque::<ObjVertex>::new();
    let mut faces = VecDeque::<ObjFace>::new();
    let mut from: usize = 0;
    let mut seen: usize = 0;
    while from < text.len()
        invariant
            0 <= seen <= from <= text@.len(),
            mesh_of(text@) == read_from(
                text@,
                from as int,
                seen + 1,
                Mesh { vertices: vertices@, faces: faces@ },
            ),
        decreases text@.len() - from,
    {
        let end = seek(text, from, Class::Newline);
        match parse_line(slice_subrange(text, from, end)) {
            Err(kind) => {
                return Err(ParseError { line: seen + 1, kind });
            },
            Ok(ObjLine::Vertex(v)) => {
                vertices.push_back(v);
            },
            Ok(ObjLine::Face(f)) => {
                faces.push_back(f);
            },
            Ok(ObjLine::Other) => {},
        }
        if end < text.len() {
            from = end + 1;
            seen = seen + 1;
        } else {
            proof {
                let mesh = Mesh { vertices: vertices@, faces: faces@ };
                assert(read_from(text@, end + 1, seen + 2, mesh) == Ok::<Mesh, (int, LineError)>(mesh));
                assert(read_from(text@, end as int, seen + 1, mesh) == Ok::<Mesh, (int, LineError)>(
                    mesh,
                ));
            }
            from = end;
        }
    }
    Ok((vertices, faces))
}

} // verus!
