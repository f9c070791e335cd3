//! Fixed-point decimal numbers: retention amounts and emotion intensities.

use crate::text::{chars_of, find_char, first_index_of};
use vstd::prelude::*;

verus! {

/// How many micro-units make up the number one.
pub const MICROS_PER_UNIT: i64 = 1_000_000;

/// A decimal number with six fractional digits, held as a count of
/// millionths: `Decimal { micros: 250_000 }` is 0.25 and
/// `Decimal { micros: -100_000 }` is -0.1.
#[derive(Clone, Copy, Debug, PartialEq, Eq, Structural)]
pub struct Decimal {
    pub micros: i64,
}

/// `floor(count * micros / 1_000_000)`: the whole number of items that the
/// fraction `micros / 1_000_000` of `count` items amounts to.
pub open spec fn portion(count: nat, micros: int) -> int {
    (count * micros) / (MICROS_PER_UNIT as int)
}

/// A portion of a fraction in `[0, 1]` never exceeds the whole, is nothing
/// for the fraction zero and everything for the fraction one.
pub proof fn lemma_portion_bounds(count: nat, micros: int)
    requires
        0 <= micros <= MICROS_PER_UNIT,
    ensures
        0 <= portion(count, micros) <= count,
        portion(count, 0) == 0,
        portion(count, MICROS_PER_UNIT as int) == count,
{
    assert(0 <= count * micros <= count * 1_000_000) by (nonlinear_arith)
        requires
            0 <= micros <= 1_000_000,
            0 <= count,
    ;
}

impl Decimal {
    /// The number lies in the closed interval from zero to one.
    pub open spec fn is_fraction(self) -> bool {
        0 <= self.micros <= MICROS_PER_UNIT
    }

    pub fn from_micros(micros: i64) -> (d: Decimal)
        ensures
            d.micros == micros,
    {
        Decimal { micros }
    }

    pub fn zero() -> (d: Decimal)
        ensures
            d.micros == 0,
    {
        Decimal { micros: 0 }
    }

    pub fn one() -> (d: Decimal)
        ensures
            d.micros == MICROS_PER_UNIT,
    {
        Decimal { micros: MICROS_PER_UNIT }
    }

    pub fn in_unit_interval(&self) -> (r: bool)
        ensures
            r == self.is_fraction(),
    {
        0 <= self.micros && self.micros <= MICROS_PER_UNIT
    }

    /// `self` is strictly greater than `other`.
    pub fn exceeds(&self, other: &Decimal) -> (r: bool)
        ensures
            r == (self.micros > other.micros),
    {
        self.micros > other.micros
    }

    /// The whole number of items that this fraction of `count` items amounts
    /// to, rounded down.
    pub fn portion_of(&self, count: usize) -> (kept: usize)
        requires
            self.is_fraction(),
        ensures
            kept == portion(count as nat, self.micros as int),
            kept <= count,
    {
        proof {
            assert(0 <= (count as nat) * (self.micros as int) <= (count as nat) * 1_000_000)
                by (nonlinear_arith)
                requires
                    0 <= self.micros <= 1_000_000,
            ;
        }
        let wide: u128 = (count as u128) * (self.micros as u128);
        (wide / 1_000_000u128) as usize
    }
}

/// The largest whole part that a decimal literal may have.
pub const MAX_WHOLE: u64 = 9_000_000_000_000;

/// Why a text was not read as a decimal number.
#[derive(Clone, Copy, Debug, PartialEq, Eq, Structural)]
pub enum DecimalError {
    /// The text is not a decimal literal.
    Malformed,
    /// The text is a decimal literal whose whole part exceeds `MAX_WHOLE`.
    TooLarge,
}

/// `c` is one of the digits `0` to `9`.
pub open spec fn is_digit(c: char) -> bool {
    0x30 <= c as u32 <= 0x39
}

/// What the digit `c` counts.
pub open spec fn digit_value(c: char) -> nat {
    (c as u32 - 0x30) as nat
}

pub open spec fn all_digits(s: Seq<char>) -> bool {
    forall|i: int| 0 <= i < s.len() ==> is_digit(#[trigger] s[i])
}

/// The number that the digits of `s` write in base ten; zero for no digits.
pub open spec fn digits_value(s: Seq<char>) -> nat
    decreases s.len(),
{
    if s.len() == 0 {
        0
    } else {
        digits_value(s.drop_last()) * 10 + digit_value(s.last())
    }
}

/// The first six digits of a fractional part, with `0` in the place of
/// each digit that is missing.
pub open spec fn six_places(fraction: Seq<char>) -> Seq<char> {
    Seq::new(
        6,
        |i: int|
            if i < fraction.len() {
                fraction[i]
            } else {
                '0'
            },
    )
}

/// The parts of a decimal literal: an optional sign, the digits of the whole
/// part and, behind a point, the digits of the fractional part.
pub struct Literal {
    pub negative: bool,
    pub whole: Seq<char>,
    pub has_point: bool,
    pub fraction: Seq<char>,
}

/// `s` taken apart at its sign and at its first point.
pub open spec fn literal_of(s: Seq<char>) -> Literal {
    let signed = s.len() > 0 && (s[0] == '-' || s[0] == '+');
    let body = if signed {
        s.drop_first()
    } else {
        s
    };
    let point = first_index_of(body, '.') as int;
    Literal {
        negative: s.len() > 0 && s[0] == '-',
        whole: body.take(point),
        has_point: point < body.len(),
        fraction: if point < body.len() {
            body.skip(point + 1)
        } else {
            Seq::empty()
        },
    }
}

impl Literal {
    /// There is at least one digit in front of the point, at least one
    /// behind a point that is there, and nothing but digits on either side.
    pub open spec fn well_formed(self) -> bool {
        &&& self.whole.len() > 0
        &&& all_digits(self.whole)
        &&& all_digits(self.fraction)
        &&& self.has_point ==> self.fraction.len() > 0
    }

    /// The number that the literal writes, in millionths. Fractional digits
    /// behind the sixth are left out.
    pub open spec fn micros(self) -> int {
        let magnitude = (digits_value(self.whole) * 1_000_000 + digits_value(
            six_places(self.fraction),
        )) as int;
        if self.negative {
            -magnitude
        } else {
            magnitude
        }
    }
}

/// What a text reads as: the number that it writes as a decimal literal,
/// `Malformed` where it is none, `TooLarge` where its whole part is too
/// large to hold.
pub open spec fn parsed_decimal(s: Seq<char>) -> Result<Decimal, DecimalError> {
    let literal = literal_of(s);
    if !literal.well_formed() {
        Err(DecimalError::Malformed)
    } else if digits_value(literal.whole) > MAX_WHOLE {
        Err(DecimalError::TooLarge)
    } else {
        Ok(Decimal { micros: literal.micros() as i64 })
    }
}

/// Six digits write a number below one million.
proof fn lemma_digits_value_bound(s: Seq<char>)
    requires
        all_digits(s),
    ensures
        s.len() == 0 ==> digits_value(s) == 0,
        s.len() == 1 ==> digits_value(s) < 10,
        s.len() == 2 ==> digits_value(s) < 100,
        s.len() == 3 ==> digits_value(s) < 1_000,
        s.len() == 4 ==> digits_value(s) < 10_000,
        s.len() == 5 ==> digits_value(s) < 100_000,
        s.len() == 6 ==> digits_value(s) < 1_000_000,
    decreases s.len(),
{
    if s.len() > 0 {
        assert(is_digit(s.last()));
        assert(all_digits(s.drop_last())) by {
            assert forall|i: int| 0 <= i < s.drop_last().len() implies is_digit(
                #[trigger] s.drop_last()[i],
            ) by {
                assert(s.drop_last()[i] == s[i]);
            }
        }
        lemma_digits_value_bound(s.drop_last());
    }
}

fn digit_of(c: char) -> (d: Option<u64>)
    ensures
        match d {
            Some(v) => is_digit(c) && v == digit_value(c),
            None => !is_digit(c),
        },
{
    let code: u32 = c as u32;
    if 0x30 <= code && code <= 0x39 {
        Some((code - 0x30) as u64)
    } else {
        None
    }
}

/// Reads the digits from `from` up to `to`. `None`: one of them is no
/// digit. Else the number that they write, or `MAX_WHOLE + 1` where they
/// write a larger one.
fn read_whole(chars: &Vec<char>, from: usize, to: usize) -> (r: Option<u64>)
    requires
        from <= to <= chars.len(),
    ensures
        match r {
            Some(v) => {
                &&& all_digits(chars@.subrange(from as int, to as int))
                &&& v <= MAX_WHOLE + 1
                &&& v <= MAX_WHOLE ==> v == digits_value(chars@.subrange(from as int, to as int))
                &&& v > MAX_WHOLE ==> digits_value(chars@.subrange(from as int, to as int))
                    > MAX_WHOLE
            },
            None => !all_digits(chars@.subrange(from as int, to as int)),
        },
{
    let ghost digits = chars@.subrange(from as int, to as int);
    let mut value: u64 = 0;
    let mut at: usize = from;
    while at < to
        invariant
            from <= at <= to <= chars.len(),
            digits == chars@.subrange(from as int, to as int),
            all_digits(digits.take(at - from)),
            value <= MAX_WHOLE + 1,
            value <= MAX_WHOLE ==> value == digits_value(digits.take(at - from)),
            value > MAX_WHOLE ==> digits_value(digits.take(at - from)) > MAX_WHOLE,
        decreases to - at,
    {
        let ghost read = digits.take(at - from);
        let ghost next = digits.take(at - from + 1);
        proof {
            assert(next.drop_last() == read);
            assert(next.last() == chars@[at as int]);
        }
        match digit_of(chars[at]) {
            None => {
                assert(!is_digit(digits[at - from]));
                return None;
            },
            Some(d) => {
                if value <= MAX_WHOLE {
                    value = value * 10 + d;
                    if value > MAX_WHOLE {
                        value = MAX_WHOLE + 1;
                    }
                }
                assert forall|i: int| 0 <= i < next.len() implies is_digit(#[trigger] next[i]) by {
                    if i < read.len() {
                        assert(next[i] == read[i]);
                    }
                }
            },
        }
        at += 1;
    }
    proof {
        assert(digits.take(to - from) == digits);
    }
    Some(value)
}

/// Reads the fractional digits from `from` up to `to`. `None`: one of them
/// is no digit. Else the millionths that the first six of them write.
fn read_fraction(chars: &Vec<char>, from: usize, to: usize) -> (r: Option<u64>)
    requires
        from <= to <= chars.len(),
    ensures
        match r {
            Some(v) => {
                &&& all_digits(chars@.subrange(from as int, to as int))
                &&& v == digits_value(six_places(chars@.subrange(from as int, to as int)))
                &&& v < 1_000_000
            },
            None => !all_digits(chars@.subrange(from as int, to as int)),
        },
{
    let ghost digits = chars@.subrange(from as int, to as int);
    let ghost places = six_places(digits);
    let mut at: usize = from;
    while at < to
        invariant
            from <= at <= to <= chars.len(),
            digits == chars@.subrange(from as int, to as int),
            all_digits(digits.take(at - from)),
        decreases to - at,
    {
        let ghost read = digits.take(at - from);
        let ghost next = digits.take(at - from + 1);
        if digit_of(chars[at]).is_none() {
            assert(!is_digit(digits[at - from]));
            return None;
        }
        proof {
            assert forall|i: int| 0 <= i < next.len() implies is_digit(#[trigger] next[i]) by {
                if i < read.len() {
                    assert(next[i] == read[i]);
                }
            }
        }
        at += 1;
    }
    proof {
        assert(digits.take(to - from) == digits);
        assert forall|i: int| 0 <= i < places.len() implies is_digit(#[trigger] places[i]) by {
            if i < digits.len() {
                assert(is_digit(digits[i]));
            }
        }
    }
    let mut value: u64 = 0;
    let mut place: usize = 0;
    while place < 6
        invariant
            place <= 6,
            from <= to <= chars.len(),
            digits == chars@.subrange(from as int, to as int),
            places == six_places(digits),
            all_digits(digits),
            all_digits(places),
            all_digits(places.take(place as int)),
            value == digits_value(places.take(place as int)),
        decreases 6 - place,
    {
        let ghost read = places.take(place as int);
        let ghost next = places.take(place + 1);
        proof {
            assert(next.drop_last() == read);
            assert(next.last() == places[place as int]);
            lemma_digits_value_bound(read);
            assert forall|i: int| 0 <= i < next.len() implies is_digit(#[trigger] next[i]) by {
                assert(next[i] == places[i]);
            }
        }
        let digit: u64 = if place < to - from {
            assert(digits[place as int] == chars@[from + place]);
            match digit_of(chars[from + place]) {
                Some(d) => d,
                None => 0,
            }
        } else {
            0
        };
        value = value * 10 + digit;
        place += 1;
    }
    proof {
        assert(places.take(6) == places);
        lemma_digits_value_bound(places);
    }
    Some(value)
}

/// Reads the characters from `from` up to `to` as a decimal literal.
pub fn parse_decimal(chars: &Vec<char>, from: usize, to: usize) -> (r: Result<
    Decimal,
    DecimalError,
>)
    requires
        from <= to <= chars.len(),
    ensures
        r == parsed_decimal(chars@.subrange(from as int, to as int)),
{
    let ghost s = chars@.subrange(from as int, to as int);
    let ghost literal = literal_of(s);
    let mut start: usize = from;
    let mut negative = false;
    if from < to && (chars[from] == '-' || chars[from] == '+') {
        negative = chars[from] == '-';
        start = from + 1;
    }
    let ghost body = chars@.subrange(start as int, to as int);
    let point = find_char(chars, start, to, '.');
    proof {
        if from < to {
            assert(s[0] == chars@[from as int]);
        }
        if start > from {
            assert(s.drop_first() =~= body);
        } else {
            assert(s =~= body);
        }
        assert(literal.whole =~= chars@.subrange(start as int, point as int));
        if point < to {
            assert(literal.fraction =~= chars@.subrange(point + 1, to as int));
        }
    }
    if point == start {
        return Err(DecimalError::Malformed);
    }
    let whole = match read_whole(chars, start, point) {
        Some(v) => v,
        None => {
            return Err(DecimalError::Malformed);
        },
    };
    let fraction: u64 = if point < to {
        if point + 1 == to {
            return Err(DecimalError::Malformed);
        }
        match read_fraction(chars, point + 1, to) {
            Some(v) => v,
            None => {
                return Err(DecimalError::Malformed);
            },
        }
    } else {
        proof {
            assert(six_places(literal.fraction).len() == 6);
            assert forall|i: int| 0 <= i < 6 implies is_digit(
                #[trigger] six_places(literal.fraction)[i],
            ) by {}
            lemma_zero_places(six_places(literal.fraction));
        }
        0
    };
    if whole > MAX_WHOLE {
        return Err(DecimalError::TooLarge);
    }
    let magnitude: u64 = whole * 1_000_000 + fraction;
    if negative {
        Ok(Decimal { micros: -(magnitude as i64) })
    } else {
        Ok(Decimal { micros: magnitude as i64 })
    }
}

/// Digits that are all `0` write zero.
proof fn lemma_zero_places(s: Seq<char>)
    requires
        forall|i: int| 0 <= i < s.len() ==> #[trigger] s[i] == '0',
    ensures
        digits_value(s) == 0,
    decreases s.len(),
{
    if s.len() > 0 {
        assert(s.last() == '0');
        assert forall|i: int| 0 <= i < s.drop_last().len() implies #[trigger] s.drop_last()[i]
            == '0' by {
            assert(s.drop_last()[i] == s[i]);
        }
        lemma_zero_places(s.drop_last());
    }
}

impl Decimal {
    /// Reads a text as a decimal literal: an optional `+` or `-`, one or
    /// more digits and, optionally, a point followed by one or more digits.
    /// Nothing else is accepted, white space neither.
    pub fn parse(text: &str) -> (r: Result<Decimal, DecimalError>)
        ensures
            r == parsed_decimal(text@),
    {
        let chars = chars_of(text);
        let r = parse_decimal(&chars, 0, chars.len());
        assert(chars@.subrange(0, chars.len() as int) == text@);
        r
    }
}

} // verus!
