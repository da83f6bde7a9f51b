//! How numbers are written and read.

use vstd::prelude::*;
use vstd::utf8::*;

use crate::text::{
    all_digits, ascii_chars, decimal, digits_end, digits_value, fraction_text, is_digit,
    lemma_decimal_value, lemma_padded_value, padded, parse_signed, parse_unsigned, pow10,
    read_digits, signed_text, zeroes_end, zeroes_start, ParseIntError, ParseInteger,
};

verus! {

/// The value of a run of digits: each one more makes it ten times as much and
/// adds itself.
pub proof fn law_what_digits_mean(s: Seq<u8>, d: u8)
    requires
        is_digit(d),
    ensures
        digits_value(Seq::<u8>::empty()) == 0,
        digits_value(s.push(d)) == digits_value(s) * 10 + (d - 48),
        is_digit(d) <==> 48 <= d <= 57,
{
    assert(s.push(d).drop_last() =~= s);
}

/// A number in decimal is made of digits, means the number, and has no zero in
/// front of it; padded to a width, it has that width.
pub proof fn law_how_numbers_are_written(n: nat, width: nat)
    ensures
        all_digits(decimal(n)),
        digits_value(decimal(n)) == n,
        n > 0 ==> decimal(n)[0] != 48,
        n == 0 ==> decimal(n) == seq![48u8],
        n < pow10(width) ==> padded(n, width).len() == width && all_digits(padded(n, width))
            && digits_value(padded(n, width)) == n,
    decreases n,
{
    lemma_decimal_value(n);
    if n < pow10(width) {
        lemma_padded_value(n, width);
    }
    if n >= 10 {
        law_how_numbers_are_written(n / 10, 0);
        lemma_decimal_value(n / 10);
    }
}

/// Digits that go on from a number which was read so far.
proof fn lemma_goes_on(s: Seq<u8>, i: int, acc: nat, max: nat, over: ParseIntError)
    requires
        0 <= i <= s.len(),
        acc <= max,
    ensures
        read_digits(s, i, acc, max, over) is Ok <==> all_digits(s.skip(i)) && value_behind(
            acc,
            s.skip(i),
        ) <= max,
        read_digits(s, i, acc, max, over) matches Ok(n) ==> n == value_behind(acc, s.skip(i)),
        all_digits(s.skip(i)) && value_behind(acc, s.skip(i)) > max ==> read_digits(
            s,
            i,
            acc,
            max,
            over,
        ) == Err::<nat, ParseIntError>(over),
    decreases s.len() - i,
{
    let rest = s.skip(i);
    if i < s.len() {
        let more = s.skip(i + 1);
        assert(rest =~= seq![s[i]] + more);
        assert(rest.drop_first() =~= more);
        assert(rest[0] == s[i]);
        if is_digit(s[i]) {
            let next = (acc * 10 + (s[i] - 48)) as nat;
            assert(all_digits(rest) <==> all_digits(more)) by {
                if all_digits(more) {
                    assert forall|k: int| 0 <= k < rest.len() implies is_digit(
                        #[trigger] rest[k],
                    ) by {
                        if k > 0 {
                            assert(rest[k] == more[k - 1]);
                        }
                    }
                }
                if all_digits(rest) {
                    assert forall|k: int| 0 <= k < more.len() implies is_digit(
                        #[trigger] more[k],
                    ) by {
                        assert(more[k] == rest[k + 1]);
                    }
                }
            }
            assert(value_behind(acc, rest) == value_behind(next, more));
            if next > max {
                if all_digits(more) {
                    lemma_grows(next, more);
                }
            } else {
                lemma_goes_on(s, i + 1, next, max, over);
            }
        } else {
            assert(!is_digit(rest[0]));
        }
    } else {
        assert(rest =~= Seq::<u8>::empty());
    }
}

/// The value of digits that stand behind those of `acc`.
pub open spec fn value_behind(acc: nat, s: Seq<u8>) -> nat
    decreases s.len(),
{
    if s.len() == 0 {
        acc
    } else {
        value_behind((acc * 10 + (s[0] - 48)) as nat, s.drop_first())
    }
}

proof fn lemma_grows(acc: nat, s: Seq<u8>)
    requires
        all_digits(s),
    ensures
        value_behind(acc, s) >= acc,
    decreases s.len(),
{
    if s.len() > 0 {
        assert(is_digit(s[0]));
        let rest = s.drop_first();
        assert forall|k: int| 0 <= k < rest.len() implies is_digit(#[trigger] rest[k]) by {
            assert(rest[k] == s[k + 1]);
        }
        lemma_grows((acc * 10 + (s[0] - 48)) as nat, rest);
    }
}

proof fn lemma_value_behind(acc: nat, s: Seq<u8>)
    requires
        all_digits(s),
    ensures
        value_behind(acc, s) == acc * pow10(s.len()) + digits_value(s),
    decreases s.len(),
{
    if s.len() == 0 {
        assert(acc * 1 == acc);
    } else {
        let front = s.drop_last();
        let last = s.last();
        assert forall|k: int| 0 <= k < front.len() implies is_digit(#[trigger] front[k]) by {
            assert(front[k] == s[k]);
        }
        lemma_value_behind(acc, front);
        assert(is_digit(s[s.len() - 1]));
        lemma_value_push(acc, front, last);
        assert(front.push(last) =~= s);
        let p = pow10(front.len()) as int;
        assert(pow10(s.len()) == 10 * p);
        assert((acc * p) * 10 == acc * (10 * p)) by (nonlinear_arith);
    }
}

proof fn lemma_value_push(acc: nat, s: Seq<u8>, d: u8)
    requires
        all_digits(s),
        is_digit(d),
    ensures
        value_behind(acc, s.push(d)) == value_behind(acc, s) * 10 + (d - 48),
    decreases s.len(),
{
    let all = s.push(d);
    if s.len() == 0 {
        assert(all.drop_first() =~= Seq::<u8>::empty());
        reveal_with_fuel(value_behind, 2);
    } else {
        assert(is_digit(s[0]));
        let rest = s.drop_first();
        assert forall|k: int| 0 <= k < rest.len() implies is_digit(#[trigger] rest[k]) by {
            assert(rest[k] == s[k + 1]);
        }
        assert(all[0] == s[0]);
        assert(all.drop_first() =~= rest.push(d));
        lemma_value_push((acc * 10 + (s[0] - 48)) as nat, rest, d);
    }
}

/// What is left of a number without a `+` in front of it.
pub open spec fn unsigned_digits(s: Seq<u8>) -> Seq<u8> {
    if s.len() > 0 && s[0] == 43 {
        s.skip(1)
    } else {
        s
    }
}

/// An unsigned number is one digit or more, with a `+` in front or without, and
/// means what its digits mean. Anything else is none, and neither is one that is
/// too large.
pub proof fn law_what_an_unsigned_number_is(s: Seq<u8>, max: nat)
    ensures
        ({
            let digits = unsigned_digits(s);
            let is_number = digits.len() > 0 && all_digits(digits);
            &&& parse_unsigned(s, max) is Ok <==> is_number && digits_value(digits) <= max
            &&& parse_unsigned(s, max) matches Ok(n) ==> n == digits_value(digits)
            &&& s.len() == 0 ==> parse_unsigned(s, max) == Err::<nat, ParseIntError>(
                ParseIntError::Empty,
            )
            &&& is_number && digits_value(digits) > max ==> parse_unsigned(s, max) == Err::<
                nat,
                ParseIntError,
            >(ParseIntError::PosOverflow)
        }),
{
    let digits = unsigned_digits(s);
    if s.len() > 0 {
        let from = if s[0] == 43 {
            1int
        } else {
            0int
        };
        assert(s.skip(from) =~= digits);
        lemma_goes_on(s, from, 0, max, ParseIntError::PosOverflow);
        if all_digits(digits) {
            lemma_value_behind(0, digits);
            assert(0 * pow10(digits.len()) == 0) by (nonlinear_arith);
        }
        if s.len() == 1 && s[0] == 45 {
            assert(!is_digit(digits[0]));
        }
    }
}

/// A signed number is an unsigned one, or one with a `-` in front of its digits,
/// which makes it negative. It has to fit into 64 bits.
pub proof fn law_what_a_signed_number_is(s: Seq<u8>)
    ensures
        ({
            let negative = s.len() > 1 && s[0] == 45;
            let digits = s.skip(1);
            &&& negative ==> {
                &&& i64::parsed(s) is Ok <==> all_digits(digits) && digits_value(digits)
                    <= 0x8000_0000_0000_0000
                &&& i64::parsed(s) matches Ok(n) ==> n == -digits_value(digits)
            }
            &&& !negative ==> match parse_unsigned(s, 0x7fff_ffff_ffff_ffff) {
                Ok(n) => i64::parsed(s) == Ok::<i64, ParseIntError>(n as i64) && n as i64 == n,
                Err(e) => i64::parsed(s) == Err::<i64, ParseIntError>(e),
            }
        }),
{
    law_what_an_unsigned_number_is(s, 0x7fff_ffff_ffff_ffff);
    if s.len() > 1 && s[0] == 45 {
        let digits = s.skip(1);
        lemma_goes_on(s, 1, 0, 0x8000_0000_0000_0000, ParseIntError::NegOverflow);
        if all_digits(digits) {
            lemma_value_behind(0, digits);
            assert(0 * pow10(digits.len()) == 0) by (nonlinear_arith);
        }
    }
}

/// The other integers are unsigned numbers that fit.
pub proof fn law_which_integers_fit(s: Seq<u8>)
    ensures
        match parse_unsigned(s, 255) {
            Ok(n) => u8::parsed(s) == Ok::<u8, ParseIntError>(n as u8) && n as u8 == n,
            Err(e) => u8::parsed(s) == Err::<u8, ParseIntError>(e),
        },
        match parse_unsigned(s, 0xffff_ffff) {
            Ok(n) => u32::parsed(s) == Ok::<u32, ParseIntError>(n as u32) && n as u32 == n,
            Err(e) => u32::parsed(s) == Err::<u32, ParseIntError>(e),
        },
        match parse_unsigned(s, 0xffff_ffff_ffff_ffff) {
            Ok(n) => u64::parsed(s) == Ok::<u64, ParseIntError>(n as u64) && n as u64 == n,
            Err(e) => u64::parsed(s) == Err::<u64, ParseIntError>(e),
        },
        match parse_unsigned(s, usize::MAX as nat) {
            Ok(n) => usize::parsed(s) == Ok::<usize, ParseIntError>(n as usize) && n as usize == n,
            Err(e) => usize::parsed(s) == Err::<usize, ParseIntError>(e),
        },
{
    law_what_an_unsigned_number_is(s, 255);
    law_what_an_unsigned_number_is(s, 0xffff_ffff);
    law_what_an_unsigned_number_is(s, 0xffff_ffff_ffff_ffff);
    law_what_an_unsigned_number_is(s, usize::MAX as nat);
}

// ---------------------------------------------------------------------------
// Fractions
// ---------------------------------------------------------------------------

/// As many zeroes.
pub open spec fn zeroes(n: nat) -> Seq<u8> {
    Seq::new(n, |i: int| 48u8)
}

/// A decimal fraction as it is written: a sign or none, zeroes or none and the
/// digits before the point, and a point with the digits behind it and zeroes or
/// none, or no point at all.
pub open spec fn written(
    sign: Seq<u8>,
    front: nat,
    whole: Seq<u8>,
    part: Seq<u8>,
    back: nat,
    point: bool,
) -> Seq<u8> {
    sign + zeroes(front) + whole + if point {
        seq![46u8] + part + zeroes(back)
    } else {
        Seq::empty()
    }
}

/// A decimal fraction is taken in its shortest form: the sign where it is `-`, the
/// digits before the point without zeroes in front, or 0 where there are none, and
/// the point with the digits behind it without zeroes at the end, where there are
/// any.
pub proof fn law_how_a_fraction_is_shortened(
    sign: Seq<u8>,
    front: nat,
    whole: Seq<u8>,
    part: Seq<u8>,
    back: nat,
    point: bool,
)
    requires
        sign.len() == 0 || sign == seq![45u8] || sign == seq![43u8],
        all_digits(whole),
        all_digits(part),
        whole.len() > 0 ==> whole[0] != 48,
        part.len() > 0 ==> part[part.len() - 1] != 48,
        !point ==> part.len() == 0 && back == 0,
        front + whole.len() + part.len() + back > 0,
    ensures
        fraction_text(written(sign, front, whole, part, back, point)) == Some(
            (if sign == seq![45u8] {
                seq!['-']
            } else {
                Seq::empty()
            }) + (if whole.len() == 0 {
                seq!['0']
            } else {
                ascii_chars(whole)
            }) + (if part.len() == 0 {
                Seq::empty()
            } else {
                seq!['.'] + ascii_chars(part)
            }),
        ),
{
    let s = written(sign, front, whole, part, back, point);
    let from = sign.len() as int;
    let dot = from + front + whole.len();
    let behind = if point {
        dot + 1
    } else {
        dot
    };
    let end = behind + part.len() + back;
    assert(s.len() == end);
    assert(seq![45u8].len() == 1 && seq![43u8].len() == 1);
    assert(seq![45u8][0] == 45 && seq![43u8][0] == 43);
    assert forall|i: int| from <= i < dot implies is_digit(#[trigger] s[i]) && s[i] == if i < from
        + front {
        48u8
    } else {
        whole[i - from - front]
    } by {
        if i >= from + front {
            assert(is_digit(whole[i - from - front]));
        }
    }
    assert forall|i: int| behind <= i < end implies is_digit(#[trigger] s[i]) && s[i] == if i
        < behind + part.len() {
        part[i - behind]
    } else {
        48u8
    } by {
        if i < behind + part.len() {
            assert(is_digit(part[i - behind]));
        }
    }
    if from == 1 {
        assert(s[0] == sign[0]);
    } else if s.len() > 0 {
        if dot > 0 {
            assert(is_digit(s[0]));
        } else if point {
            assert(s[0] == 46);
        }
    }
    if point {
        assert(s[dot] == 46);
    }
    lemma_digits_end(s, from, dot);
    lemma_digits_end(s, behind, end);
    lemma_zeroes_end(s, from, from + front, dot);
    lemma_zeroes_start(s, behind, behind + part.len(), end);
    assert(s.subrange(from + front, dot) =~= whole);
    assert(s.subrange(behind, behind + part.len()) =~= part);
}

proof fn lemma_digits_end(s: Seq<u8>, i: int, end: int)
    requires
        0 <= i <= end <= s.len(),
        forall|k: int| i <= k < end ==> is_digit(#[trigger] s[k]),
        end < s.len() ==> !is_digit(s[end]),
    ensures
        digits_end(s, i) == end,
    decreases end - i,
{
    if i < end {
        assert(is_digit(s[i]));
        lemma_digits_end(s, i + 1, end);
    }
}

proof fn lemma_zeroes_end(s: Seq<u8>, i: int, stop: int, end: int)
    requires
        0 <= i <= stop <= end <= s.len(),
        forall|k: int| i <= k < stop ==> #[trigger] s[k] == 48,
        stop < end ==> s[stop] != 48,
    ensures
        zeroes_end(s, i, end) == stop,
    decreases stop - i,
{
    if i < stop {
        assert(s[i] == 48);
        lemma_zeroes_end(s, i + 1, stop, end);
    }
}

proof fn lemma_zeroes_start(s: Seq<u8>, i: int, start: int, end: int)
    requires
        0 <= i <= start <= end <= s.len(),
        forall|k: int| start <= k < end ==> #[trigger] s[k] == 48,
        i < start ==> s[start - 1] != 48,
    ensures
        zeroes_start(s, i, end) == start,
    decreases end - start,
{
    if start < end {
        assert(s[end - 1] == 48);
        lemma_zeroes_start(s, i, start, end - 1);
    }
}

/// What a fraction can be made of: a sign or none, digits, and at most one point
/// among them. Anything else is none.
pub proof fn law_what_is_no_fraction(s: Seq<u8>, i: int, j: int)
    requires
        0 <= i < j < s.len(),
    ensures
        fraction_text(Seq::empty()) is None,
        s[i] == 46 && s[j] == 46 ==> fraction_text(s) is None,
        !is_digit(s[j]) && s[j] != 46 ==> fraction_text(s) is None,
        i == 0 && !is_digit(s[0]) && s[0] != 46 && s[0] != 45 && s[0] != 43 ==> fraction_text(s)
            is None,
{
    let from = if s[0] == 45 || s[0] == 43 {
        1int
    } else {
        0int
    };
    let point = digits_end(s, from);
    lemma_run(s, from);
    let behind = if point < s.len() && s[point] == 46 {
        point + 1
    } else {
        point
    };
    lemma_run(s, behind);
    let none = Seq::<u8>::empty();
    assert(digits_end(none, 0) == 0);
}

proof fn lemma_run(s: Seq<u8>, i: int)
    requires
        0 <= i <= s.len(),
    ensures
        i <= digits_end(s, i) <= s.len(),
        forall|k: int| i <= k < digits_end(s, i) ==> is_digit(#[trigger] s[k]),
    decreases s.len() - i,
{
    if i < s.len() && is_digit(s[i]) {
        lemma_run(s, i + 1);
    }
}

/// A signed number is written as its digits, with a `-` in front of a negative
/// one.
pub proof fn law_how_signed_numbers_are_written(i: int)
    ensures
        i >= 0 ==> signed_text(i) == ascii_chars(decimal(i as nat)),
        i < 0 ==> signed_text(i) == seq!['-'] + ascii_chars(decimal((-i) as nat)),
{
}

} // verus!
