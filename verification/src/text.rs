//! Decimal numbers and text, as bytes and as characters.
//!
//! FIX is a text protocol: tag numbers, lengths, counters and checksums all
//! travel as ASCII decimals. This module holds the decimal notation once, as
//! spec functions, with the conversions in both directions proved against it.

use vstd::prelude::*;
use vstd::string::*;
use vstd::utf8::*;

verus! {

broadcast use vstd::string::group_string_axioms;

// ---------------------------------------------------------------------------
// std's string functions
// ---------------------------------------------------------------------------

/// `String::push` appends one character to the end.
pub assume_specification[ std::string::String::push ](s: &mut std::string::String, c: char)
    ensures
        final(s)@ == old(s)@.push(c),
;

/// `std::str::from_utf8`: the text that `bytes` encode, or `None` where they
/// are not well-formed UTF-8.
#[verifier::external_body]
pub(crate) fn utf8_text(bytes: &[u8]) -> (r: Option<&str>)
    ensures
        r is Some <==> valid_utf8(bytes@),
        r is Some ==> r->0@ == decode_utf8(bytes@),
{
    std::str::from_utf8(bytes).ok()
}

/// What `String::from_utf8_lossy` makes of `bytes`: malformed stretches come
/// out as replacement characters.
pub uninterp spec fn lossy_text(bytes: Seq<u8>) -> Seq<char>;

/// `String::from_utf8_lossy`, which decodes well-formed input unchanged. What
/// stands in for a malformed stretch is left to [`lossy_text`].
#[verifier::external_body]
pub(crate) fn utf8_lossy(bytes: &[u8]) -> (r: String)
    ensures
        r@ == lossy_text(bytes@),
        valid_utf8(bytes@) ==> r@ == decode_utf8(bytes@),
{
    String::from_utf8_lossy(bytes).into_owned()
}

/// `bytes` for a human to read.
pub open spec fn shown_text(bytes: Seq<u8>) -> Seq<char> {
    if valid_utf8(bytes) {
        decode_utf8(bytes)
    } else {
        lossy_text(bytes)
    }
}

// ---------------------------------------------------------------------------
// Text equality and ASCII
// ---------------------------------------------------------------------------

/// Each character as the byte of the same number.
pub open spec fn ascii_bytes(s: Seq<char>) -> Seq<u8> {
    Seq::new(s.len(), |i: int| s[i] as u8)
}

/// The characters numbered by `s`.
pub open spec fn ascii_chars(s: Seq<u8>) -> Seq<char> {
    Seq::new(s.len(), |i: int| s[i] as char)
}

pub open spec fn all_ascii(s: Seq<char>) -> bool {
    is_ascii_chars(s)
}

/// ASCII text is one byte per character in UTF-8.
pub proof fn lemma_ascii_utf8(s: Seq<char>)
    requires
        all_ascii(s),
    ensures
        encode_utf8(s) == ascii_bytes(s),
{
    is_ascii_chars_encode_utf8(s);
    assert(encode_utf8(s) =~= ascii_bytes(s));
}

/// Encoding is one to one.
pub proof fn lemma_encode_injective(a: Seq<char>, b: Seq<char>)
    ensures
        encode_utf8(a) == encode_utf8(b) <==> a == b,
{
    encode_utf8_decode_utf8(a);
    encode_utf8_decode_utf8(b);
}

pub fn bytes_eq(a: &[u8], b: &[u8]) -> (r: bool)
    ensures
        r == (a@ == b@),
{
    if a.len() != b.len() {
        return false;
    }
    let mut i: usize = 0;
    while i < a.len()
        invariant
            i <= a.len(),
            a.len() == b.len(),
            forall|k: int| 0 <= k < i ==> a@[k] == b@[k],
        decreases a.len() - i,
    {
        if a[i] != b[i] {
            return false;
        }
        i += 1;
    }
    assert(a@ =~= b@);
    true
}

pub fn text_eq(a: &str, b: &str) -> (r: bool)
    ensures
        r == (a@ == b@),
{
    proof {
        lemma_encode_injective(a@, b@);
    }
    bytes_eq(a.as_bytes(), b.as_bytes())
}

/// The text of an optional string.
pub open spec fn text_of(s: Option<String>) -> Option<Seq<char>> {
    match s {
        Some(s) => Some(s@),
        None => None,
    }
}

/// The text of `s`, then that of `t`.
pub fn joined(s: &str, t: &str) -> (r: String)
    ensures
        r@ == s@ + t@,
{
    let mut r = s.to_owned();
    r.append(t);
    r
}

// ---------------------------------------------------------------------------
// Searching bytes
// ---------------------------------------------------------------------------

/// The first position from `from` on that holds `b`, or the length of `s`.
pub open spec fn next_of(s: Seq<u8>, from: int, b: u8) -> int
    decreases s.len() - from,
{
    if from < 0 || from >= s.len() {
        s.len() as int
    } else if s[from] == b {
        from
    } else {
        next_of(s, from + 1, b)
    }
}

pub proof fn lemma_next_of(s: Seq<u8>, from: int, b: u8)
    requires
        0 <= from,
    ensures
        next_of(s, from, b) <= s.len(),
        from <= s.len() ==> from <= next_of(s, from, b),
        next_of(s, from, b) < s.len() ==> s[next_of(s, from, b)] == b,
        forall|k: int| from <= k < next_of(s, from, b) ==> #[trigger] s[k] != b,
    decreases s.len() - from,
{
    if from < s.len() && s[from] != b {
        lemma_next_of(s, from + 1, b);
    }
}

/// Where the next `b` is known to stand at `at`.
pub proof fn lemma_next_of_is(s: Seq<u8>, from: int, b: u8, at: int)
    requires
        0 <= from <= at <= s.len(),
        at < s.len() ==> s[at] == b,
        forall|k: int| from <= k < at ==> #[trigger] s[k] != b,
    ensures
        next_of(s, from, b) == at,
    decreases at - from,
{
    if from < at {
        assert(s[from] != b);
        lemma_next_of_is(s, from + 1, b, at);
    }
}

pub fn find_byte(s: &[u8], from: usize, b: u8) -> (r: usize)
    ensures
        r == next_of(s@, from as int, b),
        r <= s@.len(),
        from <= s@.len() ==> from <= r,
{
    let mut i: usize = from;
    while i < s.len()
        invariant
            from <= i,
            from <= s@.len() ==> i <= s@.len(),
            next_of(s@, from as int, b) == next_of(s@, i as int, b),
        decreases s@.len() - i,
    {
        if s[i] == b {
            return i;
        }
        i += 1;
    }
    s.len()
}

// ---------------------------------------------------------------------------
// Decimal notation
// ---------------------------------------------------------------------------

pub open spec fn is_digit(b: u8) -> bool {
    48 <= b <= 57
}

pub open spec fn digit(d: int) -> u8 {
    (48 + d % 10) as u8
}

/// `n` in decimal, without leading zeroes.
pub open spec fn decimal(n: nat) -> Seq<u8>
    decreases n,
{
    if n < 10 {
        seq![digit(n as int)]
    } else {
        decimal(n / 10).push(digit(n as int))
    }
}

/// The last `width` decimal digits of `n`, padded with zeroes on the left.
pub open spec fn padded(n: nat, width: nat) -> Seq<u8>
    decreases width,
{
    if width == 0 {
        seq![]
    } else {
        padded(n / 10, (width - 1) as nat).push(digit(n as int))
    }
}

pub open spec fn decimal_text(n: nat) -> Seq<char> {
    ascii_chars(decimal(n))
}

/// `i` in decimal, with a leading `-` where it is negative.
pub open spec fn signed_text(i: int) -> Seq<char> {
    if i < 0 {
        seq!['-'] + decimal_text((-i) as nat)
    } else {
        decimal_text(i as nat)
    }
}

pub open spec fn all_digits(s: Seq<u8>) -> bool {
    forall|i: int| 0 <= i < s.len() ==> is_digit(#[trigger] s[i])
}

/// The number that a run of decimal digits stands for.
pub open spec fn digits_value(s: Seq<u8>) -> nat
    decreases s.len(),
{
    if s.len() == 0 {
        0
    } else {
        (digits_value(s.drop_last()) * 10 + (s.last() - 48)) as nat
    }
}

pub open spec fn pow10(n: nat) -> nat
    decreases n,
{
    if n == 0 {
        1
    } else {
        10 * pow10((n - 1) as nat)
    }
}

pub proof fn lemma_decimal_value(n: nat)
    ensures
        all_digits(decimal(n)),
        decimal(n).len() >= 1,
        digits_value(decimal(n)) == n,
    decreases n,
{
    if n < 10 {
        assert(decimal(n).drop_last() =~= seq![]);
        assert(digits_value(seq![]) == 0);
    } else {
        lemma_decimal_value(n / 10);
        assert(decimal(n).drop_last() =~= decimal(n / 10));
    }
}

pub proof fn lemma_padded_value(n: nat, width: nat)
    requires
        n < pow10(width),
    ensures
        all_digits(padded(n, width)),
        padded(n, width).len() == width,
        digits_value(padded(n, width)) == n,
    decreases width,
{
    if width == 0 {
    } else {
        lemma_padded_value(n / 10, (width - 1) as nat);
        assert(padded(n, width).drop_last() =~= padded(n / 10, (width - 1) as nat));
    }
}

pub proof fn lemma_padded_len(n: nat, width: nat)
    ensures
        all_digits(padded(n, width)),
        padded(n, width).len() == width,
    decreases width,
{
    if width > 0 {
        lemma_padded_len(n / 10, (width - 1) as nat);
    }
}

/// A decimal is ASCII, so its bytes are its UTF-8 encoding.
pub proof fn lemma_digits_utf8(s: Seq<u8>)
    requires
        all_digits(s),
    ensures
        all_ascii(ascii_chars(s)),
        encode_utf8(ascii_chars(s)) == s,
        valid_utf8(s),
        decode_utf8(s) == ascii_chars(s),
{
    let c = ascii_chars(s);
    assert forall|i: int| 0 <= i < c.len() implies '\0' <= #[trigger] c[i] <= '\u{7f}' by {
        assert(is_digit(s[i]));
    }
    lemma_ascii_utf8(c);
    assert(ascii_bytes(c) =~= s) by {
        assert forall|i: int| 0 <= i < s.len() implies ascii_bytes(c)[i] == s[i] by {
            assert(is_digit(s[i]));
        }
    }
    encode_utf8_valid_utf8(c);
    encode_utf8_decode_utf8(c);
}

fn digit_char(d: u64) -> (c: char)
    requires
        d < 10,
    ensures
        c == digit(d as int) as char,
{
    match d {
        0 => '0',
        1 => '1',
        2 => '2',
        3 => '3',
        4 => '4',
        5 => '5',
        6 => '6',
        7 => '7',
        8 => '8',
        _ => '9',
    }
}

/// Append `n` in decimal.
pub fn push_decimal(s: &mut String, n: u64)
    ensures
        final(s)@ == old(s)@ + decimal_text(n as nat),
    decreases n,
{
    if n >= 10 {
        push_decimal(s, n / 10);
    }
    s.push(digit_char(n % 10));
    assert(s@ =~= old(s)@ + decimal_text(n as nat));
}

pub fn decimal_string(n: u64) -> (s: String)
    ensures
        s@ == decimal_text(n as nat),
{
    let mut s = String::new();
    push_decimal(&mut s, n);
    assert(s@ =~= decimal_text(n as nat));
    s
}

pub fn signed_string(i: i64) -> (s: String)
    ensures
        s@ == signed_text(i as int),
{
    let mut s = String::new();
    if i < 0 {
        s.push('-');
        let magnitude: u64 = if i == i64::MIN {
            0x8000_0000_0000_0000
        } else {
            (-i) as u64
        };
        push_decimal(&mut s, magnitude);
        assert(s@ =~= signed_text(i as int));
    } else {
        push_decimal(&mut s, i as u64);
        assert(s@ =~= signed_text(i as int));
    }
    s
}

/// Append `n` in decimal.
pub fn extend_decimal(out: &mut Vec<u8>, n: u64)
    ensures
        final(out)@ == old(out)@ + decimal(n as nat),
    decreases n,
{
    if n >= 10 {
        extend_decimal(out, n / 10);
    }
    out.push(48 + (n % 10) as u8);
    assert(out@ =~= old(out)@ + decimal(n as nat));
}

/// Append the last `width` digits of `n`, zero-padded.
pub fn extend_padded(out: &mut Vec<u8>, n: u64, width: usize)
    ensures
        final(out)@ == old(out)@ + padded(n as nat, width as nat),
    decreases width,
{
    if width > 0 {
        extend_padded(out, n / 10, width - 1);
        out.push(48 + (n % 10) as u8);
    }
    assert(out@ =~= old(out)@ + padded(n as nat, width as nat));
}

// ---------------------------------------------------------------------------
// Decimal fractions
// ---------------------------------------------------------------------------

/// The digits of `s` from `i` on, up to the first byte that is none.
pub open spec fn digits_end(s: Seq<u8>, i: int) -> int
    decreases s.len() - i,
{
    if i < 0 || i >= s.len() || !is_digit(s[i]) {
        i
    } else {
        digits_end(s, i + 1)
    }
}

/// Where the zeroes at the front of `s[i..end]` end.
pub open spec fn zeroes_end(s: Seq<u8>, i: int, end: int) -> int
    decreases end - i,
{
    if i < 0 || i >= end || end > s.len() || s[i] != 48 {
        i
    } else {
        zeroes_end(s, i + 1, end)
    }
}

/// Where the zeroes at the back of `s[i..end]` start.
pub open spec fn zeroes_start(s: Seq<u8>, i: int, end: int) -> int
    decreases end - i,
{
    if i < 0 || i >= end || end > s.len() || s[end - 1] != 48 {
        end
    } else {
        zeroes_start(s, i, end - 1)
    }
}

/// The decimal fraction that `s` writes, in its shortest form: an optional sign,
/// digits with at most one point among or beside them, and nothing else.
pub open spec fn fraction_text(s: Seq<u8>) -> Option<Seq<char>> {
    let negative = s.len() > 0 && s[0] == 45;
    let from = if s.len() > 0 && (s[0] == 45 || s[0] == 43) {
        1
    } else {
        0
    };
    let point = digits_end(s, from);
    let has_point = point < s.len() && s[point] == 46;
    let behind = if has_point {
        point + 1
    } else {
        point
    };
    let end = digits_end(s, behind);
    if end != s.len() || (point == from && end == behind) {
        None
    } else {
        Some(
            joined_fraction(
                negative,
                s.subrange(zeroes_end(s, from, point), point),
                s.subrange(behind, zeroes_start(s, behind, end)),
            ),
        )
    }
}

/// Sign, whole number and fraction, put together.
pub open spec fn joined_fraction(negative: bool, whole: Seq<u8>, part: Seq<u8>) -> Seq<char> {
    (if negative {
        seq!['-']
    } else {
        seq![]
    }) + (if whole.len() == 0 {
        seq!['0']
    } else {
        ascii_chars(whole)
    }) + (if part.len() == 0 {
        seq![]
    } else {
        seq!['.'] + ascii_chars(part)
    })
}

fn find_digits_end(s: &[u8], from: usize) -> (r: usize)
    requires
        from <= s@.len(),
    ensures
        r == digits_end(s@, from as int),
        from <= r <= s@.len(),
{
    let mut i: usize = from;
    while i < s.len() && 48 <= s[i] && s[i] <= 57
        invariant
            from <= i <= s@.len(),
            digits_end(s@, from as int) == digits_end(s@, i as int),
        decreases s@.len() - i,
    {
        i += 1;
    }
    i
}

/// Append the characters numbered by `s[from..to]`.
fn push_ascii(out: &mut String, s: &[u8], from: usize, to: usize)
    requires
        from <= to <= s@.len(),
    ensures
        final(out)@ == old(out)@ + ascii_chars(s@.subrange(from as int, to as int)),
{
    let mut i: usize = from;
    assert(out@ =~= old(out)@ + ascii_chars(s@.subrange(from as int, i as int)));
    while i < to
        invariant
            from <= i <= to <= s@.len(),
            out@ == old(out)@ + ascii_chars(s@.subrange(from as int, i as int)),
        decreases to - i,
    {
        out.push(s[i] as char);
        i += 1;
        assert(out@ =~= old(out)@ + ascii_chars(s@.subrange(from as int, i as int)));
    }
}

fn find_zeroes_end(s: &[u8], from: usize, end: usize) -> (r: usize)
    requires
        from <= end <= s@.len(),
    ensures
        r == zeroes_end(s@, from as int, end as int),
        from <= r <= end,
{
    let mut i: usize = from;
    while i < end && s[i] == 48
        invariant
            from <= i <= end <= s@.len(),
            zeroes_end(s@, from as int, end as int) == zeroes_end(s@, i as int, end as int),
        decreases end - i,
    {
        i += 1;
    }
    i
}

fn find_zeroes_start(s: &[u8], from: usize, end: usize) -> (r: usize)
    requires
        from <= end <= s@.len(),
    ensures
        r == zeroes_start(s@, from as int, end as int),
        from <= r <= end,
{
    let mut i: usize = end;
    while i > from && s[i - 1] == 48
        invariant
            from <= i <= end <= s@.len(),
            zeroes_start(s@, from as int, end as int) == zeroes_start(s@, from as int, i as int),
        decreases i,
    {
        i -= 1;
    }
    i
}

fn fraction_string(
    s: &[u8],
    negative: bool,
    first: usize,
    point: usize,
    behind: usize,
    last: usize,
) -> (r: String)
    requires
        first <= point <= s@.len(),
        behind <= last <= s@.len(),
    ensures
        r@ == joined_fraction(
            negative,
            s@.subrange(first as int, point as int),
            s@.subrange(behind as int, last as int),
        ),
{
    let mut out = String::new();
    if negative {
        out.push('-');
    }
    let ghost sign = out@;
    if first == point {
        out.push('0');
    } else {
        push_ascii(&mut out, s, first, point);
    }
    let ghost front = out@;
    if last != behind {
        out.push('.');
        push_ascii(&mut out, s, behind, last);
    }
    proof {
        let whole = s@.subrange(first as int, point as int);
        let part = s@.subrange(behind as int, last as int);
        assert(sign =~= (if negative {
            seq!['-']
        } else {
            seq![]
        }));
        assert(front =~= sign + (if whole.len() == 0 {
            seq!['0']
        } else {
            ascii_chars(whole)
        }));
        assert(out@ =~= front + (if part.len() == 0 {
            seq![]
        } else {
            seq!['.'] + ascii_chars(part)
        }));
    }
    out
}

/// A decimal fraction, held as its shortest text.
#[derive(Debug, PartialEq, Eq)]
pub struct Decimal {
    text: String,
}

impl View for Decimal {
    type V = Seq<char>;

    closed spec fn view(&self) -> Seq<char> {
        self.text@
    }
}

impl Clone for Decimal {
    fn clone(&self) -> (r: Self)
        ensures
            r@ == self@,
    {
        Decimal { text: self.text.clone() }
    }
}

impl Decimal {
    pub fn as_str(&self) -> (r: &str)
        ensures
            r@ == self@,
    {
        self.text.as_str()
    }

    /// A whole number.
    pub fn from_int(i: i64) -> (r: Decimal)
        ensures
            r@ == signed_text(i as int),
    {
        Decimal { text: signed_string(i) }
    }

    /// Read a decimal fraction, such as `-12.30`.
    pub fn parse(text: &str) -> (r: Option<Decimal>)
        ensures
            match r {
                Some(d) => fraction_text(encode_utf8(text@)) == Some(d@),
                None => fraction_text(encode_utf8(text@)) is None,
            },
    {
        let s = text.as_bytes();
        let negative = s.len() > 0 && s[0] == 45;
        let from: usize = if s.len() > 0 && (s[0] == 45 || s[0] == 43) {
            1
        } else {
            0
        };
        let point: usize = find_digits_end(s, from);
        let has_point = point < s.len() && s[point] == 46;
        let behind: usize = if has_point {
            point + 1
        } else {
            point
        };
        let end: usize = find_digits_end(s, behind);
        if end != s.len() || (point == from && end == behind) {
            return None;
        }
        let first: usize = find_zeroes_end(s, from, point);
        let last: usize = find_zeroes_start(s, behind, end);
        Some(Decimal { text: fraction_string(s, negative, first, point, behind, last) })
    }
}

// ---------------------------------------------------------------------------
// Reading integers
// ---------------------------------------------------------------------------

/// Why a text is not an integer of the wanted type.
#[derive(Clone, Copy, Debug, PartialEq, Eq, Structural)]
pub enum ParseIntError {
    /// There is no text at all.
    Empty,
    /// A character is not a digit, or there is only a sign.
    InvalidDigit,
    /// The number is above the type's largest.
    PosOverflow,
    /// The number is below the type's smallest.
    NegOverflow,
}

impl ParseIntError {
    pub open spec fn text(self) -> Seq<char> {
        match self {
            ParseIntError::Empty => "cannot parse integer from empty string"@,
            ParseIntError::InvalidDigit => "invalid digit found in string"@,
            ParseIntError::PosOverflow => "number too large to fit in target type"@,
            ParseIntError::NegOverflow => "number too small to fit in target type"@,
        }
    }

    pub fn as_str(&self) -> (r: &'static str)
        ensures
            r@ == self.text(),
    {
        match self {
            ParseIntError::Empty => "cannot parse integer from empty string",
            ParseIntError::InvalidDigit => "invalid digit found in string",
            ParseIntError::PosOverflow => "number too large to fit in target type",
            ParseIntError::NegOverflow => "number too small to fit in target type",
        }
    }
}

/// Read the digits of `s` from position `i` on, left to right, after `acc`:
/// the first fault met decides the error.
pub open spec fn read_digits(
    s: Seq<u8>,
    i: int,
    acc: nat,
    max: nat,
    over: ParseIntError,
) -> Result<nat, ParseIntError>
    decreases s.len() - i,
{
    if i < 0 || i >= s.len() {
        Ok(acc)
    } else if !is_digit(s[i]) {
        Err(ParseIntError::InvalidDigit)
    } else if acc * 10 + (s[i] - 48) > max {
        Err(over)
    } else {
        read_digits(s, i + 1, (acc * 10 + (s[i] - 48)) as nat, max, over)
    }
}

/// The unsigned integer that `s` writes, at most `max`: decimal digits, with an
/// optional leading `+`.
pub open spec fn parse_unsigned(s: Seq<u8>, max: nat) -> Result<nat, ParseIntError> {
    if s.len() == 0 {
        Err(ParseIntError::Empty)
    } else if s.len() == 1 && (s[0] == 43 || s[0] == 45) {
        Err(ParseIntError::InvalidDigit)
    } else {
        read_digits(s, if s[0] == 43 { 1 } else { 0 }, 0, max, ParseIntError::PosOverflow)
    }
}

/// The `i64` that `s` writes: decimal digits, with an optional leading sign.
pub open spec fn parse_signed(s: Seq<u8>) -> Result<int, ParseIntError> {
    if s.len() > 1 && s[0] == 45 {
        match read_digits(s, 1, 0, 0x8000_0000_0000_0000, ParseIntError::NegOverflow) {
            Ok(n) => Ok(-n),
            Err(e) => Err(e),
        }
    } else {
        match parse_unsigned(s, 0x7fff_ffff_ffff_ffff) {
            Ok(n) => Ok(n as int),
            Err(e) => Err(e),
        }
    }
}

proof fn lemma_prefix_value(s: Seq<u8>, i: int)
    requires
        all_digits(s),
        0 <= i <= s.len(),
    ensures
        digits_value(s.take(i)) <= digits_value(s),
    decreases s.len() - i,
{
    if i == s.len() {
        assert(s.take(i) =~= s);
    } else {
        lemma_prefix_value(s, i + 1);
        assert(s.take(i + 1).drop_last() =~= s.take(i));
        assert(is_digit(s[i]));
    }
}

proof fn lemma_read_digits(s: Seq<u8>, i: int, max: nat, over: ParseIntError)
    requires
        all_digits(s),
        digits_value(s) <= max,
        0 <= i <= s.len(),
    ensures
        read_digits(s, i, digits_value(s.take(i)), max, over) == Ok::<nat, ParseIntError>(
            digits_value(s),
        ),
    decreases s.len() - i,
{
    if i == s.len() {
        assert(s.take(i) =~= s);
    } else {
        lemma_read_digits(s, i + 1, max, over);
        lemma_prefix_value(s, i + 1);
        assert(s.take(i + 1).drop_last() =~= s.take(i));
        assert(is_digit(s[i]));
    }
}

/// A run of digits reads back as the number it stands for.
pub proof fn lemma_parse_digits(s: Seq<u8>, max: nat)
    requires
        s.len() > 0,
        all_digits(s),
        digits_value(s) <= max,
    ensures
        parse_unsigned(s, max) == Ok::<nat, ParseIntError>(digits_value(s)),
{
    assert(is_digit(s[0]));
    assert(s.take(0) =~= seq![]);
    lemma_read_digits(s, 0, max, ParseIntError::PosOverflow);
}

/// Writing a number in decimal and reading it gives the number back.
pub proof fn lemma_parse_decimal(n: nat, max: nat)
    requires
        n <= max,
    ensures
        parse_unsigned(decimal(n), max) == Ok::<nat, ParseIntError>(n),
{
    lemma_decimal_value(n);
    lemma_parse_digits(decimal(n), max);
}

fn read_digits_from(s: &[u8], from: usize, max: u64, over: ParseIntError) -> (r: Result<
    u64,
    ParseIntError,
>)
    requires
        from <= s.len(),
    ensures
        r is Ok <==> read_digits(s@, from as int, 0, max as nat, over) is Ok,
        r is Ok ==> read_digits(s@, from as int, 0, max as nat, over) == Ok::<nat, ParseIntError>(
            r->Ok_0 as nat,
        ),
        r is Ok ==> r->Ok_0 <= max,
        r is Err ==> read_digits(s@, from as int, 0, max as nat, over) == Err::<nat, ParseIntError>(
            r->Err_0,
        ),
{
    let mut i: usize = from;
    let mut acc: u64 = 0;
    while i < s.len()
        invariant
            from <= i <= s.len(),
            acc <= max,
            read_digits(s@, from as int, 0, max as nat, over) == read_digits(
                s@,
                i as int,
                acc as nat,
                max as nat,
                over,
            ),
        decreases s.len() - i,
    {
        let c: u8 = s[i];
        if c < 48 || c > 57 {
            return Err(ParseIntError::InvalidDigit);
        }
        let d: u64 = (c - 48) as u64;
        if acc > max / 10 || d > max - acc * 10 {
            return Err(over);
        }
        acc = acc * 10 + d;
        i += 1;
    }
    Ok(acc)
}

fn read_unsigned(s: &[u8], max: u64) -> (r: Result<u64, ParseIntError>)
    ensures
        r is Ok <==> parse_unsigned(s@, max as nat) is Ok,
        r is Ok ==> parse_unsigned(s@, max as nat) == Ok::<nat, ParseIntError>(r->Ok_0 as nat),
        r is Ok ==> r->Ok_0 <= max,
        r is Err ==> parse_unsigned(s@, max as nat) == Err::<nat, ParseIntError>(r->Err_0),
{
    if s.len() == 0 {
        return Err(ParseIntError::Empty);
    }
    if s.len() == 1 && (s[0] == 43 || s[0] == 45) {
        return Err(ParseIntError::InvalidDigit);
    }
    let from: usize = if s[0] == 43 { 1 } else { 0 };
    read_digits_from(s, from, max, ParseIntError::PosOverflow)
}

/// An integer type that text can be read as.
pub trait ParseInteger: Sized {
    /// What reading `s` as this type gives.
    spec fn parsed(s: Seq<u8>) -> Result<Self, ParseIntError>;

    fn parse_integer(s: &[u8]) -> (r: Result<Self, ParseIntError>)
        ensures
            r == Self::parsed(s@),
    ;
}

impl ParseInteger for u8 {
    open spec fn parsed(s: Seq<u8>) -> Result<u8, ParseIntError> {
        match parse_unsigned(s, u8::MAX as nat) {
            Ok(n) => Ok(n as u8),
            Err(e) => Err(e),
        }
    }

    fn parse_integer(s: &[u8]) -> (r: Result<u8, ParseIntError>) {
        match read_unsigned(s, u8::MAX as u64) {
            Ok(n) => Ok(n as u8),
            Err(e) => Err(e),
        }
    }
}

impl ParseInteger for u32 {
    open spec fn parsed(s: Seq<u8>) -> Result<u32, ParseIntError> {
        match parse_unsigned(s, u32::MAX as nat) {
            Ok(n) => Ok(n as u32),
            Err(e) => Err(e),
        }
    }

    fn parse_integer(s: &[u8]) -> (r: Result<u32, ParseIntError>) {
        match read_unsigned(s, u32::MAX as u64) {
            Ok(n) => Ok(n as u32),
            Err(e) => Err(e),
        }
    }
}

impl ParseInteger for u64 {
    open spec fn parsed(s: Seq<u8>) -> Result<u64, ParseIntError> {
        match parse_unsigned(s, u64::MAX as nat) {
            Ok(n) => Ok(n as u64),
            Err(e) => Err(e),
        }
    }

    fn parse_integer(s: &[u8]) -> (r: Result<u64, ParseIntError>) {
        read_unsigned(s, u64::MAX)
    }
}

impl ParseInteger for usize {
    open spec fn parsed(s: Seq<u8>) -> Result<usize, ParseIntError> {
        match parse_unsigned(s, usize::MAX as nat) {
            Ok(n) => Ok(n as usize),
            Err(e) => Err(e),
        }
    }

    fn parse_integer(s: &[u8]) -> (r: Result<usize, ParseIntError>) {
        match read_unsigned(s, usize::MAX as u64) {
            Ok(n) => Ok(n as usize),
            Err(e) => Err(e),
        }
    }
}

impl ParseInteger for i64 {
    open spec fn parsed(s: Seq<u8>) -> Result<i64, ParseIntError> {
        match parse_signed(s) {
            Ok(n) => Ok(n as i64),
            Err(e) => Err(e),
        }
    }

    fn parse_integer(s: &[u8]) -> (r: Result<i64, ParseIntError>) {
        if s.len() > 1 && s[0] == 45 {
            match read_digits_from(s, 1, 0x8000_0000_0000_0000, ParseIntError::NegOverflow) {
                Ok(n) => {
                    if n == 0x8000_0000_0000_0000 {
                        Ok(i64::MIN)
                    } else {
                        Ok(-(n as i64))
                    }
                },
                Err(e) => Err(e),
            }
        } else {
            match read_unsigned(s, 0x7fff_ffff_ffff_ffff) {
                Ok(n) => Ok(n as i64),
                Err(e) => Err(e),
            }
        }
    }
}

/// Bytes that are text are shown as that text.
pub proof fn law_text_is_shown_as_it_is(s: Seq<char>)
    ensures
        shown_text(encode_utf8(s)) == s,
{
    encode_utf8_valid_utf8(s);
    encode_utf8_decode_utf8(s);
}

} // verus!
