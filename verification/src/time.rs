//! FIX UTC timestamp formatting.
//!
//! FIX renders `SendingTime`, `OrigSendingTime` and `TransactTime` as
//! `YYYYMMDD-HH:MM:SS.sss`, with the fractional part carrying anywhere from
//! milliseconds to picoseconds depending on what the counterparties agreed.
//! [`TimePrecision`] selects how many fractional digits are emitted.
//!
//! **This module reads no clock.** It formats an instant it is handed. The
//! driver owns the clock, and stamps `SendingTime` as late as it can.

use chrono::{DateTime, Datelike, Timelike, Utc};
use vstd::prelude::*;
use vstd::slice::slice_subrange;
use vstd::string::*;
use vstd::utf8::*;

use crate::text::{
    all_digits, ascii_bytes, ascii_chars, digit, digits_value, is_digit, lemma_ascii_utf8,
    lemma_padded_len, lemma_padded_value, padded, pow10, utf8_text,
};

verus! {

/// `"YYYYMMDD-HH:MM:SS."` — everything before the fractional digits.
pub const PREFIX_LEN: usize = 18;

/// Longest a formatted timestamp can be: [`TimePrecision::Picos`].
pub const MAX_LEN: usize = 30;

/// How many fractional-second digits to emit in a FIX timestamp.
///
/// Every variant is fixed-width, which keeps `BodyLength` predictable and makes
/// it possible to stamp the field into an already-serialised buffer.
///
/// Note that the underlying clock resolution is nanoseconds, so [`Picos`]
/// always emits three trailing zeroes. It exists because some venues require
/// the field to be picosecond-shaped, not because the extra digits carry
/// information.
///
/// [`Picos`]: TimePrecision::Picos
#[derive(Clone, Copy, Debug, PartialEq, Eq, PartialOrd, Ord, Hash, Structural)]
pub enum TimePrecision {
    /// `YYYYMMDD-HH:MM:SS.sss` — the FIX 4.x default.
    Millis,
    /// `YYYYMMDD-HH:MM:SS.ssssss`
    Micros,
    /// `YYYYMMDD-HH:MM:SS.sssssssss`
    Nanos,
    /// `YYYYMMDD-HH:MM:SS.ssssssssssss`, the last three digits always zero.
    Picos,
}

impl Default for TimePrecision {
    fn default() -> (r: Self)
        ensures
            r == TimePrecision::Nanos,
    {
        TimePrecision::Nanos
    }
}

impl TimePrecision {
    pub open spec fn width(self) -> nat {
        match self {
            TimePrecision::Millis => 3,
            TimePrecision::Micros => 6,
            TimePrecision::Nanos => 9,
            TimePrecision::Picos => 12,
        }
    }

    /// Number of fractional-second digits.
    pub fn digits(self) -> (r: usize)
        ensures
            r == self.width(),
    {
        match self {
            TimePrecision::Millis => 3,
            TimePrecision::Micros => 6,
            TimePrecision::Nanos => 9,
            TimePrecision::Picos => 12,
        }
    }

    /// Total width of a timestamp at this precision.
    pub fn len(self) -> (r: usize)
        ensures
            r == PREFIX_LEN + self.width(),
    {
        PREFIX_LEN + self.digits()
    }
}

/// A moment in UTC, by the calendar and the clock.
///
/// `nanosecond` is 1,000,000,000 or more during a leap second.
#[derive(Clone, Copy, Debug, PartialEq, Eq, Structural)]
pub struct UtcTime {
    pub year: i32,
    pub month: u32,
    pub day: u32,
    pub hour: u32,
    pub minute: u32,
    pub second: u32,
    pub nanosecond: u32,
}

/// The calendar and clock reading that chrono gives for a Unix timestamp, where
/// it can represent it.
pub uninterp spec fn civil(secs: i64, nanos: u32) -> Option<UtcTime>;

/// `chrono::DateTime::<Utc>::from_timestamp`, read with chrono's `Datelike` and
/// `Timelike` accessors. Where chrono can represent the moment, the clock shows
/// the seconds of the day and the nanoseconds that were given, and the date is
/// in the calendar's ranges. A second above the nanoseconds is accepted only as
/// a leap second. Which date a timestamp falls on, and how far the calendar
/// reaches, is left to [`civil`].
#[verifier::external_body]
fn chrono_civil(secs: i64, nanos: u32) -> (r: Option<UtcTime>)
    ensures
        r == civil(secs, nanos),
        r matches Some(t) ==> {
            &&& 1 <= t.month <= 12
            &&& 1 <= t.day <= 31
            &&& t.shows(secs, nanos)
            &&& nanos < 2_000_000_000
            &&& nanos >= 1_000_000_000 ==> secs % 60 == 59
        },
{
    let moment = DateTime::<Utc>::from_timestamp(secs, nanos)?;
    let (date, time) = (moment.date_naive(), moment.time());
    Some(
        UtcTime {
            year: date.year(),
            month: date.month(),
            day: date.day(),
            hour: time.hour(),
            minute: time.minute(),
            second: time.second(),
            nanosecond: time.nanosecond(),
        },
    )
}

impl UtcTime {
    /// The time of day is that of a Unix timestamp.
    pub open spec fn shows(self, secs: i64, nanos: u32) -> bool {
        &&& self.hour == secs % 86_400 / 3_600
        &&& self.minute == secs % 3_600 / 60
        &&& self.second == secs % 60
        &&& self.nanosecond == nanos
    }

    /// The moment `secs` seconds and `nanos` nanoseconds after the Unix epoch.
    /// `None` where that is beyond what the calendar can represent.
    pub fn from_timestamp(secs: i64, nanos: u32) -> (r: Option<UtcTime>)
        ensures
            r == civil(secs, nanos),
            r matches Some(t) ==> 1 <= t.month <= 12 && 1 <= t.day <= 31 && t.shows(secs, nanos),
            nanos >= 2_000_000_000 || (nanos >= 1_000_000_000 && secs % 60 != 59) ==> r is None,
    {
        chrono_civil(secs, nanos)
    }

    /// The fields are in the ranges of the calendar and the clock, and four
    /// digits can show the year.
    pub open spec fn in_calendar(self) -> bool {
        &&& 0 <= self.year <= 9999
        &&& 1 <= self.month <= 12
        &&& 1 <= self.day <= 31
        &&& self.hour < 24
        &&& self.minute < 60
        &&& self.second < 60
    }

    /// The moment is no later than `other`: the calendar says so, or the clock on
    /// the same day. A leap second is later than the second it follows, and
    /// earlier than the minute behind it.
    pub open spec fn no_later(self, other: UtcTime) -> bool {
        if self.year != other.year {
            self.year < other.year
        } else if self.month != other.month {
            self.month < other.month
        } else if self.day != other.day {
            self.day < other.day
        } else if self.hour != other.hour {
            self.hour < other.hour
        } else if self.minute != other.minute {
            self.minute < other.minute
        } else if self.second != other.second {
            self.second < other.second
        } else {
            self.nanosecond <= other.nanosecond
        }
    }

    /// The year as four digits can show it.
    pub open spec fn shown_year(self) -> nat {
        if self.year < 0 {
            0
        } else if self.year > 9999 {
            9999
        } else {
            self.year as nat
        }
    }

    /// The fraction of the second; a leap second counts as the last
    /// nanosecond.
    pub open spec fn shown_nanos(self) -> nat {
        if self.nanosecond > 999_999_999 {
            999_999_999
        } else {
            self.nanosecond as nat
        }
    }

    /// `YYYYMMDD-HH:MM:SS.`
    pub open spec fn prefix(self) -> Seq<u8> {
        padded(self.shown_year(), 4) + padded(self.month as nat, 2) + padded(self.day as nat, 2)
            + seq![45u8] + padded(self.hour as nat, 2) + seq![58u8] + padded(
            self.minute as nat,
            2,
        ) + seq![58u8] + padded(self.second as nat, 2) + seq![46u8]
    }

    pub open spec fn fraction(self, precision: TimePrecision) -> Seq<u8> {
        match precision {
            TimePrecision::Millis => padded(self.shown_nanos() / 1_000_000, 3),
            TimePrecision::Micros => padded(self.shown_nanos() / 1_000, 6),
            TimePrecision::Nanos => padded(self.shown_nanos(), 9),
            TimePrecision::Picos => padded(self.shown_nanos(), 9) + padded(0, 3),
        }
    }

    /// The moment as a FIX timestamp.
    pub open spec fn stamp(self, precision: TimePrecision) -> Seq<u8> {
        self.prefix() + self.fraction(precision)
    }
}

pub open spec fn ascii_only(s: Seq<u8>) -> bool {
    forall|i: int| 0 <= i < s.len() ==> #[trigger] s[i] < 128
}

/// ASCII bytes are text, one character each.
pub proof fn lemma_ascii_text(s: Seq<u8>)
    requires
        ascii_only(s),
    ensures
        valid_utf8(s),
        decode_utf8(s) == ascii_chars(s),
        encode_utf8(ascii_chars(s)) == s,
{
    let c = ascii_chars(s);
    assert forall|i: int| 0 <= i < c.len() implies '\0' <= #[trigger] c[i] <= '\u{7f}' by {
        assert(s[i] < 128);
    }
    lemma_ascii_utf8(c);
    assert(ascii_bytes(c) =~= s) by {
        assert forall|i: int| 0 <= i < s.len() implies ascii_bytes(c)[i] == s[i] by {
            assert(s[i] < 128);
        }
    }
    encode_utf8_valid_utf8(c);
    encode_utf8_decode_utf8(c);
}

proof fn lemma_padded_ascii(n: nat, width: nat)
    ensures
        ascii_only(padded(n, width)),
        padded(n, width).len() == width,
{
    lemma_padded_len(n, width);
    assert forall|i: int| 0 <= i < padded(n, width).len() implies #[trigger] padded(n, width)[i]
        < 128 by {
        assert(is_digit(padded(n, width)[i]));
    }
}

/// Every timestamp has the width of its precision, and is ASCII.
pub proof fn law_stamp_width(moment: UtcTime, precision: TimePrecision)
    ensures
        moment.stamp(precision).len() == PREFIX_LEN + precision.width(),
        ascii_only(moment.stamp(precision)),
        moment.prefix().len() == PREFIX_LEN,
{
    lemma_padded_ascii(moment.shown_year(), 4);
    lemma_padded_ascii(moment.month as nat, 2);
    lemma_padded_ascii(moment.day as nat, 2);
    lemma_padded_ascii(moment.hour as nat, 2);
    lemma_padded_ascii(moment.minute as nat, 2);
    lemma_padded_ascii(moment.second as nat, 2);
    lemma_padded_ascii(moment.shown_nanos() / 1_000_000, 3);
    lemma_padded_ascii(moment.shown_nanos() / 1_000, 6);
    lemma_padded_ascii(moment.shown_nanos(), 9);
    lemma_padded_ascii(0, 3);
}

// ---------------------------------------------------------------------------
// Precision and order
// ---------------------------------------------------------------------------

proof fn lemma_pow10_positive(n: nat)
    ensures
        pow10(n) > 0,
    decreases n,
{
    if n > 0 {
        lemma_pow10_positive((n - 1) as nat);
    }
}

/// Dropping the last digits of a number drops them from its text.
proof fn lemma_padded_front(n: nat, width: nat, more: nat)
    ensures
        padded(n / pow10(more), width) == padded(n, width + more).take(width as int),
        padded(n, width + more).len() == width + more,
    decreases more,
{
    lemma_padded_len(n, width + more);
    if more == 0 {
        assert(pow10(0) == 1);
        assert(padded(n, width).take(width as int) =~= padded(n, width));
    } else {
        let k = (more - 1) as nat;
        lemma_padded_front(n / 10, width, k);
        lemma_pow10_positive(k);
        let p = pow10(k) as int;
        assert(pow10(more) == 10 * p);
        vstd::arithmetic::div_mod::lemma_div_denominator(n as int, 10, p);
        assert((n / 10) / pow10(k) == n / pow10(more));
        assert((width + more - 1) as nat == width + k);
        lemma_padded_len(n / 10, width + k);
        assert(padded(n, width + more).take(width as int) =~= padded(n / 10, width + k).take(
            width as int,
        ));
    }
}

/// A timestamp of a coarser precision is the front of one of a finer precision:
/// the fraction is cut off, never rounded. Picoseconds are nanoseconds with three
/// zeroes behind them.
pub proof fn law_coarser_stamps_are_prefixes(moment: UtcTime)
    ensures
        ({
            let millis = moment.stamp(TimePrecision::Millis);
            let micros = moment.stamp(TimePrecision::Micros);
            let nanos = moment.stamp(TimePrecision::Nanos);
            let picos = moment.stamp(TimePrecision::Picos);
            &&& millis.is_prefix_of(micros)
            &&& micros.is_prefix_of(nanos)
            &&& nanos.is_prefix_of(picos)
            &&& picos == nanos + seq![48u8, 48, 48]
        }),
{
    let n = moment.shown_nanos();
    law_stamp_width(moment, TimePrecision::Millis);
    lemma_padded_ascii(n / 1_000_000, 3);
    lemma_padded_ascii(n / 1_000, 6);
    lemma_padded_ascii(n, 9);
    reveal_with_fuel(pow10, 4);
    lemma_padded_front(n / 1_000, 3, 3);
    lemma_padded_front(n, 6, 3);
    assert((n / 1_000) / 1_000 == n / 1_000_000);
    let p = moment.prefix();
    let millis = moment.stamp(TimePrecision::Millis);
    let micros = moment.stamp(TimePrecision::Micros);
    let nanos = moment.stamp(TimePrecision::Nanos);
    let picos = moment.stamp(TimePrecision::Picos);
    assert(millis =~= micros.take(millis.len() as int)) by {
        assert(padded(n / 1_000_000, 3) == padded(n / 1_000, 6).take(3));
    }
    assert(micros =~= nanos.take(micros.len() as int)) by {
        assert(padded(n / 1_000, 6) == padded(n, 9).take(6));
    }
    assert(padded(0, 3) =~= seq![48u8, 48, 48]) by {
        reveal_with_fuel(padded, 4);
    }
    assert(picos =~= nanos + seq![48u8, 48, 48]);
    assert(nanos =~= picos.take(nanos.len() as int));
}

/// `a` comes before `b` in the order of the bytes: at the first place where they
/// differ, `a` has the smaller byte.
pub open spec fn bytes_before(a: Seq<u8>, b: Seq<u8>) -> bool {
    exists|k: int| #[trigger] differ_first(a, b, k)
}

pub open spec fn differ_first(a: Seq<u8>, b: Seq<u8>, k: int) -> bool {
    &&& 0 <= k < a.len()
    &&& k < b.len()
    &&& a[k] < b[k]
    &&& forall|i: int| 0 <= i < k ==> a[i] == b[i]
}

proof fn lemma_before_front(a: Seq<u8>, b: Seq<u8>, x: Seq<u8>, y: Seq<u8>)
    requires
        bytes_before(a, b),
    ensures
        bytes_before(a + x, b + y),
{
    let k = choose|k: int| differ_first(a, b, k);
    assert(differ_first(a + x, b + y, k));
}

proof fn lemma_before_behind(a: Seq<u8>, x: Seq<u8>, y: Seq<u8>)
    requires
        bytes_before(x, y),
    ensures
        bytes_before(a + x, a + y),
{
    let k = choose|k: int| differ_first(x, y, k);
    assert(differ_first(a + x, a + y, a.len() + k));
}

/// Digits of one width order as their numbers do.
proof fn lemma_padded_order(m: nat, n: nat, width: nat)
    requires
        m < n,
        n < pow10(width),
    ensures
        bytes_before(padded(m, width), padded(n, width)),
    decreases width,
{
    if width > 0 {
        let k = (width - 1) as nat;
        lemma_padded_len(m / 10, k);
        lemma_padded_len(n / 10, k);
        let a = padded(m / 10, k);
        let b = padded(n / 10, k);
        assert(padded(m, width) =~= a + seq![digit(m as int)]);
        assert(padded(n, width) =~= b + seq![digit(n as int)]);
        if m / 10 < n / 10 {
            lemma_padded_order(m / 10, n / 10, k);
            lemma_before_front(a, b, seq![digit(m as int)], seq![digit(n as int)]);
        } else {
            assert(m / 10 == n / 10);
            assert(differ_first(seq![digit(m as int)], seq![digit(n as int)], 0));
            lemma_before_behind(a, seq![digit(m as int)], seq![digit(n as int)]);
        }
    }
}

/// One field of a timestamp, with what stands behind it.
proof fn lemma_field_order(m: nat, n: nat, width: nat, x: Seq<u8>, y: Seq<u8>)
    requires
        m <= n,
        n < pow10(width),
        m == n ==> x == y || bytes_before(x, y),
    ensures
        ({
            let a = padded(m, width) + x;
            let b = padded(n, width) + y;
            a == b || bytes_before(a, b)
        }),
{
    if m < n {
        lemma_padded_order(m, n, width);
        lemma_before_front(padded(m, width), padded(n, width), x, y);
    } else if x != y {
        lemma_before_behind(padded(m, width), x, y);
    }
}

proof fn lemma_mark_order(mark: u8, x: Seq<u8>, y: Seq<u8>)
    requires
        x == y || bytes_before(x, y),
    ensures
        ({
            let a = seq![mark] + x;
            let b = seq![mark] + y;
            a == b || bytes_before(a, b)
        }),
{
    if x != y {
        lemma_before_behind(seq![mark], x, y);
    }
}

proof fn lemma_fraction_order(a: UtcTime, b: UtcTime, precision: TimePrecision)
    requires
        a.nanosecond <= b.nanosecond,
    ensures
        ({
            let x = a.fraction(precision);
            let y = b.fraction(precision);
            x == y || bytes_before(x, y)
        }),
{
    let m = a.shown_nanos();
    let n = b.shown_nanos();
    reveal_with_fuel(pow10, 10);
    assert(m <= n);
    match precision {
        TimePrecision::Millis => {
            if m / 1_000_000 < n / 1_000_000 {
                lemma_padded_order(m / 1_000_000, n / 1_000_000, 3);
            }
        },
        TimePrecision::Micros => {
            if m / 1_000 < n / 1_000 {
                lemma_padded_order(m / 1_000, n / 1_000, 6);
            }
        },
        TimePrecision::Nanos => {
            if m < n {
                lemma_padded_order(m, n, 9);
            }
        },
        TimePrecision::Picos => {
            if m < n {
                lemma_padded_order(m, n, 9);
                lemma_before_front(padded(m, 9), padded(n, 9), padded(0, 3), padded(0, 3));
            }
        },
    }
}

/// What stands behind the first fields of a timestamp, grouped from the right.
proof fn lemma_stamp_grouped(moment: UtcTime, precision: TimePrecision)
    ensures
        ({
            let fraction = seq![46u8] + moment.fraction(precision);
            let second = seq![58u8] + (padded(moment.second as nat, 2) + fraction);
            let minute = seq![58u8] + (padded(moment.minute as nat, 2) + second);
            let hour = seq![45u8] + (padded(moment.hour as nat, 2) + minute);
            let day = padded(moment.day as nat, 2) + hour;
            moment.stamp(precision) == padded(moment.shown_year(), 4) + (padded(
                moment.month as nat,
                2,
            ) + day)
        }),
{
    let fraction = seq![46u8] + moment.fraction(precision);
    let second = seq![58u8] + (padded(moment.second as nat, 2) + fraction);
    let minute = seq![58u8] + (padded(moment.minute as nat, 2) + second);
    let hour = seq![45u8] + (padded(moment.hour as nat, 2) + minute);
    let day = padded(moment.day as nat, 2) + hour;
    assert(moment.stamp(precision) =~= padded(moment.shown_year(), 4) + (padded(
        moment.month as nat,
        2,
    ) + day));
}

/// Timestamps of one precision order, byte by byte, as the moments they show: the
/// stamp of a moment that is no later is the same, or comes before. Leap seconds
/// are no exception.
pub proof fn law_stamps_order_as_moments(a: UtcTime, b: UtcTime, precision: TimePrecision)
    requires
        a.in_calendar(),
        b.in_calendar(),
        a.no_later(b),
    ensures
        a.stamp(precision) == b.stamp(precision) || bytes_before(
            a.stamp(precision),
            b.stamp(precision),
        ),
{
    reveal_with_fuel(pow10, 5);
    lemma_stamp_grouped(a, precision);
    lemma_stamp_grouped(b, precision);
    let fa = seq![46u8] + a.fraction(precision);
    let fb = seq![46u8] + b.fraction(precision);
    let sa = seq![58u8] + (padded(a.second as nat, 2) + fa);
    let sb = seq![58u8] + (padded(b.second as nat, 2) + fb);
    let ma = seq![58u8] + (padded(a.minute as nat, 2) + sa);
    let mb = seq![58u8] + (padded(b.minute as nat, 2) + sb);
    let ha = seq![45u8] + (padded(a.hour as nat, 2) + ma);
    let hb = seq![45u8] + (padded(b.hour as nat, 2) + mb);
    let da = padded(a.day as nat, 2) + ha;
    let db = padded(b.day as nat, 2) + hb;
    let oa = padded(a.month as nat, 2) + da;
    let ob = padded(b.month as nat, 2) + db;
    if a.year == b.year {
        if a.month == b.month {
            if a.day == b.day {
                if a.hour == b.hour {
                    if a.minute == b.minute {
                        if a.second == b.second {
                            lemma_fraction_order(a, b, precision);
                            lemma_mark_order(46, a.fraction(precision), b.fraction(precision));
                        }
                        lemma_field_order(a.second as nat, b.second as nat, 2, fa, fb);
                        lemma_mark_order(
                            58,
                            padded(a.second as nat, 2) + fa,
                            padded(b.second as nat, 2) + fb,
                        );
                    }
                    lemma_field_order(a.minute as nat, b.minute as nat, 2, sa, sb);
                    lemma_mark_order(
                        58,
                        padded(a.minute as nat, 2) + sa,
                        padded(b.minute as nat, 2) + sb,
                    );
                }
                lemma_field_order(a.hour as nat, b.hour as nat, 2, ma, mb);
                lemma_mark_order(
                    45,
                    padded(a.hour as nat, 2) + ma,
                    padded(b.hour as nat, 2) + mb,
                );
            }
            lemma_field_order(a.day as nat, b.day as nat, 2, ha, hb);
        }
        lemma_field_order(a.month as nat, b.month as nat, 2, da, db);
    }
    lemma_field_order(a.shown_year(), b.shown_year(), 4, oa, ob);
}

/// A formatted FIX timestamp held inline, with no heap allocation.
///
/// Produced by [`fix_time`]. Read it with [`as_str`](Self::as_str) or
/// [`as_bytes`](Self::as_bytes).
#[derive(Clone, Copy)]
pub struct FixTime {
    buf: [u8; MAX_LEN],
    len: usize,
}

impl View for FixTime {
    type V = Seq<u8>;

    closed spec fn view(&self) -> Seq<u8> {
        self.buf@.take(self.len as int)
    }
}

impl FixTime {
    #[verifier::type_invariant]
    spec fn inv(self) -> bool {
        self.len <= MAX_LEN && ascii_only(self.buf@)
    }

    pub fn as_str(&self) -> (r: &str)
        ensures
            r@ == ascii_chars(self@),
    {
        proof {
            use_type_invariant(*self);
            assert(ascii_only(self@)) by {
                assert forall|i: int| 0 <= i < self@.len() implies #[trigger] self@[i] < 128 by {
                    assert(self.buf@[i] < 128);
                }
            }
            lemma_ascii_text(self@);
        }
        match utf8_text(self.as_bytes()) {
            Some(s) => s,
            None => "",
        }
    }

    pub fn as_bytes(&self) -> (r: &[u8])
        ensures
            r@ == self@,
    {
        proof {
            use_type_invariant(*self);
        }
        let r = slice_subrange(self.buf.as_slice(), 0, self.len);
        assert(r@ =~= self@);
        r
    }

    pub fn len(&self) -> (r: usize)
        ensures
            r == self@.len(),
    {
        proof {
            use_type_invariant(*self);
        }
        self.len
    }

    pub fn is_empty(&self) -> (r: bool)
        ensures
            r == (self@.len() == 0),
    {
        proof {
            use_type_invariant(*self);
        }
        self.len == 0
    }

    /// The timestamp as an owned string.
    pub fn to_string(&self) -> (r: String)
        ensures
            r@ == ascii_chars(self@),
    {
        self.as_str().to_owned()
    }
}

/// Write `value` as exactly `width` zero-padded decimal digits at `buf[at..]`,
/// returning the position just past them.
fn write_digits(buf: &mut [u8; MAX_LEN], at: usize, value: u32, width: usize) -> (r: usize)
    requires
        at + width <= MAX_LEN,
    ensures
        r == at + width,
        final(buf)@.take(r as int) == old(buf)@.take(at as int) + padded(
            value as nat,
            width as nat,
        ),
        final(buf)@.skip(r as int) == old(buf)@.skip(r as int),
        ascii_only(old(buf)@) ==> ascii_only(final(buf)@),
    decreases width,
{
    if width == 0 {
        assert(buf@.take(at as int) =~= old(buf)@.take(at as int) + padded(value as nat, 0));
        return at;
    }
    let end: usize = write_digits(buf, at, value / 10, width - 1);
    let ghost before = buf@;
    buf[end] = 48 + (value % 10) as u8;
    assert(buf@ =~= before.update(end as int, digit(value as int)));
    assert(buf@.take(end + 1) =~= before.take(end as int).push(digit(value as int)));
    assert(buf@.take(end + 1) =~= old(buf)@.take(at as int) + padded(value as nat, width as nat));
    assert forall|k: int| end < k < MAX_LEN implies #[trigger] buf@[k] == old(buf)@[k] by {
        assert(before.skip(end as int)[k - end] == old(buf)@.skip(end as int)[k - end]);
    }
    assert(buf@.skip(end + 1) =~= old(buf)@.skip(end + 1));
    end + 1
}

/// Write one byte at `buf[at]`, returning the position just past it.
fn write_byte(buf: &mut [u8; MAX_LEN], at: usize, b: u8) -> (r: usize)
    requires
        at < MAX_LEN,
        b < 128,
    ensures
        r == at + 1,
        final(buf)@.take(r as int) == old(buf)@.take(at as int).push(b),
        final(buf)@.skip(r as int) == old(buf)@.skip(r as int),
        ascii_only(old(buf)@) ==> ascii_only(final(buf)@),
{
    buf[at] = b;
    assert(buf@ =~= old(buf)@.update(at as int, b));
    assert(buf@.take(at + 1) =~= old(buf)@.take(at as int).push(b));
    assert(buf@.skip(at + 1) =~= old(buf)@.skip(at + 1));
    at + 1
}

/// Format `moment` as a FIX UTC timestamp at the given precision.
///
/// A year outside 0..=9999 cannot be rendered in the four digits FIX allows.
/// Clamping keeps the field fixed-width; such a timestamp is nonsense anyway.
/// FIX has no way to express a leap second either, so one is folded into the
/// last nanosecond of the minute.
pub fn fix_time(moment: UtcTime, precision: TimePrecision) -> (r: FixTime)
    ensures
        r@ == moment.stamp(precision),
{
    let mut buf: [u8; MAX_LEN] = [0u8; 30];
    let year: u32 = if moment.year < 0 {
        0
    } else if moment.year > 9999 {
        9999
    } else {
        moment.year as u32
    };
    let mut at: usize = write_digits(&mut buf, 0, year, 4);
    at = write_digits(&mut buf, at, moment.month, 2);
    at = write_digits(&mut buf, at, moment.day, 2);
    at = write_byte(&mut buf, at, 45);
    at = write_digits(&mut buf, at, moment.hour, 2);
    at = write_byte(&mut buf, at, 58);
    at = write_digits(&mut buf, at, moment.minute, 2);
    at = write_byte(&mut buf, at, 58);
    at = write_digits(&mut buf, at, moment.second, 2);
    at = write_byte(&mut buf, at, 46);
    assert(buf@.take(at as int) =~= moment.prefix());
    let nanos: u32 = if moment.nanosecond > 999_999_999 {
        999_999_999
    } else {
        moment.nanosecond
    };
    let end: usize = match precision {
        TimePrecision::Millis => write_digits(&mut buf, at, nanos / 1_000_000, 3),
        TimePrecision::Micros => write_digits(&mut buf, at, nanos / 1_000, 6),
        TimePrecision::Nanos => write_digits(&mut buf, at, nanos, 9),
        TimePrecision::Picos => {
            let end: usize = write_digits(&mut buf, at, nanos, 9);
            write_digits(&mut buf, end, 0, 3)
        },
    };
    assert(buf@.take(end as int) =~= moment.stamp(precision));
    FixTime { buf, len: end }
}

/// These digits of a timestamp read this number.
pub open spec fn shows_number(stamp: Seq<u8>, from: int, width: nat, n: nat) -> bool {
    &&& from + width <= stamp.len()
    &&& all_digits(stamp.subrange(from, from + width))
    &&& digits_value(stamp.subrange(from, from + width)) == n
}

/// What a timestamp reads: year, month and day, hour, minute and second, each in
/// its place with the marks between them, and then the fraction of the second, cut
/// off to the precision.
pub proof fn law_what_a_timestamp_reads(moment: UtcTime, precision: TimePrecision)
    requires
        moment.in_calendar(),
    ensures
        ({
            let stamp = moment.stamp(precision);
            let nanos = if moment.nanosecond < 1_000_000_000 {
                moment.nanosecond as nat
            } else {
                999_999_999
            };
            &&& shows_number(stamp, 0, 4, moment.year as nat)
            &&& shows_number(stamp, 4, 2, moment.month as nat)
            &&& shows_number(stamp, 6, 2, moment.day as nat)
            &&& stamp[8] == 45
            &&& shows_number(stamp, 9, 2, moment.hour as nat)
            &&& stamp[11] == 58
            &&& shows_number(stamp, 12, 2, moment.minute as nat)
            &&& stamp[14] == 58
            &&& shows_number(stamp, 15, 2, moment.second as nat)
            &&& stamp[17] == 46
            &&& precision == TimePrecision::Millis ==> stamp.len() == 21 && shows_number(
                stamp,
                18,
                3,
                nanos / 1_000_000,
            )
            &&& precision == TimePrecision::Micros ==> stamp.len() == 24 && shows_number(
                stamp,
                18,
                6,
                nanos / 1_000,
            )
            &&& precision == TimePrecision::Nanos ==> stamp.len() == 27 && shows_number(
                stamp,
                18,
                9,
                nanos,
            )
            &&& precision == TimePrecision::Picos ==> stamp.len() == 30 && shows_number(
                stamp,
                18,
                9,
                nanos,
            )
        }),
{
    let stamp = moment.stamp(precision);
    let n = moment.shown_nanos();
    law_stamp_width(moment, precision);
    reveal_with_fuel(pow10, 10);
    lemma_padded_value(moment.shown_year(), 4);
    lemma_padded_value(moment.month as nat, 2);
    lemma_padded_value(moment.day as nat, 2);
    lemma_padded_value(moment.hour as nat, 2);
    lemma_padded_value(moment.minute as nat, 2);
    lemma_padded_value(moment.second as nat, 2);
    lemma_padded_value(n / 1_000_000, 3);
    lemma_padded_value(n / 1_000, 6);
    lemma_padded_value(n, 9);
    lemma_padded_value(0, 3);
    assert(stamp.subrange(0, 4) =~= padded(moment.shown_year(), 4));
    assert(stamp.subrange(4, 6) =~= padded(moment.month as nat, 2));
    assert(stamp.subrange(6, 8) =~= padded(moment.day as nat, 2));
    assert(stamp.subrange(9, 11) =~= padded(moment.hour as nat, 2));
    assert(stamp.subrange(12, 14) =~= padded(moment.minute as nat, 2));
    assert(stamp.subrange(15, 17) =~= padded(moment.second as nat, 2));
    match precision {
        TimePrecision::Millis => {
            assert(stamp.subrange(18, 21) =~= padded(n / 1_000_000, 3));
        },
        TimePrecision::Micros => {
            assert(stamp.subrange(18, 24) =~= padded(n / 1_000, 6));
        },
        TimePrecision::Nanos => {
            assert(stamp.subrange(18, 27) =~= padded(n, 9));
        },
        TimePrecision::Picos => {
            assert(stamp.subrange(18, 27) =~= padded(n, 9));
        },
    }
}

/// A year that four digits cannot show is shown as the nearest that they can.
pub proof fn law_how_far_years_are_shown(moment: UtcTime)
    ensures
        moment.year < 0 ==> moment.shown_year() == 0,
        0 <= moment.year <= 9999 ==> moment.shown_year() == moment.year,
        moment.year > 9999 ==> moment.shown_year() == 9999,
{
}

} // verus!
