//! FIX UTC timestamp formatting.

use babelfix::time::{fix_time, TimePrecision, UtcTime};
use chrono::{DateTime, Utc};

/// A moment by the calendar and the clock.
fn utc(t: DateTime<Utc>) -> UtcTime {
  UtcTime::from_timestamp(t.timestamp(), t.timestamp_subsec_nanos()).unwrap()
}

fn at(
  y: i32,
  mo: u32,
  d: u32,
  h: u32,
  mi: u32,
  s: u32,
  nanos: u32,
) -> DateTime<Utc> {
  chrono::NaiveDate::from_ymd_opt(y, mo, d)
    .unwrap()
    .and_hms_nano_opt(h, mi, s, nanos)
    .unwrap()
    .and_utc()
}

#[test]
fn formats_each_precision() {
  let t = at(2026, 8, 9, 14, 3, 7, 123_456_789);
  assert_eq!(
    fix_time(utc(t), TimePrecision::Millis).as_str(),
    "20260809-14:03:07.123"
  );
  assert_eq!(
    fix_time(utc(t), TimePrecision::Micros).as_str(),
    "20260809-14:03:07.123456"
  );
  assert_eq!(
    fix_time(utc(t), TimePrecision::Nanos).as_str(),
    "20260809-14:03:07.123456789"
  );
  assert_eq!(
    fix_time(utc(t), TimePrecision::Picos).as_str(),
    "20260809-14:03:07.123456789000"
  );
}

#[test]
fn pads_every_field() {
  let t = at(2026, 1, 2, 3, 4, 5, 6);
  assert_eq!(
    fix_time(utc(t), TimePrecision::Nanos).as_str(),
    "20260102-03:04:05.000000006"
  );
  assert_eq!(
    fix_time(utc(t), TimePrecision::Millis).as_str(),
    "20260102-03:04:05.000"
  );
}

#[test]
fn width_is_fixed_per_precision() {
  // Stamping into a pre-serialised buffer depends on this.
  for p in [
    TimePrecision::Millis,
    TimePrecision::Micros,
    TimePrecision::Nanos,
    TimePrecision::Picos,
  ] {
    for nanos in [0, 1, 999_999_999] {
      let t = at(2026, 12, 31, 23, 59, 59, nanos);
      assert_eq!(fix_time(utc(t), p).len(), p.len(), "{p:?} nanos={nanos}");
    }
  }
}

#[test]
fn matches_chrono_reference_formatting() {
  // The formatter must agree with chrono's `%Y%m%d-%H:%M:%S.%f` form.
  let t = at(2026, 8, 9, 14, 3, 7, 123_456_789);
  assert_eq!(
    fix_time(utc(t), TimePrecision::Millis).as_str(),
    t.format("%Y%m%d-%H:%M:%S.%3f").to_string()
  );
  assert_eq!(
    fix_time(utc(t), TimePrecision::Nanos).as_str(),
    t.format("%Y%m%d-%H:%M:%S.%9f").to_string()
  );
}

#[test]
fn leap_second_folds_rather_than_overflowing() {
  // chrono reports a leap second as nanosecond >= 1_000_000_000.
  let t = chrono::NaiveDate::from_ymd_opt(2016, 12, 31)
    .unwrap()
    .and_hms_nano_opt(23, 59, 59, 1_500_000_000)
    .unwrap()
    .and_utc();
  let formatted = fix_time(utc(t), TimePrecision::Nanos);
  assert_eq!(formatted.len(), TimePrecision::Nanos.len());
  assert_eq!(formatted.as_str(), "20161231-23:59:59.999999999");
}
#[test]
fn a_year_beyond_four_digits_is_clamped() {
  let t = UtcTime {
    year: 12026,
    month: 1,
    day: 2,
    hour: 3,
    minute: 4,
    second: 5,
    nanosecond: 6,
  };
  assert_eq!(fix_time(t, TimePrecision::Millis).as_str(), "99990102-03:04:05.000");
  let t = UtcTime { year: -5, ..t };
  assert_eq!(fix_time(t, TimePrecision::Millis).as_str(), "00000102-03:04:05.000");
}

#[test]
fn a_timestamp_beyond_the_calendar_is_none() {
  assert!(UtcTime::from_timestamp(i64::MAX, 0).is_none());
  assert!(UtcTime::from_timestamp(0, 1_000_000_000).is_none());
  assert!(UtcTime::from_timestamp(59, 2_000_000_000).is_none());
  let before = UtcTime::from_timestamp(-1, 7).unwrap();
  assert_eq!((before.year, before.month, before.day), (1969, 12, 31));
  assert_eq!((before.hour, before.minute, before.second, before.nanosecond), (23, 59, 59, 7));
  let epoch = UtcTime::from_timestamp(0, 0).unwrap();
  assert_eq!((epoch.year, epoch.month, epoch.day), (1970, 1, 1));
}

#[test]
fn coarser_stamps_are_the_front_of_finer_ones() {
  let t = utc(at(2026, 8, 9, 14, 3, 7, 999_999_999));
  let stamp = |p| fix_time(t, p).as_str().to_string();
  assert_eq!(stamp(TimePrecision::Millis), "20260809-14:03:07.999");
  assert!(stamp(TimePrecision::Micros).starts_with(&stamp(TimePrecision::Millis)));
  assert!(stamp(TimePrecision::Nanos).starts_with(&stamp(TimePrecision::Micros)));
  assert_eq!(stamp(TimePrecision::Picos), stamp(TimePrecision::Nanos) + "000");
}

#[test]
fn stamps_order_as_the_moments_they_show() {
  let leap = UtcTime::from_timestamp(59, 1_500_000_000).unwrap();
  let moments = [
    utc(at(999, 12, 31, 23, 59, 59, 999_999_999)),
    utc(at(1969, 12, 31, 23, 59, 59, 7)),
    UtcTime::from_timestamp(59, 999_999_999).unwrap(),
    leap,
    UtcTime::from_timestamp(60, 0).unwrap(),
    utc(at(2026, 9, 10, 0, 0, 0, 0)),
    utc(at(2026, 10, 9, 0, 0, 0, 0)),
  ];
  for precision in [TimePrecision::Millis, TimePrecision::Nanos, TimePrecision::Picos] {
    for pair in moments.windows(2) {
      let (a, b) = (fix_time(pair[0], precision), fix_time(pair[1], precision));
      assert!(a.as_bytes() <= b.as_bytes(), "{} {}", a.as_str(), b.as_str());
    }
  }
}

#[test]
fn a_timestamp_reads_the_same_in_every_form() {
  let t = fix_time(UtcTime::from_timestamp(1_700_000_000, 0).unwrap(), TimePrecision::default());
  assert_eq!(t.as_str(), "20231114-22:13:20.000000000");
  assert_eq!(t.as_bytes(), b"20231114-22:13:20.000000000");
  assert_eq!(t.to_string(), "20231114-22:13:20.000000000");
  assert_eq!(t.len(), 27);
  assert!(!t.is_empty());
  assert_eq!(TimePrecision::Picos.digits(), 12);
  assert_eq!(TimePrecision::Picos.len(), 30);
}
