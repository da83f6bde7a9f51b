//! Answering a peer's ResendRequest.

use babelfix::session::replay::{Replay, ReplayStep};

fn replay(begin: u32, end: u32) -> Replay {
  Replay::start(begin, end, 100).unwrap()
}

#[test]
fn open_ended_request_resolves_to_everything_sent() {
  // next_out_seq_num of 8 means 7 was the last number used.
  let r = Replay::start(3, 0, 8).unwrap();
  assert_eq!(r.begin_seq_no, 3);
  assert_eq!(r.end_seq_no, 7);
}

#[test]
fn inverted_range_is_rejected() {
  assert!(Replay::start(9, 4, 100).is_err());
}

#[test]
fn begin_seq_no_of_zero_is_rejected() {
  // Sequence numbers are 1-based. Accepting 0 here would eventually put a
  // gap fill carrying MsgSeqNum=0 on the wire.
  assert!(Replay::start(0, 5, 100).is_err());
  assert!(Replay::start(0, 0, 100).is_err());
}

#[test]
fn a_contiguous_run_needs_no_gap_fill() {
  let mut r = replay(1, 3);
  for seq in 1..=3 {
    assert_eq!(
      r.offer(seq, false),
      ReplayStep::Retransmit { gap_fill: None }
    );
  }
  assert_eq!(r.trailing_gap_fill(), None);
}

#[test]
fn skipped_numbers_are_gap_filled_before_the_next_retransmit() {
  let mut r = replay(1, 5);
  assert_eq!(r.offer(1, false), ReplayStep::Retransmit { gap_fill: None });
  // 2 and 3 are never offered; 4 arrives next.
  assert_eq!(
    r.offer(4, false),
    ReplayStep::Retransmit {
      gap_fill: Some((2, 3))
    }
  );
  assert_eq!(r.trailing_gap_fill(), Some((5, 5)));
}

#[test]
fn admin_messages_are_absorbed_into_the_gap_fill() {
  let mut r = replay(1, 4);
  assert_eq!(r.offer(1, true), ReplayStep::Absorb);
  assert_eq!(r.offer(2, true), ReplayStep::Absorb);
  // The two admin messages become part of the gap fill preceding 3.
  assert_eq!(
    r.offer(3, false),
    ReplayStep::Retransmit {
      gap_fill: Some((1, 2))
    }
  );
  assert_eq!(r.trailing_gap_fill(), Some((4, 4)));
}

#[test]
fn messages_outside_the_range_are_skipped() {
  let mut r = replay(3, 5);
  assert_eq!(r.offer(2, false), ReplayStep::Skip);
  assert_eq!(r.offer(6, false), ReplayStep::Skip);
  // Skipping must not disturb the bookkeeping.
  assert_eq!(r.offer(3, false), ReplayStep::Retransmit { gap_fill: None });
}

#[test]
fn a_message_offered_twice_is_only_counted_once() {
  let mut r = replay(1, 3);
  // Starting at 2 leaves 1 unaccounted for, so it is gap-filled first.
  assert_eq!(
    r.offer(2, false),
    ReplayStep::Retransmit {
      gap_fill: Some((1, 1))
    }
  );
  // The repeat is behind the cursor and must not shift the bookkeeping.
  assert_eq!(r.offer(2, false), ReplayStep::Skip);
  assert_eq!(r.trailing_gap_fill(), Some((3, 3)));
}

#[test]
fn an_entirely_unanswered_replay_gap_fills_the_whole_range() {
  let r = replay(4, 9);
  assert_eq!(r.trailing_gap_fill(), Some((4, 9)));
}

#[test]
fn a_fully_answered_replay_needs_no_trailing_gap_fill() {
  let mut r = replay(1, 2);
  r.offer(1, false);
  r.offer(2, false);
  assert_eq!(r.trailing_gap_fill(), None);
}

#[test]
fn trailing_admin_messages_extend_the_final_gap_fill() {
  let mut r = replay(1, 4);
  assert_eq!(r.offer(1, false), ReplayStep::Retransmit { gap_fill: None });
  assert_eq!(r.offer(2, true), ReplayStep::Absorb);
  assert_eq!(r.offer(3, true), ReplayStep::Absorb);
  // 2, 3 absorbed and 4 never offered: all three are covered at the end.
  assert_eq!(r.trailing_gap_fill(), Some((2, 4)));
}

/// The invariant every subtraction above depends on: the first skipped
/// number is never below `begin_seq_no`, so no gap fill can name a sequence
/// number the peer did not ask for, and none of the `u32` arithmetic can
/// underflow.
#[test]
fn gap_fill_bounds_stay_inside_the_requested_range() {
  for begin in 1u32..=4 {
    for end in begin..=8 {
      for offered in begin..=end {
        let mut r = replay(begin, end);
        if let ReplayStep::Retransmit {
          gap_fill: Some((lo, hi)),
        } = r.offer(offered, false)
        {
          assert!(lo >= begin, "{lo} < {begin}");
          assert!(hi < offered, "{hi} >= {offered}");
          assert!(lo <= hi, "{lo} > {hi}");
        }
        if let Some((lo, hi)) = r.trailing_gap_fill() {
          assert!(lo >= begin, "trailing {lo} < {begin}");
          assert!(hi <= end, "trailing {hi} > {end}");
          assert!(lo <= hi, "trailing {lo} > {hi}");
        }
      }
    }
  }
}
