//! Bookkeeping for answering a peer's ResendRequest.
//!
//! The peer asks for `begin_seq_no..=end_seq_no`. The application hands back
//! whichever of those messages it kept, in order, and anything it skips —
//! because it never stored the message, or because retransmitting a stale order
//! would be worse than not — has to be covered by a SequenceReset-GapFill so
//! the peer's inbound sequence still lines up.
//!
//! This type tracks how far through the range we are and how many consecutive
//! sequence numbers are currently owed a gap fill. It decides *what* to send;
//! the caller does the sending.

use vstd::prelude::*;
use vstd::string::*;

use crate::builder::message::BuilderView;
use crate::builder::Message;
use crate::error::{Error, ErrorView, Result};

verus! {

/// What the replay wants done for one message the application offered.
#[derive(Debug, Clone, Copy, PartialEq, Eq)]
pub enum ReplayStep {
    /// The message falls outside the requested range, or has already been
    /// covered. Drop it.
    Skip,
    /// An admin message: never retransmitted, so it is gap-filled along with
    /// any other skipped numbers rather than sent.
    Absorb,
    /// Retransmit it, first closing off any preceding run of skipped numbers
    /// with a gap fill over `gap_fill` (inclusive bounds).
    Retransmit { gap_fill: Option<(u32, u32)> },
}

pub struct Replay {
    pub begin_seq_no: u32,
    pub end_seq_no: u32,
    /// The next sequence number in the requested range we have not yet
    /// accounted for.
    pub next_expected_seq_num: u64,
    /// How many consecutive numbers immediately before `next_expected_seq_num`
    /// are owed a gap fill.
    pub gap_fill_count: u64,
    /// Messages the application asked to send *normally* while the replay was
    /// in progress. They cannot go out mid-retransmission without corrupting
    /// the sequence, so they wait here until the replay finishes.
    pub queue: Vec<Message>,
}

/// A [`Replay`] by what it knows.
pub ghost struct ReplayView {
    pub begin: u32,
    pub end: u32,
    /// The next number not yet accounted for.
    pub next: int,
    /// How many numbers just before it are owed a gap fill.
    pub owed: int,
    pub queue: Seq<BuilderView>,
}

impl View for Replay {
    type V = ReplayView;

    open spec fn view(&self) -> ReplayView {
        ReplayView {
            begin: self.begin_seq_no,
            end: self.end_seq_no,
            next: self.next_expected_seq_num as int,
            owed: self.gap_fill_count as int,
            queue: self.queue@.map_values(|m: Message| m@),
        }
    }
}

impl ReplayView {
    /// What is owed lies within what was asked for, and nothing beyond the end
    /// has been accounted for.
    pub open spec fn wf(self) -> bool {
        &&& 1 <= self.begin
        &&& 0 <= self.owed <= self.next - self.begin
        &&& self.next == self.begin || self.next <= self.end + 1
    }

    /// The replay after a message was offered, and what to do with it.
    pub open spec fn offer(self, seq: u32, is_admin: bool) -> (ReplayView, ReplayStep) {
        if seq < self.next || seq > self.end {
            (self, ReplayStep::Skip)
        } else {
            let owed = self.owed + (seq - self.next);
            if is_admin {
                (ReplayView { next: seq + 1, owed: owed + 1, ..self }, ReplayStep::Absorb)
            } else {
                (
                    ReplayView { next: seq + 1, owed: 0, ..self },
                    ReplayStep::Retransmit {
                        gap_fill: if owed > 0 {
                            Some(((seq - owed) as u32, (seq - 1) as u32))
                        } else {
                            None
                        },
                    },
                )
            }
        }
    }

    /// The gap fill that covers whatever is left of the range.
    pub open spec fn trailing(self) -> Option<(u32, u32)> {
        if self.next - self.owed <= self.end {
            Some(((self.next - self.owed) as u32, self.end))
        } else {
            None
        }
    }
}

/// What comes of a ResendRequest.
pub open spec fn replay_for(begin: u32, end: u32, next_out: u32) -> std::result::Result<
    ReplayView,
    ErrorView,
> {
    if end > 0 && begin > end {
        Err(ErrorView::ProtocolViolation("Invalid ResendRequest"@))
    } else if begin == 0 {
        Err(
            ErrorView::ProtocolViolation(
                "Invalid ResendRequest; BeginSeqNo must be at least 1"@,
            ),
        )
    } else {
        Ok(
            ReplayView {
                begin,
                // Everything we have sent so far, where no end is named.
                end: if end > 0 {
                    end
                } else if next_out > 0 {
                    (next_out - 1) as u32
                } else {
                    0
                },
                next: begin as int,
                owed: 0,
                queue: seq![],
            },
        )
    }
}

// ---------------------------------------------------------------------------
// Laws
// ---------------------------------------------------------------------------

/// Ranges of sequence numbers, inclusive, in the order in which they go out.
pub type Ranges = Seq<(int, int)>;

/// The ranges follow each other without a gap or an overlap, from `from` up to
/// but not including `to`.
pub open spec fn tiles(ranges: Ranges, from: int, to: int) -> bool
    decreases ranges.len(),
{
    if ranges.len() == 0 {
        from == to
    } else {
        let (lo, hi) = ranges.last();
        lo <= hi && hi + 1 == to && tiles(ranges.drop_last(), from, lo)
    }
}

/// What one step puts on the wire.
pub open spec fn step_ranges(seq: u32, step: ReplayStep) -> Ranges {
    match step {
        ReplayStep::Retransmit { gap_fill: Some((lo, hi)) } => seq![
            (lo as int, hi as int),
            (seq as int, seq as int),
        ],
        ReplayStep::Retransmit { gap_fill: None } => seq![(seq as int, seq as int)],
        _ => seq![],
    }
}

/// The replay after the first `n` offers, and what they put on the wire.
pub open spec fn after_offers(
    start: ReplayView,
    offers: Seq<(u32, bool)>,
    n: nat,
) -> (ReplayView, Ranges)
    decreases n,
{
    if n == 0 {
        (start, seq![])
    } else {
        let (before, ranges) = after_offers(start, offers, (n - 1) as nat);
        let (seq, is_admin) = offers[n - 1];
        let (next, step) = before.offer(seq, is_admin);
        (next, ranges + step_ranges(seq, step))
    }
}

/// Everything on the wire once the replay is complete.
pub open spec fn whole_replay(start: ReplayView, offers: Seq<(u32, bool)>) -> Ranges {
    let (end, ranges) = after_offers(start, offers, offers.len());
    match end.trailing() {
        Some((lo, hi)) => ranges.push((lo as int, hi as int)),
        None => ranges,
    }
}

proof fn lemma_tiles_push(ranges: Ranges, from: int, mid: int, to: int)
    requires
        tiles(ranges, from, mid),
        mid < to,
    ensures
        tiles(ranges.push((mid, to - 1)), from, to),
{
    assert(ranges.push((mid, to - 1)).drop_last() =~= ranges);
}

proof fn lemma_after_offers(start: ReplayView, offers: Seq<(u32, bool)>, n: nat)
    requires
        start.wf(),
        start.next == start.begin,
        start.owed == 0,
        n <= offers.len(),
    ensures
        ({
            let (v, ranges) = after_offers(start, offers, n);
            &&& v.wf()
            &&& v.begin == start.begin && v.end == start.end
            &&& tiles(ranges, start.begin as int, v.next - v.owed)
        }),
    decreases n,
{
    if n > 0 {
        lemma_after_offers(start, offers, (n - 1) as nat);
        let (v, ranges) = after_offers(start, offers, (n - 1) as nat);
        let (seq, is_admin) = offers[n - 1];
        let (next, step) = v.offer(seq, is_admin);
        let all = ranges + step_ranges(seq, step);
        match step {
            ReplayStep::Retransmit { gap_fill: Some((lo, hi)) } => {
                lemma_tiles_push(ranges, start.begin as int, lo as int, seq as int);
                lemma_tiles_push(
                    ranges.push((lo as int, hi as int)),
                    start.begin as int,
                    seq as int,
                    seq + 1,
                );
                assert(all =~= ranges.push((lo as int, hi as int)).push((seq as int, seq as int)));
            },
            ReplayStep::Retransmit { gap_fill: None } => {
                lemma_tiles_push(ranges, start.begin as int, seq as int, seq + 1);
                assert(all =~= ranges.push((seq as int, seq as int)));
            },
            _ => {
                assert(all =~= ranges);
            },
        }
    }
}

/// However the application answers a ResendRequest, the numbers that were asked
/// for go out exactly once and in order, each retransmitted or gap-filled, and
/// no other number does.
pub proof fn law_replay_covers_the_range(
    begin: u32,
    end: u32,
    next_out: u32,
    offers: Seq<(u32, bool)>,
)
    requires
        replay_for(begin, end, next_out) is Ok,
        begin <= replay_for(begin, end, next_out)->Ok_0.end,
    ensures
        ({
            let start = replay_for(begin, end, next_out)->Ok_0;
            tiles(whole_replay(start, offers), begin as int, start.end + 1)
        }),
{
    let start = replay_for(begin, end, next_out)->Ok_0;
    lemma_after_offers(start, offers, offers.len());
    let (v, ranges) = after_offers(start, offers, offers.len());
    if v.trailing() is Some {
        lemma_tiles_push(ranges, begin as int, v.next - v.owed, start.end + 1);
    }
}

/// A message outside the range, or one that was accounted for already, leaves
/// the bookkeeping as it was.
pub proof fn law_skipped_changes_nothing(v: ReplayView, seq: u32, is_admin: bool)
    ensures
        v.offer(seq, is_admin).1 is Skip <==> (seq < v.next || seq > v.end),
        v.offer(seq, is_admin).1 is Skip ==> v.offer(seq, is_admin).0 == v,
{
}

/// No gap fill names a number that the peer did not ask for.
pub proof fn law_gap_fill_within_range(v: ReplayView, seq: u32, is_admin: bool)
    requires
        v.wf(),
    ensures
        v.offer(seq, is_admin).0.wf(),
        v.offer(seq, is_admin).1 matches ReplayStep::Retransmit { gap_fill: Some((lo, hi)) }
            ==> v.begin <= lo <= hi < seq,
        v.trailing() matches Some((lo, hi)) ==> v.begin <= lo <= hi && hi == v.end,
{
}

// ---------------------------------------------------------------------------
// The bookkeeping
// ---------------------------------------------------------------------------

pub open spec fn messages_wf(messages: Seq<Message>) -> bool {
    forall|i: int| 0 <= i < messages.len() ==> (#[trigger] messages[i]).wf()
}

pub open spec fn messages_view(messages: Seq<Message>) -> Seq<BuilderView> {
    messages.map_values(|m: Message| m@)
}

impl Replay {
    pub open spec fn wf(&self) -> bool {
        self@.wf() && messages_wf(self.queue@)
    }

    /// Begin a replay for the range the peer asked for.
    ///
    /// `next_out_seq_num` is the session's current outbound counter, used to
    /// resolve an open-ended request (`EndSeqNo` of 0) into a concrete end.
    ///
    /// Sequence numbers start at 1, so a request beginning at 0 is malformed.
    pub fn start(begin_seq_no: u32, end_seq_no: u32, next_out_seq_num: u32) -> (r: Result<Self>)
        ensures
            match replay_for(begin_seq_no, end_seq_no, next_out_seq_num) {
                Ok(v) => r matches Ok(replay) && replay.wf() && replay@ == v,
                Err(e) => r matches Err(err) && err@ == e,
            },
    {
        if end_seq_no > 0 && begin_seq_no > end_seq_no {
            return Err(Error::protocol_violation("Invalid ResendRequest"));
        }
        if begin_seq_no == 0 {
            return Err(
                Error::protocol_violation("Invalid ResendRequest; BeginSeqNo must be at least 1"),
            );
        }
        let replay = Replay {
            begin_seq_no,
            end_seq_no: if end_seq_no > 0 {
                end_seq_no
            } else {
                next_out_seq_num.saturating_sub(1)
            },
            next_expected_seq_num: begin_seq_no as u64,
            gap_fill_count: 0,
            queue: Vec::new(),
        };
        assert(replay@.queue =~= seq![]);
        Ok(replay)
    }

    /// Hold an ordinary outbound message until the replay finishes.
    pub fn defer(&mut self, msg: Message)
        requires
            old(self).wf(),
            msg.wf(),
        ensures
            final(self).wf(),
            final(self)@ == (ReplayView { queue: old(self)@.queue.push(msg@), ..old(self)@ }),
    {
        let ghost v = msg@;
        self.queue.push(msg);
        assert(self@.queue =~= old(self)@.queue.push(v));
    }

    /// Take the deferred messages, leaving the queue empty.
    pub fn take_queue(&mut self) -> (r: Vec<Message>)
        requires
            old(self).wf(),
        ensures
            final(self).wf(),
            messages_wf(r@),
            messages_view(r@) == old(self)@.queue,
            final(self)@ == (ReplayView { queue: seq![], ..old(self)@ }),
    {
        let mut queue: Vec<Message> = Vec::new();
        std::mem::swap(&mut queue, &mut self.queue);
        assert(self@.queue =~= seq![]);
        queue
    }

    /// Account for a message the application offered for retransmission.
    pub fn offer(&mut self, msg_seq_num: u32, is_admin: bool) -> (r: ReplayStep)
        requires
            old(self).wf(),
        ensures
            final(self).wf(),
            (final(self)@, r) == old(self)@.offer(msg_seq_num, is_admin),
    {
        if (msg_seq_num as u64) < self.next_expected_seq_num {
            // Already accounted for.
            return ReplayStep::Skip;
        }
        if msg_seq_num > self.end_seq_no {
            // Beyond what the peer asked for. Retransmitting it would put a
            // sequence number on the wire that we are about to reuse for a new
            // message.
            return ReplayStep::Skip;
        }
        self.gap_fill_count = self.gap_fill_count + (msg_seq_num as u64
            - self.next_expected_seq_num);
        self.next_expected_seq_num = msg_seq_num as u64 + 1;
        if is_admin {
            // Admin messages are never retransmitted; the gap fill stands in.
            self.gap_fill_count = self.gap_fill_count + 1;
            return ReplayStep::Absorb;
        }
        // Close off the run of skipped messages preceding this one. The gap
        // fill must stop short of the message that is about to be
        // retransmitted.

        let gap_fill = if self.gap_fill_count > 0 {
            let first_skipped: u32 = (msg_seq_num as u64 - self.gap_fill_count) as u32;
            Some((first_skipped, msg_seq_num - 1))
        } else {
            None
        };
        self.gap_fill_count = 0;
        ReplayStep::Retransmit { gap_fill }
    }

    /// The gap fill needed to cover whatever is left of the requested range, if
    /// anything is.
    pub fn trailing_gap_fill(&self) -> (r: Option<(u32, u32)>)
        requires
            self.wf(),
        ensures
            r == self@.trailing(),
    {
        let begin: u64 = self.next_expected_seq_num - self.gap_fill_count;
        if begin <= self.end_seq_no as u64 {
            Some((begin as u32, self.end_seq_no))
        } else {
            None
        }
    }
}

} // verus!
