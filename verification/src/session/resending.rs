//! What becomes of the messages that an application offers for retransmission.

use vstd::prelude::*;
use vstd::string::*;
use vstd::utf8::*;

use crate::builder::block::{field_of, law_set_then_read, lemma_last_of, with_field};
use crate::builder::message::{names_type, BuilderView};
use crate::builder::value::Typed;
use crate::error::ErrorView;
use crate::session::conduct::{
    behind, is_session_type, law_putting_a_message_out, on, put_out, reads, reads_nothing,
    refused,
};
use crate::session::exchange::Outputs;
use crate::session::protocol::{new_message, StateView};
use crate::session::recovery::lemma_new_message;
use crate::session::replay::{replay_for, ReplayStep, ReplayView};
use crate::session::types::Run;
use crate::text::{all_ascii, lemma_ascii_utf8};

verus! {

/// The gap fill over these numbers: it stands under the first of them, and names
/// the one behind the last as the next to expect.
pub open spec fn filler(fill: BuilderView, begin: int, end: int) -> BuilderView {
    BuilderView {
        header: with_field(fill.header, 34, Typed::Int(begin)),
        body: with_field(
            with_field(fill.body, 123, Typed::String("Y"@)),
            36,
            Typed::Int(end + 1),
        ),
        ..fill
    }
}

/// A message as it is sent again: under its own number, marked as a possible
/// duplicate, with the time of its first sending kept beside the new one.
pub open spec fn again(m: BuilderView, first_sent: Typed) -> BuilderView {
    BuilderView {
        header: with_field(
            with_field(m.header, 122, first_sent),
            43,
            Typed::String("Y"@),
        ),
        ..m
    }
}

/// The session with this much of its replay accounted for.
pub open spec fn accounted(s: StateView, replay: ReplayView, next: int, owed: int) -> StateView {
    StateView { replay: Some(ReplayView { next, owed, ..replay }), ..s }
}

/// What offering a message for retransmission does. It needs a number and a
/// replay. One outside the range, or at a number that has been accounted for, is
/// passed over. A message of the session itself is not sent again: its number is
/// owed a gap fill. A message of the application is sent again, under its own
/// number, behind one gap fill over all that is owed up to then. No number of the
/// session's own is used for any of it.
pub proof fn law_what_offering_a_message_does(
    s: StateView,
    m: BuilderView,
    seq: u32,
    replay: ReplayView,
    fill: BuilderView,
)
    requires
        reads(m.header, 34, seq),
        names_type(m.header, false),
        s.replay == Some(replay),
        replay.wf(),
        new_message(s.session.fix_version, "4"@) == Ok::<BuilderView, ErrorView>(fill),
    ensures
        ({
            let run = s.replay_message(m);
            let owed = replay.owed + (seq - replay.next);
            let t = accounted(s, replay, seq + 1, 0);
            let before = if owed > 0 {
                put_out(t, filler(fill, seq - owed, seq - 1))
            } else {
                Outputs::empty()
            };
            let n = before.len() as int;
            if seq < replay.next || seq > replay.end {
                run == Run { outputs: Outputs::empty(), end: s, result: on() }
            } else if is_session_type(m.msg_type()) {
                run == Run {
                    outputs: Outputs::empty(),
                    end: accounted(s, replay, seq + 1, owed + 1),
                    result: on(),
                }
            } else {
                &&& run.outputs.len() >= n
                &&& run.outputs.take(n) == before
                &&& match field_of(m.header, 52) {
                    Some(first_sent) => behind(run, n) == Run {
                        outputs: put_out(t, again(m, first_sent)),
                        end: t,
                        result: on(),
                    },
                    None => refused(behind(run, n), t),
                }
            }
        }),
{
    let owed = replay.owed + (seq - replay.next);
    let t = accounted(s, replay, seq + 1, 0);
    let run = s.replay_message(m);
    lemma_new_message(fill, s.session.fix_version, "4"@);
    if replay.next <= seq <= replay.end && !is_session_type(m.msg_type()) {
        let before = if owed > 0 {
            put_out(t, filler(fill, seq - owed, seq - 1))
        } else {
            Outputs::empty()
        };
        let n = before.len() as int;
        assert(replay.offer(seq, false) == (
            ReplayView { next: seq + 1, owed: 0, ..replay },
            ReplayStep::Retransmit {
                gap_fill: if owed > 0 {
                    Some(((seq - owed) as u32, (seq - 1) as u32))
                } else {
                    None
                },
            },
        ));
        if owed > 0 {
            lemma_filler(t, fill, (seq - owed) as u32, (seq - 1) as u32);
        }
        lemma_again(t, m, seq);
        let sent = t.retransmit(m);
        assert(run.outputs == before + sent.outputs);
        assert(run.outputs.take(n) =~= before);
        assert(run.outputs.skip(n) =~= sent.outputs);
    }
}

proof fn lemma_filler(s: StateView, fill: BuilderView, begin: u32, end: u32)
    requires
        new_message(s.session.fix_version, "4"@) == Ok::<BuilderView, ErrorView>(fill),
        names_type(fill.header, false),
    ensures
        s.gap_fill(begin, end) == (Run {
            outputs: put_out(s, filler(fill, begin as int, end as int)),
            end: s,
            result: on(),
        }),
{
    let f = filler(fill, begin as int, end as int);
    law_set_then_read(fill.header, 34, Typed::Int(begin as int), 34);
    lemma_last_of(fill.header, 34, fill.header.len());
    law_putting_a_message_out(s, f);
}

proof fn lemma_again(s: StateView, m: BuilderView, seq: u32)
    requires
        reads(m.header, 34, seq),
        names_type(m.header, false),
    ensures
        match field_of(m.header, 52) {
            Some(first_sent) => s.retransmit(m) == (Run {
                outputs: put_out(s, again(m, first_sent)),
                end: s,
                result: on(),
            }),
            None => refused(s.retransmit(m), s),
        },
{
    let v = field_of(m.header, 34)->0;
    lemma_number_is_there(v);
    if let Some(first_sent) = field_of(m.header, 52) {
        let a = with_field(m.header, 122, first_sent);
        law_set_then_read(m.header, 122, first_sent, 34);
        law_set_then_read(a, 43, Typed::String("Y"@), 34);
        lemma_last_of(m.header, 122, m.header.len());
        lemma_last_of(a, 43, a.len());
        law_putting_a_message_out(s, again(m, first_sent));
    }
}

proof fn lemma_number_is_there(v: Typed)
    requires
        v.whole() is Some,
    ensures
        !v.is_empty(),
{
    if let Typed::String(t) = v {
        if t.len() == 0 {
            assert(all_ascii(t));
            lemma_ascii_utf8(t);
            assert(encode_utf8(t) =~= seq![]);
        }
    }
}

/// A message without a number is not taken for retransmission, and none is where
/// no replay is running.
pub proof fn law_what_is_not_taken_for_retransmission(s: StateView, m: BuilderView)
    ensures
        reads_nothing(m.header, 34) ==> refused(s.replay_message(m), s),
        s.replay is None ==> refused(s.replay_message(m), s),
{
}

/// A replay can be asked for from number 1 on. The range is the one that was
/// asked for; where no end is named it reaches up to what was sent last. Nothing
/// of it is accounted for yet, and nothing is held back.
pub proof fn law_what_range_is_replayed(begin: u32, end: u32, next_out: u32)
    ensures
        replay_for(begin, end, next_out) is Ok <==> begin >= 1 && (end == 0 || begin <= end),
        replay_for(begin, end, next_out) matches Ok(r) ==> {
            &&& r.begin == begin
            &&& end > 0 ==> r.end == end
            &&& end == 0 && next_out > 0 ==> r.end == next_out - 1
            &&& end == 0 && next_out == 0 ==> r.end == 0
            &&& r.next == begin
            &&& r.owed == 0
            &&& r.queue.len() == 0
        },
{
}

/// A message of the application within what is left of the range is sent again;
/// one of the session itself never is. What is owed is filled up to the number in
/// front of it.
pub proof fn law_what_is_sent_again(v: ReplayView, seq: u32, is_admin: bool)
    requires
        v.wf(),
        v.next <= seq <= v.end,
    ensures
        is_admin <==> v.offer(seq, is_admin).1 is Absorb,
        !is_admin <==> v.offer(seq, is_admin).1 is Retransmit,
        v.offer(seq, is_admin).0.next == seq + 1,
        v.offer(seq, is_admin).0.queue == v.queue,
        v.offer(seq, is_admin).0.begin == v.begin,
        v.offer(seq, is_admin).0.end == v.end,
        v.offer(seq, is_admin).1 matches ReplayStep::Retransmit { gap_fill } ==> {
            &&& gap_fill is None <==> v.owed == 0 && seq == v.next
            &&& gap_fill matches Some((lo, hi)) ==> lo == v.next - v.owed && hi == seq - 1
        },
        v.offer(seq, is_admin).0.owed == if is_admin {
            v.owed + (seq - v.next) + 1
        } else {
            0
        },
{
}

/// What is left at the end is filled from the first number that is owed to the
/// last of the range, where there is any.
pub proof fn law_what_is_filled_at_the_end(v: ReplayView)
    requires
        v.wf(),
    ensures
        v.trailing() is None <==> v.next - v.owed > v.end,
        v.trailing() matches Some((lo, hi)) ==> lo == v.next - v.owed && hi == v.end,
{
}

} // verus!
