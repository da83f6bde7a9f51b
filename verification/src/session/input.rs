//! What a driver's loop can come upon, and what a session makes of it.

use vstd::prelude::*;

use crate::clock::Instant;
use crate::error::Result;
use crate::message::{FixMessage, MessageView};
use crate::session::protocol::StateView;
use crate::session::state::SessionState;
use crate::session::types::{
    lemma_realises_done, realises, Command, CommandView, Progress, Run, SessionOutput,
};

verus! {

/// Something that a driver's loop waits for.
pub enum Input {
    /// The next deadline has come.
    Deadline,
    /// The application asks for something.
    Command(Command),
    /// The application will ask for nothing more.
    CommandsClosed,
    /// The peer sent a message.
    Frame(FixMessage),
    /// The stream could not be read, or does not frame.
    ReadFailed,
    /// The peer went away.
    PeerClosed,
}

/// An [`Input`] by what it says.
pub ghost enum InputView {
    Deadline,
    Command(CommandView),
    CommandsClosed,
    Frame(MessageView),
    ReadFailed,
    PeerClosed,
}

impl View for Input {
    type V = InputView;

    open spec fn view(&self) -> InputView {
        match self {
            Input::Deadline => InputView::Deadline,
            Input::Command(c) => InputView::Command(c@),
            Input::CommandsClosed => InputView::CommandsClosed,
            Input::Frame(m) => InputView::Frame(m@),
            Input::ReadFailed => InputView::ReadFailed,
            Input::PeerClosed => InputView::PeerClosed,
        }
    }
}

impl Input {
    pub open spec fn wf(&self) -> bool {
        match self {
            Input::Command(c) => c.wf(),
            _ => true,
        }
    }
}

impl StateView {
    /// What an input does. A stream that fails, or an application that is gone,
    /// ends the session without a word.
    pub open spec fn on_input(self, input: InputView, now: nat) -> Run<StateView> {
        match input {
            InputView::Deadline => self.on_timeout(now),
            InputView::Command(cmd) => self.on_command(cmd, now),
            InputView::CommandsClosed => Run::done(self, Ok(Progress::Close)),
            InputView::Frame(msg) => self.on_message(msg, now),
            InputView::ReadFailed => Run::done(self, Ok(Progress::Close)),
            InputView::PeerClosed => self.on_peer_closed(),
        }
    }
}

impl SessionState {
    /// Feed whatever the loop came upon.
    pub fn on_input<O: SessionOutput>(&mut self, input: Input, now: Instant, out: &mut O) -> (r:
        Result<Progress>)
        requires
            old(self).wf(),
            input.wf(),
        ensures
            final(self).wf(),
            realises(
                old(self)@.on_input(input@, now@),
                *old(out),
                *final(out),
                final(self)@,
                r,
            ),
    {
        match input {
            Input::Deadline => self.on_timeout(now, out),
            Input::Command(cmd) => self.on_command(cmd, now, out),
            Input::Frame(msg) => self.on_message(msg, now, out),
            Input::PeerClosed => self.on_peer_closed(out),
            Input::CommandsClosed | Input::ReadFailed => {
                proof {
                    lemma_realises_done::<StateView, O>(
                        self@,
                        *out,
                        Ok(Progress::Close),
                        Ok(Progress::Close),
                    );
                }
                Ok(Progress::Close)
            },
        }
    }
}

} // verus!
