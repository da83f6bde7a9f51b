//! FIX session layer: sequence numbers, heartbeats and message recovery,
//! as a sans-io state machine.
//!
//! [`SessionState`] owns the protocol: sequence number checking, heartbeats and
//! test requests, gap detection, resend and replay, and logout. It performs no
//! I/O, spawns nothing, and reads no clock. Instead:
//!
//! * the driver feeds it decoded messages, application commands and timeouts;
//! * it writes messages and events into a [`SessionOutput`] the driver supplies;
//! * it says when it next needs attention via [`SessionState::next_deadline`].
//!
//! What each input makes a session do is written down in [`protocol`].
//!
//! # Backpressure
//!
//! The driver **must** flush everything a call emits before feeding the next
//! input. A driver that buffers outputs without bound and keeps feeding inputs
//! defeats that, and a slow application will no longer throttle the wire.

pub mod conduct;
pub mod exchange;
pub mod handshake;
pub mod input;
pub mod laws;
pub mod opening;
pub mod protocol;
pub mod queue;
pub mod recovery;
pub mod replay;
pub mod resending;
pub mod state;
pub mod types;

pub use handshake::{
    expect_logon, logon_message, session_id_from_logon, AcceptorHandshake, Established,
    InitiatorHandshake,
};
pub use input::Input;
pub use queue::{PendingOutput, SessionEvent};
pub use replay::Replay;
pub use state::SessionState;
pub use types::{
    Command, Event, EventSink, Progress, Session, SessionIdentifier, SessionOutput,
};
