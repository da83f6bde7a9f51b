//! A FIX protocol engine, driven by FIX Orchestra metadata.
//!
//! The library does no I/O, spawns nothing and reads no clock: it is fed bytes,
//! commands and points in time, and says what to write, what to report and when
//! it next needs attention.
//!
//! * [`repository`] holds FIX metadata, which [`orchestra`] reads.
//! * [`message`] and [`wire`] hold messages as they travel, [`builder`] as typed
//!   fields and groups.
//! * [`codec`] frames a byte stream.
//! * [`session`] is the protocol, and [`driver`] the protocol with its codec and
//!   buffers attached.
//! * [`endpoint`] decides about connections.

pub mod buffer;
pub mod builder;
pub mod clock;
pub mod codec;
pub mod delivery;
pub mod driver;
pub mod endpoint;
pub mod equality;
pub mod error;
pub mod framing;
pub mod journey;
pub mod layout;
pub mod loading;
pub mod lookup;
pub mod membership;
pub mod message;
pub mod names;
pub mod notation;
pub mod orchestra;
pub mod repository;
pub mod schema;
pub mod session;
pub mod text;
pub mod time;
pub mod wire;
pub mod xml;

pub use error::{Error, Result};
pub use message::{FixMessage, Value};
