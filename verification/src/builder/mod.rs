//! Messages as blocks of typed fields.
//!
//! A [`Message`] is an ergonomic, typed representation keyed by tag number:
//! separate [`Block`]s for header and body, [`TypedValue`] accessors,
//! duplicate-tag checks, and first-class repeating groups. It owns its data.
//! Convert with [`Message::from_message`] and [`Message::as_message`] or
//! [`Message::into_message`].

pub mod block;
pub mod describe;
pub mod message;
pub mod normal_form;
pub mod normalize;
pub mod order;
pub mod roundtrip;
pub mod typing;
pub mod value;

pub use block::{Block, Element};
pub use message::Message;
pub use value::{IntoTyped, TypedValue};
