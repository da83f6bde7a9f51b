//! FIX tag numbers, and how a version's own become constants.

pub mod constants;
pub mod fields;
