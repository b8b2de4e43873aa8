//! What requests ask for.

pub mod responses;
