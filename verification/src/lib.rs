//! Compression of the context that is sent to a language model.
//!
//! `transforms` makes content smaller, `ccr` keeps what was taken out so that it
//! can be retrieved, `scoring` tells how important the messages of a
//! conversation are, `compression_policy` says what compression may do, and
//! `handlers` reads what a request asks for.

pub mod auth_mode;
pub mod ccr;
pub mod compression_policy;
pub mod float;
pub mod handlers;
pub mod json;
pub mod scoring;
pub mod signals;
pub mod text;
pub mod transforms;
