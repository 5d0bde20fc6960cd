//! Storage engine of a temperature logger: samples are grouped into sessions
//! and kept in one append-only byte stream. Each session is an eight-byte
//! big-endian start time followed by its one-byte samples; every session but
//! the last is closed by a terminator byte.
use vstd::prelude::*;

pub mod laws;
pub mod ntp;
pub mod sessions;

verus! {

} // verus!
