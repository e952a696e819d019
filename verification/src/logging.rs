//! Log record filtering and line layout.
//!
//! The sink that actually prints — and the clock that timestamps — live at
//! the process edge; what is decided here is whether a record is enabled
//! for this crate's scope, and how a line is laid out.

use vstd::prelude::*;
use crate::text::{contains_seq, contains_sub};

verus! {

/// The layout of one log line: timestamp, the level in brackets, then the
/// message.
pub open spec fn log_line_spec(ts: Seq<u8>, level: Seq<u8>, msg: Seq<u8>) -> Seq<u8> {
    ts + seq![32u8, 91u8] + level + seq![93u8, 58u8, 32u8] + msg
}

/// The crate's log policy.
pub struct Logger;

impl Logger {
    /// A record is enabled exactly when its target mentions `scope` (the
    /// module path the logger was installed for).
    pub fn enabled(&self, target: &[u8], scope: &[u8]) -> (r: bool)
        ensures
            r == contains_seq(target@, scope@),
    {
        contains_sub(target, scope)
    }

    /// Lays out one line as `<timestamp> [<level>]: <message>`.
    pub fn log_line(&self, timestamp: Vec<u8>, level: Vec<u8>, message: Vec<u8>) -> (r: Vec<u8>)
        ensures
            r@ == log_line_spec(timestamp@, level@, message@),
    {
        let ghost t0 = timestamp@;
        let ghost l0 = level@;
        let ghost m0 = message@;
        let mut r = timestamp;
        r.push(32);
        r.push(91);
        let mut level = level;
        r.append(&mut level);
        r.push(93);
        r.push(58);
        r.push(32);
        let mut message = message;
        r.append(&mut message);
        proof {
            assert(r@ =~= log_line_spec(t0, l0, m0));
        }
        r
    }
}

} // verus!
