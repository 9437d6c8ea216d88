//! A small message-room synchronization library: the textual room-file
//! codec (configuration header plus a resumable message log tail), the
//! server-side message store with dense sequential ids, and the
//! request/response reconciliation logic between the two.
use vstd::prelude::*;

pub mod bytes;
pub mod client;
pub mod config;
pub mod json;
pub mod num;
pub mod roomfile;
pub mod store;
pub mod text;

verus! {

/// Successor id in the dense per-room log: the first id is 0, and each
/// later message gets the previous id plus one.
pub fn next_message_id(last: Option<u64>) -> (r: u64)
    requires
        last is Some ==> last.unwrap() < u64::MAX,
    ensures
        match last {
            Some(v) => r == v + 1,
            None => r == 0,
        },
{
    match last {
        Some(v) => v + 1,
        None => 0,
    }
}

} // verus!
