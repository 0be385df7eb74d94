//! Core of a selective-forwarding media relay for small multi-party rooms.
//!
//! The crate models the three interacting state machines of the relay as
//! verified, deterministic logic: the per-stream forwarding engine (one
//! publisher, many subscribers, simulcast layer selection), the per-stream
//! data-channel fabric (group bus plus per-peer mailboxes with self-message
//! suppression), and the room-wide groups manager. Transport, signaling and
//! HTTP admission are outside collaborators; the crate states the contracts
//! it consumes from them and everything it promises to them.

use vstd::prelude::*;

pub mod api;
pub mod clock;
pub mod errors;
pub mod forwarder;
pub mod frame;
pub mod group;
pub mod fabric;
pub mod params;
pub mod room;
pub mod rtp;
pub mod session;
pub mod stream;
pub mod text;
pub mod unique;

verus! {

/// Milliseconds in which a publisher-less stream is still within its
/// reconnect grace window, measured from `publish_leave_time`.
pub const DEFAULT_PUBLISH_LEAVE_TIMEOUT: u64 = 15000;

} // verus!
