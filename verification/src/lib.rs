//! The classroom hub: the rules by which it answers its clients, greets devices, joins networks and
//! hands out codes.
//!
//! Everything here is decided from values that the program around it has read, and comes to values
//! that it then sends, writes or runs.
pub mod address;
pub mod bytes;
pub mod captive;
pub mod codes;
pub mod envelopes;
pub mod fleet;
pub mod gzip;
pub mod http;
pub mod ide;
pub mod improv;
pub mod json;
pub mod mqtt;
pub mod number;
pub mod provision;
pub mod response;
pub mod router;
pub mod text;
pub mod uplink;
pub mod wifi;

pub use envelopes::{SetLedRequest, SetLedResponse};
