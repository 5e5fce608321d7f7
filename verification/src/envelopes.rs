//! The messages that every party of the classroom exchanges, as far as they hold whole numbers and
//! text. Who a message is about stands in its topic, never in its body.
use vstd::prelude::*;

verus! {

/// A request to set a robot's light: device to robot.
#[derive(Debug)]
pub struct SetLedRequest {
    /// `set_led`.
    pub method: String,
    pub on: bool,
    pub red: u8,
    pub green: u8,
    pub blue: u8,
}

/// The answer to it: robot to device.
#[derive(Debug)]
pub struct SetLedResponse {
    /// `ok` or `error`.
    pub status: String,
    pub message: Option<String>,
}

} // verus!
