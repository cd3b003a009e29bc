//! Error values of the communication and provisioning core.

use vstd::prelude::*;

verus! {

/// The stored SSID field could not be read back as text.
#[derive(Clone, Copy, PartialEq, Eq, Structural, Debug)]
pub struct SSIDFlashError;

impl SSIDFlashError {
    /// Human-readable description of the failure.
    pub fn message(&self) -> (r: String)
        ensures
            r@ == "Could not read SSID from flash"@,
    {
        "Could not read SSID from flash".to_owned()
    }
}

/// The stored password field could not be read back as text.
#[derive(Clone, Copy, PartialEq, Eq, Structural, Debug)]
pub struct PasswordFlashError;

impl PasswordFlashError {
    /// Human-readable description of the failure.
    pub fn message(&self) -> (r: String)
        ensures
            r@ == "Could not read Password from flash"@,
    {
        "Could not read Password from flash".to_owned()
    }
}

/// A packet does not fit the wire format (oversized token or option value,
/// or options out of order).
#[derive(Clone, Copy, PartialEq, Eq, Structural, Debug)]
pub struct EncodeError;

/// A byte sequence is not a well-formed frame.
#[derive(Clone, Copy, PartialEq, Eq, Structural, Debug)]
pub struct DecodeError;

/// Why a receive attempt did not produce a packet.
#[derive(Clone, Copy, PartialEq, Eq, Structural, Debug)]
pub enum ReceiveError {
    /// The deadline elapsed before a complete response arrived.
    Timeout,
    /// The transport reported a read failure.
    Transport,
    /// A complete response arrived but was not a well-formed frame.
    Decode,
}

} // verus!
