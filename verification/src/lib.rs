//! Communication and provisioning core of a network-connected light-control
//! device.
//!
//! The crate holds the device's protocol and state-machine logic, verified:
//! the binary frame codec for the datagram protocol, the request/observe
//! client state, fragment reassembly with a deadline, the credential chunk
//! framer and provisioning session used while pairing, the connection
//! supervisor that bounds radio association retries, and the orchestrator
//! decision between direct connection and provisioning.
//!
//! Hardware access (radio, flash, GPIO, BLE attribute plumbing) is left to
//! the surrounding application, which feeds events into these state machines
//! and performs the actions they return.

pub mod coap;
pub mod codec;
pub mod errors;
pub mod light;
pub mod pairing;
pub mod utils;
pub mod wifi_utils;
