//! Verified core of the DarkFi client: the command-line amount check, the
//! peer-to-peer channel registry and the outbound connection slots.
pub mod cli;
pub mod net;
