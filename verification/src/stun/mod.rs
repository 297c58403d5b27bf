//! The local side of NAT detection: the network interface to use.
pub mod socket;
