//! Peer-to-peer UDP channels with NAT hole punching.
//!
//! The library holds the verified logic: the route table that maps peer
//! ids to routes and routes back to peers, the idle-route detection, the
//! hole-punching port planner, the NAT status rules and the choice of a
//! local network interface.
pub mod addr;
pub mod channel;
mod clock;
pub mod idle;
pub mod punch;
pub mod stun;
