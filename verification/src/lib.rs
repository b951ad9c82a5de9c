//! A minimal user-space loopback networking stack: a virtual loopback
//! device with single-use packet tokens, a longest-prefix-match route
//! table, connectionless datagram sockets with bounded ring buffers,
//! and an interface poll loop that ties them together.

pub mod device;
pub mod iface;
pub mod neighbor;
pub mod route;
pub mod socket;
pub mod wire;
