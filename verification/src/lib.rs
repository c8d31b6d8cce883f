//! A small verified core for a UDP datagram relay.
//!
//! The library holds everything the relay decides or computes: parsing
//! `ip:port` endpoint strings, truncating a received datagram to the
//! configured buffer size, and the control decisions of the receive loop
//! (what to forward, when to stop, what to tolerate). The surrounding
//! program does the socket work and feeds events to [`relay::Forwarder::step`].

pub mod addr;
pub mod relay;
