//! The network data plane.

pub mod ack;
pub mod cc;
pub mod clocksync;
pub mod crypto;
pub mod fec;
pub mod grant;
pub mod handshake;
pub mod loss;
pub mod negotiate;
pub mod packet;
pub mod packetize;
pub mod pairing;
pub mod reassemble;
pub mod rendezvous;
pub mod seal;
pub mod secure;
pub mod sender;
pub mod sendpace;
pub mod transfer;
