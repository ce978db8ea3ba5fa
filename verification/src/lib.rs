//! The data plane of a low-latency remote desktop, verified.
//!
//! Everything here is computation on plain values: wire formats, congestion and pacing
//! state machines, loss recovery, packet protection and the handshakes that key it. Sockets,
//! files, threads and screens belong to the programs that use this crate.

pub mod bytes;
pub mod net;
pub mod render;
pub mod stats;
pub mod yuv;
