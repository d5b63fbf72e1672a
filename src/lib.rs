//! Reliable, ordered record delivery over a connected datagram socket, plus the
//! rendezvous pairing and hole-punch decisions that produce that socket.
//!
//! The library never touches a socket: the caller hands it what arrived and the
//! time, and performs what it is told to send.

pub mod frame;
pub mod seqnum;
pub mod engine;
pub mod delivery;
pub mod address;
pub mod rendezvous;
pub mod punch;
pub mod clock;
pub mod transfer;
