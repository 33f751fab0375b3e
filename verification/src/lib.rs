//! A verified server core for "Trap the Mouse": a turn-based, asymmetric
//! board game on a hexagonal grid. One player moves the Mouse toward the
//! border; the other places Walls to trap it. The crate holds the board
//! rules, the room and registry logic, the wire codec, and the command
//! dispatcher; a thin unverified shell does the socket work. A few small
//! verified utility modules — checked arithmetic, primality, text building,
//! a neighbor count, a command registry — round the crate out.

pub mod checked;
pub mod controller;
pub mod grid;
pub mod life;
pub mod primes;
pub mod protocol;
mod random;
pub mod room;
pub mod state;
pub mod terminal;
pub mod textutil;
