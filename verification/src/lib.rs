//! An internet speed test and live throughput monitor.
//!
//! This crate holds everything the program decides and everything it writes:
//! which mirrors to use, what a ping reply means, when a transfer has settled,
//! which bytes count, how a dashboard is laid out. Sockets, HTTP, clocks and the
//! terminal belong to the program around it, which hands in plain values and
//! carries out what it is told.

pub mod latency;
pub mod net;
pub mod order;
pub mod reading;
pub mod servers;
pub mod test;
pub mod text;
pub mod ui;
pub mod watch;

