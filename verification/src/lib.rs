//! Decision logic of a small Chord-style ring: a bootstrap server that keeps
//! the ring's membership in order and tells joining nodes who their
//! neighbours are, peers that own a slice of the object space and either serve
//! or forward requests, and a client that issues the requests.
//!
//! Sockets, files, the wire encoding and the command line live in the
//! program around this library; here stand the decisions they carry out.

pub mod args;
pub mod setup;
pub mod state;
pub mod text;
