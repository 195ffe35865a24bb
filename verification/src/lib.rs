//! Client-side core of a bridge that drives a host application's typed
//! scripting runtime over a message-oriented socket.
//!
//! The crate has two halves: a self-describing binary codec for a closed
//! set of tagged values, and the protocol logic of a request/reply client
//! that speaks that codec.  The codec's encoding and decoding are
//! specified byte-exactly against a mathematical model of the values,
//! and the laws of the wire format (tag stability, round trips, error
//! classification on malformed input) are proved in the laws module.
pub mod codec;
pub mod config;
pub mod item;
pub mod laws;
pub mod model;
pub mod protocol;
pub mod registry;
pub mod value;
pub mod wire;
