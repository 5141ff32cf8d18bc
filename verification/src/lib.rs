//! A reconnecting, line-oriented stream-forwarding client, written without I/O.
//!
//! The crate holds the decisions of a client that keeps one connection to a
//! fixed endpoint alive, cuts the incoming bytes into lines and hands every
//! line to a notification sink as a named event. The surroundings own the
//! socket, the clock and the sink: they report what happened as an
//! [`manager::Input`] and carry out the [`manager::Action`]s they get back.

pub mod commands;
pub mod endpoint;
pub mod event;
pub mod framing;
pub mod laws;
pub mod manager;
pub mod model;
pub mod text;
