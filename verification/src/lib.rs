//! A domain-routed HTTP reverse proxy, as a library of verified decisions.
//!
//! The proxy accepts connections, reads the head of one request from each,
//! looks the `Host` header up in a table of routes, replays the head to the
//! upstream that the table names, and relays the upstream's answer to the
//! client byte for byte.
//!
//! This library decides; it neither reads nor writes. Every decision is a
//! function from plain values to plain values with a contract:
//!
//! - [`text`] and [`port`]: whitespace, tokens, trimming, port numbers;
//! - [`route`]: routes and the route table;
//! - [`request`]: the request line, header lines, and the bytes that replay
//!   a head;
//! - [`router`]: from headers and a table to a decision;
//! - [`connection`]: one connection as a state machine that is handed the
//!   outcome of the work it asked for and answers with the work it asks for
//!   next;
//! - [`trace`]: what holds of a connection over every sequence of events,
//!   and of many connections side by side;
//! - [`config`]: the routing configuration as text, and what may be added
//!   to it;
//! - [`cli`]: the command line.
//!
//! All text is bytes. A domain is compared byte for byte.

pub mod cli;
pub mod config;
pub mod connection;
pub mod port;
pub mod request;
pub mod route;
pub mod router;
pub mod text;
pub mod trace;
