//! Core logic of the minx service host: configuration selection, the
//! built-in module registry, log-record formatting, the websocket session
//! registry and its per-session decisions, and the wire encoding of values.

pub mod text;
pub mod config;
pub mod services;
pub mod value;
