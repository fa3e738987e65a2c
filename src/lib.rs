//! Host side of a newline-framed serial telemetry link: frame decoding,
//! a circular history of recent samples, command encoding and the
//! connection lifecycle.
pub mod numbers;
pub mod split;
pub mod message;
pub mod decoder;
pub mod history;
pub mod command;
pub mod session;
