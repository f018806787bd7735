//! The text protocol between clients and the server: commands, responses and
//! quote lines.
pub mod command;
pub mod errors;
pub mod quote;
