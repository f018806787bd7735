//! A quote streaming service: clients subscribe over TCP with `STREAM`
//! commands and receive quote lines over UDP; the server keeps a table of
//! subscribers that stay registered while they keep pinging.
//!
//! This library holds the protocol (commands, responses, quote lines), the
//! ticker lists, the subscriber table and the text handling they rest on,
//! each with a contract that Verus proves.
pub mod net;
pub mod addr;
pub mod numbers;
pub mod protocol;
pub mod receiver;
pub mod registry;
pub mod text;
pub mod tickers;

pub use addr::ClientAddr;
pub use registry::{Registry, Subscription};
