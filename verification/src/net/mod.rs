//! The decisions of the TCP side: what the server does with a request, and
//! what a client makes of the server's reply.
pub mod handler;
