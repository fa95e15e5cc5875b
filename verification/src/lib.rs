//! A small HTTP/1.1 server library: wire-level request decoding, a response
//! builder, an ordered middleware pipeline, session tracking, and the
//! decision logic of the connection loop, with machine-checked contracts.

pub mod connection;
pub mod cookies;
pub mod files;
pub mod logrotate;
pub mod middleware;
pub mod parser;
pub mod request;
pub mod response;
pub mod router;
pub mod session;
pub mod strmap;
pub mod strutil;
pub mod sys;
