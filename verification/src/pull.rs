//! The client that mirrors a directory tree, or fetches a file, from another server.
pub mod args;
pub mod error;
pub mod fetch;
pub mod http;
pub mod mirror;
pub mod run;
