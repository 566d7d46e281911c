//! lanfile: the rules of a LAN file server and of the client that mirrors from it.
pub mod access_log;
pub mod assets;
pub mod bytes;
pub mod chunked_file;
pub mod decimal;
pub mod file_cache;
pub mod lan_ip;
pub mod listing;
pub mod log_sink;
pub mod order;
pub mod paths;
pub mod percent;
pub mod pull;
pub mod routes;
pub mod sendfile;
pub mod serve_args;
pub mod text;
pub mod walk;
pub mod zip;
