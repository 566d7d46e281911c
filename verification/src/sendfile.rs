//! Zero-copy file responses: a handler arms a connection with a file range, the response body
//! yields placeholder bytes, and the transport stream sends file content in their place.
pub mod accept;
pub mod body;
pub mod laws;
pub mod registry;
pub mod replies;
pub mod stream;
pub mod target;
pub mod upgrade;
