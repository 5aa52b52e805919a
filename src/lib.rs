//! The core of a small HTTP/1.1 server: request parsing, response
//! building and serialisation, and routing.
pub mod bytes;
pub mod headers;
pub mod method;
pub mod request;
pub mod response;
pub mod router;
pub mod wire;
