//! A small verified HTTP/1.1 message layer: parsing a raw text buffer into a
//! structured request, building a structured response and serializing it back
//! into wire text, and dispatching a parsed request to a handler kind by
//! method and path.
//!
//! The surrounding socket plumbing (accepting connections, loading files from
//! disk) is deliberately not part of this crate: the library consumes and
//! produces plain text buffers and structured values only.

pub mod handler;
pub mod headers;
pub mod http_request;
pub mod http_response;
pub mod router;
pub mod server;
pub mod strutil;
