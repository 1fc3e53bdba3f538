//! The address a server is configured with. The accept loop itself does
//! socket I/O and lives with the caller: it reads a buffer from a
//! connection, parses it with [`crate::http_request::parse`], classifies it
//! with [`crate::router::Router::route`] and writes back a serialized
//! [`crate::http_response::HttpResponse`].

use vstd::prelude::*;

verus! {

/// A server configuration: the socket address to listen on.
pub struct Server<'a> {
    /// The address the surrounding accept loop binds and listens on.
    pub socket_addr: &'a str,
}

impl<'a> Server<'a> {
    /// Remember the socket address to listen on.
    pub fn new(socket_addr: &'a str) -> (s: Self)
        ensures
            s.socket_addr@ == socket_addr@,
    {
        Server { socket_addr }
    }
}

} // verus!
