//! The three handler kinds a request can dispatch to. Each handler's work —
//! loading a file from the public directory, shaping the JSON payload —
//! touches the file system and lives with the caller; these types name the
//! handlers so that a dispatch target can be carried around as a value.

use vstd::prelude::*;

verus! {

/// Serves the not-found page.
pub struct PageNotFound;

/// Serves static resources.
pub struct StaticHandler;

/// Serves JSON data.
pub struct WebServiceHandler;

} // verus!
