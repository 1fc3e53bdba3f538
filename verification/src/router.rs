//! Dispatching a parsed request to a handler kind.
//!
//! A GET request whose second path segment (the text between the first `/`
//! and the next `/` or the end) is exactly `api` goes to the web-service
//! handler; any other GET goes to the static-file handler; any other method,
//! `POST` and `Invalid` included, goes to the not-found handler. The
//! handlers themselves do I/O and live with the caller; the router's whole
//! contract is this classification.

use crate::http_request::{HttpRequest, Method, SpecRequest};
use crate::strutil::{find_char, find_first, lemma_find_first, str_eq};
use vstd::prelude::*;

verus! {

/// Which handler a request is dispatched to.
#[derive(Debug, PartialEq, Eq, Structural)]
pub enum Dispatch {
    /// Serve a static resource.
    StaticFile,
    /// Serve the JSON web service.
    WebService,
    /// Serve the not-found page.
    NotFound,
}

/// The second segment of a slash-separated path is exactly `api`.
pub open spec fn is_api_path(s: Seq<char>) -> bool {
    let i = find_first(s, '/');
    &&& i != -1
    &&& ({
        let rest = s.skip(i + 1);
        let j = find_first(rest, '/');
        let seg = if j == -1 {
            rest
        } else {
            rest.take(j)
        };
        seg == "api"@
    })
}

/// The handler kind a request dispatches to.
pub open spec fn spec_route(r: SpecRequest) -> Dispatch {
    match r.method {
        Method::Get => if is_api_path(r.resource) {
            Dispatch::WebService
        } else {
            Dispatch::StaticFile
        },
        _ => Dispatch::NotFound,
    }
}

/// Routes a parsed request to the handler kind that should serve it.
pub struct Router;

impl Router {
    /// Classify a parsed request: GET with second path segment `api` to the
    /// web service, every other GET to the static handler, everything else
    /// to not-found.
    pub fn route(req: &HttpRequest) -> (d: Dispatch)
        ensures
            d == spec_route(req@),
    {
        match req.method {
            Method::Get => {
                let s = req.resource.as_str();
                proof {
                    lemma_find_first(s@, '/');
                }
                match find_char(s, '/') {
                    None => Dispatch::StaticFile,
                    Some(i) => {
                        let len = s.unicode_len();
                        let rest = s.substring_char(i + 1, len);
                        proof {
                            assert(rest@ =~= s@.skip(i as int + 1));
                            lemma_find_first(rest@, '/');
                        }
                        let seg = match find_char(rest, '/') {
                            None => rest,
                            Some(j) => rest.substring_char(0, j),
                        };
                        proof {
                            let j = find_first(rest@, '/');
                            if j != -1 {
                                assert(seg@ =~= rest@.take(j));
                            }
                        }
                        if str_eq(seg, "api") {
                            Dispatch::WebService
                        } else {
                            Dispatch::StaticFile
                        }
                    },
                }
            },
            _ => Dispatch::NotFound,
        }
    }
}

} // verus!
