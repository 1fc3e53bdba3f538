use http::headers::Headers;
use http::http_request::{parse, HttpRequest, Method, Resource, Version};
use http::router::{Dispatch, Router};
use http::server::Server;

fn get_request(path: &str) -> HttpRequest {
    HttpRequest {
        method: Method::Get,
        version: Version::V1_1,
        resource: Resource::from(path),
        headers: Headers::new(),
        body: None,
    }
}

#[test]
fn get_api_path_dispatches_to_web_service() {
    let req = get_request("/api/shipping/orders");
    assert_eq!(Router::route(&req), Dispatch::WebService);
    let bare = get_request("/api");
    assert_eq!(Router::route(&bare), Dispatch::WebService);
}

#[test]
fn get_static_path_dispatches_to_static_handler() {
    let req = get_request("/index.html");
    assert_eq!(Router::route(&req), Dispatch::StaticFile);
    // without a slash there is no second segment
    let bare = get_request("api");
    assert_eq!(Router::route(&bare), Dispatch::StaticFile);
    // a longer second segment is not `api`
    let near_miss = get_request("/apis/thing");
    assert_eq!(Router::route(&near_miss), Dispatch::StaticFile);
}

#[test]
fn non_get_methods_dispatch_to_not_found() {
    let mut req = get_request("/index.html");
    req.method = Method::Post;
    assert_eq!(Router::route(&req), Dispatch::NotFound);
    req.method = Method::Invalid;
    assert_eq!(Router::route(&req), Dispatch::NotFound);
}

#[test]
fn routing_a_parsed_request() {
    let req = parse("GET /api/anything HTTP/1.1\r\n\r\n");
    assert_eq!(Router::route(&req), Dispatch::WebService);
    let other = parse("GET /index.html HTTP/1.1\r\n\r\n");
    assert_eq!(Router::route(&other), Dispatch::StaticFile);
    let post = parse("POST /api/anything HTTP/1.1\r\n\r\n");
    assert_eq!(Router::route(&post), Dispatch::NotFound);
}

#[test]
fn server_remembers_socket_address() {
    let server = Server::new("localhost:3000");
    assert_eq!(server.socket_addr, "localhost:3000");
}
