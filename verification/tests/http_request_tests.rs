use http::headers::Headers;
use http::http_request::{parse, process_header_line, process_request_line, HttpRequest, Method,
    Resource, Version};

#[allow(non_snake_case)]
#[test]
fn test_FromTrait_impl() {
    let get: Method = "GET".into();
    assert_eq!(Method::Get, get);

    let post = Method::from("POST");
    assert_eq!(Method::Post, post);

    assert_eq!(Version::from("HTTP/2"), Version::V2_0);
}

#[test]
fn test_httprequest() {
    let s = format!(
        "{} {} {}Host: localhost:3000\r\n{}Accept: */*\r\n\r\n",
        "GET", "/index.html", "HTTP/1.1\r\n", "User-Agent: curl/1.1.1\r\n",
    );

    let test = HttpRequest::from(&s);

    // expected values
    let _method = Method::from("GET");
    let _version = Version::from("HTTP/1.1");
    let _resource = Resource::from("/index.html");
    let mut _headers = Headers::new();
    // mind the leading whitespace in the following values
    _headers.insert("User-Agent".into(), " curl/1.1.1".into());
    _headers.insert("Accept".into(), " */*".into());
    _headers.insert("Host".into(), " localhost:3000".into());

    assert_eq!(test.method, _method);
    assert_eq!(test.version, _version);
    assert_eq!(test.resource, _resource);
    assert_eq!(test.headers, _headers);
}

#[test]
fn parse_full_request_scenario() {
    let s = "GET /index.html HTTP/1.1\r\nHost: localhost:3000\r\nUser-Agent: curl/1.1.1\r\nAccept: */*\r\n\r\n";
    let req = parse(s);
    assert_eq!(req.method, Method::Get);
    assert_eq!(req.version, Version::V1_1);
    assert_eq!(req.resource, Resource::from("/index.html"));
    let mut expected = Headers::new();
    expected.insert("Host".into(), " localhost:3000".into());
    expected.insert("User-Agent".into(), " curl/1.1.1".into());
    expected.insert("Accept".into(), " */*".into());
    assert_eq!(req.headers, expected);
    assert!(req.body.is_none());
}

#[test]
fn parse_unrecognized_tokens_become_invalid() {
    assert_eq!(Method::from("PUT"), Method::Invalid);
    assert_eq!(Method::from("get"), Method::Invalid);
    assert_eq!(Version::from("HTTP/3"), Version::Invalid);
    assert_eq!(Version::from(""), Version::Invalid);
}

#[test]
fn parse_empty_buffer_gives_defaults() {
    let req = parse("");
    assert_eq!(req.method, Method::Invalid);
    assert_eq!(req.version, Version::Invalid);
    assert_eq!(req.resource, Resource::from(""));
    assert_eq!(req.headers, Headers::new());
    assert!(req.body.is_none());
}

#[test]
fn parse_malformed_request_line_is_skipped() {
    // the line contains HTTP but fewer than three tokens: it is skipped
    let req = parse("HTTP\r\nHost: here\r\n");
    assert_eq!(req.method, Method::Invalid);
    assert_eq!(req.version, Version::Invalid);
    assert_eq!(req.resource, Resource::from(""));
    let mut expected = Headers::new();
    expected.insert("Host".into(), " here".into());
    assert_eq!(req.headers, expected);
}

#[test]
fn parse_body_lines_concatenate_without_separator() {
    let req = parse("POST /form HTTP/1.1\r\n\r\nhello\r\nworld\r\n");
    assert_eq!(req.method, Method::Post);
    assert_eq!(req.body, Some("helloworld".to_string()));
}

#[test]
fn parse_duplicate_header_key_last_wins() {
    let req = parse("Accept:one\r\nAccept:two\r\n");
    let mut expected = Headers::new();
    expected.insert("Accept".into(), "two".into());
    assert_eq!(req.headers, expected);
}

#[test]
fn parse_header_value_keeps_leading_space() {
    let (k, v) = process_header_line("Key: Value");
    assert_eq!(k, "Key".to_string());
    assert_eq!(v, " Value".to_string());
    // splitting happens at the first colon only
    let (k2, v2) = process_header_line("Host: localhost:3000");
    assert_eq!(k2, "Host".to_string());
    assert_eq!(v2, " localhost:3000".to_string());
}

#[test]
fn process_request_line_reads_three_tokens() {
    let parsed = process_request_line("GET /index.html HTTP/1.1");
    match parsed {
        Some((m, v, r)) => {
            assert_eq!(m, Method::Get);
            assert_eq!(v, Version::V1_1);
            assert_eq!(r, Resource::from("/index.html"));
        },
        None => panic!("a three-token request line must parse"),
    }
    assert!(process_request_line("GET HTTP/1.1").is_none());
}

#[test]
fn headers_equality_ignores_insertion_order() {
    let mut a = Headers::new();
    a.insert("A".into(), "1".into());
    a.insert("B".into(), "2".into());
    let mut b = Headers::new();
    b.insert("B".into(), "2".into());
    b.insert("A".into(), "1".into());
    assert_eq!(a, b);
    let mut c = Headers::new();
    c.insert("A".into(), "1".into());
    assert_ne!(a, c);
    assert_eq!(a.get("A"), Some(&"1".to_string()));
    assert_eq!(a.get("C"), None);
    assert!(a.contains_key("B"));
    assert!(!a.contains_key("b"));
}
