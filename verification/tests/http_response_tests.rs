use http::headers::Headers;
use http::http_response::HttpResponse;

#[allow(non_snake_case)]
#[test]
fn check_status_200_OK() {
    let response = HttpResponse::new("200", None, Some("lorem ipsum".into()));
    let expected = HttpResponse {
        version: "HTTP/1.1".to_string(),
        status_code: "200".to_string(),
        status_text: "OK".to_string(),
        headers: {
            let mut h = Headers::new();
            h.insert("Content-type".to_string(), "text/html".to_string());
            Some(h)
        },
        body: Some(String::from("lorem ipsum")),
    };
    assert_eq!(response, expected);
}

#[test]
fn check_double_content_length_defined() {
    let body = String::from("lorem ipsum");
    let body_len = &body.len().to_string()[..];
    let mut headers = Headers::new();

    headers.insert("Content-length".to_string(), body_len.to_string());
    headers.insert("Content-type".to_string(), "text/html".to_string());

    let response = HttpResponse::new("200", Some(headers), Some("lorem ipsum".into()));
    let expected = HttpResponse {
        version: "HTTP/1.1".to_string(),
        status_code: "200".to_string(),
        status_text: "OK".to_string(),
        headers: {
            let mut h = Headers::new();
            h.insert("Content-type".to_string(), "text/html".to_string());
            // headers already has a Content-length defined, so serializing
            // must not add a second one
            h.insert("Content-length".to_string(), body_len.to_string());
            Some(h)
        },
        body: Some(body),
    };
    assert_eq!(response, expected);
}

#[test]
fn check_serialization_http_response() {
    let body = "It's a nice day today";
    let response = HttpResponse::new(
        "500",
        {
            let mut h = Headers::new();
            h.insert("Content-type".to_string(), "text/html".to_string());
            Some(h)
        },
        Some(body.to_string()),
    );
    let response_str = String::from(response);

    let expected = format!(
        "HTTP/1.1 500 Internal Server Error\r\nContent-type: text/html\r\nContent-length: {}\r\n\r\n{}",
        body.len(),
        body
    );
    assert_eq!(response_str, expected);
}

#[test]
fn serialize_is_deterministic() {
    let make = || {
        let mut h = Headers::new();
        h.insert("Content-type".to_string(), "text/html".to_string());
        HttpResponse::new("200", Some(h), Some("payload".to_string()))
    };
    let first = make().serialize();
    let second = make().serialize();
    assert_eq!(first, second);
}

#[test]
fn serialize_computes_content_length() {
    let response = HttpResponse::new("200", None, Some("abc".to_string()));
    let out = response.serialize();
    assert!(out.contains("Content-length: 3"));
    // an empty body still gets a length
    let empty = HttpResponse::new("200", None, Some(String::new()));
    assert!(empty.serialize().contains("Content-length: 0"));
}

#[test]
fn serialize_keeps_supplied_content_length() {
    let mut h = Headers::new();
    h.insert("Content-length".to_string(), "11".to_string());
    h.insert("Content-type".to_string(), "text/html".to_string());
    let response = HttpResponse::new("200", Some(h), Some("lorem ipsum".to_string()));
    let out = response.serialize();
    assert_eq!(out.matches("Content-length").count(), 1);
}

#[test]
fn serialize_without_body_has_no_blank_line() {
    let response = HttpResponse::new("200", None, None);
    let out = response.serialize();
    assert_eq!(out, "HTTP/1.1 200 OK\r\nContent-type: text/html");
    assert!(!out.contains("\r\n\r\n"));
}

#[test]
fn unknown_status_code_gets_neutral_text() {
    let response = HttpResponse::new("999", None, None);
    assert_eq!(response.status_text, "Unknown".to_string());
    assert_eq!(response.status_code, "999".to_string());
}

#[test]
fn builder_keeps_caller_content_type() {
    let mut h = Headers::new();
    h.insert("Content-type".to_string(), "application/json".to_string());
    let response = HttpResponse::new("200", Some(h), None);
    let out = response.serialize();
    assert_eq!(out, "HTTP/1.1 200 OK\r\nContent-type: application/json");
}

#[test]
fn status_text_table() {
    assert_eq!(HttpResponse::new("200", None, None).status_text, "OK".to_string());
    assert_eq!(HttpResponse::new("400", None, None).status_text, "Bad Request".to_string());
    assert_eq!(HttpResponse::new("404", None, None).status_text, "Not Found".to_string());
    assert_eq!(
        HttpResponse::new("500", None, None).status_text,
        "Internal Server Error".to_string()
    );
}

#[test]
fn send_response_appends_wire_text() {
    let response = HttpResponse::new("200", None, None);
    let mut sink = String::from("already-written|");
    response.send_response(&mut sink);
    assert_eq!(sink, "already-written|HTTP/1.1 200 OK\r\nContent-type: text/html");
}

#[test]
fn default_response_is_200_ok() {
    let d = HttpResponse::default();
    assert_eq!(d.version, "HTTP/1.1".to_string());
    assert_eq!(d.status_code, "200".to_string());
    assert_eq!(d.status_text, "OK".to_string());
    assert!(d.headers.is_none());
    assert!(d.body.is_none());
}
