use remote_agent::http::{http_method, http_response, status_response, HttpMethod};

#[test]
fn methods_in_any_case() {
    assert!(http_method("get").unwrap() == HttpMethod::Get);
    assert!(http_method("Delete").unwrap() == HttpMethod::Delete);
    assert!(http_method("POST").unwrap() == HttpMethod::Post);
}

#[test]
fn other_methods_are_refused() {
    assert_eq!(http_method("put").unwrap_err().message, "Unsupported HTTP method: put");
    assert_eq!(http_method("").unwrap_err().message, "Unsupported HTTP method: ");
}

#[test]
fn response_keeps_text_headers() {
    let r = http_response(
        200,
        vec![
            ("content-type".to_string(), Some("text/plain".to_string())),
            ("x-bin".to_string(), None),
        ],
        b"body".to_vec(),
    );
    assert_eq!(r.status_code, 200);
    assert_eq!(r.body, b"body".to_vec());
    assert_eq!(r.headers, Some(vec![("content-type".to_string(), "text/plain".to_string())]));
}

#[test]
fn response_without_text_headers_has_none() {
    let r = http_response(204, vec![("x".to_string(), None)], vec![]);
    assert!(r.headers.is_none());
    let r = http_response(204, vec![], vec![]);
    assert!(r.headers.is_none());
}

#[test]
fn error_status_reply() {
    let r = status_response(404);
    assert_eq!(r.status_code, 404);
    assert!(r.body.is_empty());
    assert!(r.headers.is_none());
}
