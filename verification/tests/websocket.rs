use remote_agent::messages::MessageBuffer;
use remote_agent::websocket::{outgoing_message, read_data, websocket_request, Outgoing, WebSocketManager};

#[test]
fn sessions_get_ws_ids() {
    let mut m: WebSocketManager<u8> = WebSocketManager::new();
    assert_eq!(m.connect(1), "ws-1");
    assert_eq!(m.connect(2), "ws-2");
    assert_eq!(*m.session("ws-2").unwrap(), 2);
    assert_eq!(m.close("ws-1"), Some(1));
    assert_eq!(m.close("ws-1"), None);
    assert_eq!(m.session("ws-1").unwrap_err().message, "WebSocket session not found: ws-1");
    assert_eq!(m.connect(3), "ws-3");
}

#[test]
fn request_is_built_for_valid_input() {
    let headers = vec![
        ("Authorization".to_string(), "Bearer abc".to_string()),
        ("X-Trace".to_string(), "\tok \u{e9}".to_string()),
    ];
    let req = websocket_request(&"ws://localhost:8080/socket".to_string(), &headers).unwrap();
    assert_eq!(req.uri().to_string(), "ws://localhost:8080/socket");
    assert_eq!(req.headers().get("authorization").unwrap(), "Bearer abc");
}

#[test]
fn bad_header_name_is_reported() {
    let headers = vec![("bad name".to_string(), "v".to_string())];
    let err = websocket_request(&"ws://h/".to_string(), &headers).unwrap_err();
    assert_eq!(err.message, "Invalid header name 'bad name': invalid HTTP header name");
}

#[test]
fn bad_header_value_is_reported() {
    let headers = vec![
        ("A".to_string(), "fine".to_string()),
        ("B".to_string(), "line\nbreak".to_string()),
        ("bad name".to_string(), "v".to_string()),
    ];
    let err = websocket_request(&"ws://h/".to_string(), &headers).unwrap_err();
    assert_eq!(err.message, "Invalid header value for 'B': failed to parse header value");
}

#[test]
fn bad_url_is_reported_first() {
    let headers = vec![("bad name".to_string(), "v".to_string())];
    let err = websocket_request(&"ws://bad host/".to_string(), &headers).unwrap_err();
    assert!(err.message.starts_with("Invalid WebSocket URL 'ws://bad host/': "));
    assert!(err.message.len() > "Invalid WebSocket URL 'ws://bad host/': ".len());
}

#[test]
fn binary_wins_over_text() {
    match outgoing_message(vec![1], "t".to_string()) {
        Outgoing::Binary(b) => assert_eq!(b, vec![1]),
        Outgoing::Text(_) => panic!("expected binary"),
    }
    match outgoing_message(vec![], "t".to_string()) {
        Outgoing::Text(t) => assert_eq!(t, "t"),
        Outgoing::Binary(_) => panic!("expected text"),
    }
}

#[test]
fn poll_drains_the_buffer() {
    let mut b = MessageBuffer::new();
    b.push_text("a".to_string());
    let d = read_data(&mut b);
    assert_eq!(d.messages.len(), 1);
    assert!(d.connected);
    let d = read_data(&mut b);
    assert!(d.messages.is_empty());
}

#[test]
fn header_names_are_lower_cased_and_the_last_value_wins() {
    let headers = vec![
        ("X-Trace".to_string(), "first".to_string()),
        ("Sec-Token".to_string(), "t".to_string()),
        ("x-TRACE".to_string(), "second".to_string()),
    ];
    let req = websocket_request(&"wss://example.com/a?b=c".to_string(), &headers).unwrap();
    assert_eq!(req.uri().to_string(), "wss://example.com/a?b=c");
    let mut names: Vec<String> = req.headers().keys().map(|k| k.as_str().to_string()).collect();
    names.sort();
    assert_eq!(names, vec!["sec-token".to_string(), "x-trace".to_string()]);
    assert_eq!(req.headers().get_all("x-trace").iter().count(), 1);
    assert_eq!(req.headers().get("x-trace").unwrap(), "second");
    assert_eq!(req.headers().get("sec-token").unwrap(), "t");
}

#[test]
fn request_without_headers_has_none() {
    let req = websocket_request(&"ws://h:1/".to_string(), &vec![]).unwrap();
    assert!(req.headers().is_empty());
    assert_eq!(req.uri().to_string(), "ws://h:1/");
}
