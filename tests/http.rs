use goat::{parse_response, ProtocolError, Url};

#[test]
fn response_from_server() {
    let text = "HTTP/1.0 200 OK\r\nContent-Type: text/html\r\nContent-Length: 15\r\n\r\n<html>hi</html>";
    let response = parse_response(text).unwrap();
    assert_eq!(response.version, "HTTP/1.0");
    assert_eq!(response.status, "200");
    assert_eq!(response.explanation, "OK\r\n");
    assert_eq!(response.header("content-type"), Some("text/html".to_string()));
    assert_eq!(response.header("content-length"), Some("15".to_string()));
    assert_eq!(response.header("Content-Type"), None);
    assert_eq!(response.body, Some("<html>hi</html>".to_string()));
}

#[test]
fn later_header_wins_and_value_is_trimmed() {
    let text = "HTTP/1.1 404 Not Found\r\nX-A:   one\r\nx-a:\ttwo \r\n\r\n";
    let response = parse_response(text).unwrap();
    assert_eq!(response.status, "404");
    assert_eq!(response.explanation, "Not Found\r\n");
    assert_eq!(response.header("x-a"), Some("two ".to_string()));
    assert_eq!(response.headers.len(), 1);
    assert_eq!(response.body, None);
}

#[test]
fn headers_up_to_end_of_input() {
    let response = parse_response("HTTP/1.0 204 No Content\nServer: s").unwrap();
    assert_eq!(response.explanation, "No Content\n");
    assert_eq!(response.header("server"), Some("s".to_string()));
    assert_eq!(response.body, None);
}

#[test]
fn body_keeps_its_line_breaks() {
    let response = parse_response("HTTP/1.0 200 OK\r\n\r\nline one\r\n\r\nline two").unwrap();
    assert!(response.headers.is_empty());
    assert_eq!(response.body, Some("line one\r\n\r\nline two".to_string()));
}

#[test]
fn bad_status_line_is_a_protocol_error() {
    assert_eq!(parse_response("").err(), Some(ProtocolError::StatusLine));
    assert_eq!(parse_response("garbage").err(), Some(ProtocolError::StatusLine));
    assert_eq!(parse_response("HTTP/1.0 200\r\n\r\n").err(), Some(ProtocolError::StatusLine));
}

#[test]
fn header_without_colon_is_a_protocol_error() {
    assert_eq!(
        parse_response("HTTP/1.0 200 OK\r\nbroken header\r\n\r\nbody").err(),
        Some(ProtocolError::HeaderLine)
    );
}

#[test]
fn request_for_web_address() {
    let url = Url::new("http://localhost:8888/data/index.html");
    assert_eq!(
        url.request_text(),
        Some("GET /data/index.html HTTP/1.0\r\nHost: localhost\r\nUser-Agent: Goat\r\n\r\n".to_string())
    );
    assert_eq!(url.endpoint(), Some(("localhost".to_string(), 8888)));
}

#[test]
fn request_for_empty_path_asks_for_root() {
    let url = Url::new("https://example.org");
    assert_eq!(
        url.request_text(),
        Some("GET / HTTP/1.0\r\nHost: example.org\r\nUser-Agent: Goat\r\n\r\n".to_string())
    );
    assert_eq!(url.endpoint(), Some(("example.org".to_string(), 443)));
}

#[test]
fn request_for_view_source_uses_inner_address() {
    let url = Url::new("view-source:http://h:81/x/");
    assert_eq!(
        url.request_text(),
        Some("GET /x/ HTTP/1.0\r\nHost: h\r\nUser-Agent: Goat\r\n\r\n".to_string())
    );
    assert_eq!(url.endpoint(), Some(("h".to_string(), 81)));
}

#[test]
fn no_request_for_other_schemes() {
    assert_eq!(Url::new("data:text/html,x").request_text(), None);
    assert_eq!(Url::new("file:///tmp/x").endpoint(), None);
}

#[test]
fn header_names_lowercased_beyond_ascii() {
    let response = parse_response("HTTP/1.0 200 OK\r\n\u{C4}rger-\u{D6}L:v\r\n\r\n").unwrap();
    assert_eq!(response.header("\u{E4}rger-\u{F6}l"), Some("v".to_string()));
    assert_eq!(response.header("\u{C4}rger-\u{D6}L"), None);
}

#[test]
fn header_value_loses_all_leading_white_space() {
    let response = parse_response("HTTP/1.0 200 OK\r\nX:\u{A0}\u{2003}\x0Bvalue\r\n\r\n").unwrap();
    assert_eq!(response.header("x"), Some("value".to_string()));
}
