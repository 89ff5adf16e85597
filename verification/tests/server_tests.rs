use http_server::handlers::{
    echo, files, read_file_response, user_agent, write_file_response, Action, FileOutcome,
};
use http_server::http::{Header, ParseError, Request};
use http_server::response::{parse_status_line, Response};
use http_server::server::{handle_request, route, Route};
use http_server::text::{parse_dec, str_eq, str_has_prefix, usize_to_string};

fn reply_of(action: Action) -> Response {
    match action {
        Action::Reply(r) => r,
        _ => panic!("expected a direct reply"),
    }
}

fn header(name: &str, value: &str) -> Header {
    Header {
        name: name.to_string(),
        value: value.to_string(),
    }
}

fn has_header(r: &Response, name: &str, value: &str) -> bool {
    r.headers
        .iter()
        .any(|h| h.name == name && h.value == value)
}

#[test]
fn request_line_parses() {
    let (n, req) = Request::from_bytes(b"GET /x HTTP/1.1\r\nrest").unwrap();
    assert_eq!(n, 17);
    assert_eq!(req.method, "GET");
    assert_eq!(req.path, "/x");
    assert_eq!(req.http_version, "HTTP/1.1");
}

#[test]
fn request_line_any_method() {
    let (n, req) = Request::from_bytes(b"POST /files/a HTTP/1.1\r\n").unwrap();
    assert_eq!(n, 24);
    assert_eq!(req.method, "POST");
    assert_eq!(req.path, "/files/a");
}

#[test]
fn request_line_rejects_wrong_version() {
    let r = Request::from_bytes(b"GET /x HTTP/1.0\r\n\r\n");
    assert_eq!(r.unwrap_err(), ParseError::MalformedRequestLine);
}

#[test]
fn request_line_rejects_missing_crlf() {
    let r = Request::from_bytes(b"GET /x HTTP/1.1");
    assert_eq!(r.unwrap_err(), ParseError::MalformedRequestLine);
}

#[test]
fn request_line_rejects_empty_path() {
    let r = Request::from_bytes(b"GET  HTTP/1.1\r\n");
    assert_eq!(r.unwrap_err(), ParseError::MalformedRequestLine);
}

#[test]
fn request_line_rejects_empty_input() {
    let r = Request::from_bytes(b"");
    assert_eq!(r.unwrap_err(), ParseError::MalformedRequestLine);
}

#[test]
fn request_line_decodes_invalid_utf8_lossily() {
    let (_, req) = Request::from_bytes(b"GET /\xFF HTTP/1.1\r\n").unwrap();
    assert_eq!(req.path, "/\u{FFFD}");
}

#[test]
fn header_parses() {
    let (n, h) = Header::from_bytes(b"Host: here\r\nmore").unwrap();
    assert_eq!(n, 12);
    assert_eq!(h.name, "Host");
    assert_eq!(h.value, "here");
}

#[test]
fn header_rejects_missing_colon() {
    let r = Header::from_bytes(b"NoColon\r\n");
    assert_eq!(r.unwrap_err(), ParseError::MalformedHeader);
}

#[test]
fn header_rejects_missing_space() {
    let r = Header::from_bytes(b"Name:value\r\n");
    assert_eq!(r.unwrap_err(), ParseError::MalformedHeader);
}

#[test]
fn headers_parse_in_order_and_stop_at_body() {
    let (n, hs) = Header::parse_all(b"A: 1\r\nB: 2\r\n\r\nBODY").unwrap();
    assert_eq!(n, 14);
    assert_eq!(hs.len(), 2);
    assert_eq!(hs[0].name, "A");
    assert_eq!(hs[0].value, "1");
    assert_eq!(hs[1].name, "B");
    assert_eq!(hs[1].value, "2");
}

#[test]
fn headers_keep_duplicates() {
    let (_, hs) = Header::parse_all(b"K: one\r\nK: two\r\n\r\n").unwrap();
    assert_eq!(hs.len(), 2);
    assert_eq!(hs[0].value, "one");
    assert_eq!(hs[1].value, "two");
}

#[test]
fn headers_parse_without_terminator() {
    let (n, hs) = Header::parse_all(b"User-Agent: x\r\n").unwrap();
    assert_eq!(n, 15);
    assert_eq!(hs.len(), 1);
    assert_eq!(hs[0].name, "User-Agent");
}

#[test]
fn headers_empty_input() {
    let (n, hs) = Header::parse_all(b"").unwrap();
    assert_eq!(n, 0);
    assert!(hs.is_empty());
}

#[test]
fn headers_consume_only_the_blank_line() {
    let (n, hs) = Header::parse_all(b"\r\n\r\nabc").unwrap();
    assert_eq!(n, 2);
    assert!(hs.is_empty());
}

#[test]
fn headers_reject_bad_line() {
    let r = Header::parse_all(b"A: 1\r\njunk");
    assert_eq!(r.unwrap_err(), ParseError::MalformedHeader);
}

#[test]
fn routes_select_by_precedence() {
    assert_eq!(route("/"), Route::Root);
    assert_eq!(route("/echo/abc"), Route::Echo);
    assert_eq!(route("/echo"), Route::Echo);
    assert_eq!(route("/user-agent"), Route::UserAgent);
    assert_eq!(route("/files/a.txt"), Route::Files);
    assert_eq!(route("/files"), Route::Files);
    assert_eq!(route("/elsewhere"), Route::Unknown);
    assert_eq!(route("/echoXYZ"), Route::Unknown);
}

#[test]
fn scenario_echo_hello() {
    let r = reply_of(handle_request(b"GET /echo/hello HTTP/1.1\r\n\r\n", "."));
    assert_eq!(r.status, 200);
    assert!(has_header(&r, "Content-Type", "text/plain"));
    assert!(has_header(&r, "Content-Length", "5"));
    assert_eq!(r.body, b"hello");
}

#[test]
fn scenario_echo_empty() {
    let r = reply_of(handle_request(b"GET /echo/ HTTP/1.1\r\n\r\n", "."));
    assert_eq!(r.status, 200);
    assert!(has_header(&r, "Content-Length", "0"));
    assert!(r.body.is_empty());
}

#[test]
fn scenario_user_agent() {
    let r = reply_of(handle_request(
        b"GET /user-agent HTTP/1.1\r\nUser-Agent: curl/7.81\r\n\r\n",
        ".",
    ));
    assert_eq!(r.status, 200);
    assert!(has_header(&r, "Content-Type", "text/plain"));
    assert!(has_header(&r, "Content-Length", "9"));
    assert_eq!(r.body, b"curl/7.81");
}

#[test]
fn scenario_user_agent_missing() {
    let r = reply_of(handle_request(b"GET /user-agent HTTP/1.1\r\n\r\n", "."));
    assert_eq!(r.status, 400);
}

#[test]
fn user_agent_first_match_wins() {
    let hs = [header("User-Agent", "one"), header("User-Agent", "two")];
    let r = user_agent(&hs);
    assert_eq!(r.status, 200);
    assert_eq!(r.body, b"one");
}

#[test]
fn scenario_file_read_missing() {
    match handle_request(b"GET /files/missing.txt HTTP/1.1\r\n\r\n", "") {
        Action::ReadFile { path } => assert_eq!(path, "/missing.txt"),
        _ => panic!("expected a file read"),
    }
    let r = read_file_response(FileOutcome::Missing);
    assert_eq!(r.status, 404);
    assert!(r.body.is_empty());
}

#[test]
fn scenario_file_write() {
    match handle_request(
        b"POST /files/new.txt HTTP/1.1\r\nContent-Length: 3\r\n\r\nabc",
        "root",
    ) {
        Action::WriteFile { path, contents } => {
            assert_eq!(path, "root/new.txt");
            assert_eq!(contents, b"abc");
        }
        _ => panic!("expected a file write"),
    }
    assert_eq!(write_file_response(true).status, 201);
    let read_back = read_file_response(FileOutcome::Content(b"abc".to_vec()));
    assert_eq!(read_back.status, 200);
    assert!(has_header(&read_back, "Content-Type", "application/octet-stream"));
    assert!(has_header(&read_back, "Content-Length", "3"));
    assert_eq!(read_back.body, b"abc");
}

#[test]
fn file_write_truncates_to_buffered_bytes() {
    match handle_request(
        b"POST /files/n HTTP/1.1\r\nContent-Length: 10\r\n\r\nab",
        "r",
    ) {
        Action::WriteFile { contents, .. } => assert_eq!(contents, b"ab"),
        _ => panic!("expected a file write"),
    }
}

#[test]
fn file_write_without_length_is_rejected() {
    let r = reply_of(handle_request(b"POST /files/n HTTP/1.1\r\n\r\nabc", "r"));
    assert_eq!(r.status, 400);
}

#[test]
fn file_write_with_bad_length_is_rejected() {
    let r = reply_of(handle_request(
        b"POST /files/n HTTP/1.1\r\nContent-Length: 3x\r\n\r\nabc",
        "r",
    ));
    assert_eq!(r.status, 400);
}

#[test]
fn file_route_with_other_method_is_rejected() {
    let r = reply_of(handle_request(b"PUT /files/n HTTP/1.1\r\n\r\n", "r"));
    assert_eq!(r.status, 400);
}

#[test]
fn scenario_unknown_path() {
    let r = reply_of(handle_request(b"GET /unknown HTTP/1.1\r\n\r\n", "."));
    assert_eq!(r.status, 404);
    assert!(r.body.is_empty());
}

#[test]
fn scenario_echo_without_content() {
    let r = reply_of(handle_request(b"GET /echo HTTP/1.1\r\n\r\n", "."));
    assert_eq!(r.status, 400);
}

#[test]
fn root_is_ok_whatever_headers_come() {
    for extra in ["", "User-Agent: x\r\n", "A: 1\r\nB: 2\r\n"] {
        let raw = format!("GET / HTTP/1.1\r\n{}\r\n", extra);
        let r = reply_of(handle_request(raw.as_bytes(), "."));
        assert_eq!(r.status, 200);
        assert!(r.headers.is_empty());
        assert!(r.body.is_empty());
    }
}

#[test]
fn malformed_request_line_is_answered_400() {
    let r = reply_of(handle_request(b"nonsense", "."));
    assert_eq!(r.status, 400);
}

#[test]
fn malformed_header_is_answered_400() {
    let r = reply_of(handle_request(b"GET / HTTP/1.1\r\nbadheader", "."));
    assert_eq!(r.status, 400);
}

#[test]
fn render_writes_wire_form() {
    let r = Response {
        status: 200,
        headers: vec![header("Content-Type", "text/plain"), header("Content-Length", "5")],
        body: b"hello".to_vec(),
    };
    let out = r.render();
    assert_eq!(
        out,
        b"HTTP/1.1 200 OK\r\nContent-Type: text/plain\r\nContent-Length: 5\r\n\r\nhello"
    );
}

#[test]
fn render_then_parse_round_trips() {
    let r = Response {
        status: 404,
        headers: vec![header("Content-Type", "text/plain"), header("Content-Length", "4")],
        body: b"gone".to_vec(),
    };
    let out = r.render();
    let (after_status, status) = parse_status_line(&out).unwrap();
    assert_eq!(status, 404);
    let (consumed, hs) = Header::parse_all(&out[after_status..]).unwrap();
    assert_eq!(hs.len(), 2);
    assert_eq!(hs[0].name, "Content-Type");
    assert_eq!(hs[0].value, "text/plain");
    assert_eq!(hs[1].name, "Content-Length");
    assert_eq!(hs[1].value, "4");
    assert_eq!(&out[after_status + consumed..], b"gone");
    assert_eq!(hs[1].value.parse::<usize>().unwrap(), r.body.len());
}

#[test]
fn status_lines_render_distinctly() {
    for (status, text) in [
        (200u16, "HTTP/1.1 200 OK\r\n"),
        (201, "HTTP/1.1 201 Created\r\n"),
        (400, "HTTP/1.1 400 Bad Request\r\n"),
        (404, "HTTP/1.1 404 Not Found\r\n"),
        (500, "HTTP/1.1 500 Internal Server Error\r\n"),
    ] {
        let r = Response { status, headers: vec![], body: vec![] };
        let out = r.render();
        assert_eq!(out, [text.as_bytes(), b"\r\n"].concat());
        let (n, parsed) = parse_status_line(&out).unwrap();
        assert_eq!(parsed, status);
        assert_eq!(n, text.len());
    }
}

#[test]
fn write_failure_maps_to_500() {
    assert_eq!(write_file_response(false).status, 500);
    assert_eq!(read_file_response(FileOutcome::Failure).status, 500);
}

#[test]
fn echo_handler_directly() {
    let req = Request {
        method: "GET".to_string(),
        path: "/echo/a b".to_string(),
        http_version: "HTTP/1.1".to_string(),
    };
    let r = echo(&req);
    assert_eq!(r.status, 200);
    assert_eq!(r.body, b"a b");
}

#[test]
fn files_handler_rejects_bare_prefix() {
    let req = Request {
        method: "GET".to_string(),
        path: "/files".to_string(),
        http_version: "HTTP/1.1".to_string(),
    };
    let r = reply_of(files(&req, &[], b"", "root"));
    assert_eq!(r.status, 400);
}

#[test]
fn decimal_formatting() {
    assert_eq!(usize_to_string(0), "0");
    assert_eq!(usize_to_string(5), "5");
    assert_eq!(usize_to_string(1024), "1024");
}

#[test]
fn decimal_parsing() {
    assert_eq!(parse_dec("0"), Some(0));
    assert_eq!(parse_dec("007"), Some(7));
    assert_eq!(parse_dec("1024"), Some(1024));
    assert_eq!(parse_dec(""), None);
    assert_eq!(parse_dec("12a"), None);
    assert_eq!(parse_dec("-3"), None);
    assert_eq!(parse_dec("99999999999999999999999999"), None);
}

#[test]
fn string_helpers() {
    assert!(str_eq("abc", "abc"));
    assert!(!str_eq("abc", "abd"));
    assert!(!str_eq("abc", "ab"));
    assert!(str_has_prefix("/echo/x", "/echo/"));
    assert!(!str_has_prefix("/echo", "/echo/"));
}
