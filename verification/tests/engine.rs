//! The client state machine: response framing, header lookup, body reads,
//! and the supervisor's completion rules.

use horsehttp::bad_request_response;
use horsehttp::complete_request;
use horsehttp::parse_request;
use horsehttp::Client;
use horsehttp::HttpErrorKind;
use horsehttp::HttpRequestHandler;
use horsehttp::PeerAddr;

fn bytes(s: &str) -> Vec<u8> {
    s.as_bytes().to_vec()
}

fn client_for(block: &str, body_start: &str) -> Client {
    let req = parse_request(&bytes(block), bytes(body_start)).unwrap();
    Client::new(req, PeerAddr::new("127.0.0.1", 1337))
}

#[test]
fn first_write_flushes_status_line_exactly_once() {
    let mut c = client_for("GET / HTTP/1.1\r\n\r\n", "");
    c.write_all(b"hello");
    assert_eq!(
        c.take_output(),
        bytes("HTTP/1.1 200 Ok\r\nConnection: close\r\n\r\nhello")
    );
    c.write_all(b" again");
    assert_eq!(c.take_output(), bytes(" again"));
}

#[test]
fn send_response_writes_head_with_no_body() {
    let mut c = client_for("GET / HTTP/1.0\r\n\r\n", "");
    c.set_response(404, "Not Found").unwrap();
    c.send_response().unwrap();
    assert_eq!(
        c.take_output(),
        bytes("HTTP/1.0 404 Not Found\r\nConnection: close\r\n\r\n")
    );
}

#[test]
fn set_response_after_send_fails_with_state_error() {
    let mut c = client_for("GET / HTTP/1.1\r\n\r\n", "");
    c.send_response().unwrap();
    let e = c.set_response(404, "Not Found").unwrap_err();
    assert_eq!(e.kind(), HttpErrorKind::State);
    let e2 = c.send_response().unwrap_err();
    assert_eq!(e2.kind(), HttpErrorKind::State);
}

#[test]
fn set_response_after_first_body_write_fails_with_state_error() {
    let mut c = client_for("GET / HTTP/1.1\r\n\r\n", "");
    c.write_all(b"body");
    let e = c.set_response(404, "Not Found").unwrap_err();
    assert_eq!(e.kind(), HttpErrorKind::State);
}

#[test]
fn control_characters_in_status_message_are_rejected() {
    let mut c = client_for("GET / HTTP/1.1\r\n\r\n", "");
    let e = c.set_response(200, "bad\r\nmessage").unwrap_err();
    assert_eq!(e.kind(), HttpErrorKind::State);
    assert!(!c.response_sent());
}

#[test]
fn overriding_headers_never_emits_a_status_line() {
    let mut c = client_for("GET / HTTP/1.1\r\n\r\n", "");
    c.write_all_overriding_headers(b"raw bytes");
    assert!(c.response_sent());
    assert_eq!(c.take_output(), bytes("raw bytes"));
}

#[test]
fn request_header_joins_values_case_insensitively() {
    let mut c = client_for(
        "GET / HTTP/1.1\r\nX-Tag: a\r\nx-tag: b\r\nOther: z\r\n\r\n",
        "",
    );
    assert_eq!(c.request_header("X-TAG"), Some(String::from("a, b")));
    assert_eq!(c.request_header("other"), Some(String::from("z")));
    assert_eq!(c.request_header("absent"), None);
    let _ = c.take_output();
}

#[test]
fn request_header_returns_multi_byte_text() {
    let c = client_for("GET / HTTP/1.1\r\nX-Who: na\u{00ef}ve\r\n\r\n", "");
    assert_eq!(c.request_header("x-who"), Some(String::from("na\u{00ef}ve")));
}

#[test]
fn content_length_parses_declared_value() {
    let c = client_for("POST / HTTP/1.1\r\nContent-Length: 42\r\n\r\n", "");
    assert_eq!(c.content_length().unwrap(), Some(42));
}

#[test]
fn content_length_absent_is_none() {
    let c = client_for("POST / HTTP/1.1\r\n\r\n", "");
    assert_eq!(c.content_length().unwrap(), None);
}

#[test]
fn content_length_malformed_is_parse_error() {
    let c = client_for("POST / HTTP/1.1\r\nContent-Length: abc\r\n\r\n", "");
    let e = c.content_length().unwrap_err();
    assert_eq!(e.kind(), HttpErrorKind::Parse);
}

#[test]
fn body_reader_without_content_length_is_config_error() {
    let mut c = client_for("POST / HTTP/1.1\r\n\r\n", "data");
    let e = c.body_reader().unwrap_err();
    assert_eq!(e.kind(), HttpErrorKind::Config);
}

#[test]
fn body_reader_yields_exactly_the_declared_length() {
    let mut c = client_for("POST / HTTP/1.1\r\nContent-Length: 4\r\n\r\n", "12345678");
    let mut br = c.body_reader().unwrap();
    let body = br.read_to_end(&mut c);
    assert_eq!(body, bytes("1234"));
    assert_eq!(br.remaining(), 0);
    let more = br.read(&mut c, 16);
    assert!(more.is_empty());
}

#[test]
fn body_reader_drains_preread_bytes_before_supplied_ones() {
    let mut c = client_for("POST / HTTP/1.1\r\nContent-Length: 4\r\n\r\n", "AB");
    c.supply(b"CDE");
    let mut br = c.body_reader().unwrap();
    let body = br.read_to_end(&mut c);
    assert_eq!(body, bytes("ABCD"));
}

#[test]
fn body_reader_with_malformed_length_is_parse_error() {
    let mut c = client_for("POST /save HTTP/1.1\r\nContent-Length: abc\r\n\r\n", "xy");
    let e = c.body_reader().unwrap_err();
    assert_eq!(e.kind(), HttpErrorKind::Parse);
}

#[test]
fn body_reader_with_oversized_length_is_parse_error() {
    let mut c = client_for(
        "POST / HTTP/1.1\r\nContent-Length: 99999999999999999999999999\r\n\r\n",
        "",
    );
    let e = c.body_reader().unwrap_err();
    assert_eq!(e.kind(), HttpErrorKind::Parse);
}

#[test]
fn zero_length_body_reads_nothing() {
    let mut c = client_for("POST / HTTP/1.1\r\nContent-Length: 0\r\n\r\n", "extra");
    let mut br = c.body_reader().unwrap();
    assert_eq!(br.remaining(), 0);
    assert!(br.read_to_end(&mut c).is_empty());
}

#[test]
fn direct_reads_drain_pending_bytes_in_order() {
    let mut c = client_for("POST / HTTP/1.1\r\n\r\n", "abcdef");
    assert_eq!(c.read_buffered(0), Vec::<u8>::new());
    assert_eq!(c.read_buffered(4), bytes("abcd"));
    assert_eq!(c.read_buffered(4), bytes("ef"));
    assert_eq!(c.read_buffered(4), Vec::<u8>::new());
    c.supply(b"gh");
    assert_eq!(c.read_buffered(4), bytes("gh"));
}

#[test]
fn second_body_reader_while_open_is_state_error() {
    let mut c = client_for("POST / HTTP/1.1\r\nContent-Length: 2\r\n\r\n", "ab");
    let br = c.body_reader().unwrap();
    let e = c.body_reader().unwrap_err();
    assert_eq!(e.kind(), HttpErrorKind::State);
    c.finish_body(br);
    assert!(c.body_reader().is_ok());
}

struct DefaultHandler {}

impl HttpRequestHandler for DefaultHandler {}

struct GreetingHandler {}

impl HttpRequestHandler for GreetingHandler {
    fn do_get(&mut self, client: &mut Client) -> Result<(), horsehttp::HttpError> {
        client.write_all(b"hello caller");
        Ok(())
    }
}

#[test]
fn unmapped_method_answers_405() {
    let mut c = client_for("PUT / HTTP/1.1\r\n\r\n", "");
    let mut h = DefaultHandler {};
    h.handle(&mut c).unwrap();
    complete_request(&mut c, false);
    assert_eq!(
        c.take_output(),
        bytes("HTTP/1.1 405 Method Not Allowed\r\nConnection: close\r\n\r\n")
    );
}

#[test]
fn get_root_serves_the_greeting() {
    let mut c = client_for("GET / HTTP/1.1\r\n\r\n", "");
    let mut h = GreetingHandler {};
    h.handle(&mut c).unwrap();
    complete_request(&mut c, false);
    assert_eq!(
        c.take_output(),
        bytes("HTTP/1.1 200 Ok\r\nConnection: close\r\n\r\nhello caller")
    );
}

#[test]
fn handler_failure_before_any_byte_yields_500() {
    let mut c = client_for("GET /panic HTTP/1.1\r\n\r\n", "");
    complete_request(&mut c, true);
    assert_eq!(
        c.take_output(),
        bytes("HTTP/1.1 500 Internal Server Error\r\nConnection: close\r\n\r\nerr: internal")
    );
}

#[test]
fn handler_failure_after_bytes_appends_nothing() {
    let mut c = client_for("GET / HTTP/1.1\r\n\r\n", "");
    c.write_all(b"partial");
    let _ = c.take_output();
    complete_request(&mut c, true);
    assert!(c.take_output().is_empty());
}

#[test]
fn successful_handler_with_no_response_flushes_200() {
    let mut c = client_for("HEAD / HTTP/1.0\r\n\r\n", "");
    complete_request(&mut c, false);
    assert_eq!(
        c.take_output(),
        bytes("HTTP/1.0 200 Ok\r\nConnection: close\r\n\r\n")
    );
}

#[test]
fn bad_request_bytes_are_the_fixed_literal() {
    assert_eq!(
        bad_request_response(),
        bytes("HTTP/1.0 400 Bad Request\r\nConnection: close\r\n\r\nerr: bad request\r\n")
    );
}

#[test]
fn accessors_report_the_request() {
    let c = client_for("GET /path HTTP/1.1\r\n\r\n", "");
    assert_eq!(c.method(), String::from("GET"));
    assert_eq!(c.path(), String::from("/path"));
    let a = c.addr();
    assert_eq!(a.ip, String::from("127.0.0.1"));
    assert_eq!(a.port, 1337);
    assert!(!c.response_sent());
}
