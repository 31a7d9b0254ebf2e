//! Header-block extraction and request parsing.

use horsehttp::parse_request;
use horsehttp::read_headers;
use horsehttp::HttpErrorKind;

fn bytes(s: &str) -> Vec<u8> {
    s.as_bytes().to_vec()
}

#[test]
fn block_split_crlf() {
    let data = bytes("GET / HTTP/1.1\r\nHost: a\r\n\r\nBODY");
    let (block, rest, lines) = read_headers(&data).unwrap();
    assert_eq!(block, bytes("GET / HTTP/1.1\r\nHost: a\r\n\r\n"));
    assert_eq!(rest, bytes("BODY"));
    assert_eq!(lines, 3);
}

#[test]
fn block_split_bare_lf() {
    let data = bytes("GET / HTTP/1.0\n\nxy");
    let (block, rest, lines) = read_headers(&data).unwrap();
    assert_eq!(block, bytes("GET / HTTP/1.0\n\n"));
    assert_eq!(rest, bytes("xy"));
    assert_eq!(lines, 2);
}

#[test]
fn block_without_terminator_is_parse_error() {
    let data = bytes("GET / HTTP/1.1\r\nHost");
    let e = read_headers(&data).unwrap_err();
    assert_eq!(e.kind(), HttpErrorKind::Parse);
}

#[test]
fn block_stops_at_earliest_terminator() {
    let data = bytes("a\r\n\r\nb\r\n\r\nc");
    let (block, rest, _) = read_headers(&data).unwrap();
    assert_eq!(block, bytes("a\r\n\r\n"));
    assert_eq!(rest, bytes("b\r\n\r\nc"));
}

#[test]
fn empty_input_has_no_block() {
    assert!(horsehttp::find_block_end(&Vec::new()).is_none());
}

#[test]
fn request_parses_method_path_version_headers() {
    let block = bytes("POST /save HTTP/1.1\r\nHost: here\r\nX-Tag: one\r\n\r\n");
    let req = parse_request(&block, bytes("tail")).unwrap();
    assert_eq!(req.method, bytes("POST"));
    assert_eq!(req.path, bytes("/save"));
    assert_eq!(req.version, 1);
    assert_eq!(req.headers.len(), 2);
    assert_eq!(req.headers[0].0, bytes("Host"));
    assert_eq!(req.headers[0].1, bytes("here"));
    assert_eq!(req.headers[1].0, bytes("X-Tag"));
    assert_eq!(req.headers[1].1, bytes("one"));
    assert_eq!(req.body_start, bytes("tail"));
}

#[test]
fn request_version_zero() {
    let block = bytes("GET / HTTP/1.0\n\n");
    let req = parse_request(&block, Vec::new()).unwrap();
    assert_eq!(req.version, 0);
    assert!(req.headers.is_empty());
}

#[test]
fn header_value_blanks_are_trimmed() {
    let block = bytes("GET / HTTP/1.1\r\nX:   padded value  \r\n\r\n");
    let req = parse_request(&block, Vec::new()).unwrap();
    assert_eq!(req.headers[0].1, bytes("padded value"));
}

#[test]
fn request_without_version_is_parse_error() {
    let block = bytes("GET /\r\n\r\n");
    let e = parse_request(&block, Vec::new()).unwrap_err();
    assert_eq!(e.kind(), HttpErrorKind::Parse);
}

#[test]
fn request_with_unknown_version_is_parse_error() {
    let block = bytes("GET / HTTP/1.2\r\n\r\n");
    let e = parse_request(&block, Vec::new()).unwrap_err();
    assert_eq!(e.kind(), HttpErrorKind::Parse);
}

#[test]
fn malformed_header_line_is_parse_error() {
    let block = bytes("GET / HTTP/1.1\r\nno colon here\r\n\r\n");
    let e = parse_request(&block, Vec::new()).unwrap_err();
    assert_eq!(e.kind(), HttpErrorKind::Parse);
}

#[test]
fn header_value_may_hold_multi_byte_text() {
    let block = bytes("GET / HTTP/1.1\r\nX-Who: na\u{00ef}ve\r\n\r\n");
    let req = parse_request(&block, Vec::new()).unwrap();
    assert_eq!(req.headers[0].1, "na\u{00ef}ve".as_bytes().to_vec());
}

#[test]
fn header_value_with_invalid_encoding_is_parse_error() {
    let mut block = bytes("GET / HTTP/1.1\r\nX-Who: ");
    block.push(0xff);
    block.extend_from_slice(b"\r\n\r\n");
    let e = parse_request(&block, Vec::new()).unwrap_err();
    assert_eq!(e.kind(), HttpErrorKind::Parse);
}

#[test]
fn duplicate_headers_keep_wire_order() {
    let block = bytes("GET / HTTP/1.1\r\nX-Tag: a\r\nX-Tag: b\r\n\r\n");
    let req = parse_request(&block, Vec::new()).unwrap();
    assert_eq!(req.headers[0].1, bytes("a"));
    assert_eq!(req.headers[1].1, bytes("b"));
}
