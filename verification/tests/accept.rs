//! The composed request-opening path.

use horsehttp::accept_request;
use horsehttp::HttpErrorKind;
use horsehttp::PeerAddr;

#[test]
fn accept_request_builds_a_client_with_the_preread_body() {
    let data = b"POST /up HTTP/1.1\r\nContent-Length: 6\r\n\r\npre-re".to_vec();
    let mut c = accept_request(&data, PeerAddr::new("10.0.0.1", 80)).unwrap();
    assert_eq!(c.method(), String::from("POST"));
    assert_eq!(c.path(), String::from("/up"));
    let mut br = c.body_reader().unwrap();
    assert_eq!(br.read_to_end(&mut c), b"pre-re".to_vec());
}

#[test]
fn accepted_request_with_no_handler_response_flushes_200() {
    let data = b"GET / HTTP/1.1\r\n\r\n".to_vec();
    let mut c = accept_request(&data, PeerAddr::new("127.0.0.1", 80)).unwrap();
    horsehttp::complete_request(&mut c, false);
    assert_eq!(
        c.take_output(),
        b"HTTP/1.1 200 Ok\r\nConnection: close\r\n\r\n".to_vec()
    );
}

#[test]
fn accept_request_rejects_bytes_without_a_block() {
    let data = b"POST /up HTTP/1.1\r\n".to_vec();
    let e = match accept_request(&data, PeerAddr::new("10.0.0.1", 80)) {
        Err(e) => e,
        Ok(_) => panic!("expected a parse error"),
    };
    assert_eq!(e.kind(), HttpErrorKind::Parse);
}
