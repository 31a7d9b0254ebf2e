//! Media types and multipart form decomposition.

use horsehttp::parse_media_type_vec;
use horsehttp::parse_request;
use horsehttp::BodyParser;
use horsehttp::Client;
use horsehttp::Form;
use horsehttp::HttpErrorKind;
use horsehttp::PeerAddr;

fn bytes(s: &str) -> Vec<u8> {
    s.as_bytes().to_vec()
}

fn post_client(content_type: &str, body: &str) -> Client {
    let block = format!(
        "POST /save HTTP/1.1\r\nContent-Type: {}\r\nContent-Length: {}\r\n\r\n",
        content_type,
        body.len()
    );
    let req = parse_request(&bytes(&block), bytes(body)).unwrap();
    Client::new(req, PeerAddr::new("127.0.0.1", 1))
}

#[test]
fn media_type_parses_type_subtype_and_params() {
    let mt = parse_media_type_vec(b"Multipart/Form-Data; boundary=XyZ").unwrap();
    assert_eq!(mt.type_(), String::from("multipart"));
    assert_eq!(mt.subtype(), String::from("form-data"));
    assert_eq!(mt.param(b"boundary"), Some(bytes("XyZ")));
    assert_eq!(mt.param(b"charset"), None);
}

#[test]
fn media_type_quoted_parameter_value() {
    let mt = parse_media_type_vec(b"text/plain; charset=\"us ascii\"").unwrap();
    assert_eq!(mt.param(b"charset"), Some(bytes("us ascii")));
}

#[test]
fn media_type_without_slash_is_rejected() {
    assert!(parse_media_type_vec(b"gibberish").is_none());
}

#[test]
fn form_decodes_one_file_field() {
    let body = "--X\r\nContent-Disposition: form-data; name=\"f\"; filename=\"a.txt\"\r\n\r\nhi\r\n--X--";
    let mut c = post_client("multipart/form-data; boundary=X", body);
    let mut form = match c.body_parser().unwrap() {
        BodyParser::Form(form) => form,
        BodyParser::Unknown(_, _) => panic!("expected a form"),
    };
    let field = form.next_field().unwrap().unwrap();
    assert_eq!(field.name(), String::from("f"));
    assert_eq!(field.filename(), Some(String::from("a.txt")));
    assert_eq!(field.data(), &bytes("hi"));
    assert!(form.next_field().unwrap().is_none());
}

#[test]
fn form_fields_come_in_wire_order_exactly_once() {
    let body = "--B\r\nContent-Disposition: form-data; name=\"first\"\r\n\r\none\r\n--B\r\nContent-Disposition: form-data; name=\"second\"; filename=\"s.bin\"\r\n\r\ntwo\r\n--B--";
    let mut c = post_client("multipart/form-data; boundary=B", body);
    let mut form = match c.body_parser().unwrap() {
        BodyParser::Form(form) => form,
        BodyParser::Unknown(_, _) => panic!("expected a form"),
    };
    let a = form.next_field().unwrap().unwrap();
    assert_eq!(a.name(), String::from("first"));
    assert_eq!(a.filename(), None);
    assert_eq!(a.data(), &bytes("one"));
    let b = form.next_field().unwrap().unwrap();
    assert_eq!(b.name(), String::from("second"));
    assert_eq!(b.filename(), Some(String::from("s.bin")));
    assert_eq!(b.data(), &bytes("two"));
    assert!(form.next_field().unwrap().is_none());
}

#[test]
fn form_field_declared_content_type_is_parsed() {
    let body = "--B\r\nContent-Disposition: form-data; name=\"f\"\r\nContent-Type: text/plain; charset=utf-8\r\n\r\npayload\r\n--B--";
    let mut c = post_client("multipart/form-data; boundary=B", body);
    let mut form = match c.body_parser().unwrap() {
        BodyParser::Form(form) => form,
        BodyParser::Unknown(_, _) => panic!("expected a form"),
    };
    let f = form.next_field().unwrap().unwrap();
    let mt = f.content_type().unwrap();
    assert_eq!(mt.type_(), String::from("text"));
    assert_eq!(mt.subtype(), String::from("plain"));
}

#[test]
fn for_each_visits_every_field_and_exhausts_the_form() {
    let body = "--B\r\nContent-Disposition: form-data; name=\"a\"\r\n\r\n1\r\n--B\r\nContent-Disposition: form-data; name=\"b\"\r\n\r\n2\r\n--B--";
    let mut c = post_client("multipart/form-data; boundary=B", body);
    let mut form = match c.body_parser().unwrap() {
        BodyParser::Form(form) => form,
        BodyParser::Unknown(_, _) => panic!("expected a form"),
    };
    let seen = std::cell::RefCell::new(Vec::new());
    form.for_each(|field| {
        seen.borrow_mut().push(field.name());
        Ok(())
    })
    .unwrap();
    assert_eq!(*seen.borrow(), vec![String::from("a"), String::from("b")]);
    assert!(form.next_field().unwrap().is_none());
}

#[test]
fn form_field_filename_may_hold_multi_byte_text() {
    let body = "--B\r\nContent-Disposition: form-data; name=\"f\"; filename=\"na\u{00ef}ve.txt\"\r\n\r\nx\r\n--B--";
    let mut form = Form::new(body.as_bytes(), b"B").unwrap();
    let field = form.next_field().unwrap().unwrap();
    assert_eq!(field.filename(), Some(String::from("na\u{00ef}ve.txt")));
}

#[test]
fn form_without_boundary_is_config_error() {
    let mut c = post_client("multipart/form-data", "irrelevant");
    let e = c.body_parser().unwrap_err();
    assert_eq!(e.kind(), HttpErrorKind::Config);
}

#[test]
fn body_without_content_type_is_config_error() {
    let block = "POST / HTTP/1.1\r\nContent-Length: 2\r\n\r\n";
    let req = parse_request(&bytes(block), bytes("ab")).unwrap();
    let mut c = Client::new(req, PeerAddr::new("127.0.0.1", 1));
    let e = c.body_parser().unwrap_err();
    assert_eq!(e.kind(), HttpErrorKind::Config);
}

#[test]
fn malformed_content_type_is_config_error() {
    let mut c = post_client("not a media type", "ab");
    let e = c.body_parser().unwrap_err();
    assert_eq!(e.kind(), HttpErrorKind::Config);
}

#[test]
fn other_media_types_hand_back_the_raw_reader() {
    let mut c = post_client("text/plain; charset=utf-8", "raw body");
    let (mt, mut br) = match c.body_parser().unwrap() {
        BodyParser::Unknown(mt, br) => (mt, br),
        BodyParser::Form(_) => panic!("expected a raw body"),
    };
    assert_eq!(mt.type_(), String::from("text"));
    let body = br.read_to_end(&mut c);
    assert_eq!(body, bytes("raw body"));
}

#[test]
fn truncated_form_body_is_io_error() {
    let block = "POST / HTTP/1.1\r\nContent-Type: multipart/form-data; boundary=X\r\nContent-Length: 50\r\n\r\n";
    let req = parse_request(&bytes(block), bytes("--X")).unwrap();
    let mut c = Client::new(req, PeerAddr::new("127.0.0.1", 1));
    let e = c.body_parser().unwrap_err();
    assert_eq!(e.kind(), HttpErrorKind::Io);
}

#[test]
fn form_new_rejects_a_body_with_the_wrong_boundary() {
    let e = Form::new(b"--OTHER\r\n\r\n", b"X").unwrap_err();
    assert_eq!(e.kind(), HttpErrorKind::Parse);
}

#[test]
fn form_new_accepts_an_immediately_closed_body() {
    let mut form = Form::new(b"--X--", b"X").unwrap();
    assert!(form.next_field().unwrap().is_none());
    assert!(form.for_each(|_| Ok(())).is_ok());
}

#[test]
fn well_formed_fields_are_served_before_a_malformed_tail() {
    let body = "--B\r\nContent-Disposition: form-data; name=\"a\"\r\n\r\n1\r\n--B\r\nBADPART\r\n--B--";
    let mut form = Form::new(body.as_bytes(), b"B").unwrap();
    let a = form.next_field().unwrap().unwrap();
    assert_eq!(a.name(), String::from("a"));
    assert_eq!(a.data(), &bytes("1"));
    let e = form.next_field().unwrap_err();
    assert_eq!(e.kind(), HttpErrorKind::Parse);
}

#[test]
fn for_each_propagates_a_callback_error_and_stops() {
    let body = "--B\r\nContent-Disposition: form-data; name=\"a\"\r\n\r\n1\r\n--B\r\nContent-Disposition: form-data; name=\"b\"\r\n\r\n2\r\n--B--";
    let mut form = Form::new(body.as_bytes(), b"B").unwrap();
    let seen = std::cell::Cell::new(0u32);
    let r = form.for_each(|field| {
        seen.set(seen.get() + 1);
        if field.name() == "a" {
            Err(horsehttp::HttpError::new(HttpErrorKind::State, "stop"))
        } else {
            Ok(())
        }
    });
    assert_eq!(r.unwrap_err().kind(), HttpErrorKind::State);
    assert_eq!(seen.get(), 1);
}
