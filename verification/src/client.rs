//! The per-connection state machine.
//!
//! A [`Client`] joins a parsed request, the connection's unread bytes, and
//! the response state. It never touches a socket: the embedding program
//! pushes bytes it read from the connection in with [`Client::supply`], and
//! drains the bytes the engine decided to send with [`Client::take_output`].
//! Every framing rule lives here: the status line and its fixed
//! `Connection: close` trailer are emitted exactly once, before any body
//! byte; body reads drain the carried-over bytes first and never pass the
//! declared `Content-Length`.

use vstd::prelude::*;

use crate::error::HttpError;
use crate::error::HttpErrorKind;
use crate::request::Requested;
use crate::request::all_field_bytes;
use crate::text::bytes_eq_ignore_case;
use crate::text::contains_ctl;
use crate::text::dec_digits;
use crate::text::dec_of_u16;
use crate::text::dec_val;
use crate::text::all_digits;
use crate::text::no_ctl;
use crate::text::parse_dec;
use vstd::string::StringSliceAdditionalSpecFns;

verus! {

/// A peer's address, as plain values: the printed host and the port.
pub struct PeerAddr {
    /// The peer's host, in its printed form.
    pub ip: String,
    /// The peer's port.
    pub port: u16,
}

impl PeerAddr {
    /// Build an address from its printed host and port.
    pub fn new(ip: &str, port: u16) -> (a: PeerAddr)
        ensures
            a.ip@ == ip@,
            a.port == port,
    {
        PeerAddr { ip: ip.to_owned(), port }
    }
}

/// The pending response: status code, status message, and whether the
/// status line has gone out.
pub struct Response {
    /// The status code of the pending response.
    pub code: u16,
    /// The status message, as bytes, free of ASCII control bytes.
    pub message: Vec<u8>,
    /// Whether the status line has been put on the wire. Monotonic: once
    /// true it never goes back.
    pub sent: bool,
}

impl Default for Response {
    /// The response every connection starts with: a plain `200 Ok`, not
    /// yet sent.
    fn default() -> (r: Response)
        ensures
            r.code == 200,
            r.message@ == seq![79u8, 107u8],
            !r.sent,
    {
        let mut message: Vec<u8> = Vec::new();
        message.push(79);
        message.push(107);
        proof {
            assert(message@ =~= seq![79u8, 107u8]);
        }
        Response { code: 200, message, sent: false }
    }
}

/// The fixed trailer after the status line: `Connection: close` and the
/// blank line that closes the header section.
pub open spec fn close_header() -> Seq<u8> {
    seq![
        67u8,
        111,
        110,
        110,
        101,
        99,
        116,
        105,
        111,
        110,
        58,
        32,
        99,
        108,
        111,
        115,
        101,
        13,
        10,
        13,
        10,
    ]
}

/// The bytes the engine sends before any body byte:
/// `HTTP/1.<version> <code> <message>` and the fixed trailer.
pub open spec fn status_head(version: u8, code: u16, message: Seq<u8>) -> Seq<u8> {
    seq![72u8, 84, 84, 80, 47, 49, 46, (48 + version) as u8, 32] + dec_digits(code as nat) + seq![
        32u8,
    ] + message + seq![13u8, 10] + close_header()
}

/// Build [`status_head`] as a byte vector.
pub(crate) fn head_bytes(version: u8, code: u16, message: &Vec<u8>) -> (r: Vec<u8>)
    requires
        version <= 1,
    ensures
        r@ == status_head(version, code, message@),
{
    let mut out: Vec<u8> = Vec::new();
    out.push(72);
    out.push(84);
    out.push(84);
    out.push(80);
    out.push(47);
    out.push(49);
    out.push(46);
    out.push(48 + version);
    out.push(32);
    let mut digits = dec_of_u16(code);
    out.append(&mut digits);
    out.push(32);
    out.extend_from_slice(message.as_slice());
    out.push(13);
    out.push(10);
    out.push(67);
    out.push(111);
    out.push(110);
    out.push(110);
    out.push(101);
    out.push(99);
    out.push(116);
    out.push(105);
    out.push(111);
    out.push(110);
    out.push(58);
    out.push(32);
    out.push(99);
    out.push(108);
    out.push(111);
    out.push(115);
    out.push(101);
    out.push(13);
    out.push(10);
    out.push(13);
    out.push(10);
    proof {
        assert(out@ =~= status_head(version, code, message@));
    }
    out
}

/// The per-connection state machine.
pub struct Client {
    requested: Requested,
    addr: PeerAddr,
    response: Response,
    wire: Vec<u8>,
    history: Ghost<Seq<u8>>,
    body_open: bool,
}

impl Client {
    /// The request method's bytes.
    pub closed spec fn spec_method(&self) -> Seq<u8> {
        self.requested.method@
    }

    /// The request path's bytes.
    pub closed spec fn spec_path(&self) -> Seq<u8> {
        self.requested.path@
    }

    /// The HTTP minor version of the request.
    pub closed spec fn spec_version(&self) -> u8 {
        self.requested.version
    }

    /// The request's header pairs, in wire order.
    pub closed spec fn spec_headers(&self) -> Seq<(Seq<u8>, Seq<u8>)> {
        self.requested.headers_view()
    }

    /// The peer's printed host.
    pub closed spec fn spec_addr_ip(&self) -> Seq<char> {
        self.addr.ip@
    }

    /// The peer's port.
    pub closed spec fn spec_addr_port(&self) -> u16 {
        self.addr.port
    }

    /// Connection bytes not yet consumed: the carried-over body bytes
    /// first, then whatever the embedder supplied since.
    pub closed spec fn spec_pending(&self) -> Seq<u8> {
        self.requested.body_start@
    }

    /// Whether the status line has gone out.
    pub closed spec fn spec_sent(&self) -> bool {
        self.response.sent
    }

    /// The pending status code.
    pub closed spec fn spec_code(&self) -> u16 {
        self.response.code
    }

    /// The pending status message bytes.
    pub closed spec fn spec_message(&self) -> Seq<u8> {
        self.response.message@
    }

    /// Bytes decided for the wire and not yet drained.
    pub closed spec fn spec_wire(&self) -> Seq<u8> {
        self.wire@
    }

    /// Every byte ever decided for the wire, drained or not.
    pub closed spec fn spec_history(&self) -> Seq<u8> {
        self.history@
    }

    /// Whether a body reader is outstanding.
    pub closed spec fn spec_body_open(&self) -> bool {
        self.body_open
    }

    /// The status line the engine would send right now.
    pub open spec fn spec_head(&self) -> Seq<u8> {
        status_head(self.spec_version(), self.spec_code(), self.spec_message())
    }

    /// The connection's invariant: the request is well formed, the status
    /// message carries no control bytes, and the undrained wire bytes are
    /// the tail of the wire history.
    pub open spec fn wf(&self) -> bool {
        &&& self.spec_req_wf()
        &&& no_ctl(self.spec_message())
        &&& self.spec_wire().len() <= self.spec_history().len()
        &&& self.spec_wire() == self.spec_history().skip(
            self.spec_history().len() - self.spec_wire().len(),
        )
    }

    /// The stored request is well formed.
    pub closed spec fn spec_req_wf(&self) -> bool {
        self.requested.wf()
    }

    /// The request and peer identity, which no operation ever changes.
    pub open spec fn same_request(&self, other: &Client) -> bool {
        &&& self.spec_method() == other.spec_method()
        &&& self.spec_path() == other.spec_path()
        &&& self.spec_version() == other.spec_version()
        &&& self.spec_headers() == other.spec_headers()
        &&& self.spec_addr_ip() == other.spec_addr_ip()
        &&& self.spec_addr_port() == other.spec_addr_port()
    }

    /// The response state, unchanged between `self` and `other`.
    pub open spec fn same_response(&self, other: &Client) -> bool {
        &&& self.spec_sent() == other.spec_sent()
        &&& self.spec_code() == other.spec_code()
        &&& self.spec_message() == other.spec_message()
    }

    /// The output side, unchanged between `self` and `other`.
    pub open spec fn same_output(&self, other: &Client) -> bool {
        &&& self.spec_wire() == other.spec_wire()
        &&& self.spec_history() == other.spec_history()
    }

    /// Build the state machine for one accepted connection.
    pub fn new(requested: Requested, addr: PeerAddr) -> (c: Client)
        requires
            requested.wf(),
        ensures
            c.wf(),
            c.spec_method() == requested.method@,
            c.spec_path() == requested.path@,
            c.spec_version() == requested.version,
            c.spec_headers() == requested.headers_view(),
            c.spec_addr_ip() == addr.ip@,
            c.spec_addr_port() == addr.port,
            c.spec_pending() == requested.body_start@,
            !c.spec_sent(),
            c.spec_code() == 200,
            c.spec_message() == seq![79u8, 107u8],
            c.spec_wire() == Seq::<u8>::empty(),
            c.spec_history() == Seq::<u8>::empty(),
            !c.spec_body_open(),
    {
        let c = Client {
            requested,
            addr,
            response: Response::default(),
            wire: Vec::new(),
            history: Ghost(Seq::empty()),
            body_open: false,
        };
        proof {
            assert(c.spec_history().skip(0) =~= c.spec_wire());
        }
        c
    }

    /// The peer's address.
    pub fn addr(&self) -> (a: PeerAddr)
        ensures
            a.ip@ == self.spec_addr_ip(),
            a.port == self.spec_addr_port(),
    {
        PeerAddr { ip: self.addr.ip.clone(), port: self.addr.port }
    }

    /// The request method, as text.
    pub fn method(&self) -> (m: String)
        requires
            self.wf(),
        ensures
            vstd::utf8::encode_utf8(m@) == self.spec_method(),
    {
        proof {
            crate::request::lemma_token_ascii(self.requested.method@);
            crate::text::lemma_ascii_valid_utf8(self.requested.method@);
        }
        crate::text::utf8_to_string(vstd::slice::slice_to_vec(self.requested.method.as_slice()))
    }

    /// The request path, as text.
    pub fn path(&self) -> (p: String)
        requires
            self.wf(),
        ensures
            vstd::utf8::encode_utf8(p@) == self.spec_path(),
    {
        proof {
            crate::request::lemma_vchar_ascii(self.requested.path@);
            crate::text::lemma_ascii_valid_utf8(self.requested.path@);
        }
        crate::text::utf8_to_string(vstd::slice::slice_to_vec(self.requested.path.as_slice()))
    }

    /// Whether the status line has gone out.
    pub fn response_sent(&self) -> (r: bool)
        ensures
            r == self.spec_sent(),
    {
        self.response.sent
    }

    /// Connection bytes waiting to be consumed.
    pub fn pending_len(&self) -> (n: usize)
        ensures
            n == self.spec_pending().len(),
    {
        self.requested.body_start.len()
    }

    /// Hand the engine bytes read from the connection. They queue after
    /// whatever is already pending, in order.
    pub fn supply(&mut self, chunk: &[u8])
        requires
            old(self).wf(),
        ensures
            final(self).wf(),
            final(self).spec_pending() == old(self).spec_pending() + chunk@,
            old(self).same_request(final(self)),
            old(self).same_response(final(self)),
            old(self).same_output(final(self)),
            final(self).spec_body_open() == old(self).spec_body_open(),
    {
        self.requested.body_start.extend_from_slice(chunk);
    }

    /// Take the bytes the engine has decided to send and not yet handed
    /// out. The embedder writes them to the connection, in order.
    pub fn take_output(&mut self) -> (out: Vec<u8>)
        requires
            old(self).wf(),
        ensures
            final(self).wf(),
            out@ == old(self).spec_wire(),
            final(self).spec_wire() == Seq::<u8>::empty(),
            final(self).spec_history() == old(self).spec_history(),
            old(self).same_request(final(self)),
            old(self).same_response(final(self)),
            final(self).spec_pending() == old(self).spec_pending(),
            final(self).spec_body_open() == old(self).spec_body_open(),
    {
        let out = self.wire.split_off(0);
        proof {
            assert(out@ =~= old(self).spec_wire());
            assert(self.spec_wire() =~= Seq::<u8>::empty());
            assert(self.spec_history().skip(self.spec_history().len() as int)
                =~= Seq::<u8>::empty());
        }
        out
    }

    /// Change the pending status line. Fails with a `State` error — and
    /// changes nothing — once the response is out, or when the message
    /// carries an ASCII control byte; otherwise the new code and message
    /// replace the pending ones.
    pub fn set_response(&mut self, code: u16, message: &str) -> (r: Result<(), HttpError>)
        requires
            old(self).wf(),
        ensures
            final(self).wf(),
            old(self).same_request(final(self)),
            old(self).same_output(final(self)),
            final(self).spec_pending() == old(self).spec_pending(),
            final(self).spec_body_open() == old(self).spec_body_open(),
            final(self).spec_sent() == old(self).spec_sent(),
            match r {
                Ok(()) => {
                    &&& !old(self).spec_sent()
                    &&& no_ctl(message.spec_bytes())
                    &&& final(self).spec_code() == code
                    &&& final(self).spec_message() == message.spec_bytes()
                },
                Err(e) => {
                    &&& e.spec_kind() == HttpErrorKind::State
                    &&& old(self).same_response(final(self))
                    &&& (old(self).spec_sent() || !no_ctl(message.spec_bytes()))
                },
            },
    {
        if self.response.sent {
            return Err(HttpError::new(HttpErrorKind::State, "response already sent"));
        }
        let bytes = message.as_bytes();
        if contains_ctl(bytes) {
            assert(!no_ctl(message.spec_bytes()));
            return Err(
                HttpError::new(HttpErrorKind::State, "status message holds a control character"),
            );
        }
        assert(no_ctl(message.spec_bytes()));
        self.response.code = code;
        self.response.message = vstd::slice::slice_to_vec(bytes);
        Ok(())
    }

    /// Whether the request method is exactly `m`.
    pub fn method_is(&self, m: &str) -> (r: bool)
        ensures
            r == (self.spec_method() == m.spec_bytes()),
    {
        crate::text::bytes_eq(self.requested.method.as_slice(), m.as_bytes())
    }

    /// Replace the pending status line from raw message bytes; for the
    /// engine's own synthesized responses, which are never sent twice.
    pub(crate) fn set_response_bytes(&mut self, code: u16, message: Vec<u8>)
        requires
            old(self).wf(),
            !old(self).spec_sent(),
            no_ctl(message@),
        ensures
            final(self).wf(),
            old(self).same_request(final(self)),
            old(self).same_output(final(self)),
            final(self).spec_pending() == old(self).spec_pending(),
            final(self).spec_body_open() == old(self).spec_body_open(),
            !final(self).spec_sent(),
            final(self).spec_code() == code,
            final(self).spec_message() == message@,
    {
        self.response.code = code;
        self.response.message = message;
    }

    /// Put the status line and its fixed trailer on the wire, with no
    /// body. Fails with a `State` error — and changes nothing — when the
    /// response is already out.
    pub fn send_response(&mut self) -> (r: Result<(), HttpError>)
        requires
            old(self).wf(),
        ensures
            final(self).wf(),
            old(self).same_request(final(self)),
            final(self).spec_pending() == old(self).spec_pending(),
            final(self).spec_body_open() == old(self).spec_body_open(),
            final(self).spec_code() == old(self).spec_code(),
            final(self).spec_message() == old(self).spec_message(),
            match r {
                Ok(()) => {
                    &&& !old(self).spec_sent()
                    &&& final(self).spec_sent()
                    &&& final(self).spec_wire() == old(self).spec_wire() + old(self).spec_head()
                    &&& final(self).spec_history() == old(self).spec_history()
                        + old(self).spec_head()
                },
                Err(e) => {
                    &&& e.spec_kind() == HttpErrorKind::State
                    &&& old(self).spec_sent()
                    &&& old(self).same_output(final(self))
                    &&& final(self).spec_sent()
                },
            },
    {
        if self.response.sent {
            return Err(HttpError::new(HttpErrorKind::State, "response already sent"));
        }
        self.emit_head();
        Ok(())
    }

    /// Put the status line on the wire, unconditionally and exactly once.
    fn emit_head(&mut self)
        requires
            old(self).wf(),
            !old(self).spec_sent(),
        ensures
            final(self).wf(),
            old(self).same_request(final(self)),
            final(self).spec_pending() == old(self).spec_pending(),
            final(self).spec_body_open() == old(self).spec_body_open(),
            final(self).spec_code() == old(self).spec_code(),
            final(self).spec_message() == old(self).spec_message(),
            final(self).spec_sent(),
            final(self).spec_wire() == old(self).spec_wire() + old(self).spec_head(),
            final(self).spec_history() == old(self).spec_history() + old(self).spec_head(),
    {
        let mut head = head_bytes(self.requested.version, self.response.code, &self.response.message);
        let ghost added = head@;
        self.wire.append(&mut head);
        self.history = Ghost(self.history@ + added);
        self.response.sent = true;
        proof {
            lemma_suffix_extend(
                old(self).spec_history(),
                old(self).spec_wire(),
                added,
            );
        }
    }

    /// Write body bytes. Before the first one, the status line and its
    /// fixed trailer go out, exactly once; the caller's bytes follow
    /// unchanged.
    pub fn write_all(&mut self, buf: &[u8])
        requires
            old(self).wf(),
        ensures
            final(self).wf(),
            old(self).same_request(final(self)),
            final(self).spec_pending() == old(self).spec_pending(),
            final(self).spec_body_open() == old(self).spec_body_open(),
            final(self).spec_code() == old(self).spec_code(),
            final(self).spec_message() == old(self).spec_message(),
            final(self).spec_sent(),
            old(self).spec_sent() ==> {
                &&& final(self).spec_wire() == old(self).spec_wire() + buf@
                &&& final(self).spec_history() == old(self).spec_history() + buf@
            },
            !old(self).spec_sent() ==> {
                &&& final(self).spec_wire() == old(self).spec_wire() + old(self).spec_head() + buf@
                &&& final(self).spec_history() == old(self).spec_history() + old(self).spec_head()
                    + buf@
            },
    {
        if !self.response.sent {
            self.emit_head();
        }
        let ghost mid_wire = self.spec_wire();
        let ghost mid_hist = self.spec_history();
        self.wire.extend_from_slice(buf);
        self.history = Ghost(self.history@ + buf@);
        proof {
            lemma_suffix_extend(mid_hist, mid_wire, buf@);
            assert(self.spec_wire() == mid_wire + buf@);
            assert(self.spec_history() == mid_hist + buf@);
            assert(mid_wire.len() <= mid_hist.len());
            assert(mid_wire == mid_hist.skip(mid_hist.len() - mid_wire.len()));
            assert(self.spec_wire() == self.spec_history().skip(
                self.spec_history().len() - self.spec_wire().len(),
            ));
        }
    }

    /// Write body bytes as [`Client::write_all`] does, reporting how many
    /// were accepted — always all of them: the engine buffers, the
    /// embedder drains.
    pub fn write(&mut self, buf: &[u8]) -> (n: usize)
        requires
            old(self).wf(),
        ensures
            final(self).wf(),
            n == buf@.len(),
            old(self).same_request(final(self)),
            final(self).spec_pending() == old(self).spec_pending(),
            final(self).spec_body_open() == old(self).spec_body_open(),
            final(self).spec_code() == old(self).spec_code(),
            final(self).spec_message() == old(self).spec_message(),
            final(self).spec_sent(),
            old(self).spec_sent() ==> {
                &&& final(self).spec_wire() == old(self).spec_wire() + buf@
                &&& final(self).spec_history() == old(self).spec_history() + buf@
            },
            !old(self).spec_sent() ==> {
                &&& final(self).spec_wire() == old(self).spec_wire() + old(self).spec_head() + buf@
                &&& final(self).spec_history() == old(self).spec_history() + old(self).spec_head()
                    + buf@
            },
    {
        self.write_all(buf);
        buf.len()
    }

    /// Write raw bytes to the connection without ever sending the status
    /// line: the escape hatch for error paths that must not pretend to
    /// speak HTTP. After it, the engine will never emit headers.
    pub fn write_all_overriding_headers(&mut self, buf: &[u8])
        requires
            old(self).wf(),
        ensures
            final(self).wf(),
            old(self).same_request(final(self)),
            final(self).spec_pending() == old(self).spec_pending(),
            final(self).spec_body_open() == old(self).spec_body_open(),
            final(self).spec_code() == old(self).spec_code(),
            final(self).spec_message() == old(self).spec_message(),
            final(self).spec_sent(),
            final(self).spec_wire() == old(self).spec_wire() + buf@,
            final(self).spec_history() == old(self).spec_history() + buf@,
    {
        self.response.sent = true;
        let ghost mid_wire = self.spec_wire();
        let ghost mid_hist = self.spec_history();
        self.wire.extend_from_slice(buf);
        self.history = Ghost(self.history@ + buf@);
        proof {
            assert(mid_wire == old(self).spec_wire());
            assert(mid_hist == old(self).spec_history());
            lemma_suffix_extend(mid_hist, mid_wire, buf@);
            assert(self.spec_wire() == mid_wire + buf@);
            assert(self.spec_history() == mid_hist + buf@);
            assert(self.spec_wire() == self.spec_history().skip(
                self.spec_history().len() - self.spec_wire().len(),
            ));
        }
    }
}

/// The header name the engine reads the body length from, as bytes:
/// `Content-Length`.
pub open spec fn content_length_name() -> Seq<u8> {
    seq![67u8, 111, 110, 116, 101, 110, 116, 45, 76, 101, 110, 103, 116, 104]
}

/// Build [`content_length_name`] as a byte vector.
fn content_length_name_vec() -> (r: Vec<u8>)
    ensures
        r@ == content_length_name(),
{
    let mut out: Vec<u8> = Vec::new();
    out.push(67);
    out.push(111);
    out.push(110);
    out.push(116);
    out.push(101);
    out.push(110);
    out.push(116);
    out.push(45);
    out.push(76);
    out.push(101);
    out.push(110);
    out.push(103);
    out.push(116);
    out.push(104);
    proof {
        assert(out@ =~= content_length_name());
    }
    out
}

/// The smallest of three quantities.
pub open spec fn min3(a: int, b: int, c: int) -> int {
    if a <= b && a <= c {
        a
    } else if b <= c {
        b
    } else {
        c
    }
}

/// A length-bounded view over one connection's body. It counts down the
/// bytes still owed; [`BodyReader::read`] never yields more than that,
/// however much the connection offers.
#[derive(Debug)]
pub struct BodyReader {
    remaining: usize,
}

impl BodyReader {
    /// How many body bytes are still owed to the reader.
    pub closed spec fn spec_remaining(&self) -> nat {
        self.remaining as nat
    }

    /// How many body bytes are still owed.
    pub fn remaining(&self) -> (n: usize)
        ensures
            n as nat == self.spec_remaining(),
    {
        self.remaining
    }

    /// Read up to `max` body bytes out of the client's pending bytes.
    /// Yields the next pending bytes in order, capped by `max`, by the
    /// bytes still owed, and by what is pending; an empty result with a
    /// non-zero remainder means the embedder must supply more connection
    /// bytes first.
    pub fn read(&mut self, client: &mut Client, max: usize) -> (out: Vec<u8>)
        requires
            old(client).wf(),
        ensures
            final(client).wf(),
            ({
                let n = min3(
                    max as int,
                    old(self).spec_remaining() as int,
                    old(client).spec_pending().len() as int,
                );
                &&& out@ == old(client).spec_pending().take(n)
                &&& final(client).spec_pending() == old(client).spec_pending().skip(n)
                &&& final(self).spec_remaining() == old(self).spec_remaining() - n
            }),
            old(client).same_request(final(client)),
            old(client).same_response(final(client)),
            old(client).same_output(final(client)),
            final(client).spec_body_open() == old(client).spec_body_open(),
    {
        let avail = client.requested.body_start.len();
        let mut n = max;
        if self.remaining < n {
            n = self.remaining;
        }
        if avail < n {
            n = avail;
        }
        let out = vstd::slice::slice_to_vec(vstd::slice::slice_subrange(
            client.requested.body_start.as_slice(),
            0,
            n,
        ));
        let tail = client.requested.body_start.split_off(n);
        client.requested.body_start = tail;
        self.remaining = self.remaining - n;
        proof {
            assert(out@ =~= old(client).spec_pending().take(n as int));
            assert(client.spec_pending() =~= old(client).spec_pending().skip(n as int));
        }
        out
    }

    /// Read every body byte still owed, as far as the pending bytes
    /// reach. When the connection supplied at least the declared length
    /// — even if it offers more — the result holds exactly the bytes
    /// that were owed, and the reader is exhausted.
    pub fn read_to_end(&mut self, client: &mut Client) -> (out: Vec<u8>)
        requires
            old(client).wf(),
        ensures
            final(client).wf(),
            ({
                let n = min3(
                    old(self).spec_remaining() as int,
                    old(self).spec_remaining() as int,
                    old(client).spec_pending().len() as int,
                );
                &&& out@ == old(client).spec_pending().take(n)
                &&& final(client).spec_pending() == old(client).spec_pending().skip(n)
                &&& final(self).spec_remaining() == old(self).spec_remaining() - n
            }),
            old(client).spec_pending().len() >= old(self).spec_remaining() ==> {
                &&& out@.len() == old(self).spec_remaining()
                &&& final(self).spec_remaining() == 0
            },
            old(client).same_request(final(client)),
            old(client).same_response(final(client)),
            old(client).same_output(final(client)),
            final(client).spec_body_open() == old(client).spec_body_open(),
    {
        let max = self.remaining;
        self.read(client, max)
    }
}

impl Client {
    /// The joined value of the headers named `name`, compared without
    /// regard to ASCII case: every matching value, first to last, joined
    /// by a comma and a space — or nothing when no header matches.
    pub fn request_header_bytes(&self, name: &[u8]) -> (r: Option<Vec<u8>>)
        requires
            self.wf(),
        ensures
            match r {
                Some(v) => {
                    &&& crate::request::matching_values(self.spec_headers(), name@).len() > 0
                    &&& v@ == crate::request::join_comma(
                        crate::request::matching_values(self.spec_headers(), name@),
                    )
                },
                None => crate::request::matching_values(self.spec_headers(), name@).len() == 0,
            },
    {
        let ghost hs = self.spec_headers();
        let count = self.requested.headers.len();
        proof {
            assert(hs.len() == count);
        }
        let mut out: Vec<u8> = Vec::new();
        let mut found = false;
        let mut i: usize = 0;
        while i < count
            invariant
                0 <= i <= count,
                count == self.requested.headers@.len(),
                hs == self.spec_headers(),
                hs.len() == count,
                self.wf(),
                found == (crate::request::matching_values(hs.take(i as int), name@).len() > 0),
                out@ == crate::request::join_comma(
                    crate::request::matching_values(hs.take(i as int), name@),
                ),
            decreases count - i,
        {
            let pair = &self.requested.headers[i];
            proof {
                assert(hs[i as int] == self.requested.headers@[i as int].deep_view());
                assert(pair.0.deep_view() =~= pair.0@);
                assert(pair.1.deep_view() =~= pair.1@);
                assert(hs[i as int] == (pair.0@, pair.1@));
                assert(hs.take(i as int + 1).drop_last() =~= hs.take(i as int));
                assert(hs.take(i as int + 1).last() == hs[i as int]);
            }
            let ghost before = crate::request::matching_values(hs.take(i as int), name@);
            let ghost after = crate::request::matching_values(hs.take(i as int + 1), name@);
            if bytes_eq_ignore_case(pair.0.as_slice(), name) {
                proof {
                    assert(after =~= before.push(pair.1@));
                }
                if !found {
                    out = vstd::slice::slice_to_vec(pair.1.as_slice());
                    found = true;
                    proof {
                        assert(after.len() == 1);
                        assert(crate::request::join_comma(after) == after[0]);
                        assert(after[0] == pair.1@);
                    }
                } else {
                    out.push(44);
                    out.push(32);
                    out.extend_from_slice(pair.1.as_slice());
                    proof {
                        assert(after.drop_last() =~= before);
                        assert(after.last() == pair.1@);
                        assert(after.len() >= 2);
                        assert(crate::request::join_comma(after) =~= crate::request::join_comma(
                            before,
                        ) + seq![44u8, 32] + pair.1@);
                    }
                }
            } else {
                proof {
                    assert(after =~= before);
                }
            }
            i = i + 1;
        }
        proof {
            assert(hs.take(count as int) =~= hs);
        }
        if found {
            Some(out)
        } else {
            None
        }
    }

    /// The joined value of the headers named `name`, as text; see
    /// [`Client::request_header_bytes`]. The name is compared by its
    /// bytes, without regard to ASCII case.
    pub fn request_header(&self, name: &str) -> (r: Option<String>)
        requires
            self.wf(),
        ensures
            match r {
                Some(s) => {
                    &&& crate::request::matching_values(
                        self.spec_headers(),
                        name.spec_bytes(),
                    ).len() > 0
                    &&& vstd::utf8::encode_utf8(s@) == crate::request::join_comma(
                        crate::request::matching_values(self.spec_headers(), name.spec_bytes()),
                    )
                },
                None => crate::request::matching_values(
                    self.spec_headers(),
                    name.spec_bytes(),
                ).len() == 0,
            },
    {
        match self.request_header_bytes(name.as_bytes()) {
            None => None,
            Some(v) => {
                proof {
                    lemma_headers_wf_field_bytes(self);
                    crate::request::lemma_matching_join_valid(
                        self.spec_headers(),
                        name.spec_bytes(),
                    );
                }
                Some(crate::text::utf8_to_string(v))
            },
        }
    }

    /// The body length the request declares. Nothing declared is
    /// `Ok(None)`; a declared value that is not a plain decimal number
    /// fitting the machine's word is a `Parse` error.
    pub fn content_length(&self) -> (r: Result<Option<usize>, HttpError>)
        requires
            self.wf(),
        ensures
            ({
                let vals = crate::request::matching_values(
                    self.spec_headers(),
                    content_length_name(),
                );
                let joined = crate::request::join_comma(vals);
                match r {
                    Ok(None) => vals.len() == 0,
                    Ok(Some(n)) => {
                        &&& vals.len() > 0
                        &&& joined.len() > 0
                        &&& all_digits(joined)
                        &&& n as nat == dec_val(joined)
                    },
                    Err(e) => {
                        &&& e.spec_kind() == HttpErrorKind::Parse
                        &&& vals.len() > 0
                        &&& !(joined.len() > 0 && all_digits(joined) && dec_val(joined)
                            <= usize::MAX)
                    },
                }
            }),
    {
        let name = content_length_name_vec();
        match self.request_header_bytes(name.as_slice()) {
            None => Ok(None),
            Some(v) => {
                match parse_dec(v.as_slice()) {
                    Some(n) => Ok(Some(n)),
                    None => Err(
                        HttpError::new(HttpErrorKind::Parse, "malformed content length"),
                    ),
                }
            },
        }
    }

    /// Open the length-bounded body view. Fails with a `State` error
    /// while another body view is outstanding; with a `Config` error when
    /// the request declares no `Content-Length`; with a `Parse` error
    /// when the declared value is not a plain decimal number. On success
    /// the reader is owed exactly the declared length.
    pub fn body_reader(&mut self) -> (r: Result<BodyReader, HttpError>)
        requires
            old(self).wf(),
        ensures
            final(self).wf(),
            old(self).same_request(final(self)),
            old(self).same_response(final(self)),
            old(self).same_output(final(self)),
            final(self).spec_pending() == old(self).spec_pending(),
            ({
                let vals = crate::request::matching_values(
                    old(self).spec_headers(),
                    content_length_name(),
                );
                let joined = crate::request::join_comma(vals);
                match r {
                    Ok(br) => {
                        &&& !old(self).spec_body_open()
                        &&& vals.len() > 0
                        &&& joined.len() > 0
                        &&& all_digits(joined)
                        &&& br.spec_remaining() == dec_val(joined)
                        &&& final(self).spec_body_open()
                    },
                    Err(e) => {
                        &&& final(self).spec_body_open() == old(self).spec_body_open()
                        &&& (old(self).spec_body_open() ==> e.spec_kind()
                            == HttpErrorKind::State)
                        &&& (!old(self).spec_body_open() && vals.len() == 0 ==> e.spec_kind()
                            == HttpErrorKind::Config)
                        &&& (!old(self).spec_body_open() && vals.len() > 0 ==> {
                            &&& e.spec_kind() == HttpErrorKind::Parse
                            &&& !(joined.len() > 0 && all_digits(joined) && dec_val(joined)
                                <= usize::MAX)
                        })
                    },
                }
            }),
    {
        if self.body_open {
            return Err(HttpError::new(HttpErrorKind::State, "a body reader is already open"));
        }
        let len = match self.content_length() {
            Ok(Some(n)) => n,
            Ok(None) => {
                return Err(HttpError::new(HttpErrorKind::Config, "no content length"));
            },
            Err(e) => {
                return Err(e);
            },
        };
        self.body_open = true;
        Ok(BodyReader { remaining: len })
    }

    /// Give a body view back, re-enabling [`Client::body_reader`].
    pub fn finish_body(&mut self, reader: BodyReader)
        requires
            old(self).wf(),
        ensures
            final(self).wf(),
            old(self).same_request(final(self)),
            old(self).same_response(final(self)),
            old(self).same_output(final(self)),
            final(self).spec_pending() == old(self).spec_pending(),
            !final(self).spec_body_open(),
    {
        let _ = reader;
        self.body_open = false;
    }

    /// Drain up to `max` pending connection bytes directly, outside any
    /// body view: the next pending bytes, in order.
    pub fn read_buffered(&mut self, max: usize) -> (out: Vec<u8>)
        requires
            old(self).wf(),
        ensures
            final(self).wf(),
            ({
                let n = if max as int <= old(self).spec_pending().len() as int {
                    max as int
                } else {
                    old(self).spec_pending().len() as int
                };
                &&& out@ == old(self).spec_pending().take(n)
                &&& final(self).spec_pending() == old(self).spec_pending().skip(n)
            }),
            old(self).same_request(final(self)),
            old(self).same_response(final(self)),
            old(self).same_output(final(self)),
            final(self).spec_body_open() == old(self).spec_body_open(),
    {
        let avail = self.requested.body_start.len();
        let n = if max <= avail {
            max
        } else {
            avail
        };
        let out = vstd::slice::slice_to_vec(vstd::slice::slice_subrange(
            self.requested.body_start.as_slice(),
            0,
            n,
        ));
        let tail = self.requested.body_start.split_off(n);
        self.requested.body_start = tail;
        proof {
            assert(out@ =~= old(self).spec_pending().take(n as int));
            assert(self.spec_pending() =~= old(self).spec_pending().skip(n as int));
        }
        out
    }
}

/// The bytes of `multipart`.
pub open spec fn multipart_kind() -> Seq<u8> {
    seq![109u8, 117, 108, 116, 105, 112, 97, 114, 116]
}

/// The bytes of `boundary`.
pub open spec fn boundary_param() -> Seq<u8> {
    seq![98u8, 111, 117, 110, 100, 97, 114, 121]
}

/// A classified request body: a lazily decoded form for
/// `multipart/form-data`, or the declared media type with the raw bounded
/// reader, unread, for anything else.
#[derive(Debug)]
pub enum BodyParser {
    /// A `multipart/form-data` body, its fields decoded one at a time.
    Form(crate::multipart::Form),
    /// Any other media type, with the body left to the caller.
    Unknown(crate::media::MediaType, BodyReader),
}

impl Client {
    /// The declared `Content-Type`, joined across duplicates.
    pub open spec fn spec_content_type_joined(&self) -> Seq<u8> {
        crate::request::join_comma(
            crate::request::matching_values(
                self.spec_headers(),
                crate::multipart::content_type_name(),
            ),
        )
    }

    /// The declared `Content-Length` value bytes, joined across
    /// duplicates.
    pub open spec fn spec_content_length_joined(&self) -> Seq<u8> {
        crate::request::join_comma(
            crate::request::matching_values(self.spec_headers(), content_length_name()),
        )
    }

    /// The declared `Content-Length` is a usable number.
    pub open spec fn spec_content_length_ok(&self) -> bool {
        &&& crate::request::matching_values(self.spec_headers(), content_length_name()).len() > 0
        &&& self.spec_content_length_joined().len() > 0
        &&& all_digits(self.spec_content_length_joined())
        &&& dec_val(self.spec_content_length_joined()) <= usize::MAX
    }

    /// Classify the request body by its declared `Content-Type`.
    ///
    /// For `multipart/form-data` with a `boundary`, the declared
    /// `Content-Length` bytes are taken off the pending input and opened
    /// as a [`crate::multipart::Form`], whose fields decode lazily as they
    /// are asked for. For any other parsable media type, the type is
    /// returned with the bounded body reader, unread.
    ///
    /// Errors: `State` while a body view is outstanding; `Config` when
    /// the `Content-Type` is absent or does not parse, when a form type
    /// lacks its `boundary`, or when no `Content-Length` is declared;
    /// `Parse` when the `Content-Length` is malformed or the form body
    /// does not open with its boundary; `Io` when the pending input holds
    /// fewer bytes than the declared length — the embedder has not
    /// supplied the whole body yet.
    pub fn body_parser(&mut self) -> (r: Result<BodyParser, HttpError>)
        requires
            old(self).wf(),
        ensures
            final(self).wf(),
            old(self).same_request(final(self)),
            old(self).same_response(final(self)),
            old(self).same_output(final(self)),
            ({
                let ctv = crate::request::matching_values(
                    old(self).spec_headers(),
                    crate::multipart::content_type_name(),
                );
                let mt = crate::media::parse_media_type(old(self).spec_content_type_joined());
                let is_mp = mt is Some && (mt->0).0 == multipart_kind() && (mt->0).1
                    == crate::multipart::form_data_name();
                let bnd = if mt is Some {
                    crate::media::first_param((mt->0).2, boundary_param())
                } else {
                    None
                };
                let n = dec_val(old(self).spec_content_length_joined()) as int;
                match r {
                    Ok(BodyParser::Form(form)) => {
                        let body = old(self).spec_pending().take(n);
                        let d = seq![45u8, 45] + (bnd->0);
                        &&& !old(self).spec_body_open()
                        &&& ctv.len() > 0
                        &&& is_mp
                        &&& bnd is Some
                        &&& old(self).spec_content_length_ok()
                        &&& old(self).spec_pending().len() >= n
                        &&& body.len() >= d.len()
                        &&& body.take(d.len() as int) == d
                        &&& form.spec_delim() == d
                        &&& form.spec_rest() == body.skip(d.len() as int)
                        &&& form.wf()
                        &&& final(self).spec_pending() == old(self).spec_pending().skip(n)
                        &&& !final(self).spec_body_open()
                    },
                    Ok(BodyParser::Unknown(found, br)) => {
                        &&& !old(self).spec_body_open()
                        &&& ctv.len() > 0
                        &&& mt is Some
                        &&& !is_mp
                        &&& found.kind@ == (mt->0).0
                        &&& found.subtype@ == (mt->0).1
                        &&& found.params_view() == (mt->0).2
                        &&& found.wf()
                        &&& old(self).spec_content_length_ok()
                        &&& br.spec_remaining() == n
                        &&& final(self).spec_pending() == old(self).spec_pending()
                        &&& final(self).spec_body_open()
                    },
                    Err(e) => {
                        let clv = crate::request::matching_values(
                            old(self).spec_headers(),
                            content_length_name(),
                        );
                        let cl_ok = old(self).spec_content_length_ok();
                        &&& (old(self).spec_body_open() ==> e.spec_kind() == HttpErrorKind::State)
                        &&& (!old(self).spec_body_open() && ctv.len() == 0 ==> e.spec_kind()
                            == HttpErrorKind::Config)
                        &&& (!old(self).spec_body_open() && ctv.len() > 0 && mt is None
                            ==> e.spec_kind() == HttpErrorKind::Config)
                        &&& (!old(self).spec_body_open() && ctv.len() > 0 && is_mp && bnd is None
                            ==> e.spec_kind() == HttpErrorKind::Config)
                        &&& (!old(self).spec_body_open() && ctv.len() > 0 && is_mp && bnd is Some
                            && clv.len() == 0 ==> e.spec_kind() == HttpErrorKind::Config)
                        &&& (!old(self).spec_body_open() && ctv.len() > 0 && is_mp && bnd is Some
                            && clv.len() > 0 && !cl_ok ==> e.spec_kind() == HttpErrorKind::Parse)
                        &&& (!old(self).spec_body_open() && ctv.len() > 0 && is_mp && bnd is Some
                            && cl_ok && old(self).spec_pending().len() < n ==> e.spec_kind()
                            == HttpErrorKind::Io)
                        &&& (!old(self).spec_body_open() && ctv.len() > 0 && is_mp && bnd is Some
                            && cl_ok && old(self).spec_pending().len() >= n
                            && old(self).spec_pending().take(n).len() >= (seq![45u8, 45] + (
                        bnd->0)).len() && old(self).spec_pending().take(n).take(
                            (seq![45u8, 45] + (bnd->0)).len() as int,
                        ) == seq![45u8, 45] + (bnd->0) ==> false)
                        &&& (!old(self).spec_body_open() && ctv.len() > 0 && is_mp && bnd is Some
                            && cl_ok && old(self).spec_pending().len() >= n && !(old(
                            self,
                        ).spec_pending().take(n).len() >= (seq![45u8, 45] + (bnd->0)).len() && old(
                            self,
                        ).spec_pending().take(n).take((seq![45u8, 45] + (bnd->0)).len() as int)
                            == seq![45u8, 45] + (bnd->0)) ==> e.spec_kind()
                            == HttpErrorKind::Parse)
                        &&& (!old(self).spec_body_open() && ctv.len() > 0 && mt is Some && !is_mp
                            && clv.len() == 0 ==> e.spec_kind() == HttpErrorKind::Config)
                        &&& (!old(self).spec_body_open() && ctv.len() > 0 && mt is Some && !is_mp
                            && clv.len() > 0 && !cl_ok ==> e.spec_kind() == HttpErrorKind::Parse)
                        &&& (!old(self).spec_body_open() && ctv.len() > 0 && mt is Some && !is_mp
                            && cl_ok ==> false)
                        &&& ((old(self).spec_body_open() || ctv.len() == 0 || mt is None || (is_mp
                            && bnd is None) || clv.len() == 0 || !cl_ok) ==> {
                            &&& final(self).spec_pending() == old(self).spec_pending()
                            &&& final(self).spec_body_open() == old(self).spec_body_open()
                        })
                        &&& ((!old(self).spec_body_open() && ctv.len() > 0 && is_mp && bnd is Some
                            && cl_ok) ==> {
                            &&& final(self).spec_pending() == old(self).spec_pending().skip(
                                min3(n, n, old(self).spec_pending().len() as int),
                            )
                            &&& final(self).spec_body_open() == old(self).spec_body_open()
                        })
                    },
                }
            }),
    {
        if self.body_open {
            return Err(HttpError::new(HttpErrorKind::State, "a body reader is already open"));
        }
        let mut ct_name: Vec<u8> = Vec::new();
        ct_name.push(99);
        ct_name.push(111);
        ct_name.push(110);
        ct_name.push(116);
        ct_name.push(101);
        ct_name.push(110);
        ct_name.push(116);
        ct_name.push(45);
        ct_name.push(116);
        ct_name.push(121);
        ct_name.push(112);
        ct_name.push(101);
        proof {
            assert(ct_name@ =~= crate::multipart::content_type_name());
        }
        let joined = match self.request_header_bytes(ct_name.as_slice()) {
            Some(v) => v,
            None => {
                return Err(HttpError::new(HttpErrorKind::Config, "request has no content type"));
            },
        };
        let mt = match crate::media::parse_media_type_vec(joined.as_slice()) {
            Some(mt) => mt,
            None => {
                return Err(HttpError::new(HttpErrorKind::Config, "malformed content type"));
            },
        };
        let mut mp: Vec<u8> = Vec::new();
        mp.push(109);
        mp.push(117);
        mp.push(108);
        mp.push(116);
        mp.push(105);
        mp.push(112);
        mp.push(97);
        mp.push(114);
        mp.push(116);
        proof {
            assert(mp@ =~= multipart_kind());
        }
        let mut fd: Vec<u8> = Vec::new();
        fd.push(102);
        fd.push(111);
        fd.push(114);
        fd.push(109);
        fd.push(45);
        fd.push(100);
        fd.push(97);
        fd.push(116);
        fd.push(97);
        proof {
            assert(fd@ =~= crate::multipart::form_data_name());
        }
        let is_form = crate::text::bytes_eq(mt.kind.as_slice(), mp.as_slice())
            && crate::text::bytes_eq(mt.subtype.as_slice(), fd.as_slice());
        if is_form {
            let mut bp: Vec<u8> = Vec::new();
            bp.push(98);
            bp.push(111);
            bp.push(117);
            bp.push(110);
            bp.push(100);
            bp.push(97);
            bp.push(114);
            bp.push(121);
            proof {
                assert(bp@ =~= boundary_param());
            }
            let boundary = match mt.param(bp.as_slice()) {
                Some(b) => b,
                None => {
                    return Err(
                        HttpError::new(HttpErrorKind::Config, "form body declares no boundary"),
                    );
                },
            };
            let mut br = match self.body_reader() {
                Ok(br) => br,
                Err(e) => {
                    return Err(e);
                },
            };
            let body = br.read_to_end(self);
            let short = br.remaining() > 0;
            self.finish_body(br);
            if short {
                return Err(
                    HttpError::new(HttpErrorKind::Io, "connection ended before the declared body"),
                );
            }
            match crate::multipart::Form::new(body.as_slice(), boundary.as_slice()) {
                Ok(form) => Ok(BodyParser::Form(form)),
                Err(e) => Err(e),
            }
        } else {
            let br = match self.body_reader() {
                Ok(br) => br,
                Err(e) => {
                    return Err(e);
                },
            };
            Ok(BodyParser::Unknown(mt, br))
        }
    }
}

/// Within a well-formed client every header value is made of header-value
/// bytes and is valid UTF-8.
proof fn lemma_headers_wf_field_bytes(c: &Client)
    requires
        c.wf(),
    ensures
        forall|i: int|
            0 <= i < c.spec_headers().len() ==> all_field_bytes(#[trigger] c.spec_headers()[i].1)
                && vstd::utf8::valid_utf8(c.spec_headers()[i].1),
{
    assert forall|i: int|
        0 <= i < c.spec_headers().len() implies all_field_bytes(
        #[trigger] c.spec_headers()[i].1,
    ) && vstd::utf8::valid_utf8(c.spec_headers()[i].1) by {
        assert(c.spec_headers()[i] == c.requested.headers@[i].deep_view());
        assert(c.requested.headers@[i].1.deep_view() =~= c.requested.headers@[i].1@);
        assert(all_field_bytes(c.requested.headers@[i].1@));
        assert(vstd::utf8::valid_utf8(c.requested.headers@[i].1@));
    }
}

/// Appending the same bytes to a sequence and to its suffix keeps the
/// suffix relation.
proof fn lemma_suffix_extend(hist: Seq<u8>, wire: Seq<u8>, added: Seq<u8>)
    requires
        wire.len() <= hist.len(),
        wire == hist.skip(hist.len() - wire.len()),
    ensures
        (wire + added) == (hist + added).skip(
            (hist + added).len() - (wire + added).len(),
        ),
{
    assert((wire + added) =~= (hist + added).skip((hist + added).len() - (wire + added).len()));
}

} // verus!
