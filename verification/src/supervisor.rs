//! Per-connection supervision.
//!
//! The embedding program accepts a connection, parses its request, lets the
//! application handler run, and closes. The decisions along that path live
//! here, verified: which method hook a request dispatches to, the fixed
//! response for a request that does not parse, and what happens after the
//! handler returns — a synthesized `500` when it failed with the headers
//! unsent, an empty `200 Ok` flush when it succeeded without responding,
//! and not one byte more when a response is already out.

use vstd::prelude::*;
use vstd::string::StringSliceAdditionalSpecFns;

use crate::client::Client;
use crate::client::PeerAddr;
use crate::client::status_head;
use crate::error::HttpError;
use crate::error::HttpErrorKind;

verus! {

/// The bytes of `Bad Request`.
pub open spec fn bad_request_message() -> Seq<u8> {
    seq![66u8, 97, 100, 32, 82, 101, 113, 117, 101, 115, 116]
}

/// The bytes of `err: bad request` and a line break.
pub open spec fn bad_request_body() -> Seq<u8> {
    seq![101u8, 114, 114, 58, 32, 98, 97, 100, 32, 114, 101, 113, 117, 101, 115, 116, 13, 10]
}

/// The whole fixed answer to a request that does not parse: a `400 Bad
/// Request` status line as HTTP/1.0, the fixed trailer, and a short body.
pub open spec fn spec_bad_request_response() -> Seq<u8> {
    status_head(0, 400, bad_request_message()) + bad_request_body()
}

/// The bytes of `Method Not Allowed`.
pub open spec fn method_not_allowed_message() -> Seq<u8> {
    seq![
        77u8,
        101,
        116,
        104,
        111,
        100,
        32,
        78,
        111,
        116,
        32,
        65,
        108,
        108,
        111,
        119,
        101,
        100,
    ]
}

/// The bytes of `Internal Server Error`.
pub open spec fn internal_error_message() -> Seq<u8> {
    seq![
        73u8,
        110,
        116,
        101,
        114,
        110,
        97,
        108,
        32,
        83,
        101,
        114,
        118,
        101,
        114,
        32,
        69,
        114,
        114,
        111,
        114,
    ]
}

/// The bytes of `err: internal`.
pub open spec fn internal_error_body() -> Seq<u8> {
    seq![101u8, 114, 114, 58, 32, 105, 110, 116, 101, 114, 110, 97, 108]
}

/// The fixed answer to a request that does not parse, ready for the wire.
/// It is written directly to the connection, bypassing any [`Client`]: no
/// handler runs for a malformed request.
pub fn bad_request_response() -> (r: Vec<u8>)
    ensures
        r@ == spec_bad_request_response(),
{
    let mut msg: Vec<u8> = Vec::new();
    msg.push(66);
    msg.push(97);
    msg.push(100);
    msg.push(32);
    msg.push(82);
    msg.push(101);
    msg.push(113);
    msg.push(117);
    msg.push(101);
    msg.push(115);
    msg.push(116);
    proof {
        assert(msg@ =~= bad_request_message());
    }
    let mut out = crate::client::head_bytes(0, 400, &msg);
    out.push(101);
    out.push(114);
    out.push(114);
    out.push(58);
    out.push(32);
    out.push(98);
    out.push(97);
    out.push(100);
    out.push(32);
    out.push(114);
    out.push(101);
    out.push(113);
    out.push(117);
    out.push(101);
    out.push(115);
    out.push(116);
    out.push(13);
    out.push(10);
    proof {
        assert(out@ =~= spec_bad_request_response());
    }
    out
}

/// Open one connection's request: split the bytes pulled from the
/// connection at the header boundary, parse the header block, and build
/// the [`Client`] for it.
///
/// On success, every byte pulled past the header boundary — and not one
/// byte of the header block — stands at the front of the client's pending
/// input, in order: body reads yield exactly those bytes first. A request
/// whose bytes hold no complete header block, or whose block does not
/// parse, is a `Parse` error, and no client is built.
pub fn accept_request(data: &Vec<u8>, addr: PeerAddr) -> (r: Result<Client, HttpError>)
    ensures
        match r {
            Ok(c) => exists|i: int|
                {
                    &&& 0 <= i <= data@.len()
                    &&& crate::headers::ends_block(#[trigger] data@.take(i))
                    &&& crate::headers::no_block_end_before(data@, i)
                    &&& crate::request::spec_parse_request(data@.take(i)) == Some(
                        (c.spec_method(), c.spec_path(), c.spec_version(), c.spec_headers()),
                    )
                    &&& c.spec_pending() == data@.skip(i)
                    &&& !c.spec_sent()
                    &&& c.spec_code() == 200
                    &&& c.spec_message() == seq![79u8, 107u8]
                    &&& !c.spec_body_open()
                    &&& c.spec_wire() == Seq::<u8>::empty()
                    &&& c.spec_history() == Seq::<u8>::empty()
                    &&& c.spec_addr_ip() == addr.ip@
                    &&& c.spec_addr_port() == addr.port
                    &&& c.wf()
                },
            Err(e) => {
                &&& e.spec_kind() == HttpErrorKind::Parse
                &&& (crate::headers::no_block_end_before(data@, data@.len() as int + 1) || exists|
                    i: int,
                |
                    {
                        &&& 0 <= i <= data@.len()
                        &&& crate::headers::ends_block(#[trigger] data@.take(i))
                        &&& crate::headers::no_block_end_before(data@, i)
                        &&& crate::request::spec_parse_request(data@.take(i)) is None
                    })
            },
        },
{
    let (block, rest, _lines) = match crate::headers::read_headers(data) {
        Ok(t) => t,
        Err(e) => {
            return Err(e);
        },
    };
    let requested = match crate::request::parse_request(&block, rest) {
        Ok(requested) => requested,
        Err(e) => {
            return Err(e);
        },
    };
    Ok(Client::new(requested, addr))
}

/// Settle the connection after the handler is done. `handler_failed` says
/// whether the handler returned an error or aborted abnormally.
///
/// With the response already out, nothing more goes on the wire, whatever
/// the outcome. Otherwise a failed handler gets a synthesized `500
/// Internal Server Error` with a short diagnostic body, and a successful
/// one that never responded gets its pending response — `200 Ok` unless
/// it chose otherwise — flushed with no body.
pub fn complete_request(client: &mut Client, handler_failed: bool)
    requires
        old(client).wf(),
    ensures
        final(client).wf(),
        old(client).same_request(final(client)),
        final(client).spec_pending() == old(client).spec_pending(),
        final(client).spec_sent(),
        old(client).spec_sent() ==> old(client).same_output(final(client)),
        !old(client).spec_sent() && handler_failed ==> final(client).spec_history() == old(
            client,
        ).spec_history() + status_head(old(client).spec_version(), 500, internal_error_message())
            + internal_error_body(),
        !old(client).spec_sent() && !handler_failed ==> final(client).spec_history() == old(
            client,
        ).spec_history() + old(client).spec_head(),
{
    if client.response_sent() {
        return ;
    }
    if handler_failed {
        let mut msg: Vec<u8> = Vec::new();
        msg.push(73);
        msg.push(110);
        msg.push(116);
        msg.push(101);
        msg.push(114);
        msg.push(110);
        msg.push(97);
        msg.push(108);
        msg.push(32);
        msg.push(83);
        msg.push(101);
        msg.push(114);
        msg.push(118);
        msg.push(101);
        msg.push(114);
        msg.push(32);
        msg.push(69);
        msg.push(114);
        msg.push(114);
        msg.push(111);
        msg.push(114);
        proof {
            assert(msg@ =~= internal_error_message());
        }
        client.set_response_bytes(500, msg);
        let mut body: Vec<u8> = Vec::new();
        body.push(101);
        body.push(114);
        body.push(114);
        body.push(58);
        body.push(32);
        body.push(105);
        body.push(110);
        body.push(116);
        body.push(101);
        body.push(114);
        body.push(110);
        body.push(97);
        body.push(108);
        proof {
            assert(body@ =~= internal_error_body());
        }
        client.write_all(body.as_slice());
    } else {
        match client.send_response() {
            Ok(()) => {},
            Err(_) => {
                proof {
                    assert(false);
                }
            },
        }
    }
}

/// The hooks an application implements to serve requests. The engine
/// dispatches one parsed request per connection to [`HttpRequestHandler::handle`],
/// whose default routes by method — `GET`, `HEAD` and `POST` to their
/// hooks, anything else to a `405 Method Not Allowed` — and each hook's
/// own default answers `405` too, so an application overrides only what
/// it supports.
pub trait HttpRequestHandler {
    /// Runs before parsing, with the peer's address; an error closes the
    /// connection without parsing or dispatch.
    fn before(&mut self, addr: &PeerAddr) -> (r: Result<(), HttpError>) {
        let _ = addr;
        Ok(())
    }

    /// Serve one parsed request. The default routes by method; for a
    /// method with no hook it records a `405 Method Not Allowed` answer,
    /// writing nothing itself — the flush after the handler sends it.
    fn handle(&mut self, client: &mut Client) -> (r: Result<(), HttpError>)
        requires
            old(client).wf(),
        ensures
            final(client).wf(),
        default_ensures
            ({
                let m = old(client).spec_method();
                (m != "GET".spec_bytes() && m != "HEAD".spec_bytes() && m
                    != "POST".spec_bytes()) ==> {
                    &&& old(client).same_output(final(client))
                    &&& final(client).spec_pending() == old(client).spec_pending()
                    &&& final(client).spec_sent() == old(client).spec_sent()
                    &&& match r {
                        Ok(()) => !old(client).spec_sent() && final(client).spec_code() == 405
                            && final(client).spec_message() == method_not_allowed_message(),
                        Err(e) => e.spec_kind() == HttpErrorKind::State && old(
                            client,
                        ).spec_sent(),
                    }
                }
            }),
    {
        if client.method_is("GET") {
            self.do_get(client)
        } else if client.method_is("HEAD") {
            self.do_head(client)
        } else if client.method_is("POST") {
            self.do_post(client)
        } else if client.response_sent() {
            Err(HttpError::new(HttpErrorKind::State, "response already sent"))
        } else {
            let mut msg: Vec<u8> = Vec::new();
            msg.push(77);
            msg.push(101);
            msg.push(116);
            msg.push(104);
            msg.push(111);
            msg.push(100);
            msg.push(32);
            msg.push(78);
            msg.push(111);
            msg.push(116);
            msg.push(32);
            msg.push(65);
            msg.push(108);
            msg.push(108);
            msg.push(111);
            msg.push(119);
            msg.push(101);
            msg.push(100);
            proof {
                assert(msg@ =~= method_not_allowed_message());
                assert(crate::text::no_ctl(msg@));
            }
            client.set_response_bytes(405, msg);
            Ok(())
        }
    }

    /// Serve a `GET` request.
    fn do_get(&mut self, client: &mut Client) -> (r: Result<(), HttpError>)
        requires
            old(client).wf(),
        ensures
            final(client).wf(),
    {
        match client.set_response(405, "Method Not Allowed") {
            Ok(()) => Ok(()),
            Err(e) => Err(e),
        }
    }

    /// Serve a `HEAD` request.
    fn do_head(&mut self, client: &mut Client) -> (r: Result<(), HttpError>)
        requires
            old(client).wf(),
        ensures
            final(client).wf(),
    {
        match client.set_response(405, "Method Not Allowed") {
            Ok(()) => Ok(()),
            Err(e) => Err(e),
        }
    }

    /// Serve a `POST` request.
    fn do_post(&mut self, client: &mut Client) -> (r: Result<(), HttpError>)
        requires
            old(client).wf(),
        ensures
            final(client).wf(),
    {
        match client.set_response(405, "Method Not Allowed") {
            Ok(()) => Ok(()),
            Err(e) => Err(e),
        }
    }
}

} // verus!
