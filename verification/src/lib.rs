//! A minimal HTTP/1.x server engine, verified.
//!
//! The engine owns per-connection request parsing, response framing, bounded
//! body streaming (including multipart form bodies), and admission control
//! bounding the number of concurrently handled connections. All protocol
//! decisions are made here on plain bytes; sockets and threads live with the
//! embedding program, which shuttles bytes between a connection and the
//! [`Client`] state machine.

mod client;
mod error;
mod headers;
mod media;
mod multipart;
mod request;
mod text;
mod semaphore;
mod supervisor;

pub use client::BodyParser;
pub use client::BodyReader;
pub use client::Client;
pub use client::PeerAddr;
pub use client::Response;
pub use error::HttpError;
pub use error::HttpErrorKind;
pub use headers::read_headers;
pub use media::MediaType;
pub use media::parse_media_type_vec;
pub use multipart::Form;
pub use multipart::FormField;
pub use headers::find_block_end;
pub use request::Requested;
pub use request::parse_request;
pub use semaphore::Semaphore;
pub use supervisor::HttpRequestHandler;
pub use supervisor::accept_request;
pub use supervisor::bad_request_response;
pub use supervisor::complete_request;
