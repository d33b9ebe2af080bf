//! A small HTTP/1.1 client library: request building and serialization,
//! response parsing, and an incremental response decoder that supports
//! `Content-Length` and chunked transfer framing, with redirect handling.
//!
//! The library is the part worth proving: the wire serialization of
//! requests, the parsing of status lines and header blocks (obsolete
//! line folding included), the body-framing state machine, and the
//! redirect and timeout decisions. The I/O around it — sockets, TLS,
//! DNS, the command line — lives outside and only moves bytes in and
//! out of these functions.

pub mod ascii;
pub mod client;
pub mod constants;
pub mod dns;
pub mod errors;
pub mod http;
pub mod request;
pub mod response;
pub mod results;
pub mod strconv;
pub mod urlcalls;

pub use client::Client;
pub use request::RequestBuilder;
