//! An HTTP/1.1 client-side message engine.
//!
//! The library serializes structured requests into exact wire bytes and
//! parses incoming bytes, delivered in arbitrary chunks, back into
//! structured responses.  The transport itself (TCP, TLS) is a collaborator
//! that lives outside this crate; the library works on plain byte buffers
//! and a transcript model of one exclusive transport session.
#![verifier::loop_isolation(false)]

pub mod msg;
pub mod text;
pub mod serialize;
pub mod parse;
pub mod session;
pub mod client;

pub use msg::{Error, ErrorKind, Request, Response};
pub use parse::ResponseParser;
pub use session::Session;
