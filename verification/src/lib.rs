//! A codec for HTTP/1.1 messages on the wire: a byte buffer is decoded into
//! a request or a response, and a message is encoded into bytes.
//!
//! Decoding goes stage by stage and can be suspended after any stage when
//! the buffer ends too early; it is taken up again when more bytes have
//! come, and then yields what decoding all the bytes at once would yield.
//! The body is never read from the buffer: the caller attaches it.

pub mod basic_combinator;
pub mod error;
pub mod http_combinator;
pub mod http_elements;
pub mod http_ext;
pub mod partial_request;
pub mod partial_response;
pub mod request;
pub mod response;
pub mod round_trip;
pub mod stage;

pub use crate::error::FromUtf8Err;
pub use crate::http_ext::{FromUtf8, IntoUtf8};
pub use crate::partial_request::PartialRequest;
pub use crate::partial_response::PartialResponse;
pub use crate::request::Request;
pub use crate::response::Response;
