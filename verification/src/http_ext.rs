//! The two halves of the codec: bytes to message, message to bytes.

use crate::error::FromUtf8Err;
use vstd::prelude::*;

verus! {

/// Decoding: a buffer holding the head of a message, and the body to attach,
/// give the message.
pub trait FromUtf8<T>: Sized {
    /// Whether `r` is what decoding `buf` with `body` must return.
    spec fn decoded(buf: Seq<u8>, body: T, r: Result<Self, FromUtf8Err>) -> bool;

    fn from_utf8<'a>(buf: &'a [u8], body: T) -> (r: Result<Self, FromUtf8Err>)
        ensures
            Self::decoded(buf@, body, r),
    ;
}

/// Encoding: a value gives its bytes on the wire.
pub trait IntoUtf8 {
    /// The bytes of `self` on the wire.
    spec fn wire(&self) -> Seq<u8>;

    fn into_utf8(&self) -> (r: Result<Vec<u8>, ()>)
        ensures
            r matches Ok(bytes) && bytes@ == self.wire(),
    ;
}

} // verus!
