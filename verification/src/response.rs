//! The response message and its codec.

use crate::basic_combinator::{ByteClass, CR, LF, SP};
use crate::error::{FromUtf8Err, ParseFailure};
use crate::http_elements::{code_digits, headers_wire, reason_text, HeaderMap, StatusCode, Version};
use crate::http_ext::{FromUtf8, IntoUtf8};
use crate::partial_response::{PartialResponse, PartialResponseHead};
use crate::round_trip::{
    canonical_fields, lemma_headers_stage_reads, lemma_status_stage_reads,
    lemma_version_stage_reads,
};
use crate::stage::{crlf, space};
use vstd::prelude::*;

verus! {

/// The head of a response as a mathematical value: all of it but the body.
pub struct ResponseHead {
    pub version: Version,
    pub status: u16,
    pub headers: Seq<(Seq<u8>, Seq<u8>)>,
}

/// A response: version, status code, header fields, and a body of the
/// caller's choosing. The reason phrase of a status line is not kept.
#[derive(Debug)]
pub struct Response<T> {
    version: Version,
    status: StatusCode,
    headers: HeaderMap,
    body: T,
}

/// What decoding the head of a response from `buf` gives.
pub open spec fn decode_response(buf: Seq<u8>) -> Result<ResponseHead, ParseFailure> {
    match PartialResponseHead::fresh(buf).finish() {
        Ok(p) => Ok(p.head()),
        Err(e) => Err(e),
    }
}

/// The bytes of a response on the wire with `reason` as its reason phrase:
/// the status line, the header fields, a bare CR LF, and the body as it is.
pub open spec fn response_wire_with(head: ResponseHead, reason: Seq<u8>, body: Seq<u8>) -> Seq<
    u8,
> {
    head.version.token() + space() + code_digits(head.status) + space() + reason + crlf()
        + headers_wire(head.headers) + crlf() + body
}

/// The bytes of a response on the wire. The reason phrase is the one that
/// the `http` crate prints for the status code.
pub open spec fn response_wire(head: ResponseHead, body: Seq<u8>) -> Seq<u8> {
    response_wire_with(head, reason_text(head.status), body)
}

/// Whether a head is written as the decoder reads it back: its status code
/// lies in 100 to 599, and its fields are canonical.
pub open spec fn canonical_response(head: ResponseHead) -> bool {
    100 <= head.status <= 599 && canonical_fields(head.headers)
}

/// Round trip: a canonical head that is encoded with any reason phrase and
/// any body is decoded as it was, each header field in its place, and the
/// decoder stops before the first byte of the body.
pub proof fn lemma_response_round_trip(head: ResponseHead, reason: Seq<u8>, body: Seq<u8>)
    requires
        canonical_response(head),
        forall|i: int| 0 <= i < reason.len() ==> ByteClass::Reason.has(#[trigger] reason[i]),
    ensures
        decode_response(response_wire_with(head, reason, body)) == Ok::<
            ResponseHead,
            ParseFailure,
        >(head),
        PartialResponseHead::fresh(response_wire_with(head, reason, body)).finish() matches Ok(p)
            && p.rest == body,
{
    reveal(PartialResponseHead::step);
    let at_headers = headers_wire(head.headers) + crlf() + body;
    let at_status = code_digits(head.status) + space() + reason + crlf() + at_headers;
    let wire = head.version.token() + space() + at_status;
    assert(response_wire_with(head, reason, body) =~= wire);
    lemma_version_stage_reads(head.version, space(), at_status);
    lemma_status_stage_reads(head.status, reason, at_headers);
    lemma_headers_stage_reads(head.headers, body);
    let fresh = PartialResponseHead::fresh(wire);
    let versed = PartialResponseHead { version: Some(head.version), rest: at_status, ..fresh };
    let rated = PartialResponseHead { status: Some(head.status), rest: at_headers, ..versed };
    let done = PartialResponseHead { headers: Some(head.headers), rest: body, ..rated };
    assert(fresh.step() == Ok::<PartialResponseHead, ParseFailure>(versed));
    assert(versed.step() == Ok::<PartialResponseHead, ParseFailure>(rated));
    assert(rated.step() == Ok::<PartialResponseHead, ParseFailure>(done));
    assert(done.drive() == (done, None::<ParseFailure>));
    assert(rated.drive() == done.drive());
    assert(versed.drive() == rated.drive());
    assert(fresh.drive() == versed.drive());
}

impl<T> Response<T> {
    /// The head of the response.
    pub closed spec fn head(&self) -> ResponseHead {
        ResponseHead { version: self.version, status: self.status@, headers: self.headers@ }
    }

    /// The body of the response.
    pub closed spec fn payload(&self) -> T {
        self.body
    }

    pub fn new(version: Version, status: StatusCode, headers: HeaderMap, body: T) -> (r: Self)
        ensures
            r.head() == (ResponseHead { version, status: status@, headers: headers@ }),
            r.payload() == body,
    {
        Response { version, status, headers, body }
    }

    pub fn version(&self) -> (r: Version)
        ensures
            r == self.head().version,
    {
        self.version
    }

    pub fn status(&self) -> (r: StatusCode)
        ensures
            r@ == self.head().status,
    {
        self.status
    }

    pub fn headers(&self) -> (r: &HeaderMap)
        ensures
            r@ == self.head().headers,
    {
        &self.headers
    }

    pub fn body(&self) -> (r: &T)
        ensures
            *r == self.payload(),
    {
        &self.body
    }

    pub fn into_body(self) -> (r: T)
        ensures
            r == self.payload(),
    {
        self.body
    }
}

impl IntoUtf8 for Response<Vec<u8>> {
    open spec fn wire(&self) -> Seq<u8> {
        response_wire(self.head(), self.payload()@)
    }

    /// A response whose fields are canonical is decoded from its bytes as
    /// it is.
    fn into_utf8(&self) -> (r: Result<Vec<u8>, ()>)
        ensures
            r matches Ok(bytes) && (canonical_fields(self.head().headers) ==> decode_response(
                bytes@,
            ) == Ok::<ResponseHead, ParseFailure>(self.head())),
    {
        let mut result: Vec<u8> = Vec::new();
        let mut version = match self.version.into_utf8() {
            Ok(bytes) => bytes,
            Err(e) => {
                return Err(e);
            },
        };
        result.append(&mut version);
        result.push(SP);
        let mut status = self.status.to_text();
        result.append(&mut status);
        result.push(CR);
        result.push(LF);
        let mut fields = match self.headers.into_utf8() {
            Ok(bytes) => bytes,
            Err(e) => {
                return Err(e);
            },
        };
        result.append(&mut fields);
        result.push(CR);
        result.push(LF);
        result.extend_from_slice(self.body.as_slice());
        assert(result@ =~= response_wire(self.head(), self.payload()@));
        proof {
            if canonical_fields(self.head().headers) {
                lemma_response_round_trip(
                    self.head(),
                    reason_text(self.head().status),
                    self.payload()@,
                );
            }
        }
        Ok(result)
    }
}

impl<T> FromUtf8<T> for Response<T> {
    /// Decoding reads the head from the buffer, stage by stage, and attaches
    /// `body` as it is. Nothing of the buffer behind the head is read.
    open spec fn decoded(buf: Seq<u8>, body: T, r: Result<Self, FromUtf8Err>) -> bool {
        match decode_response(buf) {
            Ok(head) => r matches Ok(response) && response.head() == head && response.payload()
                == body,
            Err(e) => r matches Err(err) && err@ == e,
        }
    }

    fn from_utf8<'a>(buf: &'a [u8], body: T) -> (r: Result<Self, FromUtf8Err>) {
        proof {
            reveal(PartialResponseHead::step);
        }
        let ghost start = PartialResponseHead::fresh(buf@);
        let with_version = match PartialResponse::builder(buf).version() {
            Ok(b) => b,
            Err(e) => {
                return Err(e);
            },
        };
        assert(with_version@.drive() == start.drive());
        let with_status = match with_version.status() {
            Ok(b) => b,
            Err(e) => {
                return Err(e);
            },
        };
        assert(with_status@.drive() == start.drive());
        let with_headers = match with_status.headers() {
            Ok(b) => b,
            Err(e) => {
                return Err(e);
            },
        };
        assert(with_headers@.drive() == start.drive());
        Ok(with_headers.body(body))
    }
}

} // verus!
