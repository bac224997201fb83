//! The request message and its codec.

use crate::basic_combinator::SP;
use crate::error::{FromUtf8Err, ParseFailure};
use crate::http_elements::{headers_wire, is_request_target, HeaderMap, Method, Uri, Version};
use crate::http_ext::{FromUtf8, IntoUtf8};
use crate::partial_request::{PartialRequest, PartialRequestHead};
use crate::round_trip::{
    canonical_fields, lemma_headers_stage_reads, lemma_method_stage_reads, lemma_target_stage_reads,
    lemma_version_stage_reads,
};
use crate::stage::{crlf, space};
use vstd::prelude::*;

verus! {

/// The head of a request as a mathematical value: all of it but the body.
pub struct RequestHead {
    pub method: Method,
    pub target: Seq<u8>,
    pub version: Version,
    pub headers: Seq<(Seq<u8>, Seq<u8>)>,
}

/// A request: method, target, version, header fields, and a body of the
/// caller's choosing.
#[derive(Debug)]
pub struct Request<T> {
    method: Method,
    uri: Uri,
    version: Version,
    headers: HeaderMap,
    body: T,
}

/// What decoding the head of a request from `buf` gives.
pub open spec fn decode_request(buf: Seq<u8>) -> Result<RequestHead, ParseFailure> {
    match PartialRequestHead::fresh(buf).finish() {
        Ok(p) => Ok(p.head()),
        Err(e) => Err(e),
    }
}

/// The bytes of a request on the wire: the request line, the header fields,
/// a bare CR LF, and the body as it is.
pub open spec fn request_wire(head: RequestHead, body: Seq<u8>) -> Seq<u8> {
    head.method.token() + seq![SP] + head.target + seq![SP] + head.version.token() + crlf()
        + headers_wire(head.headers) + crlf() + body
}

/// Whether a head is written as the decoder reads it back: its target is a
/// request target, and its fields are canonical.
pub open spec fn canonical_request(head: RequestHead) -> bool {
    is_request_target(head.target) && canonical_fields(head.headers)
}

/// Round trip: a canonical head that is encoded with any body is decoded as
/// it was, each header field in its place, and the decoder stops before the
/// first byte of the body.
pub proof fn lemma_request_round_trip(head: RequestHead, body: Seq<u8>)
    requires
        canonical_request(head),
    ensures
        decode_request(request_wire(head, body)) == Ok::<RequestHead, ParseFailure>(head),
        PartialRequestHead::fresh(request_wire(head, body)).finish() matches Ok(p) && p.rest
            == body,
{
    reveal(PartialRequestHead::step);
    let at_headers = headers_wire(head.headers) + crlf() + body;
    let at_version = head.version.token() + crlf() + at_headers;
    let at_target = head.target + space() + at_version;
    let wire = head.method.token() + space() + at_target;
    assert(request_wire(head, body) =~= wire);
    lemma_method_stage_reads(head.method, at_target);
    lemma_target_stage_reads(head.target, at_version);
    lemma_version_stage_reads(head.version, crlf(), at_headers);
    lemma_headers_stage_reads(head.headers, body);
    let fresh = PartialRequestHead::fresh(wire);
    let named = PartialRequestHead { method: Some(head.method), rest: at_target, ..fresh };
    let aimed = PartialRequestHead { target: Some(head.target), rest: at_version, ..named };
    let versed = PartialRequestHead { version: Some(head.version), rest: at_headers, ..aimed };
    let done = PartialRequestHead { headers: Some(head.headers), rest: body, ..versed };
    assert(fresh.step() == Ok::<PartialRequestHead, ParseFailure>(named));
    assert(named.step() == Ok::<PartialRequestHead, ParseFailure>(aimed));
    assert(aimed.step() == Ok::<PartialRequestHead, ParseFailure>(versed));
    assert(versed.step() == Ok::<PartialRequestHead, ParseFailure>(done));
    assert(done.drive() == (done, None::<ParseFailure>));
    assert(versed.drive() == done.drive());
    assert(aimed.drive() == versed.drive());
    assert(named.drive() == aimed.drive());
    assert(fresh.drive() == named.drive());
}

impl<T> Request<T> {
    /// The head of the request.
    pub closed spec fn head(&self) -> RequestHead {
        RequestHead {
            method: self.method,
            target: self.uri@,
            version: self.version,
            headers: self.headers@,
        }
    }

    /// The body of the request.
    pub closed spec fn payload(&self) -> T {
        self.body
    }

    pub fn new(method: Method, uri: Uri, version: Version, headers: HeaderMap, body: T) -> (r:
        Self)
        ensures
            r.head() == (RequestHead {
                method,
                target: uri@,
                version,
                headers: headers@,
            }),
            r.payload() == body,
    {
        Request { method, uri, version, headers, body }
    }

    pub fn method(&self) -> (r: Method)
        ensures
            r == self.head().method,
    {
        self.method
    }

    pub fn uri(&self) -> (r: &Uri)
        ensures
            r@ == self.head().target,
    {
        &self.uri
    }

    pub fn version(&self) -> (r: Version)
        ensures
            r == self.head().version,
    {
        self.version
    }

    pub fn headers(&self) -> (r: &HeaderMap)
        ensures
            r@ == self.head().headers,
    {
        &self.headers
    }

    pub fn body(&self) -> (r: &T)
        ensures
            *r == self.payload(),
    {
        &self.body
    }

    pub fn into_body(self) -> (r: T)
        ensures
            r == self.payload(),
    {
        self.body
    }
}

impl<T> FromUtf8<T> for Request<T> {
    /// Decoding reads the head from the buffer, stage by stage, and attaches
    /// `body` as it is. Nothing of the buffer behind the head is read.
    open spec fn decoded(buf: Seq<u8>, body: T, r: Result<Self, FromUtf8Err>) -> bool {
        match decode_request(buf) {
            Ok(head) => r matches Ok(request) && request.head() == head && request.payload()
                == body,
            Err(e) => r matches Err(err) && err@ == e,
        }
    }

    fn from_utf8<'a>(buf: &'a [u8], body: T) -> (r: Result<Self, FromUtf8Err>) {
        proof {
            reveal(PartialRequestHead::step);
        }
        let ghost start = PartialRequestHead::fresh(buf@);
        let with_method = match PartialRequest::builder(buf).method() {
            Ok(b) => b,
            Err(e) => {
                return Err(e);
            },
        };
        assert(with_method@.drive() == start.drive());
        let with_uri = match with_method.uri() {
            Ok(b) => b,
            Err(e) => {
                return Err(e);
            },
        };
        assert(with_uri@.drive() == start.drive());
        let with_version = match with_uri.version() {
            Ok(b) => b,
            Err(e) => {
                return Err(e);
            },
        };
        assert(with_version@.drive() == start.drive());
        let with_headers = match with_version.headers() {
            Ok(b) => b,
            Err(e) => {
                return Err(e);
            },
        };
        assert(with_headers@.drive() == start.drive());
        Ok(with_headers.body(body))
    }
}

impl IntoUtf8 for Request<Vec<u8>> {
    open spec fn wire(&self) -> Seq<u8> {
        request_wire(self.head(), self.payload()@)
    }

    /// A request whose fields are canonical is decoded from its bytes as
    /// it is.
    fn into_utf8(&self) -> (r: Result<Vec<u8>, ()>)
        ensures
            r matches Ok(bytes) && (canonical_fields(self.head().headers) ==> decode_request(
                bytes@,
            ) == Ok::<RequestHead, ParseFailure>(self.head())),
    {
        let mut out: Vec<u8> = self.method.as_bytes();
        out.push(SP);
        out.extend_from_slice(self.uri.as_bytes());
        out.push(SP);
        let mut version = self.version.as_bytes();
        out.append(&mut version);
        out.push(crate::basic_combinator::CR);
        out.push(crate::basic_combinator::LF);
        let mut fields = match self.headers.into_utf8() {
            Ok(bytes) => bytes,
            Err(e) => {
                return Err(e);
            },
        };
        out.append(&mut fields);
        out.push(crate::basic_combinator::CR);
        out.push(crate::basic_combinator::LF);
        out.extend_from_slice(self.body.as_slice());
        assert(out@ =~= request_wire(self.head(), self.payload()@));
        proof {
            if canonical_fields(self.head().headers) {
                lemma_request_round_trip(self.head(), self.payload()@);
            }
        }
        Ok(out)
    }
}

} // verus!
