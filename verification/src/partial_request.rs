//! Decoding a request in steps: the stages in their order, a builder that
//! takes them one by one, and a partial request that can be put aside and
//! taken up again when more bytes have come.

use crate::error::{FromUtf8Err, ParseFailure};
use crate::http_elements::{HeaderMap, Method, Uri, Version};
use crate::request::{Request, RequestHead};
use crate::stage::{
    crlf, headers_stage, lemma_headers_stage_settled, lemma_method_stage_settled,
    lemma_target_stage_settled, lemma_version_stage_settled, line_end, method_stage, take_headers,
    take_method, take_target, take_version, target_stage, version_stage,
};
use std::marker::PhantomData;
use crate::basic_combinator::lemma_skip_add;
use vstd::prelude::*;
use vstd::slice::{slice_subrange, slice_to_vec};

verus! {

/// The stage at which a builder stands: `missing` is the number of fields
/// that the message still lacks there.
pub trait Stage {
    spec fn missing() -> nat;
}

/// Nothing read yet; the method comes next.
pub struct NeedMethod;

/// The method is read; the target comes next.
pub struct NeedUri;

/// Method and target are read; the version comes next.
pub struct NeedVersion;

/// The request line is read; the header section comes next.
pub struct NeedHeader;

/// The head is read; only the body is to be attached.
pub struct NeedBody;

impl Stage for NeedMethod {
    open spec fn missing() -> nat {
        4
    }
}

impl Stage for NeedUri {
    open spec fn missing() -> nat {
        3
    }
}

impl Stage for NeedVersion {
    open spec fn missing() -> nat {
        2
    }
}

impl Stage for NeedHeader {
    open spec fn missing() -> nat {
        1
    }
}

impl Stage for NeedBody {
    open spec fn missing() -> nat {
        0
    }
}

/// A request in the making, as a mathematical value: the fields read so
/// far, and the bytes that no stage has taken yet.
pub struct PartialRequestHead {
    pub method: Option<Method>,
    pub target: Option<Seq<u8>>,
    pub version: Option<Version>,
    pub headers: Option<Seq<(Seq<u8>, Seq<u8>)>>,
    pub rest: Seq<u8>,
}

impl PartialRequestHead {
    /// Nothing read, and `rest` to read from.
    pub open spec fn fresh(rest: Seq<u8>) -> PartialRequestHead {
        PartialRequestHead { method: None, target: None, version: None, headers: None, rest }
    }

    /// The fields are filled in the order of the pipeline: none is set while
    /// one before it is not.
    pub open spec fn ordered(self) -> bool {
        &&& self.headers is Some ==> self.version is Some
        &&& self.version is Some ==> self.target is Some
        &&& self.target is Some ==> self.method is Some
    }

    /// The same fields with other bytes left.
    pub open spec fn with_rest(self, rest: Seq<u8>) -> PartialRequestHead {
        PartialRequestHead { rest, ..self }
    }

    /// The number of fields from the first unset one on; 0 when the head is
    /// complete.
    pub open spec fn missing(self) -> nat {
        if self.method is None {
            4
        } else if self.target is None {
            3
        } else if self.version is None {
            2
        } else if self.headers is None {
            1
        } else {
            0
        }
    }

    /// The method stage, run on the bytes left.
    pub open spec fn take_method(self) -> Result<PartialRequestHead, ParseFailure> {
        match method_stage(self.rest) {
            Ok((m, n)) => Ok(
                PartialRequestHead { method: Some(m), rest: self.rest.skip(n as int), ..self },
            ),
            Err(e) => Err(e),
        }
    }

    /// The target stage, run on the bytes left.
    pub open spec fn take_target(self) -> Result<PartialRequestHead, ParseFailure> {
        match target_stage(self.rest) {
            Ok((t, n)) => Ok(
                PartialRequestHead { target: Some(t), rest: self.rest.skip(n as int), ..self },
            ),
            Err(e) => Err(e),
        }
    }

    /// The version stage, run on the bytes left.
    pub open spec fn take_version(self) -> Result<PartialRequestHead, ParseFailure> {
        match version_stage(self.rest, crlf()) {
            Ok((v, n)) => Ok(
                PartialRequestHead { version: Some(v), rest: self.rest.skip(n as int), ..self },
            ),
            Err(e) => Err(e),
        }
    }

    /// The header stage, run on the bytes left.
    pub open spec fn take_headers(self) -> Result<PartialRequestHead, ParseFailure> {
        match headers_stage(self.rest) {
            Ok((h, n)) => Ok(
                PartialRequestHead { headers: Some(h), rest: self.rest.skip(n as int), ..self },
            ),
            Err(e) => Err(e),
        }
    }

    /// The stage of the first unset field, run on the bytes left.
    #[verifier::opaque]
    pub open spec fn step(self) -> Result<PartialRequestHead, ParseFailure> {
        if self.method is None {
            self.take_method()
        } else if self.target is None {
            self.take_target()
        } else if self.version is None {
            self.take_version()
        } else {
            self.take_headers()
        }
    }

    /// Stage after stage from the first unset field on, until the head is
    /// complete or a stage fails: the state reached, and the failure if
    /// there was one. A stage that fails leaves the state as it found it.
    pub open spec fn drive(self) -> (PartialRequestHead, Option<ParseFailure>)
        decreases self.missing(),
    {
        if self.missing() == 0 {
            (self, None)
        } else {
            match self.step() {
                Ok(next) => {
                    proof {
                        reveal(PartialRequestHead::step);
                    }
                    next.drive()
                },
                Err(e) => (self, Some(e)),
            }
        }
    }

    /// As far as the bytes left allow: the state reached when the head is
    /// complete or a stage is starved; a final error of a stage is the
    /// result.
    pub open spec fn advance(self) -> Result<PartialRequestHead, ParseFailure> {
        match self.drive() {
            (reached, None) => Ok(reached),
            (reached, Some(e)) => if e.incomplete {
                Ok(reached)
            } else {
                Err(e)
            },
        }
    }

    /// To the end: the complete head, or the error of the stage that
    /// failed, starved or not.
    pub open spec fn finish(self) -> Result<PartialRequestHead, ParseFailure> {
        match self.drive() {
            (reached, None) => Ok(reached),
            (_, Some(e)) => Err(e),
        }
    }

    /// The head of the request that a complete state holds.
    pub open spec fn head(self) -> RequestHead {
        RequestHead {
            method: self.method->0,
            target: self.target->0,
            version: self.version->0,
            headers: self.headers->0,
        }
    }
}

/// Where no stage failed, the head is complete.
pub proof fn lemma_drive_ends(p: PartialRequestHead)
    ensures
        p.drive().1 is None ==> p.drive().0.missing() == 0,
    decreases p.missing(),
{
    reveal(PartialRequestHead::step);
    if p.missing() != 0 {
        match p.step() {
            Ok(next) => {
                lemma_drive_ends(next);
            },
            Err(_) => {},
        }
    }
}

/// The stage of the first unset field is settled: what it yields on the
/// bytes left it yields when more bytes stand behind them, and these are
/// then left behind what it left; its final error stays a final error of
/// the same stage.
pub proof fn lemma_step_settled(p: PartialRequestHead, more: Seq<u8>)
    ensures
        match p.step() {
            Ok(next) => p.with_rest(p.rest + more).step() == Ok::<PartialRequestHead, ParseFailure>(
                next.with_rest(next.rest + more),
            ),
            Err(e) => e.incomplete || (p.with_rest(p.rest + more).step() matches Err(e2) && e2.kind
                == e.kind && !e2.incomplete),
        },
{
    reveal(PartialRequestHead::step);
    let s = p.rest;
    if p.method is None {
        lemma_method_stage_settled(s, more);
        match method_stage(s) {
            Ok((_, n)) => {
                lemma_skip_add(s, more, n);
            },
            Err(_) => {},
        }
    } else if p.target is None {
        lemma_target_stage_settled(s, more);
        match target_stage(s) {
            Ok((_, n)) => {
                lemma_skip_add(s, more, n);
            },
            Err(_) => {},
        }
    } else if p.version is None {
        lemma_version_stage_settled(s, more, crlf());
        match version_stage(s, crlf()) {
            Ok((_, n)) => {
                lemma_skip_add(s, more, n);
            },
            Err(_) => {},
        }
    } else {
        lemma_headers_stage_settled(s, more);
        match headers_stage(s) {
            Ok((_, n)) => {
                lemma_skip_add(s, more, n);
            },
            Err(_) => {},
        }
    }
}

/// Driving the stages over a longer input goes through the states that it
/// went through on the shorter one. Where the head was complete, the bytes
/// that came are left behind it; where a stage was starved, the drive on
/// the longer input is the drive from the state that was reached, with the
/// new bytes put behind those left; where a stage failed for good, it fails
/// for good again.
pub proof fn lemma_drive_resumes(p: PartialRequestHead, more: Seq<u8>)
    ensures
        match p.drive().1 {
            None => p.with_rest(p.rest + more).drive() == (
                p.drive().0.with_rest(p.drive().0.rest + more),
                None::<ParseFailure>,
            ),
            Some(e) => if e.incomplete {
                p.with_rest(p.rest + more).drive() == p.drive().0.with_rest(
                    p.drive().0.rest + more,
                ).drive()
            } else {
                p.with_rest(p.rest + more).drive().1 matches Some(e2) && e2.kind == e.kind
                    && !e2.incomplete
            },
        },
    decreases p.missing(),
{
    reveal(PartialRequestHead::step);
    if p.missing() != 0 {
        lemma_step_settled(p, more);
        match p.step() {
            Ok(next) => {
                lemma_drive_resumes(next, more);
            },
            Err(_) => {},
        }
    }
}

/// A drive that starts where a drive stopped stops there again, for the
/// same reason.
pub proof fn lemma_drive_fixed(p: PartialRequestHead)
    ensures
        p.drive().0.drive() == p.drive(),
    decreases p.missing(),
{
    reveal(PartialRequestHead::step);
    if p.missing() != 0 {
        match p.step() {
            Ok(next) => {
                lemma_drive_fixed(next);
            },
            Err(_) => {},
        }
    }
}

/// Finishing after advancing is finishing: the state that `advance` reaches
/// finishes as the state it started from, and a final error of `advance`
/// is the error of `finish`.
pub proof fn lemma_advance_then_finish(p: PartialRequestHead)
    ensures
        match p.advance() {
            Ok(reached) => reached.finish() == p.finish(),
            Err(e) => p.finish() == Err::<PartialRequestHead, ParseFailure>(e),
        },
{
    lemma_drive_fixed(p);
}

/// Resumption from any state: advance on the bytes at hand, put the bytes
/// that come later behind those left, and finish; the result is that of
/// finishing on all the bytes at once. A final error met on the way is met
/// again by the decoding at once, at the same stage.
pub proof fn lemma_resume_any(p: PartialRequestHead, more: Seq<u8>)
    ensures
        match p.advance() {
            Ok(reached) => reached.with_rest(reached.rest + more).finish() == p.with_rest(
                p.rest + more,
            ).finish(),
            Err(e) => !e.incomplete && (p.with_rest(p.rest + more).finish() matches Err(e2)
                && e2.kind == e.kind && !e2.incomplete),
        },
{
    lemma_drive_resumes(p, more);
    let reached = p.drive().0;
    if p.drive().1 is None {
        lemma_drive_ends(p);
    }
}

/// Resumption: split a buffer anywhere, decode the first part as far as it
/// goes, then take the decoding up with the second part; the result is that
/// of decoding the whole buffer in one go.
pub proof fn lemma_resumption(buf: Seq<u8>, k: int)
    requires
        0 <= k <= buf.len(),
    ensures
        match PartialRequestHead::fresh(buf.take(k)).advance() {
            Ok(reached) => reached.with_rest(reached.rest + buf.skip(k)).finish()
                == PartialRequestHead::fresh(buf).finish(),
            Err(e) => !e.incomplete && (PartialRequestHead::fresh(buf).finish() matches Err(e2)
                && e2.kind == e.kind && !e2.incomplete),
        },
{
    let first = PartialRequestHead::fresh(buf.take(k));
    let more = buf.skip(k);
    assert(first.with_rest(first.rest + more) == PartialRequestHead::fresh(buf)) by {
        assert(buf.take(k) + buf.skip(k) =~= buf);
    }
    lemma_resume_any(first, more);
}

/// Resumption by feeding: feed the first part of a buffer to a fresh
/// state, feed the second part to the state reached, and finish; the result
/// is that of decoding the whole buffer in one go. Where a feed ends with a
/// final error, the decoding in one go ends with a final error of the same
/// stage.
pub proof fn lemma_resumption_by_feeding(buf: Seq<u8>, k: int)
    requires
        0 <= k <= buf.len(),
    ensures
        match PartialRequestHead::fresh(buf.take(k)).advance() {
            Ok(reached) => match reached.with_rest(reached.rest + buf.skip(k)).advance() {
                Ok(last) => last.finish() == PartialRequestHead::fresh(buf).finish(),
                Err(e) => PartialRequestHead::fresh(buf).finish() == Err::<
                    PartialRequestHead,
                    ParseFailure,
                >(e),
            },
            Err(e) => !e.incomplete && (PartialRequestHead::fresh(buf).finish() matches Err(e2)
                && e2.kind == e.kind && !e2.incomplete),
        },
{
    lemma_resumption(buf, k);
    match PartialRequestHead::fresh(buf.take(k)).advance() {
        Ok(reached) => {
            lemma_advance_then_finish(reached.with_rest(reached.rest + buf.skip(k)));
        },
        Err(_) => {},
    }
}

/// A request whose decoding was put aside: the fields read so far and the
/// bytes not yet taken by a stage.
#[derive(Debug)]
pub struct PartialRequest {
    method: Option<Method>,
    uri: Option<Uri>,
    version: Option<Version>,
    headers: Option<HeaderMap>,
    rest: Vec<u8>,
}

impl View for PartialRequest {
    type V = PartialRequestHead;

    closed spec fn view(&self) -> PartialRequestHead {
        PartialRequestHead {
            method: self.method,
            target: match self.uri {
                Some(uri) => Some(uri@),
                None => None,
            },
            version: self.version,
            headers: match self.headers {
                Some(h) => Some(h@),
                None => None,
            },
            rest: self.rest@,
        }
    }
}

/// A builder at stage `T`: the state of the request, and the input that the
/// stages to come will read.
pub struct Builder<'a, T: Stage> {
    input: &'a [u8],
    result: PartialRequest,
    _phantom: PhantomData<T>,
}

impl<'a, T: Stage> View for Builder<'a, T> {
    type V = PartialRequestHead;

    /// The state of the request, with the builder's input as the bytes left.
    closed spec fn view(&self) -> PartialRequestHead {
        self.result@.with_rest(self.input@)
    }
}

impl PartialRequest {
    #[verifier::type_invariant]
    spec fn in_order(self) -> bool {
        self@.ordered()
    }

    /// A builder at the first stage, with `input` to read.
    pub fn builder(input: &[u8]) -> (r: Builder<'_, NeedMethod>)
        ensures
            r@ == PartialRequestHead::fresh(input@),
    {
        let result = PartialRequest {
            method: None,
            uri: None,
            version: None,
            headers: None,
            rest: Vec::new(),
        };
        Builder::init(input, result)
    }

    /// A partial request with nothing read and no bytes.
    pub fn new() -> (r: Self)
        ensures
            r@ == PartialRequestHead::fresh(Seq::empty()),
    {
        PartialRequest { method: None, uri: None, version: None, headers: None, rest: Vec::new() }
    }

    pub fn method(&self) -> (r: &Option<Method>)
        ensures
            *r == self@.method,
    {
        &self.method
    }

    pub fn uri(&self) -> (r: &Option<Uri>)
        ensures
            match *r {
                Some(uri) => self@.target == Some(uri@),
                None => self@.target is None,
            },
    {
        &self.uri
    }

    pub fn version(&self) -> (r: &Option<Version>)
        ensures
            *r == self@.version,
    {
        &self.version
    }

    pub fn headers(&self) -> (r: &Option<HeaderMap>)
        ensures
            match *r {
                Some(h) => self@.headers == Some(h@),
                None => self@.headers is None,
            },
    {
        &self.headers
    }

    /// The bytes that no stage has taken yet.
    pub fn rest(&self) -> (r: &[u8])
        ensures
            r@ == self@.rest,
    {
        self.rest.as_slice()
    }

    /// Runs the stages from the first unset field on over `input`, until the
    /// head is complete or a stage fails. Hands back the state reached, with
    /// the input not taken as its bytes left, and the failure if any.
    fn run(self, input: &[u8]) -> (r: (PartialRequest, Option<FromUtf8Err>))
        ensures
            r.0@ == self@.with_rest(input@).drive().0,
            match self@.with_rest(input@).drive().1 {
                None => r.1 is None,
                Some(e) => r.1 matches Some(err) && err@ == e,
            },
    {
        proof {
            use_type_invariant(&self);
            reveal(PartialRequestHead::step);
        }
        let ghost start = self@.with_rest(input@);
        let mut this = self;
        let mut rest = input;
        if this.method.is_none() {
            match take_method(rest) {
                Ok((m, used)) => {
                    this.method = Some(m);
                    rest = slice_subrange(rest, used, rest.len());
                },
                Err(e) => {
                    this.rest = slice_to_vec(rest);
                    return (this, Some(e));
                },
            }
        }
        assert(this@.with_rest(rest@).drive() == start.drive());
        if this.uri.is_none() {
            match take_target(rest) {
                Ok((uri, used)) => {
                    this.uri = Some(uri);
                    rest = slice_subrange(rest, used, rest.len());
                },
                Err(e) => {
                    this.rest = slice_to_vec(rest);
                    return (this, Some(e));
                },
            }
        }
        assert(this@.with_rest(rest@).drive() == start.drive());
        if this.version.is_none() {
            let end = line_end();
            match take_version(rest, end.as_slice()) {
                Ok((v, used)) => {
                    this.version = Some(v);
                    rest = slice_subrange(rest, used, rest.len());
                },
                Err(e) => {
                    this.rest = slice_to_vec(rest);
                    return (this, Some(e));
                },
            }
        }
        assert(this@.with_rest(rest@).drive() == start.drive());
        if this.headers.is_none() {
            match take_headers(rest) {
                Ok((h, used)) => {
                    this.headers = Some(h);
                    rest = slice_subrange(rest, used, rest.len());
                },
                Err(e) => {
                    this.rest = slice_to_vec(rest);
                    return (this, Some(e));
                },
            }
        }
        assert(this@.with_rest(rest@).drive() == start.drive());
        this.rest = slice_to_vec(rest);
        (this, None)
    }

    /// Takes up the decoding with more bytes: `more` is put behind the bytes
    /// left, and the stages go on from the first unset field. A stage that is
    /// starved suspends the decoding again; a final error ends it.
    pub fn feed(self, more: &[u8]) -> (r: Result<PartialRequest, FromUtf8Err>)
        ensures
            match self@.with_rest(self@.rest + more@).advance() {
                Ok(p) => r matches Ok(partial) && partial@ == p,
                Err(e) => r matches Err(err) && err@ == e,
            },
    {
        proof {
            use_type_invariant(&self);
        }
        let ghost before = self@;
        let mut this = self;
        let mut buf: Vec<u8> = Vec::new();
        std::mem::swap(&mut buf, &mut this.rest);
        let ghost emptied = this@;
        assert(buf@ == before.rest && emptied.with_rest(buf@) == before);
        buf.extend_from_slice(more);
        assert(buf@ == before.rest + more@);
        assert(emptied.with_rest(buf@) == before.with_rest(before.rest + more@));
        let (reached, stopped) = this.run(buf.as_slice());
        match stopped {
            None => Ok(reached),
            Some(e) => {
                if e.is_incomplete() {
                    Ok(reached)
                } else {
                    Err(e)
                }
            },
        }
    }

    /// Finishes the decoding on the bytes left: runs the stages from the
    /// first unset field on and attaches `body`. Any failure of a stage,
    /// starvation too, is an error.
    pub fn parse_rest<T>(self, body: T) -> (r: Result<Request<T>, FromUtf8Err>)
        ensures
            match self@.finish() {
                Ok(p) => r matches Ok(request) && request.head() == p.head() && request.payload()
                    == body,
                Err(e) => r matches Err(err) && err@ == e,
            },
    {
        proof {
            use_type_invariant(&self);
            lemma_drive_ends(self@);
        }
        let mut this = self;
        let mut buf: Vec<u8> = Vec::new();
        std::mem::swap(&mut buf, &mut this.rest);
        let (reached, stopped) = this.run(buf.as_slice());
        match stopped {
            None => {
                let empty: [u8; 0] = [];
                let ready: Builder<'_, NeedBody> = Builder::init(empty.as_slice(), reached);
                Ok(ready.body(body))
            },
            Some(e) => Err(e),
        }
    }

    /// Whether the head is complete, so that only the body is to be attached.
    pub fn is_complete(&self) -> (r: bool)
        ensures
            r == (self@.missing() == 0),
            self@.ordered(),
    {
        proof {
            use_type_invariant(self);
        }
        self.headers.is_some()
    }
}

impl<'a, T: Stage> Builder<'a, T> {
    #[verifier::type_invariant]
    spec fn at_stage(self) -> bool {
        self.result@.ordered() && self.result@.missing() == T::missing()
    }

    fn init(input: &'a [u8], result: PartialRequest) -> (r: Self)
        requires
            result@.missing() == T::missing(),
        ensures
            r@ == result@.with_rest(input@),
    {
        proof {
            use_type_invariant(&result);
        }
        Self { input, result, _phantom: PhantomData }
    }

    /// Puts the decoding aside: the state of the request, with the input not
    /// yet read as the bytes left.
    pub fn build(self) -> (r: PartialRequest)
        ensures
            r@ == self@,
            r@.ordered(),
            r@.missing() == T::missing(),
    {
        proof {
            use_type_invariant(&self);
        }
        let Builder { input, result, _phantom } = self;
        let mut result = result;
        result.rest = slice_to_vec(input);
        result
    }

    /// The input that the stages to come will read.
    pub fn remaining(&self) -> (r: &'a [u8])
        ensures
            r@ == self@.rest,
    {
        self.input
    }
}


impl<'a> Builder<'a, NeedMethod> {
    /// Reads the method and the space behind it.
    pub fn method(self) -> (r: Result<Builder<'a, NeedUri>, FromUtf8Err>)
        ensures
            match self@.take_method() {
                Ok(p) => r matches Ok(b) && b@ == p,
                Err(e) => r matches Err(err) && err@ == e,
            },
    {
        proof {
            use_type_invariant(&self);
        }
        let input = self.input;
        let mut result = self.result;
        match take_method(input) {
            Ok((m, used)) => {
                result.method = Some(m);
                Ok(Builder::init(slice_subrange(input, used, input.len()), result))
            },
            Err(e) => Err(e),
        }
    }
}

impl<'a> Builder<'a, NeedUri> {
    /// Reads the target and the space behind it, and validates the target.
    pub fn uri(self) -> (r: Result<Builder<'a, NeedVersion>, FromUtf8Err>)
        ensures
            match self@.take_target() {
                Ok(p) => r matches Ok(b) && b@ == p,
                Err(e) => r matches Err(err) && err@ == e,
            },
    {
        proof {
            use_type_invariant(&self);
        }
        let input = self.input;
        let mut result = self.result;
        match take_target(input) {
            Ok((uri, used)) => {
                result.uri = Some(uri);
                Ok(Builder::init(slice_subrange(input, used, input.len()), result))
            },
            Err(e) => Err(e),
        }
    }
}

impl<'a> Builder<'a, NeedVersion> {
    /// Reads the version and the CR LF behind it.
    pub fn version(self) -> (r: Result<Builder<'a, NeedHeader>, FromUtf8Err>)
        ensures
            match self@.take_version() {
                Ok(p) => r matches Ok(b) && b@ == p,
                Err(e) => r matches Err(err) && err@ == e,
            },
    {
        proof {
            use_type_invariant(&self);
        }
        let input = self.input;
        let mut result = self.result;
        let end = line_end();
        match take_version(input, end.as_slice()) {
            Ok((v, used)) => {
                result.version = Some(v);
                Ok(Builder::init(slice_subrange(input, used, input.len()), result))
            },
            Err(e) => Err(e),
        }
    }
}

impl<'a> Builder<'a, NeedHeader> {
    /// Reads the header section into a header map.
    pub fn headers(self) -> (r: Result<Builder<'a, NeedBody>, FromUtf8Err>)
        ensures
            match self@.take_headers() {
                Ok(p) => r matches Ok(b) && b@ == p,
                Err(e) => r matches Err(err) && err@ == e,
            },
    {
        proof {
            use_type_invariant(&self);
        }
        let input = self.input;
        let mut result = self.result;
        match take_headers(input) {
            Ok((h, used)) => {
                result.headers = Some(h);
                Ok(Builder::init(slice_subrange(input, used, input.len()), result))
            },
            Err(e) => Err(e),
        }
    }
}

impl<'a> Builder<'a, NeedBody> {
    /// Attaches `body` and yields the request. The input not read stays
    /// with the caller; see `remaining`.
    pub fn body<T>(self, body: T) -> (r: Request<T>)
        ensures
            r.head() == self@.head(),
            r.payload() == body,
    {
        proof {
            use_type_invariant(&self);
        }
        let result = self.result;
        Request::new(
            result.method.unwrap(),
            result.uri.unwrap(),
            result.version.unwrap(),
            result.headers.unwrap(),
            body,
        )
    }
}

} // verus!
