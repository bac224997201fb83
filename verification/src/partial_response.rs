//! Decoding a response in steps: the stages in their order, a builder that
//! takes them one by one, and a partial response that can be put aside and
//! taken up again when more bytes have come.

use crate::basic_combinator::lemma_skip_add;
use crate::error::{FromUtf8Err, ParseFailure};
use crate::http_elements::{HeaderMap, StatusCode, Version};
use crate::partial_request::Stage;
use crate::response::{Response, ResponseHead};
use crate::stage::{
    headers_stage, lemma_headers_stage_settled, lemma_status_stage_settled,
    lemma_version_stage_settled, one_space, space, status_stage, take_headers, take_status,
    take_version, version_stage,
};
use std::marker::PhantomData;
use vstd::prelude::*;
use vstd::slice::{slice_subrange, slice_to_vec};

verus! {

/// Nothing read yet; the version comes next.
pub struct NeedVersion;

/// The version is read; the status comes next.
pub struct NeedStatus;

/// The status line is read; the header section comes next.
pub struct NeedHeader;

/// The head is read; only the body is to be attached.
pub struct NeedBody;

impl Stage for NeedVersion {
    open spec fn missing() -> nat {
        3
    }
}

impl Stage for NeedStatus {
    open spec fn missing() -> nat {
        2
    }
}

impl Stage for NeedHeader {
    open spec fn missing() -> nat {
        1
    }
}

impl Stage for NeedBody {
    open spec fn missing() -> nat {
        0
    }
}

/// A response in the making, as a mathematical value: the fields read so
/// far, and the bytes that no stage has taken yet.
pub struct PartialResponseHead {
    pub version: Option<Version>,
    pub status: Option<u16>,
    pub headers: Option<Seq<(Seq<u8>, Seq<u8>)>>,
    pub rest: Seq<u8>,
}

impl PartialResponseHead {
    /// Nothing read, and `rest` to read from.
    pub open spec fn fresh(rest: Seq<u8>) -> PartialResponseHead {
        PartialResponseHead { version: None, status: None, headers: None, rest }
    }

    /// The fields are filled in the order of the pipeline: none is set while
    /// one before it is not.
    pub open spec fn ordered(self) -> bool {
        &&& self.headers is Some ==> self.status is Some
        &&& self.status is Some ==> self.version is Some
    }

    /// The same fields with other bytes left.
    pub open spec fn with_rest(self, rest: Seq<u8>) -> PartialResponseHead {
        PartialResponseHead { rest, ..self }
    }

    /// The number of fields from the first unset one on; 0 when the head is
    /// complete.
    pub open spec fn missing(self) -> nat {
        if self.version is None {
            3
        } else if self.status is None {
            2
        } else if self.headers is None {
            1
        } else {
            0
        }
    }

    /// The version stage, run on the bytes left.
    pub open spec fn take_version(self) -> Result<PartialResponseHead, ParseFailure> {
        match version_stage(self.rest, space()) {
            Ok((v, n)) => Ok(
                PartialResponseHead { version: Some(v), rest: self.rest.skip(n as int), ..self },
            ),
            Err(e) => Err(e),
        }
    }

    /// The status stage, run on the bytes left.
    pub open spec fn take_status(self) -> Result<PartialResponseHead, ParseFailure> {
        match status_stage(self.rest) {
            Ok((code, n)) => Ok(
                PartialResponseHead { status: Some(code), rest: self.rest.skip(n as int), ..self },
            ),
            Err(e) => Err(e),
        }
    }

    /// The header stage, run on the bytes left.
    pub open spec fn take_headers(self) -> Result<PartialResponseHead, ParseFailure> {
        match headers_stage(self.rest) {
            Ok((h, n)) => Ok(
                PartialResponseHead { headers: Some(h), rest: self.rest.skip(n as int), ..self },
            ),
            Err(e) => Err(e),
        }
    }

    /// The stage of the first unset field, run on the bytes left.
    #[verifier::opaque]
    pub open spec fn step(self) -> Result<PartialResponseHead, ParseFailure> {
        if self.version is None {
            self.take_version()
        } else if self.status is None {
            self.take_status()
        } else {
            self.take_headers()
        }
    }

    /// Stage after stage from the first unset field on, until the head is
    /// complete or a stage fails: the state reached, and the failure if
    /// there was one. A stage that fails leaves the state as it found it.
    pub open spec fn drive(self) -> (PartialResponseHead, Option<ParseFailure>)
        decreases self.missing(),
    {
        if self.missing() == 0 {
            (self, None)
        } else {
            match self.step() {
                Ok(next) => {
                    proof {
                        reveal(PartialResponseHead::step);
                    }
                    next.drive()
                },
                Err(e) => (self, Some(e)),
            }
        }
    }

    /// As far as the bytes left allow: the state reached when the head is
    /// complete or a stage is starved; a final error of a stage is the
    /// result.
    pub open spec fn advance(self) -> Result<PartialResponseHead, ParseFailure> {
        match self.drive() {
            (reached, None) => Ok(reached),
            (reached, Some(e)) => if e.incomplete {
                Ok(reached)
            } else {
                Err(e)
            },
        }
    }

    /// To the end: the complete head, or the error of the stage that
    /// failed, starved or not.
    pub open spec fn finish(self) -> Result<PartialResponseHead, ParseFailure> {
        match self.drive() {
            (reached, None) => Ok(reached),
            (_, Some(e)) => Err(e),
        }
    }

    /// The head of the response that a complete state holds.
    pub open spec fn head(self) -> ResponseHead {
        ResponseHead { version: self.version->0, status: self.status->0, headers: self.headers->0 }
    }
}

/// Where no stage failed, the head is complete.
pub proof fn lemma_drive_ends(p: PartialResponseHead)
    ensures
        p.drive().1 is None ==> p.drive().0.missing() == 0,
    decreases p.missing(),
{
    reveal(PartialResponseHead::step);
    if p.missing() != 0 {
        match p.step() {
            Ok(next) => {
                lemma_drive_ends(next);
            },
            Err(_) => {},
        }
    }
}

/// The stage of the first unset field is settled: what it yields on the
/// bytes left it yields when more bytes stand behind them, and these are
/// then left behind what it left; its final error stays a final error of
/// the same stage.
pub proof fn lemma_step_settled(p: PartialResponseHead, more: Seq<u8>)
    ensures
        match p.step() {
            Ok(next) => p.with_rest(p.rest + more).step() == Ok::<
                PartialResponseHead,
                ParseFailure,
            >(next.with_rest(next.rest + more)),
            Err(e) => e.incomplete || (p.with_rest(p.rest + more).step() matches Err(e2) && e2.kind
                == e.kind && !e2.incomplete),
        },
{
    reveal(PartialResponseHead::step);
    let s = p.rest;
    if p.version is None {
        lemma_version_stage_settled(s, more, space());
        match version_stage(s, space()) {
            Ok((_, n)) => {
                lemma_skip_add(s, more, n);
            },
            Err(_) => {},
        }
    } else if p.status is None {
        lemma_status_stage_settled(s, more);
        match status_stage(s) {
            Ok((_, n)) => {
                lemma_skip_add(s, more, n);
            },
            Err(_) => {},
        }
    } else {
        lemma_headers_stage_settled(s, more);
        match headers_stage(s) {
            Ok((_, n)) => {
                lemma_skip_add(s, more, n);
            },
            Err(_) => {},
        }
    }
}

/// Driving the stages over a longer input goes through the states that it
/// went through on the shorter one. Where the head was complete, the bytes
/// that came are left behind it; where a stage was starved, the drive on
/// the longer input is the drive from the state that was reached, with the
/// new bytes put behind those left; where a stage failed for good, it fails
/// for good again.
pub proof fn lemma_drive_resumes(p: PartialResponseHead, more: Seq<u8>)
    ensures
        match p.drive().1 {
            None => p.with_rest(p.rest + more).drive() == (
                p.drive().0.with_rest(p.drive().0.rest + more),
                None::<ParseFailure>,
            ),
            Some(e) => if e.incomplete {
                p.with_rest(p.rest + more).drive() == p.drive().0.with_rest(
                    p.drive().0.rest + more,
                ).drive()
            } else {
                p.with_rest(p.rest + more).drive().1 matches Some(e2) && e2.kind == e.kind
                    && !e2.incomplete
            },
        },
    decreases p.missing(),
{
    reveal(PartialResponseHead::step);
    if p.missing() != 0 {
        lemma_step_settled(p, more);
        match p.step() {
            Ok(next) => {
                lemma_drive_resumes(next, more);
            },
            Err(_) => {},
        }
    }
}

/// A drive that starts where a drive stopped stops there again, for the
/// same reason.
pub proof fn lemma_drive_fixed(p: PartialResponseHead)
    ensures
        p.drive().0.drive() == p.drive(),
    decreases p.missing(),
{
    reveal(PartialResponseHead::step);
    if p.missing() != 0 {
        match p.step() {
            Ok(next) => {
                lemma_drive_fixed(next);
            },
            Err(_) => {},
        }
    }
}

/// Finishing after advancing is finishing: the state that `advance` reaches
/// finishes as the state it started from, and a final error of `advance`
/// is the error of `finish`.
pub proof fn lemma_advance_then_finish(p: PartialResponseHead)
    ensures
        match p.advance() {
            Ok(reached) => reached.finish() == p.finish(),
            Err(e) => p.finish() == Err::<PartialResponseHead, ParseFailure>(e),
        },
{
    lemma_drive_fixed(p);
}

/// Resumption from any state: advance on the bytes at hand, put the bytes
/// that come later behind those left, and finish; the result is that of
/// finishing on all the bytes at once. A final error met on the way is met
/// again by the decoding at once, at the same stage.
pub proof fn lemma_resume_any(p: PartialResponseHead, more: Seq<u8>)
    ensures
        match p.advance() {
            Ok(reached) => reached.with_rest(reached.rest + more).finish() == p.with_rest(
                p.rest + more,
            ).finish(),
            Err(e) => !e.incomplete && (p.with_rest(p.rest + more).finish() matches Err(e2)
                && e2.kind == e.kind && !e2.incomplete),
        },
{
    lemma_drive_resumes(p, more);
    if p.drive().1 is None {
        lemma_drive_ends(p);
    }
}

/// Resumption: split a buffer anywhere, decode the first part as far as it
/// goes, then take the decoding up with the second part; the result is that
/// of decoding the whole buffer in one go.
pub proof fn lemma_resumption(buf: Seq<u8>, k: int)
    requires
        0 <= k <= buf.len(),
    ensures
        match PartialResponseHead::fresh(buf.take(k)).advance() {
            Ok(reached) => reached.with_rest(reached.rest + buf.skip(k)).finish()
                == PartialResponseHead::fresh(buf).finish(),
            Err(e) => !e.incomplete && (PartialResponseHead::fresh(buf).finish() matches Err(e2)
                && e2.kind == e.kind && !e2.incomplete),
        },
{
    let first = PartialResponseHead::fresh(buf.take(k));
    let more = buf.skip(k);
    assert(first.with_rest(first.rest + more) == PartialResponseHead::fresh(buf)) by {
        assert(buf.take(k) + buf.skip(k) =~= buf);
    }
    lemma_resume_any(first, more);
}

/// Resumption by feeding: feed the first part of a buffer to a fresh
/// state, feed the second part to the state reached, and finish; the result
/// is that of decoding the whole buffer in one go. Where a feed ends with a
/// final error, the decoding in one go ends with a final error of the same
/// stage.
pub proof fn lemma_resumption_by_feeding(buf: Seq<u8>, k: int)
    requires
        0 <= k <= buf.len(),
    ensures
        match PartialResponseHead::fresh(buf.take(k)).advance() {
            Ok(reached) => match reached.with_rest(reached.rest + buf.skip(k)).advance() {
                Ok(last) => last.finish() == PartialResponseHead::fresh(buf).finish(),
                Err(e) => PartialResponseHead::fresh(buf).finish() == Err::<
                    PartialResponseHead,
                    ParseFailure,
                >(e),
            },
            Err(e) => !e.incomplete && (PartialResponseHead::fresh(buf).finish() matches Err(e2)
                && e2.kind == e.kind && !e2.incomplete),
        },
{
    lemma_resumption(buf, k);
    match PartialResponseHead::fresh(buf.take(k)).advance() {
        Ok(reached) => {
            lemma_advance_then_finish(reached.with_rest(reached.rest + buf.skip(k)));
        },
        Err(_) => {},
    }
}

/// A response whose decoding was put aside: the fields read so far and the
/// bytes not yet taken by a stage.
#[derive(Debug)]
pub struct PartialResponse {
    version: Option<Version>,
    status: Option<StatusCode>,
    headers: Option<HeaderMap>,
    rest: Vec<u8>,
}

impl View for PartialResponse {
    type V = PartialResponseHead;

    closed spec fn view(&self) -> PartialResponseHead {
        PartialResponseHead {
            version: self.version,
            status: match self.status {
                Some(status) => Some(status@),
                None => None,
            },
            headers: match self.headers {
                Some(h) => Some(h@),
                None => None,
            },
            rest: self.rest@,
        }
    }
}

/// A builder at stage `T`: the state of the response, and the input that
/// the stages to come will read.
pub struct Builder<'a, T: Stage> {
    input: &'a [u8],
    result: PartialResponse,
    _phantom: PhantomData<T>,
}

impl<'a, T: Stage> View for Builder<'a, T> {
    type V = PartialResponseHead;

    /// The state of the response, with the builder's input as the bytes left.
    closed spec fn view(&self) -> PartialResponseHead {
        self.result@.with_rest(self.input@)
    }
}

impl PartialResponse {
    #[verifier::type_invariant]
    spec fn in_order(self) -> bool {
        self@.ordered()
    }

    /// A builder at the first stage, with `input` to read.
    pub fn builder(input: &[u8]) -> (r: Builder<'_, NeedVersion>)
        ensures
            r@ == PartialResponseHead::fresh(input@),
    {
        let result = PartialResponse {
            version: None,
            status: None,
            headers: None,
            rest: Vec::new(),
        };
        Builder::init(input, result)
    }

    /// A partial response with nothing read and no bytes.
    pub fn new() -> (r: Self)
        ensures
            r@ == PartialResponseHead::fresh(Seq::empty()),
    {
        PartialResponse { version: None, status: None, headers: None, rest: Vec::new() }
    }

    pub fn version(&self) -> (r: &Option<Version>)
        ensures
            *r == self@.version,
    {
        &self.version
    }

    pub fn status(&self) -> (r: &Option<StatusCode>)
        ensures
            match *r {
                Some(status) => self@.status == Some(status@),
                None => self@.status is None,
            },
    {
        &self.status
    }

    pub fn headers(&self) -> (r: &Option<HeaderMap>)
        ensures
            match *r {
                Some(h) => self@.headers == Some(h@),
                None => self@.headers is None,
            },
    {
        &self.headers
    }

    /// The bytes that no stage has taken yet.
    pub fn rest(&self) -> (r: &[u8])
        ensures
            r@ == self@.rest,
    {
        self.rest.as_slice()
    }

    /// Runs the stages from the first unset field on over `input`, until the
    /// head is complete or a stage fails. Hands back the state reached, with
    /// the input not taken as its bytes left, and the failure if any.
    fn run(self, input: &[u8]) -> (r: (PartialResponse, Option<FromUtf8Err>))
        ensures
            r.0@ == self@.with_rest(input@).drive().0,
            match self@.with_rest(input@).drive().1 {
                None => r.1 is None,
                Some(e) => r.1 matches Some(err) && err@ == e,
            },
    {
        proof {
            use_type_invariant(&self);
            reveal(PartialResponseHead::step);
        }
        let ghost start = self@.with_rest(input@);
        let mut this = self;
        let mut rest = input;
        if this.version.is_none() {
            let end = one_space();
            match take_version(rest, end.as_slice()) {
                Ok((v, used)) => {
                    this.version = Some(v);
                    rest = slice_subrange(rest, used, rest.len());
                },
                Err(e) => {
                    this.rest = slice_to_vec(rest);
                    return (this, Some(e));
                },
            }
        }
        assert(this@.with_rest(rest@).drive() == start.drive());
        if this.status.is_none() {
            match take_status(rest) {
                Ok((status, used)) => {
                    this.status = Some(status);
                    rest = slice_subrange(rest, used, rest.len());
                },
                Err(e) => {
                    this.rest = slice_to_vec(rest);
                    return (this, Some(e));
                },
            }
        }
        assert(this@.with_rest(rest@).drive() == start.drive());
        if this.headers.is_none() {
            match take_headers(rest) {
                Ok((h, used)) => {
                    this.headers = Some(h);
                    rest = slice_subrange(rest, used, rest.len());
                },
                Err(e) => {
                    this.rest = slice_to_vec(rest);
                    return (this, Some(e));
                },
            }
        }
        assert(this@.with_rest(rest@).drive() == start.drive());
        this.rest = slice_to_vec(rest);
        (this, None)
    }

    /// Takes up the decoding with more bytes: `more` is put behind the bytes
    /// left, and the stages go on from the first unset field. A stage that is
    /// starved suspends the decoding again; a final error ends it.
    pub fn feed(self, more: &[u8]) -> (r: Result<PartialResponse, FromUtf8Err>)
        ensures
            match self@.with_rest(self@.rest + more@).advance() {
                Ok(p) => r matches Ok(partial) && partial@ == p,
                Err(e) => r matches Err(err) && err@ == e,
            },
    {
        proof {
            use_type_invariant(&self);
        }
        let ghost before = self@;
        let mut this = self;
        let mut buf: Vec<u8> = Vec::new();
        std::mem::swap(&mut buf, &mut this.rest);
        let ghost emptied = this@;
        assert(buf@ == before.rest && emptied.with_rest(buf@) == before);
        buf.extend_from_slice(more);
        assert(buf@ == before.rest + more@);
        assert(emptied.with_rest(buf@) == before.with_rest(before.rest + more@));
        let (reached, stopped) = this.run(buf.as_slice());
        match stopped {
            None => Ok(reached),
            Some(e) => {
                if e.is_incomplete() {
                    Ok(reached)
                } else {
                    Err(e)
                }
            },
        }
    }

    /// Finishes the decoding on the bytes left: runs the stages from the
    /// first unset field on and attaches `body`. Any failure of a stage,
    /// starvation too, is an error.
    pub fn parse_rest<T>(self, body: T) -> (r: Result<Response<T>, FromUtf8Err>)
        ensures
            match self@.finish() {
                Ok(p) => r matches Ok(response) && response.head() == p.head() && response.payload()
                    == body,
                Err(e) => r matches Err(err) && err@ == e,
            },
    {
        proof {
            use_type_invariant(&self);
            lemma_drive_ends(self@);
        }
        let mut this = self;
        let mut buf: Vec<u8> = Vec::new();
        std::mem::swap(&mut buf, &mut this.rest);
        let (reached, stopped) = this.run(buf.as_slice());
        match stopped {
            None => {
                let empty: [u8; 0] = [];
                let ready: Builder<'_, NeedBody> = Builder::init(empty.as_slice(), reached);
                Ok(ready.body(body))
            },
            Some(e) => Err(e),
        }
    }

    /// Whether the head is complete, so that only the body is to be attached.
    pub fn is_complete(&self) -> (r: bool)
        ensures
            r == (self@.missing() == 0),
            self@.ordered(),
    {
        proof {
            use_type_invariant(self);
        }
        self.headers.is_some()
    }
}

impl<'a, T: Stage> Builder<'a, T> {
    #[verifier::type_invariant]
    spec fn at_stage(self) -> bool {
        self.result@.ordered() && self.result@.missing() == T::missing()
    }

    fn init(input: &'a [u8], result: PartialResponse) -> (r: Self)
        requires
            result@.missing() == T::missing(),
        ensures
            r@ == result@.with_rest(input@),
    {
        proof {
            use_type_invariant(&result);
        }
        Self { input, result, _phantom: PhantomData }
    }

    /// Puts the decoding aside: the state of the response, with the input
    /// not yet read as the bytes left.
    pub fn build(self) -> (r: PartialResponse)
        ensures
            r@ == self@,
            r@.ordered(),
            r@.missing() == T::missing(),
    {
        proof {
            use_type_invariant(&self);
        }
        let Builder { input, result, _phantom } = self;
        let mut result = result;
        result.rest = slice_to_vec(input);
        result
    }

    /// The input that the stages to come will read.
    pub fn remaining(&self) -> (r: &'a [u8])
        ensures
            r@ == self@.rest,
    {
        self.input
    }
}

impl<'a> Builder<'a, NeedVersion> {
    /// Reads the version and the space behind it.
    pub fn version(self) -> (r: Result<Builder<'a, NeedStatus>, FromUtf8Err>)
        ensures
            match self@.take_version() {
                Ok(p) => r matches Ok(b) && b@ == p,
                Err(e) => r matches Err(err) && err@ == e,
            },
    {
        proof {
            use_type_invariant(&self);
        }
        let input = self.input;
        let mut result = self.result;
        let end = one_space();
        match take_version(input, end.as_slice()) {
            Ok((v, used)) => {
                result.version = Some(v);
                Ok(Builder::init(slice_subrange(input, used, input.len()), result))
            },
            Err(e) => Err(e),
        }
    }
}

impl<'a> Builder<'a, NeedStatus> {
    /// Reads the status code, the reason phrase and the CR LF behind them.
    pub fn status(self) -> (r: Result<Builder<'a, NeedHeader>, FromUtf8Err>)
        ensures
            match self@.take_status() {
                Ok(p) => r matches Ok(b) && b@ == p,
                Err(e) => r matches Err(err) && err@ == e,
            },
    {
        proof {
            use_type_invariant(&self);
        }
        let input = self.input;
        let mut result = self.result;
        match take_status(input) {
            Ok((status, used)) => {
                result.status = Some(status);
                Ok(Builder::init(slice_subrange(input, used, input.len()), result))
            },
            Err(e) => Err(e),
        }
    }
}

impl<'a> Builder<'a, NeedHeader> {
    /// Reads the header section into a header map.
    pub fn headers(self) -> (r: Result<Builder<'a, NeedBody>, FromUtf8Err>)
        ensures
            match self@.take_headers() {
                Ok(p) => r matches Ok(b) && b@ == p,
                Err(e) => r matches Err(err) && err@ == e,
            },
    {
        proof {
            use_type_invariant(&self);
        }
        let input = self.input;
        let mut result = self.result;
        match take_headers(input) {
            Ok((h, used)) => {
                result.headers = Some(h);
                Ok(Builder::init(slice_subrange(input, used, input.len()), result))
            },
            Err(e) => Err(e),
        }
    }
}

impl<'a> Builder<'a, NeedBody> {
    /// Attaches `body` and yields the response. The input not read stays
    /// with the caller; see `remaining`.
    pub fn body<T>(self, body: T) -> (r: Response<T>)
        ensures
            r.head() == self@.head(),
            r.payload() == body,
    {
        proof {
            use_type_invariant(&self);
        }
        let result = self.result;
        Response::new(
            result.version.unwrap(),
            result.status.unwrap(),
            result.headers.unwrap(),
            body,
        )
    }
}

} // verus!
