//! Errors of the decoding pipeline, tagged by the stage that raised them.

use crate::basic_combinator::GrammarError;
use vstd::prelude::*;
use vstd::slice::slice_to_vec;
use vstd::utf8::{decode_utf8, encode_utf8, valid_utf8};

verus! {

/// The stage of the pipeline at which decoding stopped.
#[derive(Debug, Clone, Copy, PartialEq, Eq, Structural)]
pub enum ErrorKind {
    Method,
    Uri,
    Version,
    Header,
    StatusCode,
}

impl ErrorKind {
    /// The name of the stage, as it is shown in messages.
    pub open spec fn label(self) -> Seq<char> {
        match self {
            ErrorKind::Method => "Method"@,
            ErrorKind::Uri => "Uri"@,
            ErrorKind::Version => "Version"@,
            ErrorKind::Header => "Header"@,
            ErrorKind::StatusCode => "StatusCode"@,
        }
    }

    pub fn name(&self) -> (r: &'static str)
        ensures
            r@ == self.label(),
    {
        match self {
            ErrorKind::Method => "Method",
            ErrorKind::Uri => "Uri",
            ErrorKind::Version => "Version",
            ErrorKind::Header => "Header",
            ErrorKind::StatusCode => "StatusCode",
        }
    }
}

/// The text that `String::from_utf8_lossy` makes of `bytes`.
pub uninterp spec fn shown_text(bytes: Seq<u8>) -> Seq<char>;

/// The message of an error on the text `input` at the stage named `kind`.
pub open spec fn message(input: Seq<char>, kind: Seq<char>) -> Seq<char> {
    "Error from input: [\""@ + input + "\"] ErrorKind: ["@ + kind + "]"@
}

/// Calls `String::from_utf8`. It returns the text that the bytes encode,
/// where they are UTF-8, and fails where they are not.
#[verifier::external_body]
fn text_of(bytes: &[u8]) -> (r: Option<String>)
    ensures
        match r {
            Some(text) => valid_utf8(bytes@) && text@ == decode_utf8(bytes@),
            None => !valid_utf8(bytes@),
        },
{
    String::from_utf8(bytes.to_vec()).ok()
}

/// Calls `String::from_utf8_lossy`. Bytes that are UTF-8 come back as the
/// text they encode; of other bytes the result is only named.
#[verifier::external_body]
fn lossy_text_of(bytes: &[u8]) -> (r: String)
    ensures
        r@ == shown_text(bytes@),
        valid_utf8(bytes@) ==> r@ == decode_utf8(bytes@),
{
    String::from_utf8_lossy(bytes).into_owned()
}

/// Formats the message of an error with `format!`: the fixed words with the
/// two texts in their places.
#[verifier::external_body]
fn message_of(input: &str, kind: &str) -> (r: String)
    ensures
        r@ == message(input@, kind@),
{
    format!("Error from input: [\"{}\"] ErrorKind: [{}]", input, kind)
}

/// What a decoding error says, as a mathematical value: the offending bytes,
/// the stage, and whether the stage only ran out of input.
pub struct ParseFailure {
    pub input: Seq<u8>,
    pub kind: ErrorKind,
    pub incomplete: bool,
}

/// A decoding error. It keeps the offending bytes as they came; they need
/// not be text.
///
/// An error that `is_incomplete` reports starvation: the bytes seen so far
/// are acceptable and the stage may succeed once more of them arrive. Any
/// other error is final for the input it was raised on.
#[derive(Debug)]
pub struct FromUtf8Err {
    input: Vec<u8>,
    kind: ErrorKind,
    incomplete: bool,
}

impl View for FromUtf8Err {
    type V = ParseFailure;

    closed spec fn view(&self) -> ParseFailure {
        ParseFailure { input: self.input@, kind: self.kind, incomplete: self.incomplete }
    }
}

impl FromUtf8Err {
    /// A final error of stage `kind` on the text `input`.
    pub fn init(input: String, kind: ErrorKind) -> (r: Self)
        ensures
            r@ == (ParseFailure { input: encode_utf8(input@), kind, incomplete: false }),
    {
        let bytes = slice_to_vec(input.as_str().as_bytes());
        Self { input: bytes, kind, incomplete: false }
    }

    /// A final error of stage `kind` on the bytes `input`.
    pub fn rejected(input: &[u8], kind: ErrorKind) -> (r: Self)
        ensures
            r@ == (ParseFailure { input: input@, kind, incomplete: false }),
    {
        Self { input: slice_to_vec(input), kind, incomplete: false }
    }

    /// An error of stage `kind` that reports starvation at `input`.
    pub fn starved(input: &[u8], kind: ErrorKind) -> (r: Self)
        ensures
            r@ == (ParseFailure { input: input@, kind, incomplete: true }),
    {
        Self { input: slice_to_vec(input), kind, incomplete: true }
    }

    /// The offending bytes.
    pub fn input(&self) -> (r: &[u8])
        ensures
            r@ == self@.input,
    {
        self.input.as_slice()
    }

    /// The stage that raised the error.
    pub fn kind(&self) -> (r: ErrorKind)
        ensures
            r == self@.kind,
    {
        self.kind
    }

    /// The offending bytes as text, where they are UTF-8.
    pub fn input_text(&self) -> (r: Option<String>)
        ensures
            match r {
                Some(text) => valid_utf8(self@.input) && text@ == decode_utf8(self@.input),
                None => !valid_utf8(self@.input),
            },
    {
        text_of(self.input.as_slice())
    }

    /// The message of the error: the offending bytes as text, and the stage.
    /// Bytes that are no UTF-8 are shown as `String::from_utf8_lossy` shows
    /// them.
    pub fn to_string(&self) -> (r: String)
        ensures
            r@ == message(shown_text(self@.input), self@.kind.label()),
            valid_utf8(self@.input) ==> r@ == message(
                decode_utf8(self@.input),
                self@.kind.label(),
            ),
    {
        let shown = lossy_text_of(self.input.as_slice());
        message_of(shown.as_str(), self.kind.name())
    }

    /// Whether the stage failed only because the input ended.
    pub fn is_incomplete(&self) -> (r: bool)
        ensures
            r == self@.incomplete,
    {
        self.incomplete
    }
}

/// Turns a failure of the grammar into an error of a stage.
pub trait IntoFromUtf8Err: Sized {
    /// What the error will say.
    spec fn failure(self, kind: ErrorKind) -> ParseFailure;

    fn into_parse_error(self, kind: ErrorKind) -> (r: FromUtf8Err)
        ensures
            r@ == self.failure(kind),
    ;
}

impl<'a> IntoFromUtf8Err for GrammarError<'a> {
    /// The error carries the input from the point where the grammar stopped,
    /// and is incomplete exactly when the grammar ran out of input.
    open spec fn failure(self, kind: ErrorKind) -> ParseFailure {
        ParseFailure { input: self.input@, kind, incomplete: self.incomplete }
    }

    fn into_parse_error(self, kind: ErrorKind) -> (r: FromUtf8Err) {
        if self.incomplete {
            FromUtf8Err::starved(self.input, kind)
        } else {
            FromUtf8Err::rejected(self.input, kind)
        }
    }
}

} // verus!
