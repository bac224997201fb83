//! The message model: method, version, status code, request target and
//! header map, with the rules that the `http` crate sets for them.

use crate::basic_combinator::{begins_with, is_digit, is_tchar, ByteClass, COLON, CR, LF, SP};
use crate::error::{ErrorKind, FromUtf8Err, ParseFailure};
use crate::http_combinator::{
    connect_token, delete_token, get_token, head_token, options_token, patch_token, post_token,
    put_token, trace_token, version_prefix, DOT,
};
use crate::http_ext::IntoUtf8;
use vstd::prelude::*;
use vstd::slice::slice_to_vec;

verus! {

/// Whether two byte slices hold the same bytes.
pub fn same_bytes(a: &[u8], b: &[u8]) -> (r: bool)
    ensures
        r == (a@ == b@),
{
    if a.len() != b.len() {
        return false;
    }
    let r = begins_with(a, b);
    assert(a@.take(a@.len() as int) =~= a@);
    r
}

/// The nine request methods.
#[derive(Clone, Copy, Debug, PartialEq, Eq, Structural)]
pub enum Method {
    Options,
    Get,
    Head,
    Post,
    Put,
    Delete,
    Trace,
    Connect,
    Patch,
}

impl Method {
    /// The method's token on the wire.
    pub open spec fn token(self) -> Seq<u8> {
        match self {
            Method::Options => options_token(),
            Method::Get => get_token(),
            Method::Head => head_token(),
            Method::Post => post_token(),
            Method::Put => put_token(),
            Method::Delete => delete_token(),
            Method::Trace => trace_token(),
            Method::Connect => connect_token(),
            Method::Patch => patch_token(),
        }
    }

    /// The method whose token is exactly `s`, if there is one.
    pub open spec fn named(s: Seq<u8>) -> Option<Method> {
        if s == options_token() {
            Some(Method::Options)
        } else if s == get_token() {
            Some(Method::Get)
        } else if s == head_token() {
            Some(Method::Head)
        } else if s == post_token() {
            Some(Method::Post)
        } else if s == put_token() {
            Some(Method::Put)
        } else if s == delete_token() {
            Some(Method::Delete)
        } else if s == trace_token() {
            Some(Method::Trace)
        } else if s == connect_token() {
            Some(Method::Connect)
        } else if s == patch_token() {
            Some(Method::Patch)
        } else {
            None
        }
    }

    /// The method's token as bytes.
    pub fn as_bytes(&self) -> (r: Vec<u8>)
        ensures
            r@ == self.token(),
    {
        let r = match self {
            Method::Options => vec![
                'O' as u8,
                'P' as u8,
                'T' as u8,
                'I' as u8,
                'O' as u8,
                'N' as u8,
                'S' as u8,
            ],
            Method::Get => vec!['G' as u8, 'E' as u8, 'T' as u8],
            Method::Head => vec!['H' as u8, 'E' as u8, 'A' as u8, 'D' as u8],
            Method::Post => vec!['P' as u8, 'O' as u8, 'S' as u8, 'T' as u8],
            Method::Put => vec!['P' as u8, 'U' as u8, 'T' as u8],
            Method::Delete => vec![
                'D' as u8,
                'E' as u8,
                'L' as u8,
                'E' as u8,
                'T' as u8,
                'E' as u8,
            ],
            Method::Trace => vec!['T' as u8, 'R' as u8, 'A' as u8, 'C' as u8, 'E' as u8],
            Method::Connect => vec![
                'C' as u8,
                'O' as u8,
                'N' as u8,
                'N' as u8,
                'E' as u8,
                'C' as u8,
                'T' as u8,
            ],
            Method::Patch => vec!['P' as u8, 'A' as u8, 'T' as u8, 'C' as u8, 'H' as u8],
        };
        assert(r@ =~= self.token());
        r
    }

    /// Reads a method from its token. Anything else gives `None`.
    pub fn from_bytes(src: &[u8]) -> (r: Option<Method>)
        ensures
            r == Method::named(src@),
    {
        if same_bytes(src, Method::Options.as_bytes().as_slice()) {
            Some(Method::Options)
        } else if same_bytes(src, Method::Get.as_bytes().as_slice()) {
            Some(Method::Get)
        } else if same_bytes(src, Method::Head.as_bytes().as_slice()) {
            Some(Method::Head)
        } else if same_bytes(src, Method::Post.as_bytes().as_slice()) {
            Some(Method::Post)
        } else if same_bytes(src, Method::Put.as_bytes().as_slice()) {
            Some(Method::Put)
        } else if same_bytes(src, Method::Delete.as_bytes().as_slice()) {
            Some(Method::Delete)
        } else if same_bytes(src, Method::Trace.as_bytes().as_slice()) {
            Some(Method::Trace)
        } else if same_bytes(src, Method::Connect.as_bytes().as_slice()) {
            Some(Method::Connect)
        } else if same_bytes(src, Method::Patch.as_bytes().as_slice()) {
            Some(Method::Patch)
        } else {
            None
        }
    }
}

/// Each method is read back from its own token.
pub proof fn lemma_method_named(m: Method)
    ensures
        Method::named(m.token()) == Some(m),
{
    assert(options_token().len() == 7 && get_token().len() == 3 && head_token().len() == 4);
    assert(post_token().len() == 4 && put_token().len() == 3 && delete_token().len() == 6);
    assert(trace_token().len() == 5 && connect_token().len() == 7 && patch_token().len() == 5);
    assert(options_token()[0] != connect_token()[0]);
    assert(get_token()[0] != put_token()[0]);
    assert(head_token()[0] != post_token()[0]);
    assert(trace_token()[0] != patch_token()[0]);
}

impl IntoUtf8 for Method {
    open spec fn wire(&self) -> Seq<u8> {
        self.token()
    }

    fn into_utf8(&self) -> (r: Result<Vec<u8>, ()>) {
        Ok(self.as_bytes())
    }
}

/// The three protocol versions that a message can name.
#[derive(Clone, Copy, Debug, PartialEq, Eq, Structural)]
pub enum Version {
    Http09,
    Http10,
    Http11,
}

impl Version {
    /// The version's token on the wire: `HTTP/0.9`, `HTTP/1.0` or `HTTP/1.1`.
    pub open spec fn token(self) -> Seq<u8> {
        match self {
            Version::Http09 => version_prefix() + seq!['0' as u8, DOT, '9' as u8],
            Version::Http10 => version_prefix() + seq!['1' as u8, DOT, '0' as u8],
            Version::Http11 => version_prefix() + seq!['1' as u8, DOT, '1' as u8],
        }
    }

    /// The version whose token is exactly `s`, if there is one.
    pub open spec fn named(s: Seq<u8>) -> Option<Version> {
        if s == Version::Http09.token() {
            Some(Version::Http09)
        } else if s == Version::Http10.token() {
            Some(Version::Http10)
        } else if s == Version::Http11.token() {
            Some(Version::Http11)
        } else {
            None
        }
    }

    /// What reading a version from `s` gives: the version, or a final error
    /// of the version stage that carries `s`.
    pub open spec fn read(s: Seq<u8>) -> Result<Version, ParseFailure> {
        match Version::named(s) {
            Some(v) => Ok(v),
            None => Err(ParseFailure { input: s, kind: ErrorKind::Version, incomplete: false }),
        }
    }

    /// The version's token as bytes.
    pub fn as_bytes(&self) -> (r: Vec<u8>)
        ensures
            r@ == self.token(),
    {
        let (major, minor): (u8, u8) = match self {
            Version::Http09 => ('0' as u8, '9' as u8),
            Version::Http10 => ('1' as u8, '0' as u8),
            Version::Http11 => ('1' as u8, '1' as u8),
        };
        let r = vec!['H' as u8, 'T' as u8, 'T' as u8, 'P' as u8, '/' as u8, major, DOT, minor];
        assert(r@ =~= self.token());
        r
    }

    /// Reads a version from its token. A token of any other version is an
    /// error, never a panic.
    pub fn from_utf8(buf: &[u8]) -> (r: Result<Version, FromUtf8Err>)
        ensures
            match Version::read(buf@) {
                Ok(v) => r == Ok::<Version, FromUtf8Err>(v),
                Err(e) => r matches Err(err) && err@ == e,
            },
    {
        if same_bytes(buf, Version::Http09.as_bytes().as_slice()) {
            Ok(Version::Http09)
        } else if same_bytes(buf, Version::Http10.as_bytes().as_slice()) {
            Ok(Version::Http10)
        } else if same_bytes(buf, Version::Http11.as_bytes().as_slice()) {
            Ok(Version::Http11)
        } else {
            Err(FromUtf8Err::rejected(buf, ErrorKind::Version))
        }
    }
}

/// Each version is read back from its own token, and from no other.
pub proof fn lemma_version_named(v: Version)
    ensures
        Version::named(v.token()) == Some(v),
{
    assert(Version::Http09.token()[5] == '0' as u8);
    assert(Version::Http10.token()[5] == '1' as u8);
    assert(Version::Http11.token()[5] == '1' as u8);
    assert(Version::Http10.token()[7] == '0' as u8);
    assert(Version::Http11.token()[7] == '1' as u8);
}

impl IntoUtf8 for Version {
    open spec fn wire(&self) -> Seq<u8> {
        self.token()
    }

    fn into_utf8(&self) -> (r: Result<Vec<u8>, ()>) {
        Ok(self.as_bytes())
    }
}


/// What `http::StatusCode::from_bytes` reads from `s`: the number, where `s`
/// is three digits of which the first is not `0`.
pub open spec fn three_digit_code(s: Seq<u8>) -> Option<u16> {
    if s.len() == 3 && is_digit(s[0]) && is_digit(s[1]) && is_digit(s[2]) && s[0] != '0' as u8 {
        Some(((s[0] - '0' as u8) * 100 + (s[1] - '0' as u8) * 10 + (s[2] - '0' as u8)) as u16)
    } else {
        None
    }
}

/// The three decimal digits of `code`.
pub open spec fn code_digits(code: u16) -> Seq<u8> {
    seq![
        ('0' as u8 + code / 100) as u8,
        ('0' as u8 + (code / 10) % 10) as u8,
        ('0' as u8 + code % 10) as u8,
    ]
}

/// The text that `http::StatusCode` prints after the number of `code`: the
/// reason phrase of its registry, or its words for a code that the registry
/// does not hold.
pub uninterp spec fn reason_text(code: u16) -> Seq<u8>;

/// The status of `code` as it stands in a status line: number, space, reason.
pub open spec fn status_text(code: u16) -> Seq<u8> {
    code_digits(code) + seq![SP] + reason_text(code)
}

/// Calls `http::StatusCode::from_bytes` and hands back the number of the
/// status it returns. The crate accepts exactly three ASCII digits of which
/// the first is `1` to `9`, and returns the number they spell.
#[verifier::external_body]
fn registry_code(src: &[u8]) -> (r: Option<u16>)
    ensures
        r == three_digit_code(src@),
{
    match http::StatusCode::from_bytes(src) {
        Ok(status) => Some(status.as_u16()),
        Err(_) => None,
    }
}

/// Calls `http::StatusCode::from_u16` and prints the status with `to_string`.
/// The crate writes the number in decimal, a space, and the reason phrase of
/// its registry (or `<unknown status code>`); every phrase there is made of
/// printable ASCII characters and spaces.
#[verifier::external_body]
fn registry_text(code: u16) -> (r: Vec<u8>)
    requires
        100 <= code <= 999,
    ensures
        r@ == code_digits(code) + seq![SP] + reason_text(code),
        forall|i: int| 4 <= i < r@.len() ==> ByteClass::Reason.has(#[trigger] r@[i]),
{
    match http::StatusCode::from_u16(code) {
        Ok(status) => status.to_string().into_bytes(),
        Err(_) => Vec::new(),
    }
}

/// A status code, 100 to 599.
#[derive(Clone, Copy, Debug, PartialEq, Eq)]
pub struct StatusCode {
    code: u16,
}

impl View for StatusCode {
    type V = u16;

    closed spec fn view(&self) -> u16 {
        self.code
    }
}

impl StatusCode {
    #[verifier::type_invariant]
    spec fn in_range(self) -> bool {
        100 <= self.code <= 599
    }

    /// The code that the three digits `s` spell, where it lies in 100 to 599.
    pub open spec fn value(s: Seq<u8>) -> Option<u16> {
        match three_digit_code(s) {
            Some(code) => if code <= 599 {
                Some(code)
            } else {
                None
            },
            None => None,
        }
    }

    /// What reading a status code from `s` gives: the code, or a final error
    /// of the status stage that carries `s`.
    pub open spec fn read(s: Seq<u8>) -> Result<u16, ParseFailure> {
        match StatusCode::value(s) {
            Some(code) => Ok(code),
            None => Err(ParseFailure { input: s, kind: ErrorKind::StatusCode, incomplete: false }),
        }
    }

    /// Reads a status code from three digits.
    pub fn from_bytes(src: &[u8]) -> (r: Result<StatusCode, FromUtf8Err>)
        ensures
            match StatusCode::read(src@) {
                Ok(code) => r matches Ok(status) && status@ == code,
                Err(e) => r matches Err(err) && err@ == e,
            },
    {
        match registry_code(src) {
            Some(code) => {
                if code <= 599 {
                    Ok(StatusCode { code })
                } else {
                    Err(FromUtf8Err::rejected(src, ErrorKind::StatusCode))
                }
            },
            None => Err(FromUtf8Err::rejected(src, ErrorKind::StatusCode)),
        }
    }

    /// The status code of a number in 100 to 599; `None` for any other.
    pub fn from_u16(code: u16) -> (r: Option<StatusCode>)
        ensures
            match r {
                Some(status) => 100 <= code <= 599 && status@ == code,
                None => !(100 <= code <= 599),
            },
    {
        if 100 <= code && code <= 599 {
            Some(StatusCode { code })
        } else {
            None
        }
    }

    /// The status as it stands in a status line: the number, a space, and
    /// the reason phrase that the `http` crate prints for it. The phrase is
    /// made of bytes that a reason phrase may hold.
    pub fn to_text(&self) -> (r: Vec<u8>)
        ensures
            r@ == status_text(self@),
            100 <= self@ <= 599,
            forall|i: int|
                0 <= i < reason_text(self@).len() ==> ByteClass::Reason.has(
                    #[trigger] reason_text(self@)[i],
                ),
    {
        let r = registry_text(self.as_u16());
        proof {
            assert forall|i: int| 0 <= i < reason_text(self@).len() implies ByteClass::Reason.has(
                #[trigger] reason_text(self@)[i],
            ) by {
                assert(r@[4 + i] == reason_text(self@)[i]);
            }
        }
        r
    }

    pub fn as_u16(&self) -> (r: u16)
        ensures
            r == self@,
            100 <= r <= 599,
    {
        proof {
            use_type_invariant(self);
        }
        self.code
    }
}

impl IntoUtf8 for StatusCode {
    open spec fn wire(&self) -> Seq<u8> {
        status_text(self@)
    }

    fn into_utf8(&self) -> (r: Result<Vec<u8>, ()>) {
        Ok(self.to_text())
    }
}

/// What `http::Uri` makes of `text`: `None` where it refuses the text as a
/// URI, otherwise whether the URI it read has a scheme.
pub uninterp spec fn uri_scheme_found(text: Seq<u8>) -> Option<bool>;

/// Calls `<http::Uri as TryFrom<&[u8]>>::try_from` and, on the URI it
/// returns, `http::Uri::scheme`. The result depends on the bytes alone.
#[verifier::external_body]
fn read_uri(text: &[u8]) -> (r: Option<bool>)
    ensures
        r == uri_scheme_found(text@),
{
    match http::Uri::try_from(text) {
        Ok(uri) => Some(uri.scheme().is_some()),
        Err(_) => None,
    }
}

/// Whether `s` can stand as the target of a request: it is not empty, holds
/// no space, is a URI to the `http` crate, and is in origin form (it begins
/// with a slash) or in absolute form (it has a scheme).
pub open spec fn is_request_target(s: Seq<u8>) -> bool {
    &&& s.len() > 0
    &&& forall|i: int| 0 <= i < s.len() ==> s[i] != SP
    &&& match uri_scheme_found(s) {
        Some(has_scheme) => has_scheme || s[0] == '/' as u8,
        None => false,
    }
}

/// A request target: the text of a URI that has been validated. The text is
/// kept as it came.
#[derive(Debug, PartialEq, Eq)]
pub struct Uri {
    text: Vec<u8>,
}

impl Clone for Uri {
    fn clone(&self) -> (r: Self)
        ensures
            r@ == self@,
    {
        proof {
            use_type_invariant(self);
        }
        Uri { text: slice_to_vec(self.text.as_slice()) }
    }
}

impl View for Uri {
    type V = Seq<u8>;

    closed spec fn view(&self) -> Seq<u8> {
        self.text@
    }
}

impl Uri {
    #[verifier::type_invariant]
    spec fn valid(self) -> bool {
        is_request_target(self.text@)
    }

    /// What reading a target from `s` gives: the text, or a final error of
    /// the target stage that carries `s`.
    pub open spec fn read(s: Seq<u8>) -> Result<Seq<u8>, ParseFailure> {
        if is_request_target(s) {
            Ok(s)
        } else {
            Err(ParseFailure { input: s, kind: ErrorKind::Uri, incomplete: false })
        }
    }

    /// Validates `src` as a request target.
    pub fn from_bytes(src: &[u8]) -> (r: Result<Uri, FromUtf8Err>)
        ensures
            match Uri::read(src@) {
                Ok(text) => r matches Ok(uri) && uri@ == text,
                Err(e) => r matches Err(err) && err@ == e,
            },
    {
        if src.len() == 0 {
            return Err(FromUtf8Err::rejected(src, ErrorKind::Uri));
        }
        let mut i: usize = 0;
        while i < src.len()
            invariant
                i <= src@.len(),
                forall|j: int| 0 <= j < i ==> src@[j] != SP,
            decreases src@.len() - i,
        {
            if src[i] == SP {
                return Err(FromUtf8Err::rejected(src, ErrorKind::Uri));
            }
            i += 1;
        }
        match read_uri(src) {
            Some(has_scheme) => {
                if has_scheme || src[0] == '/' as u8 {
                    Ok(Uri { text: slice_to_vec(src) })
                } else {
                    Err(FromUtf8Err::rejected(src, ErrorKind::Uri))
                }
            },
            None => Err(FromUtf8Err::rejected(src, ErrorKind::Uri)),
        }
    }

    /// The target's text.
    pub fn as_bytes(&self) -> (r: &[u8])
        ensures
            r@ == self@,
            is_request_target(r@),
    {
        proof {
            use_type_invariant(self);
        }
        self.text.as_slice()
    }
}

impl IntoUtf8 for Uri {
    open spec fn wire(&self) -> Seq<u8> {
        self@
    }

    fn into_utf8(&self) -> (r: Result<Vec<u8>, ()>) {
        Ok(slice_to_vec(self.as_bytes()))
    }
}


/// The names that `http::HeaderName::from_bytes` accepts: one to 65535
/// token characters.
pub open spec fn name_accepted(s: Seq<u8>) -> bool {
    1 <= s.len() <= 65535 && forall|i: int| 0 <= i < s.len() ==> is_tchar(#[trigger] s[i])
}

/// The bytes that `http::HeaderValue::from_bytes` accepts in a value: the
/// horizontal tab and everything from 32 up but 127.
pub open spec fn value_byte(b: u8) -> bool {
    (b >= 32 && b != 127) || b == 9
}

/// The values that `http::HeaderValue::from_bytes` accepts.
pub open spec fn value_accepted(s: Seq<u8>) -> bool {
    forall|i: int| 0 <= i < s.len() ==> value_byte(#[trigger] s[i])
}

/// Calls `http::HeaderName::from_bytes` and says whether it returned a name.
/// The crate refuses the empty name, a name of more than 65535 bytes, and a
/// name with a byte that is no token character.
#[verifier::external_body]
fn registry_takes_name(name: &[u8]) -> (r: bool)
    ensures
        r == name_accepted(name@),
{
    http::HeaderName::from_bytes(name).is_ok()
}

/// Calls `http::HeaderValue::from_bytes` and says whether it returned a
/// value. The crate refuses a value with a byte below 32 other than the
/// horizontal tab, or with the byte 127.
#[verifier::external_body]
fn registry_takes_value(value: &[u8]) -> (r: bool)
    ensures
        r == value_accepted(value@),
{
    http::HeaderValue::from_bytes(value).is_ok()
}

/// The lower-case form of an ASCII letter; any other byte is itself.
pub open spec fn lower(b: u8) -> u8 {
    if 'A' as u8 <= b <= 'Z' as u8 {
        (b + 32) as u8
    } else {
        b
    }
}

/// Whether two header names are the same but for the case of their letters.
pub open spec fn same_name(a: Seq<u8>, b: Seq<u8>) -> bool {
    a.len() == b.len() && forall|i: int| 0 <= i < a.len() ==> lower(#[trigger] a[i]) == lower(b[i])
}

/// The values of the fields of `h` that are named `name`, in their order in `h`.
pub open spec fn values_named(h: Seq<(Seq<u8>, Seq<u8>)>, name: Seq<u8>) -> Seq<Seq<u8>>
    decreases h.len(),
{
    if h.len() == 0 {
        Seq::empty()
    } else if same_name(h.last().0, name) {
        values_named(h.drop_last(), name).push(h.last().1)
    } else {
        values_named(h.drop_last(), name)
    }
}

/// A field that is appended comes behind the values that its name already
/// has, and leaves the values of every other name as they are.
pub proof fn lemma_appended_value_is_last(
    h: Seq<(Seq<u8>, Seq<u8>)>,
    name: Seq<u8>,
    value: Seq<u8>,
    asked: Seq<u8>,
)
    ensures
        values_named(h.push((name, value)), asked) == if same_name(name, asked) {
            values_named(h, asked).push(value)
        } else {
            values_named(h, asked)
        },
{
    let longer = h.push((name, value));
    assert(longer.drop_last() =~= h);
    assert(longer.last() == (name, value));
}

/// One header field on the wire: name, colon, space, value, CR LF.
pub open spec fn field_wire(name: Seq<u8>, value: Seq<u8>) -> Seq<u8> {
    name + seq![COLON, SP] + value + seq![CR, LF]
}

/// The fields of `h` on the wire, one after the other in the order of `h`.
pub open spec fn headers_wire(h: Seq<(Seq<u8>, Seq<u8>)>) -> Seq<u8>
    decreases h.len(),
{
    if h.len() == 0 {
        Seq::empty()
    } else {
        headers_wire(h.drop_last()) + field_wire(h.last().0, h.last().1)
    }
}

/// Whether every field of `h` has a name and a value that the `http` crate
/// accepts.
pub open spec fn fields_accepted(h: Seq<(Seq<u8>, Seq<u8>)>) -> bool {
    forall|i: int|
        0 <= i < h.len() ==> name_accepted((#[trigger] h[i]).0) && value_accepted(h[i].1)
}

fn same_name_bytes(a: &[u8], b: &[u8]) -> (r: bool)
    ensures
        r == same_name(a@, b@),
{
    if a.len() != b.len() {
        return false;
    }
    let mut i: usize = 0;
    while i < a.len()
        invariant
            i <= a@.len(),
            a@.len() == b@.len(),
            forall|j: int| 0 <= j < i ==> lower(#[trigger] a@[j]) == lower(b@[j]),
        decreases a@.len() - i,
    {
        let x: u8 = if 0x41 <= a[i] && a[i] <= 0x5a {
            a[i] + 32
        } else {
            a[i]
        };
        let y: u8 = if 0x41 <= b[i] && b[i] <= 0x5a {
            b[i] + 32
        } else {
            b[i]
        };
        if x != y {
            return false;
        }
        i += 1;
    }
    true
}

/// The header fields of a message: an ordered list of name and value. A name
/// may occur more than once; the fields stay in the order in which they were
/// appended, and a name keeps the letters it came with. Names are compared
/// without regard to case.
#[derive(Debug, PartialEq, Eq)]
pub struct HeaderMap {
    entries: Vec<(Vec<u8>, Vec<u8>)>,
}

impl View for HeaderMap {
    type V = Seq<(Seq<u8>, Seq<u8>)>;

    closed spec fn view(&self) -> Seq<(Seq<u8>, Seq<u8>)> {
        Seq::new(self.entries@.len(), |i: int| (self.entries@[i].0@, self.entries@[i].1@))
    }
}

impl HeaderMap {
    #[verifier::type_invariant]
    spec fn accepted(self) -> bool {
        fields_accepted(self@)
    }

    /// An empty map.
    pub fn new() -> (r: Self)
        ensures
            r@ == Seq::<(Seq<u8>, Seq<u8>)>::empty(),
    {
        let r = HeaderMap { entries: Vec::new() };
        assert(r@ =~= Seq::<(Seq<u8>, Seq<u8>)>::empty());
        r
    }

    /// What appending `name` and `value` to `h` gives: the longer list, or a
    /// final error of the header stage that carries the name, or else the
    /// value, that the `http` crate refuses.
    pub open spec fn appended(h: Seq<(Seq<u8>, Seq<u8>)>, name: Seq<u8>, value: Seq<u8>) -> Result<
        Seq<(Seq<u8>, Seq<u8>)>,
        ParseFailure,
    > {
        if !name_accepted(name) {
            Err(ParseFailure { input: name, kind: ErrorKind::Header, incomplete: false })
        } else if !value_accepted(value) {
            Err(ParseFailure { input: value, kind: ErrorKind::Header, incomplete: false })
        } else {
            Ok(h.push((name, value)))
        }
    }

    /// Appends a field after those that the map holds. On an error the map
    /// is as it was.
    pub fn append(&mut self, name: &[u8], value: &[u8]) -> (r: Result<(), FromUtf8Err>)
        ensures
            match HeaderMap::appended(old(self)@, name@, value@) {
                Ok(h) => r is Ok && final(self)@ == h,
                Err(e) => r matches Err(err) && err@ == e && final(self)@ == old(self)@,
            },
    {
        proof {
            use_type_invariant(&*self);
        }
        if !registry_takes_name(name) {
            return Err(FromUtf8Err::rejected(name, ErrorKind::Header));
        }
        if !registry_takes_value(value) {
            return Err(FromUtf8Err::rejected(value, ErrorKind::Header));
        }
        let ghost before = self@;
        let mut entries: Vec<(Vec<u8>, Vec<u8>)> = Vec::new();
        std::mem::swap(&mut self.entries, &mut entries);
        entries.push((slice_to_vec(name), slice_to_vec(value)));
        proof {
            let after = Seq::new(entries@.len(), |i: int| (entries@[i].0@, entries@[i].1@));
            assert(after =~= before.push((name@, value@)));
            assert forall|i: int| 0 <= i < after.len() implies name_accepted(
                (#[trigger] after[i]).0,
            ) && value_accepted(after[i].1) by {
                if i < before.len() {
                    assert(after[i] == before[i]);
                }
            }
        }
        self.entries = entries;
        assert(self@ =~= before.push((name@, value@)));
        Ok(())
    }

    /// The number of fields.
    pub fn len(&self) -> (r: usize)
        ensures
            r == self@.len(),
    {
        self.entries.len()
    }

    pub fn is_empty(&self) -> (r: bool)
        ensures
            r == (self@.len() == 0),
    {
        self.entries.len() == 0
    }

    /// The name of the field at `index`, as it came.
    pub fn name_at(&self, index: usize) -> (r: &[u8])
        requires
            index < self@.len(),
        ensures
            r@ == self@[index as int].0,
            name_accepted(r@),
    {
        proof {
            use_type_invariant(self);
            assert(name_accepted(self@[index as int].0));
        }
        self.entries[index].0.as_slice()
    }

    /// The value of the field at `index`.
    pub fn value_at(&self, index: usize) -> (r: &[u8])
        requires
            index < self@.len(),
        ensures
            r@ == self@[index as int].1,
            value_accepted(r@),
    {
        proof {
            use_type_invariant(self);
            assert(value_accepted(self@[index as int].1));
        }
        self.entries[index].1.as_slice()
    }

    /// The value of the first field named `name`, whatever the case of its
    /// letters.
    pub fn get(&self, name: &[u8]) -> (r: Option<&[u8]>)
        ensures
            match r {
                Some(value) => values_named(self@, name@).len() > 0 && value@ == values_named(
                    self@,
                    name@,
                )[0],
                None => values_named(self@, name@).len() == 0,
            },
    {
        let mut i: usize = 0;
        assert(self@.take(0) =~= Seq::<(Seq<u8>, Seq<u8>)>::empty());
        while i < self.entries.len()
            invariant
                i <= self@.len(),
                self@.len() == self.entries@.len(),
                values_named(self@.take(i as int), name@).len() == 0,
            decreases self@.len() - i,
        {
            let ghost head = self@.take(i + 1);
            assert(head.drop_last() =~= self@.take(i as int));
            assert(head.last() == self@[i as int]);
            if same_name_bytes(self.entries[i].0.as_slice(), name) {
                proof {
                    assert(values_named(head, name@) =~= seq![self@[i as int].1]);
                    lemma_values_named_grow(self@, name@, i + 1);
                }
                return Some(self.entries[i].1.as_slice());
            }
            i += 1;
        }
        assert(self@.take(i as int) =~= self@);
        None
    }

    /// The values of all fields named `name`, in the order of the fields.
    pub fn get_all(&self, name: &[u8]) -> (r: Vec<Vec<u8>>)
        ensures
            r@.len() == values_named(self@, name@).len(),
            forall|k: int|
                0 <= k < r@.len() ==> (#[trigger] r@[k])@ == values_named(self@, name@)[k],
    {
        let mut out: Vec<Vec<u8>> = Vec::new();
        let mut i: usize = 0;
        assert(self@.take(0) =~= Seq::<(Seq<u8>, Seq<u8>)>::empty());
        while i < self.entries.len()
            invariant
                i <= self@.len(),
                self@.len() == self.entries@.len(),
                out@.len() == values_named(self@.take(i as int), name@).len(),
                forall|k: int|
                    0 <= k < out@.len() ==> (#[trigger] out@[k])@ == values_named(
                        self@.take(i as int),
                        name@,
                    )[k],
            decreases self@.len() - i,
        {
            let ghost head = self@.take(i + 1);
            assert(head.drop_last() =~= self@.take(i as int));
            assert(head.last() == self@[i as int]);
            if same_name_bytes(self.entries[i].0.as_slice(), name) {
                out.push(slice_to_vec(self.entries[i].1.as_slice()));
            }
            i += 1;
        }
        assert(self@.take(i as int) =~= self@);
        out
    }
}

/// The values found in a beginning of `h` are the first of those found in `h`.
pub proof fn lemma_values_named_grow(h: Seq<(Seq<u8>, Seq<u8>)>, name: Seq<u8>, n: int)
    requires
        0 <= n <= h.len(),
    ensures
        values_named(h.take(n), name).len() <= values_named(h, name).len(),
        forall|k: int|
            0 <= k < values_named(h.take(n), name).len() ==> values_named(h.take(n), name)[k]
                == #[trigger] values_named(h, name)[k],
    decreases h.len() - n,
{
    if n == h.len() {
        assert(h.take(n) =~= h);
    } else {
        assert(h.drop_last().take(n) =~= h.take(n));
        lemma_values_named_grow(h.drop_last(), name, n);
    }
}

impl Clone for HeaderMap {
    fn clone(&self) -> (r: Self)
        ensures
            r@ == self@,
    {
        proof {
            use_type_invariant(self);
        }
        let mut entries: Vec<(Vec<u8>, Vec<u8>)> = Vec::new();
        let mut i: usize = 0;
        while i < self.entries.len()
            invariant
                i <= self.entries@.len(),
                entries@.len() == i,
                forall|k: int|
                    0 <= k < i ==> (#[trigger] entries@[k]).0@ == self.entries@[k].0@
                        && entries@[k].1@ == self.entries@[k].1@,
            decreases self.entries@.len() - i,
        {
            entries.push(
                (
                    slice_to_vec(self.entries[i].0.as_slice()),
                    slice_to_vec(self.entries[i].1.as_slice()),
                ),
            );
            i += 1;
        }
        proof {
            let copy = Seq::new(entries@.len(), |i: int| (entries@[i].0@, entries@[i].1@));
            assert(copy =~= self@);
        }
        let r = HeaderMap { entries };
        assert(r@ =~= self@);
        r
    }
}

impl IntoUtf8 for HeaderMap {
    open spec fn wire(&self) -> Seq<u8> {
        headers_wire(self@)
    }

    fn into_utf8(&self) -> (r: Result<Vec<u8>, ()>) {
        let mut out: Vec<u8> = Vec::new();
        let mut i: usize = 0;
        assert(self@.take(0) =~= Seq::<(Seq<u8>, Seq<u8>)>::empty());
        while i < self.len()
            invariant
                i <= self@.len(),
                out@ == headers_wire(self@.take(i as int)),
            decreases self@.len() - i,
        {
            let ghost head = self@.take(i + 1);
            let ghost before = out@;
            assert(head.drop_last() =~= self@.take(i as int));
            assert(head.last() == self@[i as int]);
            out.extend_from_slice(self.name_at(i));
            out.push(COLON);
            out.push(SP);
            out.extend_from_slice(self.value_at(i));
            out.push(CR);
            out.push(LF);
            assert(out@ =~= before + field_wire(self@[i as int].0, self@[i as int].1));
            i += 1;
        }
        assert(self@.take(i as int) =~= self@);
        Ok(out)
    }
}

} // verus!
