//! The stages of the decoding pipeline, each as a function of the bytes that
//! are left: what it yields, how many bytes it takes, and how it fails.
//!
//! A stage ends with a fixed terminator. It is starved while its terminator
//! has not arrived and nothing seen so far breaks its grammar; only then may
//! it be tried again on a longer input.

use crate::basic_combinator::{
    chain, field_content_scan, is_tchar, lemma_chain_settled, lemma_literal_settled,
    lemma_one_or_more_settled, lemma_run, lemma_skip_add, lemma_zero_or_more_settled, literal,
    literal_scan, one_or_more, run, settled, shift, take_some, zero_or_more, ByteClass, GrammarCode,
    GrammarError, Scan, CR, LF, SP,
};
use crate::error::{ErrorKind, FromUtf8Err, IntoFromUtf8Err, ParseFailure};
use crate::http_combinator::{
    field_value_len, header_line, header_line_name, header_line_scan, header_line_value,
    http_version, http_version_scan, lemma_field_value_fits, lemma_header_line_settled,
    lemma_http_version_settled, lemma_line_parts_fit, lemma_method_settled,
    lemma_status_code_settled, line_parts, method, method_scan, reason_phrase, status_code,
    status_code_scan,
};
use crate::http_elements::{value_accepted, HeaderMap, Method, StatusCode, Uri, Version};
use vstd::prelude::*;

verus! {

/// CR LF, the end of a line.
pub open spec fn crlf() -> Seq<u8> {
    seq![CR, LF]
}

/// A single space.
pub open spec fn space() -> Seq<u8> {
    seq![SP]
}

/// The rule whose scan of `s` is `first`, and after it the fixed bytes `lit`.
pub open spec fn closed_by(first: Scan, s: Seq<u8>, lit: Seq<u8>) -> Scan {
    chain(first, literal_scan(s.skip(first.end() as int), lit))
}

/// What a stage yields on an input: a value and the number of bytes taken,
/// or the failure.
pub type Staged<V> = Result<(V, nat), ParseFailure>;

/// The failure of a stage of kind `kind` whose grammar stopped as `scan`
/// says: it carries the input from that point on.
pub open spec fn stopped(s: Seq<u8>, scan: Scan, kind: ErrorKind) -> ParseFailure {
    ParseFailure { input: s.skip(scan->at as int), kind, incomplete: scan->short }
}

/// The method stage: a method and one space.
pub open spec fn method_line_scan(s: Seq<u8>) -> Scan {
    closed_by(method_scan(s), s, space())
}

#[verifier::opaque]
pub open spec fn method_stage(s: Seq<u8>) -> Staged<Method> {
    match method_line_scan(s) {
        Scan::Match { len } => match Method::named(s.take(len - 1)) {
            Some(m) => Ok((m, len)),
            None => Err(
                ParseFailure { input: s.take(len - 1), kind: ErrorKind::Method, incomplete: false },
            ),
        },
        scan => Err(stopped(s, scan, ErrorKind::Method)),
    }
}

/// The target stage: one or more bytes that are no space, and one space.
/// The bytes before the space must be a request target.
pub open spec fn target_line_scan(s: Seq<u8>) -> Scan {
    closed_by(one_or_more(s, ByteClass::NotSpace), s, space())
}

#[verifier::opaque]
pub open spec fn target_stage(s: Seq<u8>) -> Staged<Seq<u8>> {
    match target_line_scan(s) {
        Scan::Match { len } => match Uri::read(s.take(len - 1)) {
            Ok(text) => Ok((text, len)),
            Err(e) => Err(e),
        },
        scan => Err(stopped(s, scan, ErrorKind::Uri)),
    }
}

/// The version stage: a version and the terminator `end`, which is CR LF in
/// a request and a space in a response. The version must be one of the
/// three that `Version` names.
pub open spec fn version_line_scan(s: Seq<u8>, end: Seq<u8>) -> Scan {
    closed_by(http_version_scan(s), s, end)
}

#[verifier::opaque]
pub open spec fn version_stage(s: Seq<u8>, end: Seq<u8>) -> Staged<Version> {
    match version_line_scan(s, end) {
        Scan::Match { len } => match Version::read(s.take(len - end.len())) {
            Ok(v) => Ok((v, len)),
            Err(e) => Err(e),
        },
        scan => Err(stopped(s, scan, ErrorKind::Version)),
    }
}

/// The status stage: three digits, a space, a reason phrase, CR LF. The
/// digits must spell a status code; the phrase is read and dropped.
pub open spec fn status_line_scan(s: Seq<u8>) -> Scan {
    let code = closed_by(status_code_scan(s), s, space());
    let phrase = chain(code, zero_or_more(s.skip(code.end() as int), ByteClass::Reason));
    closed_by(phrase, s, crlf())
}

#[verifier::opaque]
pub open spec fn status_stage(s: Seq<u8>) -> Staged<u16> {
    match status_line_scan(s) {
        Scan::Match { len } => match StatusCode::read(s.take(3)) {
            Ok(code) => Ok((code, len)),
            Err(e) => Err(e),
        },
        scan => Err(stopped(s, scan, ErrorKind::StatusCode)),
    }
}

/// A header line and the CR LF that ends it.
pub open spec fn field_line_scan(s: Seq<u8>) -> Scan {
    closed_by(header_line_scan(s), s, crlf())
}

/// What stands at the head of a header section.
pub enum SectionHead {
    /// The bare CR LF that ends the section.
    End,
    /// A header line of `len` bytes, its CR LF counted.
    Line { len: nat, name: Seq<u8>, value: Seq<u8> },
    /// Neither: the grammar stops at offset `at`.
    Stop { at: nat, short: bool },
}

/// What stands at the head of `s`, read as the head of a header section.
#[verifier::opaque]
pub open spec fn section_head(s: Seq<u8>) -> SectionHead {
    match literal_scan(s, crlf()) {
        Scan::Match { .. } => SectionHead::End,
        Scan::Fail { at, short } => if short {
            SectionHead::Stop { at, short }
        } else {
            match field_line_scan(s) {
                Scan::Match { len } => SectionHead::Line {
                    len,
                    name: header_line_name(s),
                    value: header_line_value(s),
                },
                Scan::Fail { at, short } => SectionHead::Stop { at, short },
            }
        },
    }
}

/// The header section: header lines, each ended by CR LF, and after the
/// last of them a bare CR LF. A section without lines is a bare CR LF.
pub open spec fn header_section_scan(s: Seq<u8>) -> Scan
    decreases s.len(),
{
    match section_head(s) {
        SectionHead::End => Scan::Match { len: 2 },
        SectionHead::Line { len, .. } => if 0 < len <= s.len() {
            shift(len, header_section_scan(s.skip(len as int)))
        } else {
            Scan::Fail { at: 0, short: false }
        },
        SectionHead::Stop { at, short } => Scan::Fail { at, short },
    }
}

/// The names and values of the lines of the header section at the head of
/// `s`, in the order of the lines.
pub open spec fn header_fields(s: Seq<u8>) -> Seq<(Seq<u8>, Seq<u8>)>
    decreases s.len(),
{
    match section_head(s) {
        SectionHead::Line { len, name, value } => if 0 < len <= s.len() {
            seq![(name, value)] + header_fields(s.skip(len as int))
        } else {
            Seq::empty()
        },
        _ => Seq::empty(),
    }
}

/// The header map that holds `fields`, appended one by one in their order;
/// or the error of the first field that the map refuses.
pub open spec fn admitted(fields: Seq<(Seq<u8>, Seq<u8>)>) -> Result<
    Seq<(Seq<u8>, Seq<u8>)>,
    ParseFailure,
>
    decreases fields.len(),
{
    if fields.len() == 0 {
        Ok(Seq::empty())
    } else {
        match admitted(fields.drop_last()) {
            Ok(h) => HeaderMap::appended(h, fields.last().0, fields.last().1),
            Err(e) => Err(e),
        }
    }
}

/// The header stage: the header section, and every field of it admitted to
/// the map in the order of the lines, a repeated name as often as it comes.
#[verifier::opaque]
pub open spec fn headers_stage(s: Seq<u8>) -> Staged<Seq<(Seq<u8>, Seq<u8>)>> {
    match header_section_scan(s) {
        Scan::Match { len } => match admitted(header_fields(s)) {
            Ok(h) => Ok((h, len)),
            Err(e) => Err(e),
        },
        scan => Err(stopped(s, scan, ErrorKind::Header)),
    }
}

/// Whether a stage's outcome `before` on an input of `len` bytes is settled
/// against its outcome `after` on the same bytes with more behind them: a
/// value once yielded is yielded again with the same count of bytes, and a
/// final error stays a final error of the same stage. Only starvation may
/// turn into something else.
pub open spec fn stage_settled<V>(before: Staged<V>, after: Staged<V>, len: nat) -> bool {
    match before {
        Ok((_, n)) => n <= len && after == before,
        Err(e) => e.incomplete || (after matches Err(e2) && e2.kind == e.kind && !e2.incomplete),
    }
}

/// A settled rule closed by fixed bytes is settled, and its match is final.
pub proof fn lemma_closed_by_settled(
    first: Scan,
    first_after: Scan,
    s: Seq<u8>,
    more: Seq<u8>,
    lit: Seq<u8>,
)
    requires
        settled(first, first_after, s.len()),
        lit.len() > 0,
    ensures
        settled(closed_by(first, s, lit), closed_by(first_after, s + more, lit), s.len()),
        closed_by(first, s, lit) is Match ==> closed_by(first_after, s + more, lit) == closed_by(
            first,
            s,
            lit,
        ),
{
    let second = literal_scan(s.skip(first.end() as int), lit);
    let second_after = literal_scan((s + more).skip(first_after.end() as int), lit);
    if first is Match {
        let n = first.end();
        lemma_literal_settled(s.skip(n as int), more, lit);
        if n < s.len() {
            lemma_skip_add(s, more, n);
        } else {
            assert(lit.take(0) =~= s.skip(n as int));
        }
    }
    lemma_chain_settled(first, first_after, second, second_after, s.len());
}

/// The method stage is settled.
pub proof fn lemma_method_stage_settled(s: Seq<u8>, more: Seq<u8>)
    ensures
        stage_settled(method_stage(s), method_stage(s + more), s.len()),
{
    reveal(method_stage);
    lemma_method_settled(s, more);
    lemma_closed_by_settled(method_scan(s), method_scan(s + more), s, more, space());
    if method_line_scan(s) is Match {
        lemma_skip_add(s, more, (method_line_scan(s).end() - 1) as nat);
    }
}

/// The target stage is settled.
pub proof fn lemma_target_stage_settled(s: Seq<u8>, more: Seq<u8>)
    ensures
        stage_settled(target_stage(s), target_stage(s + more), s.len()),
{
    reveal(target_stage);
    lemma_one_or_more_settled(s, more, ByteClass::NotSpace);
    lemma_closed_by_settled(
        one_or_more(s, ByteClass::NotSpace),
        one_or_more(s + more, ByteClass::NotSpace),
        s,
        more,
        space(),
    );
    if target_line_scan(s) is Match {
        lemma_skip_add(s, more, (target_line_scan(s).end() - 1) as nat);
    }
}

/// The version stage is settled.
pub proof fn lemma_version_stage_settled(s: Seq<u8>, more: Seq<u8>, end: Seq<u8>)
    requires
        end.len() > 0,
    ensures
        stage_settled(version_stage(s, end), version_stage(s + more, end), s.len()),
{
    reveal(version_stage);
    lemma_http_version_settled(s, more);
    lemma_closed_by_settled(http_version_scan(s), http_version_scan(s + more), s, more, end);
    if version_line_scan(s, end) is Match {
        lemma_skip_add(s, more, (version_line_scan(s, end).end() - end.len()) as nat);
    }
}

/// The status line is settled, and its match is final.
pub proof fn lemma_status_line_settled(s: Seq<u8>, more: Seq<u8>)
    ensures
        settled(status_line_scan(s), status_line_scan(s + more), s.len()),
        status_line_scan(s) is Match ==> status_line_scan(s + more) == status_line_scan(s),
{
    let t = s + more;
    lemma_status_code_settled(s, more);
    lemma_closed_by_settled(status_code_scan(s), status_code_scan(t), s, more, space());
    let code = closed_by(status_code_scan(s), s, space());
    let code_t = closed_by(status_code_scan(t), t, space());
    let second = zero_or_more(s.skip(code.end() as int), ByteClass::Reason);
    let second_t = zero_or_more(t.skip(code_t.end() as int), ByteClass::Reason);
    if code is Match {
        lemma_skip_add(s, more, code.end());
        lemma_zero_or_more_settled(s.skip(code.end() as int), more, ByteClass::Reason);
    }
    lemma_chain_settled(code, code_t, second, second_t, s.len());
    lemma_closed_by_settled(chain(code, second), chain(code_t, second_t), s, more, crlf());
}

/// The status stage is settled.
pub proof fn lemma_status_stage_settled(s: Seq<u8>, more: Seq<u8>)
    ensures
        stage_settled(status_stage(s), status_stage(s + more), s.len()),
{
    reveal(status_stage);
    lemma_status_line_settled(s, more);
    if status_line_scan(s) is Match {
        lemma_skip_add(s, more, 3);
    }
}

/// A header line with its CR LF is settled; its match is final and keeps the
/// line's name and value.
pub proof fn lemma_field_line_settled(s: Seq<u8>, more: Seq<u8>)
    ensures
        settled(field_line_scan(s), field_line_scan(s + more), s.len()),
        field_line_scan(s) is Match ==> {
            &&& field_line_scan(s + more) == field_line_scan(s)
            &&& header_line_name(s + more) == header_line_name(s)
            &&& header_line_value(s + more) == header_line_value(s)
        },
{
    lemma_header_line_settled(s, more);
    lemma_closed_by_settled(header_line_scan(s), header_line_scan(s + more), s, more, crlf());
}

/// What stands at the head of a header section is settled: the end and a
/// line stay what they are, and so does a stop that is not for want of
/// input. A line is not empty and lies inside the input.
pub proof fn lemma_section_head_settled(s: Seq<u8>, more: Seq<u8>)
    ensures
        match section_head(s) {
            SectionHead::End => 2 <= s.len() && section_head(s + more) == section_head(s),
            SectionHead::Line { len, .. } => 0 < len <= s.len() && section_head(s + more)
                == section_head(s),
            SectionHead::Stop { at, short } => at <= s.len() && (!short ==> at < s.len()
                && section_head(s + more) == section_head(s)),
        },
{
    reveal(section_head);
    lemma_literal_settled(s, more, crlf());
    lemma_field_line_settled(s, more);
}

/// The header section is settled; its match is final and keeps its fields.
pub proof fn lemma_header_section_settled(s: Seq<u8>, more: Seq<u8>)
    ensures
        settled(header_section_scan(s), header_section_scan(s + more), s.len()),
        header_section_scan(s) is Match ==> {
            &&& header_section_scan(s + more) == header_section_scan(s)
            &&& header_fields(s + more) == header_fields(s)
        },
    decreases s.len(),
{
    lemma_section_head_settled(s, more);
    match section_head(s) {
        SectionHead::Line { len, .. } => {
            lemma_skip_add(s, more, len);
            lemma_header_section_settled(s.skip(len as int), more);
        },
        _ => {},
    }
}

/// The header stage is settled.
pub proof fn lemma_headers_stage_settled(s: Seq<u8>, more: Seq<u8>)
    ensures
        stage_settled(headers_stage(s), headers_stage(s + more), s.len()),
{
    reveal(headers_stage);
    lemma_header_section_settled(s, more);
}

/// A header line that the grammar matched has a name made of token
/// characters and a value that the header map takes.
proof fn lemma_line_value_accepted(s: Seq<u8>)
    requires
        header_line_scan(s) is Match,
    ensures
        value_accepted(header_line_value(s)),
        forall|i: int|
            0 <= i < header_line_name(s).len() ==> is_tchar(
                #[trigger] header_line_name(s)[i],
            ),
        header_line_name(s).len() >= 1,
{
    lemma_line_parts_fit(s);
    let parts = line_parts(s);
    lemma_run(s, ByteClass::Tchar);
    let at_value = s.skip(parts.value_start() as int);
    lemma_field_value_fits(at_value);
    lemma_field_value_bytes(at_value);
    assert(header_line_value(s) =~= at_value.take(parts.value as int));
}

/// Every byte of a field value is a blank, a visible character or an
/// eight-bit byte.
pub proof fn lemma_field_value_bytes(s: Seq<u8>)
    ensures
        field_value_len(s) <= s.len(),
        forall|i: int|
            0 <= i < field_value_len(s) ==> ByteClass::Reason.has(
                #[trigger] s[i],
            ),
    decreases s.len(),
{
    lemma_field_value_fits(s);
    match field_content_scan(s) {
        Scan::Match { len } => {
            if 0 < len <= s.len() {
                let rest = s.skip(len as int);
                lemma_field_value_bytes(rest);
                lemma_run(s.skip(1), ByteClass::Blank);
                assert forall|i: int|
                    0 <= i < field_value_len(s) implies ByteClass::Reason.has(
                    #[trigger] s[i],
                ) by {
                    if i >= len {
                        assert(s[i] == rest[i - len]);
                    } else if 0 < i < len - 1 {
                        assert(s[i] == s.skip(1)[i - 1]);
                    }
                }
            }
        },
        Scan::Fail { .. } => {},
    }
}

/// A single space, as bytes.
pub fn one_space() -> (r: [u8; 1])
    ensures
        r@ == space(),
{
    let r: [u8; 1] = [SP];
    assert(r@ =~= space());
    r
}

/// CR LF, as bytes.
pub fn line_end() -> (r: [u8; 2])
    ensures
        r@ == crlf(),
{
    let r: [u8; 2] = [CR, LF];
    assert(r@ =~= crlf());
    r
}

/// Runs the method stage on `input`.
pub fn take_method(input: &[u8]) -> (r: Result<(Method, usize), FromUtf8Err>)
    ensures
        match method_stage(input@) {
            Ok((m, n)) => r matches Ok((method, used)) && method == m && used == n && n
                <= input@.len(),
            Err(e) => r matches Err(err) && err@ == e,
        },
{
    proof {
        reveal(method_stage);
    }
    let sp = one_space();
    let (rest, found) = match method(input) {
        Ok(m) => m,
        Err(e) => {
            return Err(e.into_parse_error(ErrorKind::Method));
        },
    };
    let ghost len = found@.len();
    let rest = match literal(rest, sp.as_slice()) {
        Ok((rest, _)) => rest,
        Err(e) => {
            assert(e.input@ =~= input@.skip(len as int));
            return Err(e.into_parse_error(ErrorKind::Method));
        },
    };
    assert(method_line_scan(input@) == Scan::Match { len: len + 1 });
    match Method::from_bytes(found) {
        Some(m) => Ok((m, input.len() - rest.len())),
        None => Err(FromUtf8Err::rejected(found, ErrorKind::Method)),
    }
}

/// Runs the target stage on `input`.
pub fn take_target(input: &[u8]) -> (r: Result<(Uri, usize), FromUtf8Err>)
    ensures
        match target_stage(input@) {
            Ok((text, n)) => r matches Ok((uri, used)) && uri@ == text && used == n && n
                <= input@.len(),
            Err(e) => r matches Err(err) && err@ == e,
        },
{
    proof {
        reveal(target_stage);
    }
    let sp = one_space();
    let (rest, found) = match take_some(input, ByteClass::NotSpace, GrammarCode::Target) {
        Ok(m) => m,
        Err(e) => {
            return Err(e.into_parse_error(ErrorKind::Uri));
        },
    };
    let ghost len = found@.len();
    let rest = match literal(rest, sp.as_slice()) {
        Ok((rest, _)) => rest,
        Err(e) => {
            assert(e.input@ =~= input@.skip(len as int));
            return Err(e.into_parse_error(ErrorKind::Uri));
        },
    };
    assert(target_line_scan(input@) == Scan::Match { len: len + 1 });
    match Uri::from_bytes(found) {
        Ok(uri) => Ok((uri, input.len() - rest.len())),
        Err(e) => Err(e),
    }
}

/// Runs the version stage on `input`, with `end` as its terminator.
pub fn take_version(input: &[u8], end: &[u8]) -> (r: Result<(Version, usize), FromUtf8Err>)
    ensures
        match version_stage(input@, end@) {
            Ok((v, n)) => r matches Ok((version, used)) && version == v && used == n && n
                <= input@.len(),
            Err(e) => r matches Err(err) && err@ == e,
        },
{
    proof {
        reveal(version_stage);
    }
    let (rest, found) = match http_version(input) {
        Ok(m) => m,
        Err(e) => {
            return Err(e.into_parse_error(ErrorKind::Version));
        },
    };
    let ghost len = found@.len();
    let rest = match literal(rest, end) {
        Ok((rest, _)) => rest,
        Err(e) => {
            assert(e.input@ =~= input@.skip(len as int));
            return Err(e.into_parse_error(ErrorKind::Version));
        },
    };
    assert(version_line_scan(input@, end@) == Scan::Match { len: len + end@.len() });
    match Version::from_utf8(found) {
        Ok(v) => Ok((v, input.len() - rest.len())),
        Err(e) => Err(e),
    }
}

/// Runs the status stage on `input`.
pub fn take_status(input: &[u8]) -> (r: Result<(StatusCode, usize), FromUtf8Err>)
    ensures
        match status_stage(input@) {
            Ok((code, n)) => r matches Ok((status, used)) && status@ == code && used == n && n
                <= input@.len(),
            Err(e) => r matches Err(err) && err@ == e,
        },
{
    proof {
        reveal(status_stage);
    }
    let sp = one_space();
    let end = line_end();
    let (rest, digits) = match status_code(input) {
        Ok(m) => m,
        Err(e) => {
            return Err(e.into_parse_error(ErrorKind::StatusCode));
        },
    };
    let rest = match literal(rest, sp.as_slice()) {
        Ok((rest, _)) => rest,
        Err(e) => {
            assert(e.input@ =~= input@.skip(3));
            return Err(e.into_parse_error(ErrorKind::StatusCode));
        },
    };
    assert(rest@ =~= input@.skip(4));
    let ghost phrase = run(rest@, ByteClass::Reason);
    let rest = match reason_phrase(rest) {
        Ok((rest, _)) => rest,
        Err(e) => {
            return Err(e.into_parse_error(ErrorKind::StatusCode));
        },
    };
    assert(rest@ =~= input@.skip((4 + phrase) as int));
    let rest = match literal(rest, end.as_slice()) {
        Ok((rest, _)) => rest,
        Err(e) => {
            assert(e.input@ =~= input@.skip((4 + phrase) as int));
            return Err(e.into_parse_error(ErrorKind::StatusCode));
        },
    };
    assert(status_line_scan(input@) == Scan::Match { len: 4 + phrase + 2 });
    match StatusCode::from_bytes(digits) {
        Ok(status) => Ok((status, input.len() - rest.len())),
        Err(e) => Err(e),
    }
}

/// The names and values that a list of spans holds.
pub open spec fn spans(lines: Seq<(&[u8], &[u8])>) -> Seq<(Seq<u8>, Seq<u8>)> {
    Seq::new(lines.len(), |i: int| (lines[i].0@, lines[i].1@))
}

/// Matches what stands at the head of a header section: the bare CR LF that
/// ends it, or one header line with its CR LF. Hands back what is left, and
/// for a line its name and value.
fn take_line<'a>(input: &'a [u8]) -> (r: Result<
    (&'a [u8], Option<(&'a [u8], &'a [u8])>),
    GrammarError<'a>,
>)
    ensures
        match section_head(input@) {
            SectionHead::End => r matches Ok((after, None)) && after@ == input@.skip(2) && 2
                <= input@.len(),
            SectionHead::Line { len, name, value } => {
                &&& 0 < len <= input@.len()
                &&& r matches Ok((after, Some((found_name, found_value))))
                &&& after@ == input@.skip(len as int)
                &&& found_name@ == name
                &&& found_value@ == value
            },
            SectionHead::Stop { at, short } => {
                &&& at <= input@.len()
                &&& r matches Err(e)
                &&& e.input@ == input@.skip(at as int)
                &&& e.incomplete == short
            },
        },
{
    proof {
        reveal(section_head);
    }
    let end = line_end();
    match literal(input, end.as_slice()) {
        Ok((after, _)) => {
            return Ok((after, None));
        },
        Err(e) => {
            if e.incomplete {
                return Err(e);
            }
        },
    }
    let (after_line, (name, value)) = match header_line(input) {
        Ok(m) => m,
        Err(e) => {
            return Err(e);
        },
    };
    let ghost line = header_line_scan(input@).end();
    match literal(after_line, end.as_slice()) {
        Ok((after, _)) => {
            assert(after@ =~= input@.skip((line + 2) as int));
            Ok((after, Some((name, value))))
        },
        Err(e) => {
            assert(e.input@ =~= input@.skip(line as int));
            Err(e)
        },
    }
}

/// The section that began at offset `n` of `input` ends there: the fields
/// read so far are all its fields.
proof fn lemma_section_ends(input: Seq<u8>, n: nat, done: Seq<(Seq<u8>, Seq<u8>)>)
    requires
        n <= input.len(),
        header_section_scan(input) == shift(n, header_section_scan(input.skip(n as int))),
        header_fields(input) == done + header_fields(input.skip(n as int)),
        section_head(input.skip(n as int)) is End,
    ensures
        header_section_scan(input) == (Scan::Match { len: n + 2 }),
        header_fields(input) == done,
{
    assert(header_fields(input.skip(n as int)) =~= Seq::empty());
    assert(done + header_fields(input.skip(n as int)) =~= done);
}

/// The section that began at offset `n` of `input` stops where what stands
/// at its head stops.
proof fn lemma_section_stops(input: Seq<u8>, n: nat, at: nat, short: bool)
    requires
        n <= input.len(),
        header_section_scan(input) == shift(n, header_section_scan(input.skip(n as int))),
        section_head(input.skip(n as int)) == (SectionHead::Stop { at, short }),
        at <= input.len() - n,
    ensures
        header_section_scan(input) == (Scan::Fail { at: n + at, short }),
        input.skip(n as int).skip(at as int) == input.skip((n + at) as int),
{
    assert(input.skip(n as int).skip(at as int) =~= input.skip((n + at) as int));
}

/// One more line read: the section that began at offset `n` of `input`
/// goes on behind the line.
proof fn lemma_section_line(
    input: Seq<u8>,
    n: nat,
    len: nat,
    name: Seq<u8>,
    value: Seq<u8>,
    done: Seq<(Seq<u8>, Seq<u8>)>,
)
    requires
        n <= input.len(),
        header_section_scan(input) == shift(n, header_section_scan(input.skip(n as int))),
        header_fields(input) == done + header_fields(input.skip(n as int)),
        section_head(input.skip(n as int)) == (SectionHead::Line { len, name, value }),
        0 < len <= input.len() - n,
    ensures
        header_section_scan(input) == shift(
            n + len,
            header_section_scan(input.skip((n + len) as int)),
        ),
        header_fields(input) == done.push((name, value)) + header_fields(
            input.skip((n + len) as int),
        ),
        input.skip(n as int).skip(len as int) == input.skip((n + len) as int),
{
    let rest = input.skip(n as int);
    let after = input.skip((n + len) as int);
    assert(rest.skip(len as int) =~= after);
    let field = (name, value);
    assert(header_fields(rest) == seq![field] + header_fields(after));
    assert(done + (seq![field] + header_fields(after)) =~= done.push(field) + header_fields(
        after,
    ));
}

/// The names and values of a list of spans with one more span.
proof fn lemma_spans_push(lines: Seq<(&[u8], &[u8])>, name: &[u8], value: &[u8])
    ensures
        spans(lines.push((name, value))) == spans(lines).push((name@, value@)),
{
    assert(spans(lines.push((name, value))) =~= spans(lines).push((name@, value@)));
}

/// Matches the header section and hands back its lines with what it left.
fn take_lines<'a>(input: &'a [u8]) -> (r: Result<
    (Vec<(&'a [u8], &'a [u8])>, usize),
    GrammarError<'a>,
>)
    ensures
        match header_section_scan(input@) {
            Scan::Match { len } => r matches Ok((lines, used)) && used == len && len <= input@.len()
                && spans(lines@) == header_fields(input@),
            Scan::Fail { at, short } => r matches Err(e) && at <= input@.len() && e.input@
                == input@.skip(at as int) && e.incomplete == short,
        },
{
    let mut lines: Vec<(&'a [u8], &'a [u8])> = Vec::new();
    let mut rest = input;
    let ghost mut n: nat = 0;
    proof {
        assert(input@.skip(0) =~= input@);
        assert(spans(lines@) =~= Seq::empty());
        assert(spans(lines@) + header_fields(rest@) =~= header_fields(input@));
    }
    loop
        invariant
            n <= input@.len(),
            rest@ == input@.skip(n as int),
            header_section_scan(input@) == shift(n, header_section_scan(rest@)),
            header_fields(input@) == spans(lines@) + header_fields(rest@),
        decreases rest@.len(),
    {
        let ghost head = section_head(rest@);
        match take_line(rest) {
            Err(e) => {
                proof {
                    lemma_section_stops(input@, n, head->at, head->short);
                }
                return Err(e);
            },
            Ok((after, None)) => {
                proof {
                    lemma_section_ends(input@, n, spans(lines@));
                }
                return Ok((lines, input.len() - after.len()));
            },
            Ok((after, Some((name, value)))) => {
                proof {
                    lemma_section_line(input@, n, head->len, name@, value@, spans(lines@));
                    lemma_spans_push(lines@, name, value);
                    n = n + head->len;
                }
                lines.push((name, value));
                rest = after;
            },
        }
    }
}

/// A line at the head of a header section has a name of token characters
/// and a value that the header map takes.
proof fn lemma_section_head_line(s: Seq<u8>)
    ensures
        section_head(s) matches SectionHead::Line { len, name, value } ==> {
            &&& 0 < len <= s.len()
            &&& value_accepted(value)
            &&& name.len() >= 1
            &&& forall|k: int| 0 <= k < name.len() ==> is_tchar(#[trigger] name[k])
        },
{
    reveal(section_head);
    if section_head(s) is Line {
        lemma_line_value_accepted(s);
        lemma_field_line_settled(s, Seq::empty());
    }
}

/// For a section that the grammar matched, each field has a name of token
/// characters and a value that the header map takes.
proof fn lemma_section_fields(s: Seq<u8>)
    requires
        header_section_scan(s) is Match,
    ensures
        forall|i: int|
            0 <= i < header_fields(s).len() ==> {
                &&& value_accepted((#[trigger] header_fields(s)[i]).1)
                &&& header_fields(s)[i].0.len() >= 1
                &&& forall|k: int|
                    0 <= k < header_fields(s)[i].0.len() ==> is_tchar(
                        #[trigger] header_fields(s)[i].0[k],
                    )
            },
    decreases s.len(),
{
    lemma_section_head_line(s);
    match section_head(s) {
        SectionHead::Line { len, name, value } => {
            lemma_section_fields(s.skip(len as int));
            let tail = header_fields(s.skip(len as int));
            assert forall|i: int| 0 <= i < header_fields(s).len() implies {
                &&& value_accepted((#[trigger] header_fields(s)[i]).1)
                &&& header_fields(s)[i].0.len() >= 1
                &&& forall|k: int|
                    0 <= k < header_fields(s)[i].0.len() ==> is_tchar(
                        #[trigger] header_fields(s)[i].0[k],
                    )
            } by {
                if i > 0 {
                    assert(header_fields(s)[i] == tail[i - 1]);
                }
            }
        },
        _ => {},
    }
}

/// The first field of `fields` whose name is longer than 65535 bytes, if
/// there is one.
pub open spec fn first_long_name(fields: Seq<(Seq<u8>, Seq<u8>)>) -> Option<int>
    decreases fields.len(),
{
    if fields.len() == 0 {
        None
    } else {
        match first_long_name(fields.drop_last()) {
            Some(i) => Some(i),
            None => if fields.last().0.len() > 65535 {
                Some(fields.len() - 1)
            } else {
                None
            },
        }
    }
}

/// Fields with names of token characters and values that the map takes are
/// admitted as they are, unless a name is too long; then the first such
/// name is the error.
proof fn lemma_admitted_but_for_length(fields: Seq<(Seq<u8>, Seq<u8>)>)
    requires
        forall|i: int|
            0 <= i < fields.len() ==> {
                &&& value_accepted((#[trigger] fields[i]).1)
                &&& fields[i].0.len() >= 1
                &&& forall|k: int|
                    0 <= k < fields[i].0.len() ==> is_tchar(
                        #[trigger] fields[i].0[k],
                    )
            },
    ensures
        match first_long_name(fields) {
            Some(i) => 0 <= i < fields.len() && admitted(fields) == Err::<
                Seq<(Seq<u8>, Seq<u8>)>,
                ParseFailure,
            >(ParseFailure { input: fields[i].0, kind: ErrorKind::Header, incomplete: false }),
            None => admitted(fields) == Ok::<Seq<(Seq<u8>, Seq<u8>)>, ParseFailure>(fields),
        },
    decreases fields.len(),
{
    if fields.len() > 0 {
        let init = fields.drop_last();
        assert forall|i: int| 0 <= i < init.len() implies {
            &&& value_accepted((#[trigger] init[i]).1)
            &&& init[i].0.len() >= 1
            &&& forall|k: int|
                0 <= k < init[i].0.len() ==> is_tchar(
                    #[trigger] init[i].0[k],
                )
        } by {
            assert(init[i] == fields[i]);
        }
        lemma_admitted_but_for_length(init);
        let last = fields.last();
        assert(last == fields[fields.len() - 1]);
        match first_long_name(init) {
            Some(i) => {
                assert(init[i] == fields[i]);
            },
            None => {
                assert(init.push(last) =~= fields);
            },
        }
    } else {
        assert(fields =~= Seq::empty());
    }
}

/// When the header stage yields: on a header section that the grammar
/// matches, it yields the fields of the section as they stand, unless the
/// name of a field is longer than 65535 bytes; then it fails for good with
/// the first such name. Where the grammar does not match, it fails as the
/// grammar says.
pub proof fn lemma_headers_stage_yields(s: Seq<u8>)
    ensures
        match header_section_scan(s) {
            Scan::Match { len } => match first_long_name(header_fields(s)) {
                Some(i) => 0 <= i < header_fields(s).len() && headers_stage(s) == Err::<
                    (Seq<(Seq<u8>, Seq<u8>)>, nat),
                    ParseFailure,
                >(
                    ParseFailure {
                        input: header_fields(s)[i].0,
                        kind: ErrorKind::Header,
                        incomplete: false,
                    },
                ),
                None => headers_stage(s) == Ok::<(Seq<(Seq<u8>, Seq<u8>)>, nat), ParseFailure>(
                    (header_fields(s), len),
                ),
            },
            scan => headers_stage(s) == Err::<(Seq<(Seq<u8>, Seq<u8>)>, nat), ParseFailure>(
                stopped(s, scan, ErrorKind::Header),
            ),
        },
{
    reveal(headers_stage);
    if header_section_scan(s) is Match {
        lemma_section_fields(s);
        lemma_admitted_but_for_length(header_fields(s));
    }
}

/// Runs the header stage on `input`.
pub fn take_headers(input: &[u8]) -> (r: Result<(HeaderMap, usize), FromUtf8Err>)
    ensures
        match headers_stage(input@) {
            Ok((h, n)) => r matches Ok((map, used)) && map@ == h && used == n && n <= input@.len(),
            Err(e) => r matches Err(err) && err@ == e,
        },
{
    proof {
        reveal(headers_stage);
    }
    let (lines, used) = match take_lines(input) {
        Ok(m) => m,
        Err(e) => {
            return Err(e.into_parse_error(ErrorKind::Header));
        },
    };
    let ghost fields = header_fields(input@);
    let mut map = HeaderMap::new();
    let mut i: usize = 0;
    assert(fields.take(0) =~= Seq::empty());
    while i < lines.len()
        invariant
            i <= lines@.len(),
            spans(lines@) == fields,
            fields == header_fields(input@),
            header_section_scan(input@) is Match,
            admitted(fields.take(i as int)) == Ok::<Seq<(Seq<u8>, Seq<u8>)>, ParseFailure>(map@),
        decreases lines@.len() - i,
    {
        let ghost head = fields.take(i + 1);
        proof {
            assert(head.drop_last() =~= fields.take(i as int));
            assert(head.last() == fields[i as int]);
            assert(fields[i as int] == (lines@[i as int].0@, lines@[i as int].1@));
        }
        match map.append(lines[i].0, lines[i].1) {
            Ok(()) => {},
            Err(e) => {
                proof {
                    reveal(headers_stage);
                    assert(admitted(head) == Err::<Seq<(Seq<u8>, Seq<u8>)>, ParseFailure>(e@));
                    lemma_admitted_stops(fields, i + 1);
                }
                return Err(e);
            },
        }
        i += 1;
    }
    assert(fields.take(i as int) =~= fields);
    Ok((map, used))
}

/// Once a beginning of the fields is refused, the fields are refused with
/// the same error.
pub proof fn lemma_admitted_stops(fields: Seq<(Seq<u8>, Seq<u8>)>, n: int)
    requires
        0 <= n <= fields.len(),
        admitted(fields.take(n)) is Err,
    ensures
        admitted(fields) == admitted(fields.take(n)),
    decreases fields.len() - n,
{
    if n == fields.len() {
        assert(fields.take(n) =~= fields);
    } else {
        assert(fields.drop_last().take(n) =~= fields.take(n));
        lemma_admitted_stops(fields.drop_last(), n);
    }
}

} // verus!
