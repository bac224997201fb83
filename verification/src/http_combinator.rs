//! The structural grammar: method, version, status code, reason phrase and
//! header field, each built from the lexical matchers.

use crate::basic_combinator::{
    begins_with, chain, count_run, field_content, field_content_scan, lemma_chain_settled,
    lemma_literal_settled, lemma_one_or_more_settled, lemma_run, lemma_run_extend,
    lemma_run_through, lemma_skip_add, lemma_starts_index, lemma_zero_or_more_settled, literal,
    literal_scan, one_or_more, run, scanned, settled, starts, take_any, take_some, taken, token,
    zero_or_more, ByteClass, GrammarCode, GrammarError, Matched, Scan, COLON,
};
use vstd::prelude::*;
use vstd::slice::slice_subrange;

verus! {

pub const DOT: u8 = 0x2e;

pub open spec fn options_token() -> Seq<u8> {
    seq!['O' as u8, 'P' as u8, 'T' as u8, 'I' as u8, 'O' as u8, 'N' as u8, 'S' as u8]
}

pub open spec fn get_token() -> Seq<u8> {
    seq!['G' as u8, 'E' as u8, 'T' as u8]
}

pub open spec fn head_token() -> Seq<u8> {
    seq!['H' as u8, 'E' as u8, 'A' as u8, 'D' as u8]
}

pub open spec fn post_token() -> Seq<u8> {
    seq!['P' as u8, 'O' as u8, 'S' as u8, 'T' as u8]
}

pub open spec fn put_token() -> Seq<u8> {
    seq!['P' as u8, 'U' as u8, 'T' as u8]
}

pub open spec fn delete_token() -> Seq<u8> {
    seq!['D' as u8, 'E' as u8, 'L' as u8, 'E' as u8, 'T' as u8, 'E' as u8]
}

pub open spec fn trace_token() -> Seq<u8> {
    seq!['T' as u8, 'R' as u8, 'A' as u8, 'C' as u8, 'E' as u8]
}

pub open spec fn connect_token() -> Seq<u8> {
    seq!['C' as u8, 'O' as u8, 'N' as u8, 'N' as u8, 'E' as u8, 'C' as u8, 'T' as u8]
}

pub open spec fn patch_token() -> Seq<u8> {
    seq!['P' as u8, 'A' as u8, 'T' as u8, 'C' as u8, 'H' as u8]
}

/// `HTTP/`
pub open spec fn version_prefix() -> Seq<u8> {
    seq!['H' as u8, 'T' as u8, 'T' as u8, 'P' as u8, '/' as u8]
}

/// Whether `s` ends inside `lit`: it is shorter and agrees with it so far.
pub open spec fn begun(lit: Seq<u8>, s: Seq<u8>) -> bool {
    s.len() < lit.len() && starts(lit, s)
}

/// One of the nine method tokens, tried in the order OPTIONS, GET, HEAD,
/// POST, PUT, DELETE, TRACE, CONNECT, PATCH; the first that stands at the
/// head of the input is taken. No other method is accepted.
pub open spec fn method_scan(s: Seq<u8>) -> Scan {
    if starts(s, options_token()) {
        Scan::Match { len: 7 }
    } else if starts(s, get_token()) {
        Scan::Match { len: 3 }
    } else if starts(s, head_token()) {
        Scan::Match { len: 4 }
    } else if starts(s, post_token()) {
        Scan::Match { len: 4 }
    } else if starts(s, put_token()) {
        Scan::Match { len: 3 }
    } else if starts(s, delete_token()) {
        Scan::Match { len: 6 }
    } else if starts(s, trace_token()) {
        Scan::Match { len: 5 }
    } else if starts(s, connect_token()) {
        Scan::Match { len: 7 }
    } else if starts(s, patch_token()) {
        Scan::Match { len: 5 }
    } else {
        Scan::Fail {
            at: 0,
            short: begun(options_token(), s) || begun(get_token(), s) || begun(head_token(), s)
                || begun(post_token(), s) || begun(put_token(), s) || begun(delete_token(), s)
                || begun(trace_token(), s) || begun(connect_token(), s) || begun(
                patch_token(),
                s,
            ),
        }
    }
}

/// `HTTP/`, one or more digits, a dot, one or more digits. Any pair of
/// numbers is accepted here.
pub open spec fn http_version_scan(s: Seq<u8>) -> Scan {
    let prefix = literal_scan(s, version_prefix());
    let major = chain(prefix, one_or_more(s.skip(prefix.end() as int), ByteClass::Digit));
    let dot = chain(major, literal_scan(s.skip(major.end() as int), seq![DOT]));
    chain(dot, one_or_more(s.skip(dot.end() as int), ByteClass::Digit))
}

/// Exactly three digits. The rule stops at the first of the three bytes
/// that is no digit, or where the input ends before the third.
pub open spec fn status_code_scan(s: Seq<u8>) -> Scan {
    let digits = run(s, ByteClass::Digit);
    if digits >= 3 {
        Scan::Match { len: 3 }
    } else {
        Scan::Fail { at: digits, short: digits == s.len() }
    }
}

/// The number of bytes that the field-content blocks at the head of `s` take.
pub open spec fn field_value_len(s: Seq<u8>) -> nat
    decreases s.len(),
{
    match field_content_scan(s) {
        Scan::Match { len } => if 0 < len <= s.len() {
            len + field_value_len(s.skip(len as int))
        } else {
            0
        },
        Scan::Fail { .. } => 0,
    }
}

/// The four parts of a header line after the name's colon is set aside: how
/// long the name is, the blanks after the colon, the value, and the blanks
/// after the value.
pub struct LineParts {
    pub name: nat,
    pub gap: nat,
    pub value: nat,
    pub trail: nat,
}

impl LineParts {
    /// Where the value begins.
    pub open spec fn value_start(self) -> nat {
        self.name + 1 + self.gap
    }

    /// The length of the whole line.
    pub open spec fn total(self) -> nat {
        self.name + 1 + self.gap + self.value + self.trail
    }
}

/// How a header line at the head of `s` divides, where there is one.
pub open spec fn line_parts(s: Seq<u8>) -> LineParts {
    let name = run(s, ByteClass::Tchar);
    let gap = run(s.skip((name + 1) as int), ByteClass::Blank);
    let value = field_value_len(s.skip((name + 1 + gap) as int));
    let trail = run(s.skip((name + 1 + gap + value) as int), ByteClass::Blank);
    LineParts { name, gap, value, trail }
}

/// A field value with the blanks that follow it.
pub open spec fn padded_value_scan(s: Seq<u8>) -> Scan {
    Scan::Match {
        len: field_value_len(s) + run(s.skip(field_value_len(s) as int), ByteClass::Blank),
    }
}

/// A header line: a token, a colon, optional blanks, the value, optional blanks.
pub open spec fn header_line_scan(s: Seq<u8>) -> Scan {
    let name = one_or_more(s, ByteClass::Tchar);
    let colon = chain(name, literal_scan(s.skip(name.end() as int), seq![COLON]));
    let gap = chain(colon, zero_or_more(s.skip(colon.end() as int), ByteClass::Blank));
    chain(gap, padded_value_scan(s.skip(gap.end() as int)))
}

/// The name of the header line at the head of `s`.
pub open spec fn header_line_name(s: Seq<u8>) -> Seq<u8> {
    s.take(line_parts(s).name as int)
}

/// The value of the header line at the head of `s`, without the blanks
/// around it.
pub open spec fn header_line_value(s: Seq<u8>) -> Seq<u8> {
    let parts = line_parts(s);
    s.subrange(parts.value_start() as int, (parts.value_start() + parts.value) as int)
}

pub proof fn lemma_field_value_fits(s: Seq<u8>)
    ensures
        field_value_len(s) <= s.len(),
    decreases s.len(),
{
    match field_content_scan(s) {
        Scan::Match { len } => {
            if 0 < len <= s.len() {
                lemma_field_value_fits(s.skip(len as int));
            }
        },
        Scan::Fail { .. } => {},
    }
}

/// A header line's parts lie inside the input, one after the other.
pub proof fn lemma_line_parts_fit(s: Seq<u8>)
    requires
        header_line_scan(s) is Match,
    ensures
        header_line_scan(s) == (Scan::Match { len: line_parts(s).total() }),
        line_parts(s).total() <= s.len(),
        0 < line_parts(s).name < s.len(),
        s[line_parts(s).name as int] == COLON,
{
    let parts = line_parts(s);
    lemma_run(s, ByteClass::Tchar);
    let name = one_or_more(s, ByteClass::Tchar);
    let after_name = s.skip(parts.name as int);
    let colon = chain(name, literal_scan(after_name, seq![COLON]));
    assert(colon is Match);
    assert(after_name.len() >= 1 && after_name[0] == COLON) by {
        assert(starts(after_name, seq![COLON]));
        assert(after_name.take(1)[0] == after_name[0]);
    }
    let after_gap = s.skip((parts.name + 1 + parts.gap) as int);
    lemma_run(s.skip((parts.name + 1) as int), ByteClass::Blank);
    lemma_field_value_fits(after_gap);
    assert(after_gap.skip(parts.value as int) =~= s.skip(
        (parts.name + 1 + parts.gap + parts.value) as int,
    ));
    lemma_run(s.skip((parts.name + 1 + parts.gap + parts.value) as int), ByteClass::Blank);
}

/// Whether `lit` neither stands at the head of `s` nor could come to stand
/// there when more bytes follow: `s` has left it.
pub open spec fn ruled_out(lit: Seq<u8>, s: Seq<u8>) -> bool {
    !starts(s, lit) && !begun(lit, s)
}

/// A token that the input has left stays left, whatever follows.
pub proof fn lemma_ruled_out_stays(lit: Seq<u8>, s: Seq<u8>, more: Seq<u8>)
    requires
        ruled_out(lit, s),
    ensures
        ruled_out(lit, s + more),
{
    lemma_literal_settled(s, more, lit);
    if s.len() == 0 {
        assert(lit.take(0) =~= s);
        assert(s.take(0) =~= s);
    }
}

/// Two different tokens of which neither begins the other cannot both stand
/// at the head of an input; `i` is a place where they differ.
proof fn lemma_tokens_apart(a: Seq<u8>, b: Seq<u8>, i: int, s: Seq<u8>, t: Seq<u8>)
    requires
        0 <= i < a.len(),
        i < b.len(),
        a[i] != b[i],
        starts(s, a),
        s.len() > i ==> t.len() > i && t[i] == s[i],
    ensures
        !starts(t, b),
{
    lemma_starts_index(s, a, i);
    if starts(t, b) {
        lemma_starts_index(t, b, i);
    }
}

/// The method rule is settled: a method once read stays read, and an input
/// that names no method never will.
pub proof fn lemma_method_settled(s: Seq<u8>, more: Seq<u8>)
    ensures
        settled(method_scan(s), method_scan(s + more), s.len()),
        method_scan(s) is Match ==> method_scan(s + more) == method_scan(s),
{
    let t = s + more;
    let o = options_token();
    let g = get_token();
    let h = head_token();
    let po = post_token();
    let pu = put_token();
    let d = delete_token();
    let tr = trace_token();
    let c = connect_token();
    let pa = patch_token();
    lemma_literal_settled(s, more, o);
    lemma_literal_settled(s, more, g);
    lemma_literal_settled(s, more, h);
    lemma_literal_settled(s, more, po);
    lemma_literal_settled(s, more, pu);
    lemma_literal_settled(s, more, d);
    lemma_literal_settled(s, more, tr);
    lemma_literal_settled(s, more, c);
    lemma_literal_settled(s, more, pa);
    assert forall|i: int| 0 <= i < s.len() implies t[i] == s[i] by {}
    if method_scan(s) is Match {
        // The token that stands at the head of `s` differs from each of the
        // others in its first or second byte.
        if starts(s, g) {
            lemma_tokens_apart(g, o, 0, s, t);
        } else if starts(s, h) {
            lemma_tokens_apart(h, o, 0, s, t);
            lemma_tokens_apart(h, g, 0, s, t);
        } else if starts(s, po) {
            lemma_tokens_apart(po, o, 0, s, t);
            lemma_tokens_apart(po, g, 0, s, t);
            lemma_tokens_apart(po, h, 0, s, t);
        } else if starts(s, pu) {
            lemma_tokens_apart(pu, o, 0, s, t);
            lemma_tokens_apart(pu, g, 0, s, t);
            lemma_tokens_apart(pu, h, 0, s, t);
            lemma_tokens_apart(pu, po, 1, s, t);
        } else if starts(s, d) {
            lemma_tokens_apart(d, o, 0, s, t);
            lemma_tokens_apart(d, g, 0, s, t);
            lemma_tokens_apart(d, h, 0, s, t);
            lemma_tokens_apart(d, po, 0, s, t);
            lemma_tokens_apart(d, pu, 0, s, t);
        } else if starts(s, tr) {
            lemma_tokens_apart(tr, o, 0, s, t);
            lemma_tokens_apart(tr, g, 0, s, t);
            lemma_tokens_apart(tr, h, 0, s, t);
            lemma_tokens_apart(tr, po, 0, s, t);
            lemma_tokens_apart(tr, pu, 0, s, t);
            lemma_tokens_apart(tr, d, 0, s, t);
        } else if starts(s, c) {
            lemma_tokens_apart(c, o, 0, s, t);
            lemma_tokens_apart(c, g, 0, s, t);
            lemma_tokens_apart(c, h, 0, s, t);
            lemma_tokens_apart(c, po, 0, s, t);
            lemma_tokens_apart(c, pu, 0, s, t);
            lemma_tokens_apart(c, d, 0, s, t);
            lemma_tokens_apart(c, tr, 0, s, t);
        } else if starts(s, pa) {
            lemma_tokens_apart(pa, o, 0, s, t);
            lemma_tokens_apart(pa, g, 0, s, t);
            lemma_tokens_apart(pa, h, 0, s, t);
            lemma_tokens_apart(pa, po, 1, s, t);
            lemma_tokens_apart(pa, pu, 1, s, t);
            lemma_tokens_apart(pa, d, 0, s, t);
            lemma_tokens_apart(pa, tr, 0, s, t);
            lemma_tokens_apart(pa, c, 0, s, t);
        }
    } else if !method_scan(s)->short {
        lemma_ruled_out_stays(o, s, more);
        lemma_ruled_out_stays(g, s, more);
        lemma_ruled_out_stays(h, s, more);
        lemma_ruled_out_stays(po, s, more);
        lemma_ruled_out_stays(pu, s, more);
        lemma_ruled_out_stays(d, s, more);
        lemma_ruled_out_stays(tr, s, more);
        lemma_ruled_out_stays(c, s, more);
        lemma_ruled_out_stays(pa, s, more);
        if s.len() == 0 {
            assert(g.take(0) =~= s);
        }
    }
}

/// The version rule is settled.
pub proof fn lemma_http_version_settled(s: Seq<u8>, more: Seq<u8>)
    ensures
        settled(http_version_scan(s), http_version_scan(s + more), s.len()),
{
    let t = s + more;
    let len = s.len();
    let prefix = literal_scan(s, version_prefix());
    let prefix_t = literal_scan(t, version_prefix());
    lemma_literal_settled(s, more, version_prefix());
    let second = one_or_more(s.skip(prefix.end() as int), ByteClass::Digit);
    let second_t = one_or_more(t.skip(prefix_t.end() as int), ByteClass::Digit);
    if prefix is Match {
        lemma_skip_add(s, more, prefix.end());
        lemma_one_or_more_settled(s.skip(prefix.end() as int), more, ByteClass::Digit);
    }
    lemma_chain_settled(prefix, prefix_t, second, second_t, len);
    let major = chain(prefix, second);
    let major_t = chain(prefix_t, second_t);
    let third = literal_scan(s.skip(major.end() as int), seq![DOT]);
    let third_t = literal_scan(t.skip(major_t.end() as int), seq![DOT]);
    if major is Match {
        if major.end() < len {
            lemma_skip_add(s, more, major.end());
        }
        lemma_literal_settled(s.skip(major.end() as int), more, seq![DOT]);
        if major.end() == len {
            assert(seq![DOT].take(0) =~= s.skip(major.end() as int));
        }
    }
    lemma_chain_settled(major, major_t, third, third_t, len);
    let dot = chain(major, third);
    let dot_t = chain(major_t, third_t);
    let fourth = one_or_more(s.skip(dot.end() as int), ByteClass::Digit);
    let fourth_t = one_or_more(t.skip(dot_t.end() as int), ByteClass::Digit);
    if dot is Match {
        if dot.end() < len {
            lemma_skip_add(s, more, dot.end());
        }
        lemma_one_or_more_settled(s.skip(dot.end() as int), more, ByteClass::Digit);
    }
    lemma_chain_settled(dot, dot_t, fourth, fourth_t, len);
}

/// The status code rule is settled; three digits once read stay read.
pub proof fn lemma_status_code_settled(s: Seq<u8>, more: Seq<u8>)
    ensures
        settled(status_code_scan(s), status_code_scan(s + more), s.len()),
        status_code_scan(s) is Match ==> status_code_scan(s + more) == status_code_scan(s),
{
    lemma_run(s, ByteClass::Digit);
    if run(s, ByteClass::Digit) < s.len() {
        lemma_run_extend(s, more, ByteClass::Digit);
    } else {
        lemma_run_through(s, more, ByteClass::Digit);
    }
}

/// A field value is not changed by bytes that follow, where a byte that is
/// no blank stands between it and the end of the input.
pub proof fn lemma_field_value_settled(s: Seq<u8>, more: Seq<u8>)
    requires
        field_value_len(s) + run(s.skip(field_value_len(s) as int), ByteClass::Blank) < s.len(),
    ensures
        field_value_len(s + more) == field_value_len(s),
    decreases s.len(),
{
    let t = s + more;
    let v = field_value_len(s);
    assert(t[0] == s[0]);
    lemma_field_value_fits(s);
    match field_content_scan(s) {
        Scan::Fail { .. } => {
            assert(s.skip(0) =~= s);
        },
        Scan::Match { len: n } => {
            let gap = run(s.skip(1), ByteClass::Blank);
            lemma_run(s.skip(1), ByteClass::Blank);
            lemma_skip_add(s, more, 1);
            if 1 + gap < s.len() {
                lemma_run_extend(s.skip(1), more, ByteClass::Blank);
                assert(t[(1 + gap) as int] == s[(1 + gap) as int]);
            } else {
                // The block's blanks reach the end of the input, so the value
                // is one byte and nothing but blanks follows it.
                let tail = s.skip(1);
                if gap > 0 {
                    assert(ByteClass::Blank.has(tail[0]));
                    assert(field_content_scan(tail) is Fail);
                }
                assert(field_value_len(tail) == 0);
                assert(false);
            }
            assert(field_content_scan(t) == Scan::Match { len: n });
            let rest = s.skip(n as int);
            assert(rest.skip((v - n) as int) =~= s.skip(v as int));
            lemma_skip_add(s, more, n);
            lemma_field_value_settled(rest, more);
        },
    }
}

/// A field value with its blanks is settled.
pub proof fn lemma_padded_value_settled(s: Seq<u8>, more: Seq<u8>)
    ensures
        settled(padded_value_scan(s), padded_value_scan(s + more), s.len()),
{
    let v = field_value_len(s);
    lemma_field_value_fits(s);
    lemma_run(s.skip(v as int), ByteClass::Blank);
    if v + run(s.skip(v as int), ByteClass::Blank) < s.len() {
        lemma_field_value_settled(s, more);
        lemma_skip_add(s, more, v);
        lemma_run_extend(s.skip(v as int), more, ByteClass::Blank);
    }
}

/// The header line rule is settled, and a line that ends before the input
/// does keeps its name and its value.
pub proof fn lemma_header_line_settled(s: Seq<u8>, more: Seq<u8>)
    ensures
        settled(header_line_scan(s), header_line_scan(s + more), s.len()),
        header_line_scan(s) matches Scan::Match { len } && len < s.len() ==> header_line_name(
            s + more,
        ) == header_line_name(s) && header_line_value(s + more) == header_line_value(s),
{
    let t = s + more;
    let len = s.len();
    let name = one_or_more(s, ByteClass::Tchar);
    let name_t = one_or_more(t, ByteClass::Tchar);
    lemma_one_or_more_settled(s, more, ByteClass::Tchar);
    let second = literal_scan(s.skip(name.end() as int), seq![COLON]);
    let second_t = literal_scan(t.skip(name_t.end() as int), seq![COLON]);
    if name is Match {
        if name.end() < len {
            lemma_skip_add(s, more, name.end());
        }
        lemma_literal_settled(s.skip(name.end() as int), more, seq![COLON]);
        if name.end() == len {
            assert(seq![COLON].take(0) =~= s.skip(name.end() as int));
        }
    }
    lemma_chain_settled(name, name_t, second, second_t, len);
    let colon = chain(name, second);
    let colon_t = chain(name_t, second_t);
    let third = zero_or_more(s.skip(colon.end() as int), ByteClass::Blank);
    let third_t = zero_or_more(t.skip(colon_t.end() as int), ByteClass::Blank);
    if colon is Match {
        lemma_line_colon_fits(s);
        if colon.end() < len {
            lemma_skip_add(s, more, colon.end());
        }
        lemma_zero_or_more_settled(s.skip(colon.end() as int), more, ByteClass::Blank);
    }
    lemma_chain_settled(colon, colon_t, third, third_t, len);
    let gap = chain(colon, third);
    let gap_t = chain(colon_t, third_t);
    let fourth = padded_value_scan(s.skip(gap.end() as int));
    let fourth_t = padded_value_scan(t.skip(gap_t.end() as int));
    if gap is Match {
        if gap.end() < len {
            lemma_skip_add(s, more, gap.end());
        }
        lemma_padded_value_settled(s.skip(gap.end() as int), more);
    }
    lemma_chain_settled(gap, gap_t, fourth, fourth_t, len);
    if header_line_scan(s) matches Scan::Match { len: n } && n < len {
        lemma_line_parts_fit(s);
        let parts = line_parts(s);
        let at_value = s.skip(parts.value_start() as int);
        assert(at_value.skip(parts.value as int) =~= s.skip(
            (parts.value_start() + parts.value) as int,
        ));
        lemma_run_extend(s, more, ByteClass::Tchar);
        lemma_skip_add(s, more, parts.name + 1);
        lemma_run_extend(s.skip((parts.name + 1) as int), more, ByteClass::Blank);
        lemma_skip_add(s, more, parts.value_start());
        lemma_field_value_settled(at_value, more);
        lemma_skip_add(s, more, parts.value_start() + parts.value);
        lemma_run_extend(
            s.skip((parts.value_start() + parts.value) as int),
            more,
            ByteClass::Blank,
        );
        assert(line_parts(t) == parts);
        assert(header_line_name(t) =~= header_line_name(s));
        assert(header_line_value(t) =~= header_line_value(s));
    }
}

/// The colon of a header line lies inside the input.
proof fn lemma_line_colon_fits(s: Seq<u8>)
    requires
        chain(
            one_or_more(s, ByteClass::Tchar),
            literal_scan(s.skip(one_or_more(s, ByteClass::Tchar).end() as int), seq![COLON]),
        ) is Match,
    ensures
        run(s, ByteClass::Tchar) + 1 <= s.len(),
{
    lemma_run(s, ByteClass::Tchar);
}

fn has_method<'a>(input: &'a [u8], name: &[u8]) -> (r: Option<Matched<'a>>)
    ensures
        r is Some == starts(input@, name@),
        r matches Some(m) ==> scanned(
            input@,
            m,
            Scan::Match { len: name@.len() },
            GrammarCode::Method,
        ),
{
    match literal(input, name) {
        Ok(m) => Some(Ok(m)),
        Err(_) => None,
    }
}

fn method_begun(input: &[u8], name: &[u8]) -> (r: bool)
    ensures
        r == begun(name@, input@),
{
    input.len() < name.len() && begins_with(name, input)
}

pub fn method<'a>(input: &'a [u8]) -> (r: Matched<'a>)
    ensures
        scanned(input@, r, method_scan(input@), GrammarCode::Method),
{
    let options: [u8; 7] = [
        'O' as u8,
        'P' as u8,
        'T' as u8,
        'I' as u8,
        'O' as u8,
        'N' as u8,
        'S' as u8,
    ];
    let get: [u8; 3] = ['G' as u8, 'E' as u8, 'T' as u8];
    let head: [u8; 4] = ['H' as u8, 'E' as u8, 'A' as u8, 'D' as u8];
    let post: [u8; 4] = ['P' as u8, 'O' as u8, 'S' as u8, 'T' as u8];
    let put: [u8; 3] = ['P' as u8, 'U' as u8, 'T' as u8];
    let delete: [u8; 6] = ['D' as u8, 'E' as u8, 'L' as u8, 'E' as u8, 'T' as u8, 'E' as u8];
    let trace: [u8; 5] = ['T' as u8, 'R' as u8, 'A' as u8, 'C' as u8, 'E' as u8];
    let connect: [u8; 7] = [
        'C' as u8,
        'O' as u8,
        'N' as u8,
        'N' as u8,
        'E' as u8,
        'C' as u8,
        'T' as u8,
    ];
    let patch: [u8; 5] = ['P' as u8, 'A' as u8, 'T' as u8, 'C' as u8, 'H' as u8];
    proof {
        assert(options@ =~= options_token());
        assert(get@ =~= get_token());
        assert(head@ =~= head_token());
        assert(post@ =~= post_token());
        assert(put@ =~= put_token());
        assert(delete@ =~= delete_token());
        assert(trace@ =~= trace_token());
        assert(connect@ =~= connect_token());
        assert(patch@ =~= patch_token());
    }
    if let Some(m) = has_method(input, options.as_slice()) {
        return m;
    }
    if let Some(m) = has_method(input, get.as_slice()) {
        return m;
    }
    if let Some(m) = has_method(input, head.as_slice()) {
        return m;
    }
    if let Some(m) = has_method(input, post.as_slice()) {
        return m;
    }
    if let Some(m) = has_method(input, put.as_slice()) {
        return m;
    }
    if let Some(m) = has_method(input, delete.as_slice()) {
        return m;
    }
    if let Some(m) = has_method(input, trace.as_slice()) {
        return m;
    }
    if let Some(m) = has_method(input, connect.as_slice()) {
        return m;
    }
    if let Some(m) = has_method(input, patch.as_slice()) {
        return m;
    }
    let short = method_begun(input, options.as_slice()) || method_begun(input, get.as_slice())
        || method_begun(input, head.as_slice()) || method_begun(input, post.as_slice())
        || method_begun(input, put.as_slice()) || method_begun(input, delete.as_slice())
        || method_begun(input, trace.as_slice()) || method_begun(input, connect.as_slice())
        || method_begun(input, patch.as_slice());
    let rest = slice_subrange(input, 0, input.len());
    assert(rest@ =~= input@.skip((0) as int));
    Err(GrammarError { input: rest, code: GrammarCode::Method, incomplete: short })
}

/// Gives a failure of a rule's part the rule's own code.
fn recode<'a>(e: GrammarError<'a>, code: GrammarCode) -> (r: GrammarError<'a>)
    ensures
        r.input == e.input,
        r.incomplete == e.incomplete,
        r.code == code,
{
    GrammarError { input: e.input, code, incomplete: e.incomplete }
}

/// The first `input.len() - rest.len()` bytes of `input`, where `rest` is
/// what a chain of matchers left of it.
fn consumed<'a>(input: &'a [u8], rest: &'a [u8], Ghost(n): Ghost<nat>) -> (r: Matched<'a>)
    requires
        n <= input@.len(),
        rest@ == input@.skip(n as int),
    ensures
        r matches Ok((out_rest, found)) && out_rest == rest && found@ == input@.take(n as int),
{
    let len: usize = input.len() - rest.len();
    let found = slice_subrange(input, 0, len);
    assert(found@ =~= input@.take(n as int));
    Ok((rest, found))
}

pub fn http_version<'a>(input: &'a [u8]) -> (r: Matched<'a>)
    ensures
        scanned(input@, r, http_version_scan(input@), GrammarCode::HttpVersion),
{
    let prefix: [u8; 5] = ['H' as u8, 'T' as u8, 'T' as u8, 'P' as u8, '/' as u8];
    let dot: [u8; 1] = [DOT];
    proof {
        assert(prefix@ =~= version_prefix());
        assert(dot@ =~= seq![DOT]);
    }
    let after_prefix = match literal(input, prefix.as_slice()) {
        Ok((rest, _)) => rest,
        Err(e) => {
            return Err(recode(e, GrammarCode::HttpVersion));
        },
    };
    let ghost a = run(after_prefix@, ByteClass::Digit);
    let after_major = match take_some(after_prefix, ByteClass::Digit, GrammarCode::HttpVersion) {
        Ok((rest, _)) => rest,
        Err(e) => {
            assert(e.input@ =~= input@.skip((5) as int));
            return Err(e);
        },
    };
    assert(after_major@ =~= input@.skip((5 + a) as int));
    let after_dot = match literal(after_major, dot.as_slice()) {
        Ok((rest, _)) => rest,
        Err(e) => {
            assert(e.input@ =~= input@.skip((5 + a) as int));
            return Err(recode(e, GrammarCode::HttpVersion));
        },
    };
    assert(after_dot@ =~= input@.skip((6 + a) as int));
    let ghost b = run(after_dot@, ByteClass::Digit);
    match take_some(after_dot, ByteClass::Digit, GrammarCode::HttpVersion) {
        Ok((rest, _)) => {
            assert(rest@ =~= input@.skip((6 + a + b) as int));
            consumed(input, rest, Ghost(6 + a + b))
        },
        Err(e) => {
            assert(e.input@ =~= input@.skip((6 + a) as int));
            Err(e)
        },
    }
}

pub fn status_code<'a>(input: &'a [u8]) -> (r: Matched<'a>)
    ensures
        scanned(input@, r, status_code_scan(input@), GrammarCode::StatusCode),
{
    let digits = count_run(input, ByteClass::Digit);
    if digits >= 3 {
        let found = slice_subrange(input, 0, 3);
        let rest = slice_subrange(input, 3, input.len());
        assert(found@ =~= input@.take(3));
        assert(rest@ =~= input@.skip((3) as int));
        Ok((rest, found))
    } else {
        let rest = slice_subrange(input, digits, input.len());
        assert(rest@ =~= input@.skip(digits as int));
        Err(
            GrammarError {
                input: rest,
                code: GrammarCode::StatusCode,
                incomplete: digits == input.len(),
            },
        )
    }
}

pub fn reason_phrase<'a>(input: &'a [u8]) -> (r: Matched<'a>)
    ensures
        taken(input@, r, run(input@, ByteClass::Reason)),
{
    take_any(input, ByteClass::Reason)
}

pub fn field_name<'a>(input: &'a [u8]) -> (r: Matched<'a>)
    ensures
        scanned(input@, r, one_or_more(input@, ByteClass::Tchar), GrammarCode::Token),
{
    token(input)
}

pub fn field_value<'a>(input: &'a [u8]) -> (r: Matched<'a>)
    ensures
        taken(input@, r, field_value_len(input@)),
{
    let mut rest = input;
    let ghost mut n: nat = 0;
    assert(input@.skip(0) =~= input@);
    loop
        invariant
            n <= input@.len(),
            rest@ == input@.skip(n as int),
            field_value_len(input@) == n + field_value_len(rest@),
        ensures
            n <= input@.len(),
            rest@ == input@.skip(n as int),
            field_value_len(input@) == n,
        decreases rest@.len(),
    {
        match field_content(rest) {
            Ok((after, found)) => {
                proof {
                    let len = found@.len();
                    assert(field_content_scan(rest@) == Scan::Match { len });
                    assert(0 < len <= rest@.len());
                    assert(after@ =~= input@.skip((n + len) as int));
                    n = n + len;
                }
                rest = after;
            },
            Err(_) => {
                break ;
            },
        }
    }
    consumed(input, rest, Ghost(n))
}

pub fn ows<'a>(input: &'a [u8]) -> (r: Matched<'a>)
    ensures
        taken(input@, r, run(input@, ByteClass::Blank)),
{
    take_any(input, ByteClass::Blank)
}

/// Matches one header line and hands back the remainder with the name and
/// the value, the blanks around the value left out.
pub fn header_line<'a>(input: &'a [u8]) -> (r: Result<
    (&'a [u8], (&'a [u8], &'a [u8])),
    GrammarError<'a>,
>)
    ensures
        match header_line_scan(input@) {
            Scan::Match { len } => {
                &&& len <= input@.len()
                &&& r matches Ok((rest, (name, value)))
                &&& rest@ == input@.skip(len as int)
                &&& name@ == header_line_name(input@)
                &&& value@ == header_line_value(input@)
            },
            Scan::Fail { at, short } => {
                &&& at <= input@.len()
                &&& r matches Err(e)
                &&& e.input@ == input@.skip(at as int)
                &&& e.code == GrammarCode::HeaderLine
                &&& e.incomplete == short
            },
        },
{
    let colon: [u8; 1] = [COLON];
    assert(colon@ =~= seq![COLON]);
    let ghost parts = line_parts(input@);
    let (after_name, name) = match field_name(input) {
        Ok(m) => m,
        Err(e) => {
            return Err(recode(e, GrammarCode::HeaderLine));
        },
    };
    let after_colon = match literal(after_name, colon.as_slice()) {
        Ok((rest, _)) => rest,
        Err(e) => {
            return Err(recode(e, GrammarCode::HeaderLine));
        },
    };
    assert(after_colon@ =~= input@.skip((parts.name + 1) as int));
    let after_gap = match ows(after_colon) {
        Ok((rest, _)) => rest,
        Err(e) => {
            return Err(recode(e, GrammarCode::HeaderLine));
        },
    };
    assert(after_gap@ =~= input@.skip((parts.name + 1 + parts.gap) as int));
    let (after_value, value) = match field_value(after_gap) {
        Ok(m) => m,
        Err(e) => {
            return Err(recode(e, GrammarCode::HeaderLine));
        },
    };
    assert(after_value@ =~= input@.skip((parts.name + 1 + parts.gap + parts.value) as int));
    assert(value@ =~= header_line_value(input@));
    match ows(after_value) {
        Ok((rest, _)) => {
            assert(rest@ =~= input@.skip(parts.total() as int));
            Ok((rest, (name, value)))
        },
        Err(e) => Err(recode(e, GrammarCode::HeaderLine)),
    }
}

} // verus!
