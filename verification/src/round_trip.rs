//! What each stage reads back from the bytes that the encoder writes.

use crate::basic_combinator::{
    chain, field_content_scan, is_digit, lemma_run, lemma_run_extend, lemma_run_is, lemma_skip_add,
    lemma_starts_index, literal_scan, one_or_more, run, starts, ByteClass, Scan, COLON, CR, LF, SP,
};
use crate::error::ParseFailure;
use crate::http_combinator::{
    connect_token, delete_token, field_value_len, get_token, head_token, header_line_name,
    header_line_scan, header_line_value, http_version_scan, lemma_field_value_fits,
    lemma_method_settled, line_parts, method_scan, options_token, padded_value_scan, patch_token,
    post_token, put_token, trace_token, version_prefix, DOT,
};
use crate::http_elements::{
    code_digits, field_wire, fields_accepted, headers_wire, is_request_target, lemma_method_named,
    lemma_version_named, name_accepted, three_digit_code, value_accepted, Method, Version,
};
use crate::stage::{
    admitted, crlf, field_line_scan, header_fields, header_section_scan, headers_stage,
    section_head, SectionHead,
    lemma_field_value_bytes, method_stage, space, status_stage, target_stage, version_stage,
};
use vstd::prelude::*;

verus! {

/// Whether `v` is a field value from end to end: the field-content blocks at
/// its head take all of it. Such a value neither begins nor ends with a
/// blank, and no word of a single byte stands between two runs of blanks.
pub open spec fn is_field_value(v: Seq<u8>) -> bool {
    field_value_len(v) == v.len()
}

/// Whether every field of `h` is written as the decoder reads it back: a
/// name that the header map takes, and a value that is a field value from
/// end to end.
pub open spec fn canonical_fields(h: Seq<(Seq<u8>, Seq<u8>)>) -> bool {
    forall|i: int|
        0 <= i < h.len() ==> name_accepted((#[trigger] h[i]).0) && is_field_value(h[i].1)
}

/// Each method's token is read as that method, whatever follows it.
pub proof fn lemma_method_scan_token(m: Method, tail: Seq<u8>)
    ensures
        method_scan(m.token() + tail) == (Scan::Match { len: m.token().len() }),
{
    let t = m.token();
    assert(t.take(t.len() as int) =~= t);
    assert(starts(t, t));
    let o = options_token();
    let g = get_token();
    let h = head_token();
    let po = post_token();
    let pu = put_token();
    let d = delete_token();
    let tr = trace_token();
    let c = connect_token();
    let pa = patch_token();
    // No token stands at the head of another: they differ in length or in
    // one of their first two bytes.
    assert(!starts(t, o) || t == o) by {
        if starts(t, o) {
            lemma_starts_index(t, o, 0);
        }
    }
    assert(!starts(t, g) || t == g) by {
        if starts(t, g) {
            lemma_starts_index(t, g, 0);
        }
    }
    assert(!starts(t, h) || t == h) by {
        if starts(t, h) {
            lemma_starts_index(t, h, 0);
        }
    }
    assert(!starts(t, po) || t == po) by {
        if starts(t, po) {
            lemma_starts_index(t, po, 0);
            lemma_starts_index(t, po, 1);
        }
    }
    assert(!starts(t, pu) || t == pu) by {
        if starts(t, pu) {
            lemma_starts_index(t, pu, 0);
            lemma_starts_index(t, pu, 1);
        }
    }
    assert(!starts(t, d) || t == d) by {
        if starts(t, d) {
            lemma_starts_index(t, d, 0);
        }
    }
    assert(!starts(t, tr) || t == tr) by {
        if starts(t, tr) {
            lemma_starts_index(t, tr, 0);
        }
    }
    assert(!starts(t, c) || t == c) by {
        if starts(t, c) {
            lemma_starts_index(t, c, 0);
        }
    }
    assert(!starts(t, pa) || t == pa) by {
        if starts(t, pa) {
            lemma_starts_index(t, pa, 0);
            lemma_starts_index(t, pa, 1);
        }
    }
    assert(o[0] != c[0] && po[1] != pu[1] && po[1] != pa[1] && pu[1] != pa[1]);
    assert(method_scan(t) == Scan::Match { len: t.len() });
    lemma_method_settled(t, tail);
}

/// The method stage reads a method back from its token and a space.
pub proof fn lemma_method_stage_reads(m: Method, tail: Seq<u8>)
    ensures
        method_stage(m.token() + space() + tail) == Ok::<(Method, nat), ParseFailure>(
            (m, m.token().len() + 1),
        ),
        (m.token() + space() + tail).skip((m.token().len() + 1) as int) == tail,
{
    reveal(method_stage);
    let t = m.token();
    let s = t + space() + tail;
    assert(s =~= t + (space() + tail));
    lemma_method_scan_token(m, space() + tail);
    let after = s.skip(t.len() as int);
    assert(after =~= space() + tail);
    assert(after.take(1) =~= space());
    assert(s.take(t.len() as int) =~= t);
    lemma_method_named(m);
    assert(s.skip((t.len() + 1) as int) =~= tail);
}

/// The target stage reads a request target back from its text and a space.
pub proof fn lemma_target_stage_reads(target: Seq<u8>, tail: Seq<u8>)
    requires
        is_request_target(target),
    ensures
        target_stage(target + space() + tail) == Ok::<(Seq<u8>, nat), ParseFailure>(
            (target, target.len() + 1),
        ),
        (target + space() + tail).skip((target.len() + 1) as int) == tail,
{
    reveal(target_stage);
    let s = target + space() + tail;
    let n = target.len();
    assert forall|i: int| 0 <= i < n implies ByteClass::NotSpace.has(#[trigger] s[i]) by {
        assert(s[i] == target[i]);
    }
    assert(s[n as int] == SP);
    lemma_run_is(s, ByteClass::NotSpace, n);
    let after = s.skip(n as int);
    assert(after.take(1) =~= space());
    assert(s.take(n as int) =~= target);
    assert(s.skip((n + 1) as int) =~= tail);
}

/// The version rule reads a version's token, where a byte that is no digit
/// follows it.
pub proof fn lemma_version_scan_token(v: Version, tail: Seq<u8>)
    requires
        tail.len() > 0,
        !is_digit(tail[0]),
    ensures
        http_version_scan(v.token() + tail) == (Scan::Match { len: 8 }),
{
    let t = v.token();
    let s = t + tail;
    assert(t.len() == 8);
    assert(s.take(5) =~= version_prefix());
    let prefix = literal_scan(s, version_prefix());
    assert(prefix == Scan::Match { len: 5 });
    let at_major = s.skip(5);
    assert(is_digit(at_major[0]) && at_major[1] == DOT) by {
        assert(at_major[0] == t[5] && at_major[1] == t[6]);
    }
    lemma_run_is(at_major, ByteClass::Digit, 1);
    let major = chain(prefix, one_or_more(at_major, ByteClass::Digit));
    assert(major == Scan::Match { len: 6 });
    let at_dot = s.skip(6);
    assert(at_dot.take(1) =~= seq![DOT]) by {
        assert(at_dot[0] == t[6]);
    }
    let dot = chain(major, literal_scan(at_dot, seq![DOT]));
    assert(dot == Scan::Match { len: 7 });
    let at_minor = s.skip(7);
    assert(is_digit(at_minor[0]) && at_minor[1] == tail[0]) by {
        assert(at_minor[0] == t[7]);
    }
    lemma_run_is(at_minor, ByteClass::Digit, 1);
}

/// The version stage reads a version back from its token and the
/// terminator.
pub proof fn lemma_version_stage_reads(v: Version, end: Seq<u8>, tail: Seq<u8>)
    requires
        end.len() > 0,
        !is_digit(end[0]),
    ensures
        version_stage(v.token() + end + tail, end) == Ok::<(Version, nat), ParseFailure>(
            (v, 8 + end.len()),
        ),
        (v.token() + end + tail).skip((8 + end.len()) as int) == tail,
{
    reveal(version_stage);
    let t = v.token();
    let s = t + end + tail;
    assert(t.len() == 8);
    assert(s =~= t + (end + tail));
    lemma_version_scan_token(v, end + tail);
    let after = s.skip(8);
    assert(after.take(end.len() as int) =~= end);
    assert(s.take(8) =~= t);
    lemma_version_named(v);
    assert(s.skip((8 + end.len()) as int) =~= tail);
}

/// The digits of a status code spell that code.
pub proof fn lemma_code_digits(code: u16)
    requires
        100 <= code <= 999,
    ensures
        three_digit_code(code_digits(code)) == Some(code),
        forall|i: int| 0 <= i < 3 ==> is_digit(#[trigger] code_digits(code)[i]),
        code_digits(code).len() == 3,
{
    let d = code_digits(code);
    let a = code / 100;
    let b = (code / 10) % 10;
    let c = code % 10;
    assert(1 <= a <= 9 && 0 <= b <= 9 && 0 <= c <= 9);
    assert(a * 100 + b * 10 + c == code);
    assert(d[0] == '0' as u8 + a && d[1] == '0' as u8 + b && d[2] == '0' as u8 + c);
}

/// The status stage reads a status code back from its digits, a space, any
/// reason phrase, and CR LF.
pub proof fn lemma_status_stage_reads(code: u16, reason: Seq<u8>, tail: Seq<u8>)
    requires
        100 <= code <= 599,
        forall|i: int| 0 <= i < reason.len() ==> ByteClass::Reason.has(#[trigger] reason[i]),
    ensures
        status_stage(code_digits(code) + space() + reason + crlf() + tail) == Ok::<
            (u16, nat),
            ParseFailure,
        >((code, 4 + reason.len() + 2)),
        (code_digits(code) + space() + reason + crlf() + tail).skip(
            (4 + reason.len() + 2) as int,
        ) == tail,
{
    reveal(status_stage);
    let d = code_digits(code);
    let s = d + space() + reason + crlf() + tail;
    lemma_code_digits(code);
    assert(s[0] == d[0] && s[1] == d[1] && s[2] == d[2] && s[3] == SP);
    lemma_run_is(s, ByteClass::Digit, 3);
    let at_space = s.skip(3);
    assert(at_space.take(1) =~= space());
    let at_reason = s.skip(4);
    let n = reason.len();
    assert forall|i: int| 0 <= i < n implies ByteClass::Reason.has(#[trigger] at_reason[i]) by {
        assert(at_reason[i] == reason[i]);
    }
    assert(at_reason[n as int] == CR);
    lemma_run_is(at_reason, ByteClass::Reason, n);
    let at_end = s.skip((4 + n) as int);
    assert(at_end.take(2) =~= crlf());
    assert(s.take(3) =~= d);
    assert(s.skip((4 + n + 2) as int) =~= tail);
}

/// A field value from end to end is read as it is, where a byte follows it
/// that can neither stand in a value nor is a blank.
pub proof fn lemma_field_value_reads(v: Seq<u8>, tail: Seq<u8>)
    requires
        is_field_value(v),
        tail.len() > 0,
        !ByteClass::FieldVchar.has(tail[0]),
        !ByteClass::Blank.has(tail[0]),
    ensures
        field_value_len(v + tail) == v.len(),
    decreases v.len(),
{
    let s = v + tail;
    if v.len() == 0 {
        assert(s =~= tail);
    } else {
        assert(s[0] == v[0]);
        match field_content_scan(v) {
            Scan::Fail { .. } => {},
            Scan::Match { len: n } => {
                let gap = run(v.skip(1), ByteClass::Blank);
                lemma_run(v.skip(1), ByteClass::Blank);
                lemma_skip_add(v, tail, 1);
                lemma_field_value_fits(v.skip(n as int));
                if 1 + gap < v.len() {
                    lemma_run_extend(v.skip(1), tail, ByteClass::Blank);
                    assert(s[(1 + gap) as int] == v[(1 + gap) as int]);
                } else {
                    // The value is one byte, or blanks would end it.
                    if gap > 0 {
                        let rest = v.skip(1);
                        assert(ByteClass::Blank.has(rest[0]));
                        assert(field_content_scan(rest) is Fail);
                        assert(false);
                    }
                    lemma_run_is(v.skip(1) + tail, ByteClass::Blank, 0);
                }
                assert(field_content_scan(s) == Scan::Match { len: n });
                lemma_skip_add(v, tail, n);
                lemma_field_value_reads(v.skip(n as int), tail);
            },
        }
    }
}

/// A field value from end to end holds only bytes that the header map takes.
pub proof fn lemma_field_value_accepted(v: Seq<u8>)
    requires
        is_field_value(v),
    ensures
        value_accepted(v),
{
    lemma_field_value_bytes(v);
}

/// A header line is read back from the bytes of a field on the wire: name,
/// colon, space, value, CR LF.
pub proof fn lemma_field_line_reads(name: Seq<u8>, value: Seq<u8>, tail: Seq<u8>)
    requires
        name_accepted(name),
        is_field_value(value),
    ensures
        field_line_scan(field_wire(name, value) + tail) == (Scan::Match {
            len: field_wire(name, value).len(),
        }),
        header_line_name(field_wire(name, value) + tail) == name,
        header_line_value(field_wire(name, value) + tail) == value,
        !(literal_scan(field_wire(name, value) + tail, crlf()) is Match),
        !(literal_scan(field_wire(name, value) + tail, crlf())->short),
{
    let s = field_wire(name, value) + tail;
    let n = name.len();
    let v = value.len();
    assert(field_wire(name, value).len() == n + 2 + v + 2);
    assert forall|i: int| 0 <= i < n implies ByteClass::Tchar.has(#[trigger] s[i]) by {
        assert(s[i] == name[i]);
    }
    assert(s[n as int] == COLON);
    lemma_run_is(s, ByteClass::Tchar, n);
    // The line does not begin with CR, so the section does not end here.
    assert(s[0] == name[0]);
    assert(!starts(s, crlf())) by {
        if starts(s, crlf()) {
            lemma_starts_index(s, crlf(), 0);
        }
    }
    assert(!starts(crlf(), s));
    let at_colon = s.skip(n as int);
    assert(at_colon.take(1) =~= seq![COLON]);
    let at_gap = s.skip((n + 1) as int);
    assert(at_gap[0] == SP);
    let after_gap = value + (crlf() + tail);
    assert(at_gap.skip(1) =~= after_gap);
    assert(at_gap[1] == after_gap[0]);
    if v > 0 {
        assert(field_content_scan(value) is Match);
        assert(after_gap[0] == value[0]);
    } else {
        assert(after_gap[0] == CR);
    }
    lemma_run_is(at_gap, ByteClass::Blank, 1);
    let at_value = s.skip((n + 2) as int);
    assert(at_value =~= after_gap);
    lemma_field_value_reads(value, crlf() + tail);
    let at_trail = at_value.skip(v as int);
    assert(at_trail =~= crlf() + tail);
    lemma_run_is(at_trail, ByteClass::Blank, 0);
    assert(padded_value_scan(at_value) == Scan::Match { len: v });
    assert(header_line_scan(s) == Scan::Match { len: n + 2 + v });
    let at_end = s.skip((n + 2 + v) as int);
    assert(at_end =~= crlf() + tail);
    assert(at_end.take(2) =~= crlf());
    // The parts of the line are those of the field.
    let parts = line_parts(s);
    assert(s.skip((n + 2 + v) as int) =~= at_trail);
    assert(parts.name == n && parts.gap == 1 && parts.value == v);
    assert(header_line_name(s) =~= name);
    assert(header_line_value(s) =~= value);
}

/// The fields on the wire begin with the first field.
pub proof fn lemma_headers_wire_first(h: Seq<(Seq<u8>, Seq<u8>)>)
    requires
        h.len() > 0,
    ensures
        headers_wire(h) == field_wire(h[0].0, h[0].1) + headers_wire(h.skip(1)),
    decreases h.len(),
{
    if h.len() == 1 {
        assert(h.drop_last() =~= Seq::empty());
        assert(h.skip(1) =~= Seq::empty());
        assert(headers_wire(h) =~= field_wire(h[0].0, h[0].1) + headers_wire(h.skip(1)));
    } else {
        let init = h.drop_last();
        lemma_headers_wire_first(init);
        assert(init.skip(1) =~= h.skip(1).drop_last());
        assert(h.skip(1).last() == h.last());
        assert(headers_wire(h) =~= field_wire(h[0].0, h[0].1) + headers_wire(h.skip(1)));
    }
}

/// At the head of a field on the wire stands a header line with the name
/// and the value of the field.
pub proof fn lemma_section_head_reads(name: Seq<u8>, value: Seq<u8>, tail: Seq<u8>)
    requires
        name_accepted(name),
        is_field_value(value),
    ensures
        section_head(field_wire(name, value) + tail) == (SectionHead::Line {
            len: field_wire(name, value).len(),
            name,
            value,
        }),
        (field_wire(name, value) + tail).skip(field_wire(name, value).len() as int) == tail,
{
    reveal(section_head);
    lemma_field_line_reads(name, value, tail);
    assert((field_wire(name, value) + tail).skip(field_wire(name, value).len() as int) =~= tail);
}

/// At the head of a bare CR LF stands the end of the header section.
pub proof fn lemma_section_head_ends(tail: Seq<u8>)
    ensures
        section_head(crlf() + tail) == SectionHead::End,
{
    reveal(section_head);
    assert((crlf() + tail).take(2) =~= crlf());
}

/// The header section is read back from the fields on the wire and a bare
/// CR LF: every field in its place, as it was written.
pub proof fn lemma_header_section_reads(h: Seq<(Seq<u8>, Seq<u8>)>, tail: Seq<u8>)
    requires
        canonical_fields(h),
    ensures
        header_section_scan(headers_wire(h) + crlf() + tail) == (Scan::Match {
            len: headers_wire(h).len() + 2,
        }),
        header_fields(headers_wire(h) + crlf() + tail) == h,
    decreases h.len(),
{
    let s = headers_wire(h) + crlf() + tail;
    if h.len() == 0 {
        assert(s =~= crlf() + tail);
        lemma_section_head_ends(tail);
        assert(header_fields(s) =~= h);
    } else {
        let name = h[0].0;
        let value = h[0].1;
        let rest = h.skip(1);
        lemma_headers_wire_first(h);
        let line = field_wire(name, value);
        let behind = headers_wire(rest) + crlf() + tail;
        assert(s =~= line + behind);
        lemma_section_head_reads(name, value, behind);
        assert forall|i: int| 0 <= i < rest.len() implies name_accepted((#[trigger] rest[i]).0)
            && is_field_value(rest[i].1) by {
            assert(rest[i] == h[i + 1]);
        }
        lemma_header_section_reads(rest, tail);
        assert(seq![(name, value)] + rest =~= h);
    }
}

/// Fields that the header map takes are all admitted.
pub proof fn lemma_admitted_all(h: Seq<(Seq<u8>, Seq<u8>)>)
    requires
        fields_accepted(h),
    ensures
        admitted(h) == Ok::<Seq<(Seq<u8>, Seq<u8>)>, ParseFailure>(h),
    decreases h.len(),
{
    if h.len() == 0 {
        assert(h =~= Seq::empty());
    } else {
        let init = h.drop_last();
        assert forall|i: int| 0 <= i < init.len() implies name_accepted((#[trigger] init[i]).0)
            && value_accepted(init[i].1) by {
            assert(init[i] == h[i]);
        }
        lemma_admitted_all(init);
        assert(name_accepted(h.last().0) && value_accepted(h.last().1)) by {
            assert(h.last() == h[h.len() - 1]);
        }
        assert(init.push(h.last()) =~= h);
    }
}

/// The header stage reads the header map back from its fields on the wire
/// and a bare CR LF.
pub proof fn lemma_headers_stage_reads(h: Seq<(Seq<u8>, Seq<u8>)>, tail: Seq<u8>)
    requires
        canonical_fields(h),
    ensures
        headers_stage(headers_wire(h) + crlf() + tail) == Ok::<
            (Seq<(Seq<u8>, Seq<u8>)>, nat),
            ParseFailure,
        >((h, headers_wire(h).len() + 2)),
        (headers_wire(h) + crlf() + tail).skip((headers_wire(h).len() + 2) as int) == tail,
        fields_accepted(h),
{
    reveal(headers_stage);
    lemma_header_section_reads(h, tail);
    assert forall|i: int| 0 <= i < h.len() implies name_accepted((#[trigger] h[i]).0)
        && value_accepted(h[i].1) by {
        lemma_field_value_accepted(h[i].1);
    }
    lemma_admitted_all(h);
    assert((headers_wire(h) + crlf() + tail).skip((headers_wire(h).len() + 2) as int) =~= tail);
}

} // verus!
