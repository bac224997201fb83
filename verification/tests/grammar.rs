use http_codec::basic_combinator::{
    digit, field_content, field_vchar, hex_digit, htab, literal, obs_text, quoted_string, separator,
    tchar, token, vchar, GrammarCode,
};
use http_codec::http_combinator::{
    field_name, field_value, header_line, http_version, method, ows, reason_phrase, status_code,
};

#[test]
fn test_method() {
    let (rest, mthd) = method(b"GET http://www.w3.org/pub/WWW/TheProject.html HTTP/1.1").unwrap();
    assert_eq!(b"GET", mthd);
    assert_eq!(b" http://www.w3.org/pub/WWW/TheProject.html HTTP/1.1", rest);

    let (rest, mthd) = method(b"POST http://www.w3.org/pub/WWW/TheProject.html HTTP/1.1").unwrap();
    assert_eq!(b"POST", mthd);
    assert_eq!(b" http://www.w3.org/pub/WWW/TheProject.html HTTP/1.1", rest);
}

#[test]
fn test_http_version() {
    let (rest, mthd) = http_version(b"HTTP/1.1Free").unwrap();
    assert_eq!(b"HTTP/1.1", mthd);
    assert_eq!(b"Free", rest);

    let (rest, mthd) = http_version(b"HTTP/233.12 Version").unwrap();
    assert_eq!(b"HTTP/233.12", mthd);
    assert_eq!(b" Version", rest);
}

#[test]
fn test_field_name() {
    let (rest, name) =
        field_name(b"User-Agent: Mozilla/4.0 (compatible; MSIE5.01; Windows NT)\r\n").unwrap();
    assert_eq!(b"User-Agent", name);
    assert_eq!(b": Mozilla/4.0 (compatible; MSIE5.01; Windows NT)\r\n", rest);
}

#[test]
fn test_field_value() {
    let (rest, val) = field_value(b"Mozilla/4.0 (compatible; MSIE5.01; Windows NT)\r\n").unwrap();
    assert_eq!(b"Mozilla/4.0 (compatible; MSIE5.01; Windows NT)", val);
    assert_eq!(b"\r\n", rest);
}

#[test]
fn test_header_field() {
    let (rest, (name, value)) =
        header_line(b"User-Agent: Mozilla/4.0 (compatible; MSIE5.01; Windows NT)\r\n").unwrap();

    assert_eq!(b"User-Agent", name);
    assert_eq!(b"Mozilla/4.0 (compatible; MSIE5.01; Windows NT)", value);
    assert_eq!(b"\r\n", rest);
}

#[test]
fn every_method_token_is_matched() {
    let names: [&[u8]; 9] = [
        b"OPTIONS", b"GET", b"HEAD", b"POST", b"PUT", b"DELETE", b"TRACE", b"CONNECT", b"PATCH",
    ];
    for name in names {
        let mut input = name.to_vec();
        input.extend_from_slice(b" /");
        let (rest, found) = method(&input).unwrap();
        assert_eq!(found, name);
        assert_eq!(rest, b" /");
    }
}

#[test]
fn method_refuses_extension_methods() {
    let e = method(b"BREW /pot HTTP/1.1").unwrap_err();
    assert_eq!(e.code, GrammarCode::Method);
    assert_eq!(e.input, b"BREW /pot HTTP/1.1");
    assert!(!e.incomplete);
    let e = method(b"get / HTTP/1.1").unwrap_err();
    assert!(!e.incomplete);
}

#[test]
fn method_cut_short_is_incomplete() {
    for cut in [&b""[..], b"O", b"OPT", b"PA", b"P", b"CONNEC"] {
        let e = method(cut).unwrap_err();
        assert!(e.incomplete, "{:?}", cut);
        assert_eq!(e.input, cut);
    }
    let e = method(b"PX").unwrap_err();
    assert!(!e.incomplete);
}

#[test]
fn token_rejects_empty_input() {
    let e = token(b"").unwrap_err();
    assert_eq!(e.code, GrammarCode::Token);
    assert!(e.incomplete);
    assert_eq!(e.input, b"");
}

#[test]
fn token_rejects_a_leading_separator() {
    for input in [&b":x"[..], b"/x", b" x", b"\tx", b"(x", b"\"x", b"\\x", b"=x", b"{x", b"@x"] {
        let e = token(input).unwrap_err();
        assert_eq!(e.code, GrammarCode::Token);
        assert!(!e.incomplete);
        assert_eq!(e.input, input);
        assert!(separator(input).is_ok());
    }
}

#[test]
fn token_takes_every_token_character() {
    let all = b"!#$%&'*+-.^_`|~0123456789ABCXYZabcxyz";
    let mut input = all.to_vec();
    input.push(b':');
    let (rest, found) = token(&input).unwrap();
    assert_eq!(found, all);
    assert_eq!(rest, b":");
}

#[test]
fn separator_takes_each_of_its_bytes_and_no_other() {
    for b in b"()<>@,;:\\\"/[]?={} \t" {
        let input = [*b, b'x'];
        let (rest, found) = separator(&input).unwrap();
        assert_eq!(found, &[*b]);
        assert_eq!(rest, b"x");
        assert!(tchar(&input).is_err());
    }
    let e = separator(b"a").unwrap_err();
    assert_eq!(e.code, GrammarCode::Separator);
    assert!(!e.incomplete);
    assert!(separator(b"").unwrap_err().incomplete);
}

#[test]
fn ows_accepts_an_empty_span() {
    let (rest, found) = ows(b"").unwrap();
    assert_eq!(found, b"");
    assert_eq!(rest, b"");
    let (rest, found) = ows(b"x").unwrap();
    assert_eq!(found, b"");
    assert_eq!(rest, b"x");
}

#[test]
fn ows_takes_spaces_and_tabs() {
    let (rest, found) = ows(b" \t \t x ").unwrap();
    assert_eq!(found, b" \t \t ");
    assert_eq!(rest, b"x ");
}

#[test]
fn quoted_string_keeps_an_escaped_quote() {
    let input = b"\"a\\\"b\" tail";
    let (rest, found) = quoted_string(input).unwrap();
    assert_eq!(found, b"\"a\\\"b\"");
    assert_eq!(rest, b" tail");
}

#[test]
fn quoted_string_plain_and_empty() {
    let (rest, found) = quoted_string(b"\"\"x").unwrap();
    assert_eq!(found, b"\"\"");
    assert_eq!(rest, b"x");
    let (rest, found) = quoted_string(b"\"a b\r\n\tc\x80\"").unwrap();
    assert_eq!(found, b"\"a b\r\n\tc\x80\"");
    assert_eq!(rest, b"");
}

#[test]
fn quoted_string_failures() {
    let e = quoted_string(b"abc").unwrap_err();
    assert_eq!(e.code, GrammarCode::QuotedString);
    assert!(!e.incomplete);
    assert_eq!(e.input, b"abc");
    let e = quoted_string(b"").unwrap_err();
    assert!(e.incomplete);
    let e = quoted_string(b"\"abc").unwrap_err();
    assert!(e.incomplete);
    assert_eq!(e.input, b"");
    // An escaped quote does not close the string.
    let e = quoted_string(b"\"a\\\"").unwrap_err();
    assert!(e.incomplete);
    // A control character ends the quoted text without closing it.
    let e = quoted_string(b"\"a\x01b\"").unwrap_err();
    assert!(!e.incomplete);
    assert_eq!(e.input, b"\x01b\"");
}

#[test]
fn quoted_pair_needs_an_ascii_byte() {
    // A backslash before an eight-bit byte is plain quoted text.
    let (rest, found) = quoted_string(b"\"\\\xc3\"").unwrap();
    assert_eq!(found, b"\"\\\xc3\"");
    assert_eq!(rest, b"");
}

#[test]
fn single_byte_classes() {
    assert_eq!(digit(b"7a").unwrap(), (&b"a"[..], &b"7"[..]));
    assert_eq!(digit(b"a").unwrap_err().code, GrammarCode::Digit);
    assert_eq!(hex_digit(b"fZ").unwrap(), (&b"Z"[..], &b"f"[..]));
    assert_eq!(hex_digit(b"F").unwrap().1, b"F");
    assert_eq!(hex_digit(b"g").unwrap_err().code, GrammarCode::HexDigit);
    assert_eq!(htab(b"\tx").unwrap(), (&b"x"[..], &b"\t"[..]));
    assert_eq!(htab(b" ").unwrap_err().code, GrammarCode::Htab);
    assert!(htab(b"").unwrap_err().incomplete);
    assert_eq!(vchar(b"!x").unwrap().1, b"!");
    assert_eq!(vchar(b"~").unwrap().1, b"~");
    assert_eq!(vchar(b" ").unwrap_err().code, GrammarCode::Vchar);
    assert!(vchar(b"\x7f").is_err());
    assert!(vchar(b"\x80").is_err());
    assert_eq!(tchar(b"a:").unwrap().1, b"a");
}

#[test]
fn obs_text_is_one_byte() {
    let (rest, found) = obs_text(b"\x80\xff").unwrap();
    assert_eq!(found, b"\x80");
    assert_eq!(rest, b"\xff");
    let (rest, found) = obs_text(b"\xff").unwrap();
    assert_eq!(found, b"\xff");
    assert_eq!(rest, b"");
    assert_eq!(obs_text(b"\x7f").unwrap_err().code, GrammarCode::ObsText);
    assert_eq!(field_vchar(b"\xe9t").unwrap().1, b"\xe9");
    assert_eq!(field_vchar(b"a").unwrap().1, b"a");
    assert_eq!(field_vchar(b" ").unwrap_err().code, GrammarCode::FieldVchar);
}

#[test]
fn field_content_blocks() {
    assert_eq!(field_content(b"ab").unwrap(), (&b"b"[..], &b"a"[..]));
    assert_eq!(field_content(b"a b").unwrap(), (&b""[..], &b"a b"[..]));
    assert_eq!(field_content(b"a \t b c").unwrap(), (&b" c"[..], &b"a \t b"[..]));
    // Blanks with nothing visible behind them are left alone.
    assert_eq!(field_content(b"a  ").unwrap(), (&b"  "[..], &b"a"[..]));
    assert_eq!(field_content(b"a \r\n").unwrap(), (&b" \r\n"[..], &b"a"[..]));
    let e = field_content(b" a").unwrap_err();
    assert_eq!(e.code, GrammarCode::FieldContent);
    assert!(!e.incomplete);
    assert!(field_content(b"").unwrap_err().incomplete);
}

#[test]
fn field_value_never_fails() {
    assert_eq!(field_value(b"").unwrap(), (&b""[..], &b""[..]));
    assert_eq!(field_value(b"\r\n").unwrap(), (&b"\r\n"[..], &b""[..]));
    assert_eq!(field_value(b" x").unwrap(), (&b" x"[..], &b""[..]));
    assert_eq!(field_value(b"text/html  \r\n").unwrap(), (&b"  \r\n"[..], &b"text/html"[..]));
}

#[test]
fn field_value_stops_before_a_lone_byte_between_blanks() {
    // A block is one byte, blanks, one byte; the next block cannot begin
    // with a blank.
    assert_eq!(field_value(b"a b c").unwrap(), (&b" c"[..], &b"a b"[..]));
    assert_eq!(field_value(b"ab cd ef").unwrap(), (&b""[..], &b"ab cd ef"[..]));
}

#[test]
fn http_version_failures_say_where() {
    let e = http_version(b"HTTX/1.1").unwrap_err();
    assert_eq!(e.code, GrammarCode::HttpVersion);
    assert_eq!(e.input, b"HTTX/1.1");
    assert!(!e.incomplete);
    let e = http_version(b"HTTP/x.1").unwrap_err();
    assert_eq!(e.input, b"x.1");
    assert!(!e.incomplete);
    let e = http_version(b"HTTP/1x1").unwrap_err();
    assert_eq!(e.input, b"x1");
    let e = http_version(b"HTTP/1.x").unwrap_err();
    assert_eq!(e.input, b"x");
    for cut in [&b""[..], b"HT", b"HTTP/", b"HTTP/1", b"HTTP/1."] {
        let e = http_version(cut).unwrap_err();
        assert!(e.incomplete, "{:?}", cut);
    }
}

#[test]
fn status_code_is_exactly_three_digits() {
    assert_eq!(status_code(b"200 OK").unwrap(), (&b" OK"[..], &b"200"[..]));
    assert_eq!(status_code(b"2000").unwrap(), (&b"0"[..], &b"200"[..]));
    let e = status_code(b"2x0").unwrap_err();
    assert_eq!(e.code, GrammarCode::StatusCode);
    assert_eq!(e.input, b"x0");
    assert!(!e.incomplete);
    let e = status_code(b"20").unwrap_err();
    assert!(e.incomplete);
    assert_eq!(e.input, b"");
    assert!(status_code(b"").unwrap_err().incomplete);
}

#[test]
fn reason_phrase_takes_text_up_to_the_line_end() {
    assert_eq!(reason_phrase(b"Not Found\r\n").unwrap(), (&b"\r\n"[..], &b"Not Found"[..]));
    assert_eq!(reason_phrase(b"\r\n").unwrap(), (&b"\r\n"[..], &b""[..]));
    assert_eq!(reason_phrase(b"caf\xe9\t!\x00").unwrap(), (&b"\x00"[..], &b"caf\xe9\t!"[..]));
}

#[test]
fn header_line_trims_the_blanks_around_the_value() {
    let (rest, (name, value)) = header_line(b"Host: \t example.com \t\r\n").unwrap();
    assert_eq!(name, b"Host");
    assert_eq!(value, b"example.com");
    assert_eq!(rest, b"\r\n");
    let (rest, (name, value)) = header_line(b"Accept-Language:\r\n").unwrap();
    assert_eq!(name, b"Accept-Language");
    assert_eq!(value, b"");
    assert_eq!(rest, b"\r\n");
}

#[test]
fn header_line_failures() {
    let e = header_line(b": x").unwrap_err();
    assert_eq!(e.code, GrammarCode::HeaderLine);
    assert_eq!(e.input, b": x");
    assert!(!e.incomplete);
    let e = header_line(b"Host example.com").unwrap_err();
    assert_eq!(e.input, b" example.com");
    assert!(!e.incomplete);
    let e = header_line(b"Host").unwrap_err();
    assert!(e.incomplete);
    assert!(header_line(b"").unwrap_err().incomplete);
}

#[test]
fn literal_matches_fixed_bytes() {
    assert_eq!(literal(b"\r\nx", b"\r\n").unwrap(), (&b"x"[..], &b"\r\n"[..]));
    let e = literal(b"\r", b"\r\n").unwrap_err();
    assert_eq!(e.code, GrammarCode::Literal);
    assert!(e.incomplete);
    let e = literal(b"\rx", b"\r\n").unwrap_err();
    assert!(!e.incomplete);
    assert_eq!(e.input, b"\rx");
}
