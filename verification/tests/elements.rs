use http_codec::error::{ErrorKind, FromUtf8Err, IntoFromUtf8Err};
use http_codec::basic_combinator::token;
use http_codec::http_elements::{HeaderMap, Method, StatusCode, Uri, Version};
use http_codec::http_ext::IntoUtf8;

#[test]
fn method_tokens_read_back() {
    let all = [
        (Method::Options, &b"OPTIONS"[..]),
        (Method::Get, b"GET"),
        (Method::Head, b"HEAD"),
        (Method::Post, b"POST"),
        (Method::Put, b"PUT"),
        (Method::Delete, b"DELETE"),
        (Method::Trace, b"TRACE"),
        (Method::Connect, b"CONNECT"),
        (Method::Patch, b"PATCH"),
    ];
    for (m, text) in all {
        assert_eq!(m.as_bytes(), text);
        assert_eq!(m.into_utf8().unwrap(), text);
        assert_eq!(Method::from_bytes(text), Some(m));
    }
    assert_eq!(Method::from_bytes(b"get"), None);
    assert_eq!(Method::from_bytes(b"GETS"), None);
    assert_eq!(Method::from_bytes(b""), None);
}

#[test]
fn version_tokens_are_a_bijection() {
    let all = [
        (Version::Http09, &b"HTTP/0.9"[..]),
        (Version::Http10, b"HTTP/1.0"),
        (Version::Http11, b"HTTP/1.1"),
    ];
    for (v, text) in all {
        assert_eq!(v.into_utf8().unwrap(), text);
        assert_eq!(v.as_bytes(), text);
        assert_eq!(Version::from_utf8(text).unwrap(), v);
    }
}

#[test]
fn unknown_version_is_an_error_not_a_panic() {
    for text in [&b"HTTP/2.0"[..], b"HTTP/1.2", b"HTTP/11.1", b"http/1.1", b""] {
        let e = Version::from_utf8(text).unwrap_err();
        assert_eq!(e.kind(), ErrorKind::Version);
        assert_eq!(e.input(), text);
        assert!(!e.is_incomplete());
    }
}

#[test]
fn status_code_from_digits() {
    assert_eq!(StatusCode::from_bytes(b"200").unwrap().as_u16(), 200);
    assert_eq!(StatusCode::from_bytes(b"100").unwrap().as_u16(), 100);
    assert_eq!(StatusCode::from_bytes(b"404").unwrap().as_u16(), 404);
    assert_eq!(StatusCode::from_bytes(b"599").unwrap().as_u16(), 599);
}

#[test]
fn status_code_outside_100_to_599_is_refused() {
    for text in [&b"600"[..], b"999", b"099", b"000", b"20", b"2000", b"2x0", b"", b" 20"] {
        let e = StatusCode::from_bytes(text).unwrap_err();
        assert_eq!(e.kind(), ErrorKind::StatusCode);
        assert_eq!(e.input(), text);
        assert!(!e.is_incomplete());
    }
    assert!(StatusCode::from_u16(99).is_none());
    assert!(StatusCode::from_u16(600).is_none());
    assert_eq!(StatusCode::from_u16(100).unwrap().as_u16(), 100);
    assert_eq!(StatusCode::from_u16(599).unwrap().as_u16(), 599);
}

#[test]
fn status_code_prints_number_and_reason() {
    assert_eq!(StatusCode::from_u16(200).unwrap().into_utf8().unwrap(), b"200 OK");
    assert_eq!(StatusCode::from_u16(404).unwrap().into_utf8().unwrap(), b"404 Not Found");
    assert_eq!(StatusCode::from_u16(418).unwrap().to_text(), b"418 I'm a teapot");
    assert_eq!(
        StatusCode::from_u16(599).unwrap().into_utf8().unwrap(),
        b"599 <unknown status code>"
    );
    assert_eq!(StatusCode::from_u16(100).unwrap().to_text(), b"100 Continue");
}

#[test]
fn uri_origin_and_absolute_forms_are_targets() {
    for text in [
        &b"/"[..],
        b"/hello.htm",
        b"/a/b?c=d&e=%20",
        b"http://www.w3.org/pub/WWW/TheProject.html",
        b"https://example.com",
        b"ftp://example.com/file",
    ] {
        let uri = Uri::from_bytes(text).unwrap();
        assert_eq!(uri.as_bytes(), text);
        assert_eq!(uri.into_utf8().unwrap(), text);
        assert_eq!(uri.clone().as_bytes(), text);
    }
}

#[test]
fn uri_other_forms_and_bad_text_are_refused() {
    for text in [
        &b""[..],
        b"*",
        b"example.com:443",
        b"localhost",
        b"/a b",
        b" /a",
        b"/a\x01b",
        b"/\xff",
        b"http://",
        b"/a\x7fb",
    ] {
        let e = Uri::from_bytes(text).unwrap_err();
        assert_eq!(e.kind(), ErrorKind::Uri, "{:?}", text);
        assert_eq!(e.input(), text);
        assert!(!e.is_incomplete());
    }
}

#[test]
fn header_map_keeps_order_case_and_duplicates() {
    let mut h = HeaderMap::new();
    assert!(h.is_empty());
    h.append(b"Accept", b"text/html").unwrap();
    h.append(b"Host", b"example.com").unwrap();
    h.append(b"accept", b"application/json").unwrap();
    assert_eq!(h.len(), 3);
    assert!(!h.is_empty());
    assert_eq!(h.name_at(0), b"Accept");
    assert_eq!(h.value_at(0), b"text/html");
    assert_eq!(h.name_at(1), b"Host");
    assert_eq!(h.name_at(2), b"accept");
    assert_eq!(h.value_at(2), b"application/json");
    assert_eq!(h.get(b"ACCEPT").unwrap(), b"text/html");
    assert_eq!(h.get(b"host").unwrap(), b"example.com");
    assert!(h.get(b"Hos").is_none());
    assert!(h.get(b"Content-Length").is_none());
    assert_eq!(h.get_all(b"accept"), vec![b"text/html".to_vec(), b"application/json".to_vec()]);
    assert!(h.get_all(b"cookie").is_empty());
    assert_eq!(
        h.into_utf8().unwrap(),
        b"Accept: text/html\r\nHost: example.com\r\naccept: application/json\r\n"
    );
    let copy = h.clone();
    assert_eq!(copy, h);
}

#[test]
fn empty_header_map_writes_nothing() {
    assert_eq!(HeaderMap::new().into_utf8().unwrap(), b"");
}

#[test]
fn header_map_refuses_what_the_registry_refuses() {
    let mut h = HeaderMap::new();
    for name in [&b""[..], b"a b", b"a:b", b"caf\xe9", b"(x)"] {
        let e = h.append(name, b"v").unwrap_err();
        assert_eq!(e.kind(), ErrorKind::Header);
        assert_eq!(e.input(), name);
        assert!(!e.is_incomplete());
    }
    for value in [&b"a\x7fb"[..], b"a\r\nb", b"\x00", b"a\x1fb"] {
        let e = h.append(b"X", value).unwrap_err();
        assert_eq!(e.kind(), ErrorKind::Header);
        assert_eq!(e.input(), value);
    }
    assert!(h.is_empty());
    h.append(b"X", b"tab\there \xff").unwrap();
    assert_eq!(h.len(), 1);
}

#[test]
fn header_name_length_limit() {
    let mut h = HeaderMap::new();
    let longest = vec![b'a'; 65535];
    h.append(&longest, b"v").unwrap();
    let too_long = vec![b'a'; 65536];
    let e = h.append(&too_long, b"v").unwrap_err();
    assert_eq!(e.kind(), ErrorKind::Header);
    assert_eq!(e.input().len(), 65536);
    assert_eq!(h.len(), 1);
}

#[test]
fn error_from_text_keeps_its_bytes() {
    let e = FromUtf8Err::init(String::from("caf\u{e9}"), ErrorKind::Uri);
    assert_eq!(e.input(), "caf\u{e9}".as_bytes());
    assert_eq!(e.kind(), ErrorKind::Uri);
    assert!(!e.is_incomplete());
}

#[test]
fn error_constructors() {
    let e = FromUtf8Err::rejected(b"\xff\x00", ErrorKind::Header);
    assert_eq!(e.input(), b"\xff\x00");
    assert!(!e.is_incomplete());
    let e = FromUtf8Err::starved(b"GE", ErrorKind::Method);
    assert_eq!(e.input(), b"GE");
    assert_eq!(e.kind(), ErrorKind::Method);
    assert!(e.is_incomplete());
}

#[test]
fn error_display_text() {
    let e = FromUtf8Err::init(String::from("GE T"), ErrorKind::Method);
    assert_eq!(e.to_string(), "Error from input: [\"GE T\"] ErrorKind: [Method]");
    let e = FromUtf8Err::rejected(b"600", ErrorKind::StatusCode);
    assert_eq!(e.to_string(), "Error from input: [\"600\"] ErrorKind: [StatusCode]");
    let e = FromUtf8Err::rejected(b"", ErrorKind::Uri);
    assert_eq!(e.to_string(), "Error from input: [\"\"] ErrorKind: [Uri]");
    let e = FromUtf8Err::rejected(b"x", ErrorKind::Version);
    assert_eq!(e.to_string(), "Error from input: [\"x\"] ErrorKind: [Version]");
    let e = FromUtf8Err::rejected(b"x", ErrorKind::Header);
    assert_eq!(e.to_string(), "Error from input: [\"x\"] ErrorKind: [Header]");
}

#[test]
fn error_text_of_bytes_that_are_no_text() {
    let e = FromUtf8Err::rejected(b"a\xffb", ErrorKind::Header);
    assert_eq!(e.input_text(), None);
    assert_eq!(e.to_string(), "Error from input: [\"a\u{fffd}b\"] ErrorKind: [Header]");
    let e = FromUtf8Err::rejected("caf\u{e9}".as_bytes(), ErrorKind::Header);
    assert_eq!(e.input_text(), Some(String::from("caf\u{e9}")));
}

#[test]
fn grammar_failure_becomes_a_stage_error() {
    let failure = token(b":x").unwrap_err();
    let e = failure.into_parse_error(ErrorKind::Header);
    assert_eq!(e.kind(), ErrorKind::Header);
    assert_eq!(e.input(), b":x");
    assert!(!e.is_incomplete());
    let failure = token(b"").unwrap_err();
    let e = failure.into_parse_error(ErrorKind::Method);
    assert_eq!(e.kind(), ErrorKind::Method);
    assert!(e.is_incomplete());
}
