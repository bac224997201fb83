use http_codec::error::ErrorKind;
use http_codec::http_elements::{HeaderMap, StatusCode, Version};
use http_codec::http_ext::{FromUtf8, IntoUtf8};
use http_codec::partial_response::PartialResponse;
use http_codec::response::Response;

#[test]
fn decodes_a_response() {
    let input = b"HTTP/1.1 200 OK\r\nContent-Type: text/html\r\nContent-Length: 3\r\n\r\nabc";
    let res = Response::from_utf8(input, b"abc").unwrap();
    assert_eq!(res.version(), Version::Http11);
    assert_eq!(res.status().as_u16(), 200);
    assert_eq!(res.headers().len(), 2);
    assert_eq!(res.headers().get(b"content-type").unwrap(), b"text/html");
    assert_eq!(res.headers().get(b"CONTENT-LENGTH").unwrap(), b"3");
    assert_eq!(res.body(), &b"abc");
}

#[test]
fn the_reason_phrase_is_read_and_dropped() {
    let res = Response::from_utf8(b"HTTP/1.0 404 Nothing \tto see h\xe9re\r\n\r\n", ()).unwrap();
    assert_eq!(res.version(), Version::Http10);
    assert_eq!(res.status().as_u16(), 404);
    let res = Response::from_utf8(b"HTTP/0.9 204 \r\n\r\n", ()).unwrap();
    assert_eq!(res.version(), Version::Http09);
    assert_eq!(res.status().as_u16(), 204);
    assert!(res.headers().is_empty());
}

#[test]
fn response_stages_one_by_one() {
    let b = PartialResponse::builder(b"HTTP/1.1 301 Moved\r\nLocation: /new\r\n\r\nrest");
    let b = b.version().unwrap();
    assert_eq!(b.remaining(), b"301 Moved\r\nLocation: /new\r\n\r\nrest");
    let b = b.status().unwrap();
    assert_eq!(b.remaining(), b"Location: /new\r\n\r\nrest");
    let b = b.headers().unwrap();
    assert_eq!(b.remaining(), b"rest");
    let res = b.body(5u32);
    assert_eq!(res.status().as_u16(), 301);
    assert_eq!(res.headers().get(b"location").unwrap(), b"/new");
    assert_eq!(res.into_body(), 5);
}

#[test]
fn status_errors_belong_to_the_status_stage() {
    let e = Response::from_utf8(b"HTTP/1.1 2x0 OK\r\n\r\n", ()).unwrap_err();
    assert_eq!(e.kind(), ErrorKind::StatusCode);
    assert!(!e.is_incomplete());
    assert_eq!(e.input(), b"x0 OK\r\n\r\n");
    let e = Response::from_utf8(b"HTTP/1.1 200\r\n\r\n", ()).unwrap_err();
    assert_eq!(e.kind(), ErrorKind::StatusCode);
    assert!(!e.is_incomplete());
    assert_eq!(e.input(), b"\r\n\r\n");
    let e = Response::from_utf8(b"HTTP/1.1 200 OK\x01\r\n\r\n", ()).unwrap_err();
    assert_eq!(e.kind(), ErrorKind::StatusCode);
    assert_eq!(e.input(), b"\x01\r\n\r\n");
}

#[test]
fn status_code_out_of_range_is_an_error() {
    for code in [&b"600"[..], b"999", b"099", b"000"] {
        let mut input = b"HTTP/1.1 ".to_vec();
        input.extend_from_slice(code);
        input.extend_from_slice(b" Reason\r\n\r\n");
        let e = Response::from_utf8(&input, ()).unwrap_err();
        assert_eq!(e.kind(), ErrorKind::StatusCode);
        assert!(!e.is_incomplete());
        assert_eq!(e.input(), code);
    }
}

#[test]
fn response_version_errors() {
    let e = Response::from_utf8(b"HTTP/3.0 200 OK\r\n\r\n", ()).unwrap_err();
    assert_eq!(e.kind(), ErrorKind::Version);
    assert!(!e.is_incomplete());
    assert_eq!(e.input(), b"HTTP/3.0");
    let e = Response::from_utf8(b"HTTP/1.1\r\n", ()).unwrap_err();
    assert_eq!(e.kind(), ErrorKind::Version);
    assert!(!e.is_incomplete());
    let e = Response::from_utf8(b"ICY 200 OK\r\n\r\n", ()).unwrap_err();
    assert_eq!(e.kind(), ErrorKind::Version);
    assert!(!e.is_incomplete());
}

#[test]
fn response_starvation_at_every_cut() {
    let whole = b"HTTP/1.1 200 OK\r\nA: b\r\n\r\n";
    for k in 0..whole.len() {
        let e = Response::from_utf8(&whole[..k], ()).unwrap_err();
        assert!(e.is_incomplete(), "cut at {}", k);
        let kind = if k < 9 {
            ErrorKind::Version
        } else if k < 17 {
            ErrorKind::StatusCode
        } else {
            ErrorKind::Header
        };
        assert_eq!(e.kind(), kind, "cut at {}", k);
    }
}

#[test]
fn response_is_written_with_the_reason_of_its_code() {
    let mut headers = HeaderMap::new();
    headers.append(b"Content-Type", b"text/plain").unwrap();
    let res = Response::new(
        Version::Http11,
        StatusCode::from_u16(404).unwrap(),
        headers,
        b"gone".to_vec(),
    );
    assert_eq!(
        res.into_utf8().unwrap(),
        b"HTTP/1.1 404 Not Found\r\nContent-Type: text/plain\r\n\r\ngone"
    );
    let res = Response::new(
        Version::Http10,
        StatusCode::from_u16(299).unwrap(),
        HeaderMap::new(),
        Vec::new(),
    );
    assert_eq!(res.into_utf8().unwrap(), b"HTTP/1.0 299 <unknown status code>\r\n\r\n");
}

#[test]
fn response_round_trip() {
    for code in [100u16, 200, 204, 302, 404, 418, 500, 555, 599] {
        let mut headers = HeaderMap::new();
        headers.append(b"Server", b"unit test/1.0").unwrap();
        headers.append(b"Set-Cookie", b"a=b").unwrap();
        headers.append(b"set-cookie", b"c=d").unwrap();
        let res = Response::new(
            Version::Http11,
            StatusCode::from_u16(code).unwrap(),
            headers,
            b"\r\n\r\nBODY".to_vec(),
        );
        let bytes = res.into_utf8().unwrap();
        let back = Response::from_utf8(&bytes, res.body().clone()).unwrap();
        assert_eq!(back.version(), res.version());
        assert_eq!(back.status(), res.status());
        assert_eq!(back.headers(), res.headers());
        assert_eq!(back.body(), res.body());
    }
}
