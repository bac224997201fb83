use http_codec::error::ErrorKind;
use http_codec::http_elements::{HeaderMap, Method, Uri, Version};
use http_codec::http_ext::{FromUtf8, IntoUtf8};
use http_codec::partial_request::PartialRequest;
use http_codec::request::Request;

#[test]
fn test_from_utf8() {
    let input = b"GET /hello.htm HTTP/1.1\r\nUser-Agent: Mozilla/4.0 (compatible; MSIE5.01; Windows NT)\r\nHost: www.tutorialspoint.com\r\nAccept-Language:\r\nAccept-Encoding: gzip, deflate\r\nConnection: Keep-Alive\r\n\r\n";

    let req = Request::from_utf8(input, b"ThisIsBody").unwrap();

    assert_eq!(req.method(), Method::Get);
    assert_eq!(req.uri().as_bytes(), b"/hello.htm");
    assert_eq!(req.version(), Version::Http11);
    assert_eq!(
        req.headers().get(b"user-agent").unwrap(),
        b"Mozilla/4.0 (compatible; MSIE5.01; Windows NT)"
    );
    assert_eq!(req.headers().get(b"Host").unwrap(), b"www.tutorialspoint.com");
    assert_eq!(req.headers().get(b"Accept-Language").unwrap(), b"");
    assert_eq!(req.body(), &b"ThisIsBody");
}

#[test]
fn decodes_the_plain_request() {
    let input = b"GET /hello.htm HTTP/1.1\r\nHost: example.com\r\nAccept-Language:\r\n\r\n";
    let req = Request::from_utf8(input, b"X").unwrap();
    assert_eq!(req.method(), Method::Get);
    assert_eq!(req.uri().as_bytes(), b"/hello.htm");
    assert_eq!(req.version(), Version::Http11);
    let headers = req.headers();
    assert_eq!(headers.len(), 2);
    assert_eq!(headers.name_at(0), b"Host");
    assert_eq!(headers.value_at(0), b"example.com");
    assert_eq!(headers.name_at(1), b"Accept-Language");
    assert_eq!(headers.value_at(1), b"");
    assert_eq!(req.body(), &b"X");
    assert_eq!(req.into_body(), b"X");
}

#[test]
fn duplicate_headers_keep_their_order() {
    let input =
        b"GET / HTTP/1.1\r\nAccept: text/html\r\nHost: h\r\nAccept: application/json\r\n\r\n";
    let req = Request::from_utf8(input, ()).unwrap();
    let headers = req.headers();
    assert_eq!(headers.len(), 3);
    assert_eq!(
        headers.get_all(b"Accept"),
        vec![b"text/html".to_vec(), b"application/json".to_vec()]
    );
    assert_eq!(headers.get(b"accept").unwrap(), b"text/html");
    assert_eq!(headers.name_at(1), b"Host");
    assert_eq!(headers.value_at(2), b"application/json");
}

#[test]
fn a_request_without_headers_ends_with_a_bare_line() {
    let req = Request::from_utf8(b"HEAD / HTTP/1.0\r\n\r\nbody bytes", 7u8).unwrap();
    assert_eq!(req.method(), Method::Head);
    assert_eq!(req.version(), Version::Http10);
    assert!(req.headers().is_empty());
    assert_eq!(*req.body(), 7);
}

#[test]
fn the_body_is_not_read_from_the_buffer() {
    let partial = PartialRequest::builder(b"PUT /x HTTP/0.9\r\nA: b\r\n\r\nleft over")
        .method()
        .unwrap()
        .uri()
        .unwrap()
        .version()
        .unwrap()
        .headers()
        .unwrap();
    assert_eq!(partial.remaining(), b"left over");
    let req = partial.body(vec![1u8, 2, 3]);
    assert_eq!(req.method(), Method::Put);
    assert_eq!(req.version(), Version::Http09);
    assert_eq!(req.body(), &vec![1u8, 2, 3]);
}

#[test]
fn absolute_form_target() {
    let req = Request::from_utf8(
        b"GET http://www.w3.org/pub/WWW/TheProject.html HTTP/1.1\r\n\r\n",
        (),
    )
    .unwrap();
    assert_eq!(req.uri().as_bytes(), b"http://www.w3.org/pub/WWW/TheProject.html");
}

#[test]
fn malformed_method_is_final() {
    let e = Request::from_utf8(b"GE T /x HTTP/1.1\r\n\r\n", ()).unwrap_err();
    assert_eq!(e.kind(), ErrorKind::Method);
    assert!(!e.is_incomplete());
    assert_eq!(e.input(), b"GE T /x HTTP/1.1\r\n\r\n");
    let e = Request::from_utf8(b"GETX / HTTP/1.1\r\n\r\n", ()).unwrap_err();
    assert_eq!(e.kind(), ErrorKind::Method);
    assert!(!e.is_incomplete());
    assert_eq!(e.input(), b"X / HTTP/1.1\r\n\r\n");
}

#[test]
fn truncated_header_is_starvation() {
    let e = Request::from_utf8(b"GET /hello.htm HTTP/1.1\r\nHost: ex", ()).unwrap_err();
    assert_eq!(e.kind(), ErrorKind::Header);
    assert!(e.is_incomplete());
}

#[test]
fn each_stage_reports_starvation() {
    let whole = b"GET /hello.htm HTTP/1.1\r\nHost: example.com\r\n\r\n";
    let kinds = |k: usize| {
        if k < 4 {
            ErrorKind::Method
        } else if k < 15 {
            ErrorKind::Uri
        } else if k < 25 {
            ErrorKind::Version
        } else {
            ErrorKind::Header
        }
    };
    for k in 0..whole.len() {
        let e = Request::from_utf8(&whole[..k], ()).unwrap_err();
        assert!(e.is_incomplete(), "cut at {}", k);
        assert_eq!(e.kind(), kinds(k), "cut at {}", k);
    }
    assert!(Request::from_utf8(whole, ()).is_ok());
}

#[test]
fn bad_target_is_final() {
    let e = Request::from_utf8(b"GET example.com:80 HTTP/1.1\r\n\r\n", ()).unwrap_err();
    assert_eq!(e.kind(), ErrorKind::Uri);
    assert!(!e.is_incomplete());
    assert_eq!(e.input(), b"example.com:80");
    let e = Request::from_utf8(b"GET  / HTTP/1.1\r\n\r\n", ()).unwrap_err();
    assert_eq!(e.kind(), ErrorKind::Uri);
    assert!(!e.is_incomplete());
    let e = Request::from_utf8(b"OPTIONS * HTTP/1.1\r\n\r\n", ()).unwrap_err();
    assert_eq!(e.kind(), ErrorKind::Uri);
    assert_eq!(e.input(), b"*");
    let e = Request::from_utf8(b"GET /\x01 HTTP/1.1\r\n\r\n", ()).unwrap_err();
    assert_eq!(e.kind(), ErrorKind::Uri);
    assert_eq!(e.input(), b"/\x01");
}

#[test]
fn bad_version_is_final() {
    let e = Request::from_utf8(b"GET / HTTP/2.0\r\n\r\n", ()).unwrap_err();
    assert_eq!(e.kind(), ErrorKind::Version);
    assert!(!e.is_incomplete());
    assert_eq!(e.input(), b"HTTP/2.0");
    let e = Request::from_utf8(b"GET / HTTP/1.1 \r\n\r\n", ()).unwrap_err();
    assert_eq!(e.kind(), ErrorKind::Version);
    assert!(!e.is_incomplete());
    assert_eq!(e.input(), b" \r\n\r\n");
    let e = Request::from_utf8(b"GET / HTTP/1.1\rX", ()).unwrap_err();
    assert_eq!(e.kind(), ErrorKind::Version);
    assert!(!e.is_incomplete());
}

#[test]
fn bad_header_is_final() {
    let e = Request::from_utf8(b"GET / HTTP/1.1\r\nHost example.com\r\n\r\n", ()).unwrap_err();
    assert_eq!(e.kind(), ErrorKind::Header);
    assert!(!e.is_incomplete());
    assert_eq!(e.input(), b" example.com\r\n\r\n");
    let e = Request::from_utf8(b"GET / HTTP/1.1\r\nA: b\r\n: c\r\n\r\n", ()).unwrap_err();
    assert_eq!(e.kind(), ErrorKind::Header);
    assert_eq!(e.input(), b": c\r\n\r\n");
    // A lone byte between blanks ends the value; the line does not end there.
    let e = Request::from_utf8(b"GET / HTTP/1.1\r\nA: a b c\r\n\r\n", ()).unwrap_err();
    assert_eq!(e.kind(), ErrorKind::Header);
    assert!(!e.is_incomplete());
    assert_eq!(e.input(), b"c\r\n\r\n");
}

#[test]
fn header_name_that_is_too_long_is_refused() {
    let mut input = b"GET / HTTP/1.1\r\n".to_vec();
    input.extend(std::iter::repeat(b'a').take(65536));
    input.extend_from_slice(b": v\r\n\r\n");
    let e = Request::from_utf8(&input, ()).unwrap_err();
    assert_eq!(e.kind(), ErrorKind::Header);
    assert!(!e.is_incomplete());
    assert_eq!(e.input().len(), 65536);
}

#[test]
fn obs_text_in_a_header_value() {
    let req = Request::from_utf8(b"GET / HTTP/1.1\r\nX-Name: caf\xe9 \xff\r\n\r\n", ()).unwrap();
    assert_eq!(req.headers().get(b"x-name").unwrap(), b"caf\xe9 \xff");
}

#[test]
fn request_is_written_in_request_line_order() {
    let mut headers = HeaderMap::new();
    headers.append(b"Host", b"example.com").unwrap();
    headers.append(b"Accept", b"text/html").unwrap();
    let req = Request::new(
        Method::Post,
        Uri::from_bytes(b"/submit?x=1").unwrap(),
        Version::Http11,
        headers,
        b"payload".to_vec(),
    );
    assert_eq!(
        req.into_utf8().unwrap(),
        b"POST /submit?x=1 HTTP/1.1\r\nHost: example.com\r\nAccept: text/html\r\n\r\npayload"
    );
}

#[test]
fn request_round_trip() {
    let mut headers = HeaderMap::new();
    headers.append(b"Host", b"example.com").unwrap();
    headers.append(b"Accept", b"text/html").unwrap();
    headers.append(b"accept", b"application/json; q=0.5").unwrap();
    headers.append(b"X-Empty", b"").unwrap();
    let req = Request::new(
        Method::Delete,
        Uri::from_bytes(b"http://example.com/a/b").unwrap(),
        Version::Http10,
        headers,
        b"\x00\xffbody\r\n\r\n".to_vec(),
    );
    let bytes = req.into_utf8().unwrap();
    let back = Request::from_utf8(&bytes, req.body().clone()).unwrap();
    assert_eq!(back.method(), req.method());
    assert_eq!(back.uri(), req.uri());
    assert_eq!(back.version(), req.version());
    assert_eq!(back.headers(), req.headers());
    assert_eq!(back.body(), req.body());
}
