use http_codec::error::ErrorKind;
use http_codec::http_elements::{Method, Version};
use http_codec::http_ext::FromUtf8;
use http_codec::partial_request::PartialRequest;
use http_codec::partial_response::PartialResponse;
use http_codec::request::Request;
use http_codec::response::Response;

const REQUEST: &[u8] =
    b"POST /form?a=1 HTTP/1.1\r\nHost: example.com\r\nAccept: a\r\nAccept: b c\r\n\r\nname=value";

const RESPONSE: &[u8] =
    b"HTTP/1.1 503 Service Unavailable\r\nRetry-After: 120\r\nVia: x\r\n\r\n<html>";

#[test]
fn a_fresh_partial_request_is_empty() {
    let p = PartialRequest::new();
    assert!(p.method().is_none());
    assert!(p.uri().is_none());
    assert!(p.version().is_none());
    assert!(p.headers().is_none());
    assert_eq!(p.rest(), b"");
    assert!(!p.is_complete());
}

#[test]
fn fields_are_filled_in_order() {
    let p = PartialRequest::new().feed(b"POST /form?a=1 HT").unwrap();
    assert_eq!(p.method(), &Some(Method::Post));
    assert_eq!(p.uri().as_ref().unwrap().as_bytes(), b"/form?a=1");
    assert!(p.version().is_none());
    assert!(p.headers().is_none());
    assert_eq!(p.rest(), b"HT");
    assert!(!p.is_complete());
    let p = p.feed(b"TP/1.1\r\nHost: exam").unwrap();
    assert_eq!(p.version(), &Some(Version::Http11));
    assert!(p.headers().is_none());
    assert_eq!(p.rest(), b"Host: exam");
    let p = p.feed(b"ple.com\r\n\r\nbody").unwrap();
    assert!(p.is_complete());
    assert_eq!(p.headers().as_ref().unwrap().get(b"host").unwrap(), b"example.com");
    assert_eq!(p.rest(), b"body");
    let p = p.feed(b" and more").unwrap();
    assert_eq!(p.rest(), b"body and more");
}

#[test]
fn resuming_a_request_is_decoding_it_at_once() {
    let whole = Request::from_utf8(REQUEST, 1u8).unwrap();
    for k in 0..=REQUEST.len() {
        let first = PartialRequest::new().feed(&REQUEST[..k]).unwrap();
        let req = first.feed(&REQUEST[k..]).unwrap().parse_rest(1u8).unwrap();
        assert_eq!(req.method(), whole.method(), "split at {}", k);
        assert_eq!(req.uri(), whole.uri(), "split at {}", k);
        assert_eq!(req.version(), whole.version(), "split at {}", k);
        assert_eq!(req.headers(), whole.headers(), "split at {}", k);
        assert_eq!(req.body(), whole.body());
    }
}

#[test]
fn resuming_byte_by_byte() {
    let mut p = PartialRequest::new();
    for b in REQUEST {
        p = p.feed(&[*b]).unwrap();
    }
    assert!(p.is_complete());
    assert_eq!(p.rest(), b"name=value");
    let req = p.parse_rest(()).unwrap();
    assert_eq!(req.method(), Method::Post);
    assert_eq!(req.headers().get_all(b"accept"), vec![b"a".to_vec(), b"b c".to_vec()]);
}

#[test]
fn resuming_a_response_is_decoding_it_at_once() {
    let whole = Response::from_utf8(RESPONSE, ()).unwrap();
    for k in 0..=RESPONSE.len() {
        let first = PartialResponse::new().feed(&RESPONSE[..k]).unwrap();
        let res = first.feed(&RESPONSE[k..]).unwrap().parse_rest(()).unwrap();
        assert_eq!(res.version(), whole.version(), "split at {}", k);
        assert_eq!(res.status(), whole.status(), "split at {}", k);
        assert_eq!(res.headers(), whole.headers(), "split at {}", k);
    }
}

#[test]
fn partial_response_fields() {
    let p = PartialResponse::new();
    assert!(p.version().is_none() && p.status().is_none() && p.headers().is_none());
    let p = p.feed(b"HTTP/1.1 503 Service").unwrap();
    assert_eq!(p.version(), &Some(Version::Http11));
    assert!(p.status().is_none());
    assert_eq!(p.rest(), b"503 Service");
    assert!(!p.is_complete());
    let p = p.feed(b" Unavailable\r\n\r\n").unwrap();
    assert_eq!(p.status().unwrap().as_u16(), 503);
    assert!(p.is_complete());
    assert_eq!(p.rest(), b"");
}

#[test]
fn starvation_suspends_and_violation_ends() {
    // Truncated in the middle of a header: the decoding is put aside.
    let p = PartialRequest::new().feed(b"GET /hello.htm HTTP/1.1\r\nHost: ex").unwrap();
    assert_eq!(p.version(), &Some(Version::Http11));
    assert!(!p.is_complete());
    assert_eq!(p.rest(), b"Host: ex");
    // Finishing now reports the starved stage.
    let e = PartialRequest::new()
        .feed(b"GET /hello.htm HTTP/1.1\r\nHost: ex")
        .unwrap()
        .parse_rest(())
        .unwrap_err();
    assert_eq!(e.kind(), ErrorKind::Header);
    assert!(e.is_incomplete());
    // A malformed method ends the decoding.
    let e = PartialRequest::new().feed(b"GE T /x HTTP/1.1\r\n").unwrap_err();
    assert_eq!(e.kind(), ErrorKind::Method);
    assert!(!e.is_incomplete());
}

#[test]
fn a_violation_stays_a_violation_when_more_bytes_come() {
    let bad = b"GET / HTTP/1.1\r\nHost example.com\r";
    let e = PartialRequest::new().feed(bad).unwrap_err();
    assert_eq!(e.kind(), ErrorKind::Header);
    assert!(!e.is_incomplete());
    let mut longer = bad.to_vec();
    longer.extend_from_slice(b"\n\r\n");
    let e = Request::from_utf8(&longer, ()).unwrap_err();
    assert_eq!(e.kind(), ErrorKind::Header);
    assert!(!e.is_incomplete());
}

#[test]
fn a_builder_can_be_put_aside_and_taken_up() {
    let builder =
        PartialRequest::builder(b"TRACE /t HTTP/1.0\r\nA: 1\r\n\r\nxyz").method().unwrap();
    let partial = builder.build();
    assert_eq!(partial.method(), &Some(Method::Trace));
    assert!(partial.uri().is_none());
    assert_eq!(partial.rest(), b"/t HTTP/1.0\r\nA: 1\r\n\r\nxyz");
    let req = partial.parse_rest(b"payload").unwrap();
    assert_eq!(req.method(), Method::Trace);
    assert_eq!(req.uri().as_bytes(), b"/t");
    assert_eq!(req.version(), Version::Http10);
    assert_eq!(req.headers().get(b"a").unwrap(), b"1");
    assert_eq!(req.body(), &b"payload");
}

#[test]
fn parse_rest_from_every_stage() {
    let input = b"GET /x HTTP/1.1\r\nK: v\r\n\r\n";
    let at_method = PartialRequest::builder(input).build();
    assert!(at_method.parse_rest(()).is_ok());
    let at_uri = PartialRequest::builder(input).method().unwrap().build();
    assert!(at_uri.parse_rest(()).is_ok());
    let at_version = PartialRequest::builder(input).method().unwrap().uri().unwrap().build();
    assert!(at_version.parse_rest(()).is_ok());
    let at_header = PartialRequest::builder(input)
        .method()
        .unwrap()
        .uri()
        .unwrap()
        .version()
        .unwrap()
        .build();
    assert_eq!(at_header.rest(), b"K: v\r\n\r\n");
    assert!(at_header.parse_rest(()).is_ok());
    let at_body = PartialRequest::builder(input)
        .method()
        .unwrap()
        .uri()
        .unwrap()
        .version()
        .unwrap()
        .headers()
        .unwrap()
        .build();
    assert!(at_body.is_complete());
    let req = at_body.parse_rest(9i32).unwrap();
    assert_eq!(req.headers().get(b"k").unwrap(), b"v");
    assert_eq!(*req.body(), 9);
}

#[test]
fn response_builder_put_aside() {
    let partial = PartialResponse::builder(b"HTTP/1.1 200 OK\r\n\r\n").version().unwrap().build();
    assert_eq!(partial.version(), &Some(Version::Http11));
    assert_eq!(partial.rest(), b"200 OK\r\n\r\n");
    let res = partial.parse_rest("body").unwrap();
    assert_eq!(res.status().as_u16(), 200);
    assert_eq!(res.body(), &"body");
    let e = PartialResponse::builder(b"HTTP/1.1 200 OK\r\n").build().parse_rest(()).unwrap_err();
    assert_eq!(e.kind(), ErrorKind::Header);
    assert!(e.is_incomplete());
}
