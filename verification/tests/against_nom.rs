use http_codec::basic_combinator::{field_content, token, Matched};
use http_codec::http_combinator::{
    field_value, http_version, method, ows, reason_phrase, status_code,
};
use nom::branch::alt;
use nom::bytes::complete::{is_a, tag, take};
use nom::character::complete::{alpha1, digit1, space1};
use nom::combinator::{map_parser, opt, recognize};
use nom::multi::{many0, many1};
use nom::sequence::tuple;
use nom::IResult;

fn nom_tchar(input: &[u8]) -> IResult<&[u8], &[u8]> {
    map_parser(take(1usize), alt((is_a("!#$%&'*+-.^_`|~"), digit1, alpha1)))(input)
}

fn nom_token(input: &[u8]) -> IResult<&[u8], &[u8]> {
    recognize(many1(nom_tchar))(input)
}

fn nom_vchar(input: &[u8]) -> IResult<&[u8], &[u8]> {
    map_parser(take(1usize), nom::bytes::complete::take_while1(|b: u8| (0x21..=0x7e).contains(&b)))(
        input,
    )
}

fn nom_field_content(input: &[u8]) -> IResult<&[u8], &[u8]> {
    recognize(tuple((nom_vchar, opt(tuple((many1(alt((space1, tag("\t")))), nom_vchar))))))(input)
}

fn nom_field_value(input: &[u8]) -> IResult<&[u8], &[u8]> {
    recognize(many0(nom_field_content))(input)
}

fn nom_ows(input: &[u8]) -> IResult<&[u8], &[u8]> {
    recognize(many0(alt((space1, tag("\t")))))(input)
}

fn nom_reason_phrase(input: &[u8]) -> IResult<&[u8], &[u8]> {
    recognize(many0(alt((tag("\t"), tag(" "), nom_vchar))))(input)
}

fn nom_method(input: &[u8]) -> IResult<&[u8], &[u8]> {
    alt((
        tag("OPTIONS"),
        tag("GET"),
        tag("HEAD"),
        tag("POST"),
        tag("PUT"),
        tag("DELETE"),
        tag("TRACE"),
        tag("CONNECT"),
        tag("PATCH"),
    ))(input)
}

fn nom_http_version(input: &[u8]) -> IResult<&[u8], &[u8]> {
    recognize(tuple((tag("HTTP/"), digit1, tag("."), digit1)))(input)
}

fn nom_status_code(input: &[u8]) -> IResult<&[u8], &[u8]> {
    map_parser(take(3usize), digit1)(input)
}

const SAMPLES: [&[u8]; 24] = [
    b"",
    b"GET / HTTP/1.1\r\n",
    b"POST",
    b"PATCH /x",
    b"get",
    b"OPTION",
    b"HTTP/1.1\r\n",
    b"HTTP/233.12 Version",
    b"HTTP/1.",
    b"HTTP/.1",
    b"HTP/1.1",
    b"User-Agent: Mozilla/4.0 (compatible; MSIE5.01; Windows NT)\r\n",
    b"Mozilla/4.0 (compatible; MSIE5.01; Windows NT)\r\n",
    b"a b c",
    b"a  \t b",
    b" leading",
    b"\t\t x",
    b"trailing \r\n",
    b"200 OK\r\n",
    b"404",
    b"Not Found\r\n",
    b"!#$%&'*+-.^_`|~09AZaz:",
    b"x\x7fy",
    b"\r\n\r\n",
];

fn same(ours: Matched<'_>, theirs: IResult<&[u8], &[u8]>, input: &[u8]) {
    match (ours, theirs) {
        (Ok(a), Ok(b)) => assert_eq!(a, b, "on {:?}", input),
        (Err(_), Err(_)) => {}
        (a, b) => panic!("on {:?}: {:?} against {:?}", input, a, b),
    }
}

#[test]
fn token_agrees_with_the_combinators() {
    for input in SAMPLES {
        same(token(input), nom_token(input), input);
    }
}

#[test]
fn field_content_and_value_agree_with_the_combinators() {
    for input in SAMPLES {
        same(field_content(input), nom_field_content(input), input);
        same(field_value(input), nom_field_value(input), input);
    }
}

#[test]
fn blanks_and_reason_agree_with_the_combinators() {
    for input in SAMPLES {
        same(ows(input), nom_ows(input), input);
        same(reason_phrase(input), nom_reason_phrase(input), input);
    }
}

#[test]
fn method_and_version_agree_with_the_combinators() {
    for input in SAMPLES {
        same(method(input), nom_method(input), input);
        same(http_version(input), nom_http_version(input), input);
    }
}

#[test]
fn status_code_agrees_with_the_combinators_on_three_digits() {
    for input in [&b"200 OK"[..], b"404", b"1000", b"abc", b"", b"20", b"x12"] {
        same(status_code(input), nom_status_code(input), input);
    }
}
