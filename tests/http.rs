use http_core::headers::Headers;
use http_core::method::Method;
use http_core::request::{ParseError, Request};
use http_core::response::Response;
use http_core::router::{after_read, after_write, route, Action, Config, FileRead};
use http_core::wire::parse_response;

fn no_root() -> Config {
    Config { address: b"127.0.0.1".to_vec(), port: 4221, static_files: None }
}

fn with_root(dir: &str) -> Config {
    Config { address: b"127.0.0.1".to_vec(), port: 4221, static_files: Some(dir.as_bytes().to_vec()) }
}

fn reply(a: Action) -> Response {
    match a {
        Action::Reply(r) => r,
        _ => panic!("expected a direct reply"),
    }
}

fn header(r: &Response, name: &str) -> Option<Vec<u8>> {
    r.headers.get(name.as_bytes())
}

fn answer(input: &[u8], config: &Config) -> Vec<u8> {
    let req = Request::parse(input).unwrap();
    let mut resp = reply(route(&req, config));
    resp.send(&req)
}

#[test]
fn parses_a_get_request() {
    let req = Request::parse(b"GET /index.html HTTP/1.1\r\nHost: localhost:4221\r\nAccept: */*\r\n\r\n").unwrap();
    assert_eq!(req.method, Method::Get);
    assert_eq!(req.path, b"/index.html".to_vec());
    assert_eq!(req.headers.get(b"Host"), Some(b"localhost:4221".to_vec()));
    assert_eq!(req.headers.get(b"Accept"), Some(b"*/*".to_vec()));
    assert_eq!(req.headers.len(), 2);
    assert!(req.body.is_empty());
}

#[test]
fn method_is_case_insensitive() {
    assert_eq!(Method::from(b"get"), Some(Method::Get));
    assert_eq!(Method::from(b"PoSt"), Some(Method::Post));
    assert_eq!(Method::from(b"PUT"), Some(Method::Put));
    assert_eq!(Method::from(b"DELETE"), None);
    assert_eq!(Method::from(b"gett"), None);
}

#[test]
fn unknown_method_is_rejected() {
    assert_eq!(Request::parse(b"DELETE / HTTP/1.1\r\n\r\n").err(), Some(ParseError::UnknownMethod));
}

#[test]
fn request_line_must_have_three_words() {
    assert_eq!(Request::parse(b"GET\r\n\r\n").err(), Some(ParseError::BadRequestLine));
    assert_eq!(Request::parse(b"GET /\r\n\r\n").err(), Some(ParseError::BadRequestLine));
    assert_eq!(Request::parse(b"GET / HTTP/1.1 extra\r\n\r\n").err(), Some(ParseError::BadRequestLine));
    assert_eq!(Request::parse(b"").err(), Some(ParseError::BadRequestLine));
}

#[test]
fn header_without_separator_is_rejected() {
    assert_eq!(Request::parse(b"GET / HTTP/1.1\r\nNoSeparator\r\n\r\n").err(), Some(ParseError::BadHeader));
    assert_eq!(Request::parse(b"GET / HTTP/1.1\r\nName:value\r\n\r\n").err(), Some(ParseError::BadHeader));
}

#[test]
fn later_header_wins_and_values_are_trimmed() {
    let req = Request::parse(b"GET / HTTP/1.1\r\nX:  one \r\nY: y\r\nX: two\r\n\r\n").unwrap();
    assert_eq!(req.headers.get(b"X"), Some(b"two".to_vec()));
    assert_eq!(req.headers.len(), 2);
    assert_eq!(req.headers.entries[0].0, b"X".to_vec());
}

#[test]
fn end_of_input_ends_the_headers() {
    let req = Request::parse(b"GET / HTTP/1.1\r\nHost: a").unwrap();
    assert_eq!(req.headers.get(b"Host"), Some(b"a".to_vec()));
}

#[test]
fn post_body_follows_content_length() {
    let req = Request::parse(b"POST /files/new.txt HTTP/1.1\r\nContent-Length: 3\r\n\r\nabcdef").unwrap();
    assert_eq!(req.method, Method::Post);
    assert_eq!(req.body, b"abc".to_vec());
    let req = Request::parse(b"PUT /x HTTP/1.1\r\nContent-Length: +2\r\n\r\nabc").unwrap();
    assert_eq!(req.body, b"ab".to_vec());
}

#[test]
fn missing_or_bad_content_length_means_no_body() {
    let req = Request::parse(b"POST /x HTTP/1.1\r\n\r\nabc").unwrap();
    assert!(req.body.is_empty());
    let req = Request::parse(b"POST /x HTTP/1.1\r\nContent-Length: ten\r\n\r\nabc").unwrap();
    assert!(req.body.is_empty());
    let req = Request::parse(b"POST /x HTTP/1.1\r\nContent-Length: -1\r\n\r\nabc").unwrap();
    assert!(req.body.is_empty());
    let req = Request::parse(b"POST /x HTTP/1.1\r\nContent-Length: 99999999999999999999999\r\n\r\nabc").unwrap();
    assert!(req.body.is_empty());
}

#[test]
fn get_ignores_content_length() {
    let req = Request::parse(b"GET /x HTTP/1.1\r\nContent-Length: 3\r\n\r\n").unwrap();
    assert!(req.body.is_empty());
}

#[test]
fn short_body_is_rejected() {
    assert_eq!(
        Request::parse(b"POST /x HTTP/1.1\r\nContent-Length: 5\r\n\r\nab").err(),
        Some(ParseError::ShortBody)
    );
}

#[test]
fn expected_body_len_reads_the_head() {
    assert_eq!(Request::expected_body_len(b"POST /x HTTP/1.1\r\nContent-Length: 12\r\n\r\n"), Ok(12));
    assert_eq!(Request::expected_body_len(b"GET /x HTTP/1.1\r\nContent-Length: 12\r\n\r\n"), Ok(0));
    assert_eq!(Request::expected_body_len(b"BREW /x HTTP/1.1\r\n\r\n"), Err(ParseError::UnknownMethod));
}

#[test]
fn supported_encodings_split_at_commas() {
    let req = Request::parse(b"GET / HTTP/1.1\r\nAccept-Encoding: gzip, deflate\r\n\r\n").unwrap();
    assert_eq!(req.supported_encodings(), vec![b"gzip".to_vec(), b" deflate".to_vec()]);
    let req = Request::parse(b"GET / HTTP/1.1\r\n\r\n").unwrap();
    assert!(req.supported_encodings().is_empty());
}

#[test]
fn empty_response_bytes() {
    let r = Response::new();
    assert_eq!(r.to_bytes(), b"HTTP/1.1 200 OK\r\nContent-Length: 0\r\n\r\n".to_vec());
}

#[test]
fn reason_phrases() {
    let cases: [(u16, &str); 5] = [
        (200, "OK"),
        (201, "Created"),
        (400, "Bad Request"),
        (404, "Not Found"),
        (500, "Internal Server Error"),
    ];
    for (code, text) in cases {
        let bytes = Response::new().status(code).to_bytes();
        let expected = format!("HTTP/1.1 {} {}\r\nContent-Length: 0\r\n\r\n", code, text);
        assert_eq!(bytes, expected.into_bytes());
    }
}

#[test]
fn builder_overwrites_and_sizes_the_body() {
    let r = Response::new()
        .header(b"A", b"1")
        .header(b"A", b"2")
        .body(b"first")
        .body(b"hello world");
    assert_eq!(
        r.to_bytes(),
        b"HTTP/1.1 200 OK\r\nA: 2\r\nContent-Length: 11\r\n\r\nhello world".to_vec()
    );
}

#[test]
fn root_is_empty_ok() {
    assert_eq!(
        answer(b"GET / HTTP/1.1\r\nHost: a\r\n\r\n", &no_root()),
        b"HTTP/1.1 200 OK\r\nContent-Length: 0\r\n\r\n".to_vec()
    );
}

#[test]
fn echo_returns_the_rest_of_the_path() {
    assert_eq!(
        answer(b"GET /echo/abc HTTP/1.1\r\n\r\n", &no_root()),
        b"HTTP/1.1 200 OK\r\nContent-Type: text/plain\r\nContent-Length: 3\r\n\r\nabc".to_vec()
    );
    let req = Request::parse(b"GET /echo/a/b%20c HTTP/1.1\r\n\r\n").unwrap();
    let r = reply(route(&req, &no_root()));
    assert_eq!(r.body, b"a/b%20c".to_vec());
    let req = Request::parse(b"GET /echo/ HTTP/1.1\r\n\r\n").unwrap();
    let r = reply(route(&req, &no_root()));
    assert_eq!(r.status, 200);
    assert!(r.body.is_empty());
}

#[test]
fn user_agent_is_reflected() {
    assert_eq!(
        answer(b"GET /user-agent HTTP/1.1\r\nUser-Agent: foo/1.0\r\n\r\n", &no_root()),
        b"HTTP/1.1 200 OK\r\nContent-Type: text/plain\r\nContent-Length: 7\r\n\r\nfoo/1.0".to_vec()
    );
    assert_eq!(
        answer(b"GET /user-agent HTTP/1.1\r\n\r\n", &no_root()),
        b"HTTP/1.1 200 OK\r\nContent-Type: text/plain\r\nContent-Length: 0\r\n\r\n".to_vec()
    );
}

#[test]
fn files_without_root_are_not_found() {
    for input in [
        &b"GET /files/hello.txt HTTP/1.1\r\n\r\n"[..],
        &b"POST /files/new.txt HTTP/1.1\r\nContent-Length: 3\r\n\r\nabc"[..],
    ] {
        let req = Request::parse(input).unwrap();
        let r = reply(route(&req, &no_root()));
        assert_eq!(r.status, 404);
    }
}

#[test]
fn unknown_path_is_not_found() {
    let req = Request::parse(b"GET /nothing HTTP/1.1\r\n\r\n").unwrap();
    assert_eq!(reply(route(&req, &with_root("/srv"))).status, 404);
}

#[test]
fn file_get_reads_under_the_root() {
    let req = Request::parse(b"GET /files/hello.txt HTTP/1.1\r\n\r\n").unwrap();
    match route(&req, &with_root("/srv/data")) {
        Action::ReadFile(p) => assert_eq!(p, b"/srv/data/hello.txt".to_vec()),
        _ => panic!("expected a file read"),
    }
    let r = after_read(FileRead::Contents(b"world".to_vec()));
    assert_eq!(r.status, 200);
    assert_eq!(header(&r, "Content-Type"), Some(b"application/octet-stream".to_vec()));
    assert_eq!(r.body, b"world".to_vec());
    let r = after_read(FileRead::Missing);
    assert_eq!(r.status, 404);
    assert!(r.body.is_empty());
}

#[test]
fn file_read_failure_is_500() {
    let r = after_read(FileRead::Failed(b"permission denied".to_vec()));
    assert_eq!(r.status, 500);
    assert_eq!(r.body, b"failed to read file: permission denied".to_vec());
}

#[test]
fn file_post_writes_the_body() {
    let req = Request::parse(b"POST /files/new.txt HTTP/1.1\r\nContent-Length: 3\r\n\r\nabc").unwrap();
    match route(&req, &with_root("/srv/data")) {
        Action::WriteFile(p, b) => {
            assert_eq!(p, b"/srv/data/new.txt".to_vec());
            assert_eq!(b, b"abc".to_vec());
        }
        _ => panic!("expected a file write"),
    }
    let r = after_write();
    assert_eq!(r.status, 201);
    assert_eq!(r.to_bytes(), b"HTTP/1.1 201 Created\r\nContent-Length: 0\r\n\r\n".to_vec());
}

#[test]
fn file_put_is_bad_request() {
    let req = Request::parse(b"PUT /files/new.txt HTTP/1.1\r\nContent-Length: 3\r\n\r\nabc").unwrap();
    assert_eq!(reply(route(&req, &with_root("/srv/data"))).status, 400);
}

#[test]
fn gzip_is_announced_when_asked() {
    let out = answer(b"GET /echo/x HTTP/1.1\r\nAccept-Encoding: gzip, deflate\r\n\r\n", &no_root());
    assert_eq!(
        out,
        b"HTTP/1.1 200 OK\r\nContent-Type: text/plain\r\nContent-Encoding: gzip\r\nContent-Length: 1\r\n\r\nx".to_vec()
    );
    let out = answer(b"GET /echo/x HTTP/1.1\r\nAccept-Encoding: deflate\r\n\r\n", &no_root());
    assert_eq!(out, b"HTTP/1.1 200 OK\r\nContent-Type: text/plain\r\nContent-Length: 1\r\n\r\nx".to_vec());
    let out = answer(b"GET / HTTP/1.1\r\nAccept-Encoding: deflate, gzip\r\n\r\n", &no_root());
    assert_eq!(out, b"HTTP/1.1 200 OK\r\nContent-Length: 0\r\n\r\n".to_vec());
}

#[test]
fn existing_encoding_is_kept() {
    let req = Request::parse(b"GET / HTTP/1.1\r\nAccept-Encoding: gzip\r\n\r\n").unwrap();
    let mut r = Response::new().header(b"Content-Encoding", b"br");
    r.append_own_headers(&req);
    assert_eq!(header(&r, "Content-Encoding"), Some(b"br".to_vec()));
    assert_eq!(r.headers.len(), 1);
}

#[test]
fn same_request_same_bytes() {
    let input = b"GET /echo/same HTTP/1.1\r\nUser-Agent: t\r\nAccept-Encoding: gzip\r\n\r\n";
    assert_eq!(answer(input, &no_root()), answer(input, &no_root()));
}

#[test]
fn headers_keep_first_position() {
    let mut h = Headers::new();
    h.insert(b"B", b"1");
    h.insert(b"A", b"2");
    h.insert(b"B", b"3");
    assert_eq!(h.entries, vec![(b"B".to_vec(), b"3".to_vec()), (b"A".to_vec(), b"2".to_vec())]);
    assert_eq!(h.get(b"C"), None);
}

#[test]
fn response_reads_back() {
    let r = Response::new()
        .status(404)
        .header(b"Content-Type", b"text/plain")
        .header(b"X-Note", b"a: b")
        .body(b"not here");
    let bytes = r.to_bytes();
    let (code, headers, body) = parse_response(&bytes).unwrap();
    assert_eq!(code, 404);
    assert_eq!(body, b"not here".to_vec());
    assert_eq!(headers.get(b"Content-Type"), Some(b"text/plain".to_vec()));
    assert_eq!(headers.get(b"X-Note"), Some(b"a: b".to_vec()));
    assert_eq!(headers.get(b"Content-Length"), Some(b"8".to_vec()));
    assert_eq!(headers.len(), 3);
}

#[test]
fn response_reading_rejects_bad_input() {
    assert!(parse_response(b"HTTP/1.0 200 OK\r\n\r\n").is_none());
    assert!(parse_response(b"HTTP/1.1 2x0 OK\r\n\r\n").is_none());
    assert!(parse_response(b"HTTP/1.1 200 OK\r\nContent-Length: 4\r\n\r\nab").is_none());
    assert!(parse_response(b"HTTP/1.1 200 OK\r\nbroken\r\n\r\n").is_none());
    let (code, _, body) = parse_response(b"HTTP/1.1 201 Created\r\n\r\nignored").unwrap();
    assert_eq!(code, 201);
    assert!(body.is_empty());
}
