use tcp_http_server::request::{Method, Request, RequestLine, RequestParser};
use tcp_http_server::shared::RequestErrorEnum;

/// The chunks that a reader handing out at most `per_read` bytes at a time
/// delivers to a 1024-byte read buffer, the end marked by an empty chunk.
fn chunks_of(data: &[u8], per_read: usize) -> Vec<Vec<u8>> {
    let step = per_read.min(1024);
    let mut chunks: Vec<Vec<u8>> = data.chunks(step).map(|c| c.to_vec()).collect();
    chunks.push(Vec::new());
    chunks
}

#[test]
fn test_good_get_root() {
    let input = "GET / HTTP/1.1\r\nHost: localhost:42069\r\nUser-Agent: curl/7.81.0\r\nAccept: */*\r\n\r\n";
    let r = Request::from_chunks(&chunks_of(input.as_bytes(), 1024)).expect("should parse successfully");
    assert_eq!(r.line.method.to_string(), "GET");
    assert_eq!(r.line.request_target, "/");
    assert_eq!(r.line.http_version.major, "1");
    assert_eq!(r.line.http_version.minor, "1");
}

#[test]
fn test_good_get_path() {
    let input = "GET /coffee HTTP/1.1\r\nHost: localhost:42069\r\nUser-Agent: curl/7.81.0\r\nAccept: */*\r\n\r\n";
    let r = Request::from_chunks(&chunks_of(input.as_bytes(), 1024)).expect("should parse successfully");
    assert_eq!(r.line.method.to_string(), "GET");
    assert_eq!(r.line.request_target, "/coffee");
    assert_eq!(r.line.http_version.major, "1");
    assert_eq!(r.line.http_version.minor, "1");
}

#[test]
fn test_invalid_request_line() {
    let input = "/coffee HTTP/1.1\r\nHost: localhost:42069\r\nUser-Agent: curl/7.81.0\r\nAccept: */*\r\n\r\n";
    let result = Request::from_chunks(&chunks_of(input.as_bytes(), 1024));
    assert!(result.is_err());
}

#[test]
fn test_good_get_root_chunk() {
    let chunks = chunks_of(
        "GET / HTTP/1.1\r\nHost: localhost:42069\r\nUser-Agent: curl/7.81.0\r\nAccept: */*\r\n\r\n"
            .as_bytes(),
        3,
    );

    let req = Request::from_chunks(&chunks).expect("should parse successfully");

    assert_eq!(req.line.method.to_string(), "GET");
    assert_eq!(req.line.request_target, "/");
    assert_eq!(req.line.http_version.major, "1");
    assert_eq!(req.line.http_version.minor, "1");
}

#[test]
fn test_good_get_path_chunk() {
    let chunks = chunks_of(
        "GET /coffee HTTP/1.1\r\nHost: localhost:42069\r\nUser-Agent: curl/7.81.0\r\nAccept: */*\r\n\r\n"
            .as_bytes(),
        1,
    );

    let req = Request::from_chunks(&chunks).expect("should parse successfully");

    assert_eq!(req.line.method.to_string(), "GET");
    assert_eq!(req.line.request_target, "/coffee");
    assert_eq!(req.line.http_version.major, "1");
    assert_eq!(req.line.http_version.minor, "1");
}

#[test]
fn test_request_body_with_context_length() {
    let data = b"POST /submit HTTP/1.1\r\nHost: localhost:42069\r\nContent-Length: 13\r\n\r\nhello world!\n"
        .to_vec();
    let chunks = chunks_of(&data, 3);

    let r = Request::from_chunks(&chunks).expect("should parse successfully");
    assert_eq!(r.body.as_bytes(), b"hello world!\n");
}

#[test]
fn test_request_no_context_length() {
    let data2 = b"POST /submit HTTP/1.1\r\nHost: localhost:42069\r\nContent-Length: 20\r\n\r\npartial content"
        .to_vec();
    let chunks2 = chunks_of(&data2, 3);

    let r2 = Request::from_chunks(&chunks2);
    assert!(
        r2.is_err(),
        "should fail because body is shorter than Content-Length"
    );
}

#[test]
fn nothing_to_read() {
    assert_eq!(Request::from_chunks(&vec![]).err(), Some(RequestErrorEnum::NoRequestToRead));
    assert_eq!(Request::from_chunks(&vec![vec![]]).err(), Some(RequestErrorEnum::NoRequestToRead));
}

#[test]
fn cut_short_is_parse_error() {
    let chunks = chunks_of(b"GET / HTTP/1.1\r\nHost: x\r\n", 4);
    assert_eq!(Request::from_chunks(&chunks).err(), Some(RequestErrorEnum::ParseError));
}

#[test]
fn request_errors_by_kind() {
    let cases: Vec<(&[u8], RequestErrorEnum)> = vec![
        (b"FETCH / HTTP/1.1\r\n\r\n", RequestErrorEnum::MethodNotFound),
        (b"GET / HTTP/1.0\r\nA: b\r\n\r\n", RequestErrorEnum::IncompatibleVersion),
        (b"GET / HTTP/11\r\nA: b\r\n\r\n", RequestErrorEnum::HttpVersionParseError),
        (b"GET /  HTTP/1.1\r\nA: b\r\n\r\n", RequestErrorEnum::ParseError),
        (b"GET / HTTP/1.1\r\nA@: b\r\n\r\n", RequestErrorEnum::MalFormedHeader),
        (b"GET / HTTP/1.1\r\nContent-Length: x\r\n\r\n", RequestErrorEnum::ParseError),
    ];
    for (input, expected) in cases {
        assert_eq!(Request::from_chunks(&chunks_of(input, 1024)).err(), Some(expected));
    }
}

#[test]
fn chunking_does_not_change_the_outcome() {
    let data = b"POST /a HTTP/1.1\r\nContent-Length: 5\r\nX: y\r\n\r\nhelloEXTRA";
    for size in [1usize, 2, 5, 7, 1024] {
        let r = Request::from_chunks(&chunks_of(data, size)).expect("should parse");
        assert_eq!(r.line.method, Method::Post);
        assert_eq!(r.line.request_target, "/a");
        assert_eq!(r.body.as_bytes(), b"hello");
        assert_eq!(r.headers.get("x"), Some("y"));
    }
}

#[test]
fn zero_length_and_missing_length_mean_no_body() {
    let r = Request::from_chunks(&chunks_of(b"GET / HTTP/1.1\r\nContent-Length: 0\r\n\r\nabc", 2)).unwrap();
    assert!(r.body.is_empty());
    let r = Request::from_chunks(&chunks_of(b"GET / HTTP/1.1\r\nA: b\r\n\r\nabc", 2)).unwrap();
    assert_eq!(r.body.len(), 0);
    let r = Request::from_chunks(&chunks_of(b"GET / HTTP/1.1\r\nContent-Length: +003\r\n\r\nabcdef", 2)).unwrap();
    assert_eq!(r.body.as_bytes(), b"abc");
}

#[test]
fn request_line_alone() {
    let (line, n) = RequestLine::parse_request_line(b"PATCH /x?y=1 HTTP/1.1\r\nrest").unwrap();
    assert_eq!(line.method, Method::Patch);
    assert_eq!(line.request_target, "/x?y=1");
    assert_eq!(n, 23);
    assert_eq!(
        RequestLine::parse_request_line(b"GET / HTTP/1.1").err(),
        Some(RequestErrorEnum::IncompleteRequest)
    );
}

#[test]
fn methods() {
    assert_eq!(Method::from_string("GET"), Ok(Method::Get));
    assert_eq!(Method::from_string("OPTION"), Ok(Method::Option));
    assert_eq!(Method::from_string("Head"), Ok(Method::Head));
    assert_eq!(Method::from_string("HEAD"), Err(RequestErrorEnum::MethodNotFound));
    assert_eq!(Method::from_bytes(b"DELETE"), Ok(Method::Delete));
    assert_eq!(Method::from_bytes(b"get"), Err(RequestErrorEnum::MethodNotFound));
    for m in [Method::Get, Method::Post, Method::Patch, Method::Delete, Method::Option] {
        assert_eq!(Method::from_string(&m.to_string()), Ok(m));
    }
    assert_eq!(Method::Head.to_string(), "HEAD");
}

#[test]
fn parser_fed_by_hand() {
    let mut p = RequestParser::new();
    p.feed(b"GET / HT");
    assert!(matches!(p.advance(), Ok(None)));
    p.feed(b"TP/1.1\r\nHost");
    assert!(!p.header_line_without_colon());
    assert!(matches!(p.advance(), Ok(None)));
    p.feed(b"\r\n\r\n");
    assert!(p.header_line_without_colon());
}

#[test]
fn method_bytes_and_text_agree() {
    for text in ["GET", "POST", "PATCH", "DELETE", "OPTION", "Head", "HEAD", "get", "", "GETX"] {
        assert_eq!(Method::from_string(text), Method::from_bytes(text.as_bytes()));
    }
    for m in [Method::Get, Method::Post, Method::Patch, Method::Delete, Method::Option] {
        assert_eq!(Method::from_bytes(m.to_string().as_bytes()), Ok(m));
    }
}
