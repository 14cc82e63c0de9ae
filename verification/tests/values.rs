use tcp_http_server::body::Body;
use tcp_http_server::http_version::HttpVersion;
use tcp_http_server::numbers::{parse_usize, usize_to_string};
use tcp_http_server::request::Request;
use tcp_http_server::response::Response;
use tcp_http_server::shared::RequestErrorEnum;
use tcp_http_server::status_codes::StatusCode;

#[test]
fn body_operations() {
    let mut b = Body::new();
    assert!(b.is_empty());
    b.extend(&vec![1, 2]);
    let mut more = vec![3u8];
    b.append(&mut more);
    assert!(more.is_empty());
    assert_eq!(b.as_bytes(), &[1, 2, 3]);
    assert_eq!(b.len(), 3);
    assert_eq!(Body::from_bytes(b"hi".to_vec()).to_string(), "hi");
    assert_eq!(Body::from_bytes(vec![b'a', 0xff]).to_string(), "a\u{fffd}");
}

#[test]
fn versions() {
    let v = HttpVersion::from_bytes(b"HTTP/2.0").unwrap();
    assert_eq!(v.major, "2");
    assert_eq!(v.minor, "0");
    assert_eq!(v.to_string(), "2.0");
    let v = HttpVersion::from_bytes(b"HTTP/1.1.1").unwrap();
    assert_eq!(v.minor, "1.1");
    for bad in [&b"HTTP/1"[..], b"HTTP/.1", b"HTTP/1.", b"HTTQ/1.1", b"HTT", b"HTTP/\xff.1"] {
        assert_eq!(HttpVersion::from_bytes(bad).err().map(|_| ()), Some(()));
    }
    assert_eq!(HttpVersion::default().to_string(), "1.1");
}

#[test]
fn numbers() {
    assert_eq!(parse_usize("13"), Some(13));
    assert_eq!(parse_usize("+7"), Some(7));
    assert_eq!(parse_usize("007"), Some(7));
    assert_eq!(parse_usize(""), None);
    assert_eq!(parse_usize("+"), None);
    assert_eq!(parse_usize("-1"), None);
    assert_eq!(parse_usize("1 "), None);
    assert_eq!(parse_usize("99999999999999999999999999"), None);
    assert_eq!(parse_usize(&usize::MAX.to_string()), Some(usize::MAX));
    for n in [0usize, 9, 10, 42, 1000, usize::MAX] {
        assert_eq!(usize_to_string(n), n.to_string());
        assert_eq!(parse_usize(&usize_to_string(n)), Some(n));
    }
}

#[test]
fn default_response_text() {
    let r = Response::default();
    assert_eq!(
        r.to_string(),
        "HTTP/1.1 200 OK\r\nContent-Length: 0\r\nConnection: close\r\nContent-Type: text/plain\r\n\r\n"
    );
    assert_eq!(StatusCode::Success.code(), 200);
    assert_eq!(StatusCode::NotFound.to_string(), "404 Not Found");
}

fn request(input: &[u8]) -> Request {
    Request::from_chunks(&vec![input.to_vec()]).unwrap()
}

#[test]
fn routing() {
    let ok = Response::for_request(request(b"GET / HTTP/1.1\r\nA: b\r\n\r\n").line);
    assert_eq!(ok.response_line.status_code, StatusCode::Success);
    let missing = Response::for_request(request(b"GET /nope HTTP/1.1\r\nA: b\r\n\r\n").line);
    assert_eq!(missing.response_line.status_code, StatusCode::NotFound);
    assert_eq!(missing.body.as_bytes(), b"Not Found");
    assert_eq!(
        missing.to_string(),
        "HTTP/1.1 404 Not Found\r\nContent-Length: 0\r\nConnection: close\r\nContent-Type: text/plain\r\ncontent-length: 9\r\n\r\nNot Found"
    );
    let post = Response::for_request(request(b"POST / HTTP/1.1\r\nA: b\r\n\r\n").line);
    assert_eq!(post.response_line.status_code, StatusCode::NotFound);
}

#[test]
fn incomplete_is_reported_by_kind() {
    assert_eq!(
        Request::from_chunks(&vec![b"GET / HTTP/1.1\r\n\r\n".to_vec()]).err(),
        Some(RequestErrorEnum::ParseError)
    );
}

#[test]
fn version_text_round_trip() {
    for text in [&b"HTTP/1.1"[..], b"HTTP/2.0", b"HTTP/10.22"] {
        let v = HttpVersion::from_bytes(text).unwrap();
        let shown = format!("HTTP/{}", v.to_string());
        assert_eq!(shown.as_bytes(), text);
        let again = HttpVersion::from_bytes(shown.as_bytes()).unwrap();
        assert_eq!((again.major, again.minor), (v.major, v.minor));
    }
}
