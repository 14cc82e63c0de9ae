use tcp_http_server::headers::Headers;
use tcp_http_server::shared::RequestErrorEnum;

#[test]
fn test_valid_single_header() {
    let mut headers = Headers::new();
    let data = b"Host: localhost:42069\r\n\r\n";

    let n = headers.parse(data).expect("should parse");
    assert_eq!(headers.get("Host").unwrap(), "localhost:42069");
    assert_eq!(n, 23);
}

#[test]
fn test_invalid_spacing_header() {
    let mut headers = Headers::new();
    let data = b"       Host : localhost:42069       \r\n\r\n";

    let result = headers.parse(data);
    assert!(result.is_err());
}

#[test]
fn test_valid_single_header_with_white_space() {
    let mut headers = Headers::new();
    let data = b"Host: localhost:333      \r\n\r\n";

    let n = headers.parse(data).expect("Shold parser");
    assert_eq!(headers.get("Host").unwrap(), "localhost:333");
    assert_eq!(n, 27);
}

#[test]
fn test_valid_multi_headers() {
    let mut headers = Headers::new();
    let data = b"Host: localhost:333      \r\nContent-Length: xyz\r\nName: Bishoy\r\n\r\n";

    let n = headers.parse(data).expect("Shold parser");
    assert_eq!(headers.get("Host").unwrap(), "localhost:333");
    assert_eq!(headers.get("Content-Length").unwrap(), "xyz");
    assert_eq!(headers.get("Name").unwrap(), "Bishoy");
    assert_eq!(n, 62);
}

#[test]
fn test_valid_not_done_headers() {
    let mut headers = Headers::new();
    let data = b"Host: localhost:322 \r\n Host123: 231";

    let n = headers.parse(data);
    assert!(n.is_err());
    assert!(matches!(
        n.err().unwrap(),
        RequestErrorEnum::IncompleteRequest
    ));
}

#[test]
fn test_invalid_header_token() {
    let mut headers = Headers::new();

    let data = b"Ho@st: localhost:42069\r\n\r\n";
    let result = headers.parse(data);
    assert!(result.is_err());

    let data = b"Invalid-\xA9Token: localhost:12345\r\n\r\n";
    let result = headers.parse(data);
    assert!(result.is_err());
}

#[test]
fn test_multiple_same_headers() {
    let mut headers = Headers::new();
    let data = b"Cookie: cookie1=value1\r\nCookie: cookie2=value2\r\n\r\n";

    let n = headers.parse(data).expect("should parse");
    assert_eq!(
        headers.get("Cookie").unwrap(),
        "cookie1=value1, cookie2=value2"
    );
    assert_eq!(n, 48);
}

#[test]
fn invalid_token_is_malformed_header() {
    let mut headers = Headers::new();
    let result = headers.parse(b"Ho@st: x\r\n\r\n");
    assert_eq!(result, Err(RequestErrorEnum::MalFormedHeader));
}

#[test]
fn invalid_utf8_block_is_parse_error() {
    let mut headers = Headers::new();
    let result = headers.parse(b"Invalid-\xA9Token: x\r\n\r\n");
    assert_eq!(result, Err(RequestErrorEnum::ParseError));
}

#[test]
fn space_before_colon_is_parse_error() {
    let mut headers = Headers::new();
    assert_eq!(headers.parse(b"Host : x\r\n\r\n"), Err(RequestErrorEnum::ParseError));
    assert_eq!(headers.parse(b": x\r\n\r\n"), Err(RequestErrorEnum::ParseError));
}

#[test]
fn lines_before_a_refused_line_stay_set() {
    let mut headers = Headers::new();
    let result = headers.parse(b"A: 1\r\nB@: 2\r\n\r\n");
    assert_eq!(result, Err(RequestErrorEnum::MalFormedHeader));
    assert_eq!(headers.get("a"), Some("1"));
    assert!(!headers.contains_key("b@"));
}

#[test]
fn names_are_looked_up_lowercased() {
    let mut headers = Headers::new();
    headers.set("X-Thing", "one");
    assert_eq!(headers.get("x-thing"), Some("one"));
    assert_eq!(headers.get("X-THING"), Some("one"));
    assert!(headers.contains_key("x-THING"));
    assert!(!headers.contains_key("other"));
    assert_eq!(headers.pairs()[0].0, "x-thing");
}

#[test]
fn set_joins_values_and_keeps_others() {
    let mut headers = Headers::new();
    headers.set("a", "1");
    headers.set("b", "2");
    headers.set("A", "3");
    assert_eq!(headers.get("a"), Some("1, 3"));
    assert_eq!(headers.get("b"), Some("2"));
    assert_eq!(headers.pairs().len(), 2);
}

#[test]
fn blank_and_whitespace_lines_are_skipped() {
    let data = b"  \t \r\nX:\t v \r\n\r\nbody";
    let (headers, n) = Headers::new_from_data(data).expect("should parse");
    assert_eq!(headers.get("x"), Some("v"));
    assert_eq!(n, 14);
}

#[test]
fn empty_value_and_colons_in_value() {
    let (headers, _) = Headers::new_from_data(b"A:\r\nB: x:y:z\r\n\r\n").expect("should parse");
    assert_eq!(headers.get("a"), Some(""));
    assert_eq!(headers.get("b"), Some("x:y:z"));
}

#[test]
fn a_name_without_colon_is_flagged() {
    assert!(Headers::parse_panics(b"Host\r\n\r\n"));
    assert!(!Headers::parse_panics(b"Host: x\r\n\r\n"));
    assert!(!Headers::parse_panics(b"Ho st\r\n\r\n"));
}

#[test]
fn default_headers() {
    let headers = Headers::default();
    let pairs = headers.pairs();
    assert_eq!(pairs.len(), 3);
    assert_eq!(pairs[0], ("Content-Length".to_string(), "0".to_string()));
    assert_eq!(pairs[1], ("Connection".to_string(), "close".to_string()));
    assert_eq!(pairs[2], ("Content-Type".to_string(), "text/plain".to_string()));
    // stored under their written names, which `get` does not find
    assert_eq!(headers.get("Content-Length"), None);
}

#[test]
fn bytes_after_the_blank_line_are_not_read() {
    let mut a = Headers::new();
    let mut b = Headers::new();
    let na = a.parse(b"K: v\r\n\r\nrest of body").unwrap();
    let nb = b.parse(b"K: v\r\n\r\n\xff\xfe other").unwrap();
    assert_eq!(na, nb);
    assert_eq!(a.get("k"), b.get("k"));
    let (c, nc) = Headers::new_from_data(b"K: v\r\n\r\n").unwrap();
    assert_eq!(nc, na);
    assert_eq!(c.get("K"), Some("v"));
}
