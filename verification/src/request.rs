//! The request: its method, its request line, and the parser that reads a
//! whole request (line, headers, body) from the bytes received so far.
use vstd::prelude::*;
use vstd::slice::slice_subrange;
use vstd::utf8::*;
use vstd::string::StringExecFns;
use crate::shared::{RequestErrorEnum, separator};
use crate::text::{scan_to, first_index, first_window, chars_of, find_byte, find_line_break,
    str_from_utf8, lemma_str_of_utf8, is_single_char, lemma_encode_ascii};
pub use crate::http_version::HttpVersion;
use crate::http_version::version_spec;
use crate::headers::{Headers, Entries, LinesOutcome, header_block_spec, header_block_len, lookup,
    lowercase};
use crate::body::Body;
use crate::numbers::{parse_usize_spec, parse_usize};
use crate::text::{lemma_window_from_extend, lemma_window_from, occurs_at, lemma_window_first,
    lemma_scan_to_first, lemma_scan_to_none};
use crate::http_version::http_prefix;
use crate::shared::crlf_crlf;

verus! {

/// The request methods this server knows.
#[derive(Debug, Clone, Copy, PartialEq, Eq, Structural)]
pub enum Method {
    Get,
    Post,
    Patch,
    Delete,
    Option,
    Head,
}

/// The name a method is written with (its `Display`).
pub open spec fn method_name(m: Method) -> Seq<char> {
    match m {
        Method::Get => seq!['G', 'E', 'T'],
        Method::Post => seq!['P', 'O', 'S', 'T'],
        Method::Patch => seq!['P', 'A', 'T', 'C', 'H'],
        Method::Delete => seq!['D', 'E', 'L', 'E', 'T', 'E'],
        Method::Option => seq!['O', 'P', 'T', 'I', 'O', 'N'],
        Method::Head => seq!['H', 'E', 'A', 'D'],
    }
}

/// The method that `Method::from_string` recognises in `s`: one of
/// `GET`, `POST`, `PATCH`, `DELETE`, `OPTION` and `Head` (in that spelling).
pub open spec fn method_of_text(s: Seq<char>) -> Option<Method> {
    if s == seq!['G', 'E', 'T'] {
        Some(Method::Get)
    } else if s == seq!['P', 'O', 'S', 'T'] {
        Some(Method::Post)
    } else if s == seq!['P', 'A', 'T', 'C', 'H'] {
        Some(Method::Patch)
    } else if s == seq!['D', 'E', 'L', 'E', 'T', 'E'] {
        Some(Method::Delete)
    } else if s == seq!['O', 'P', 'T', 'I', 'O', 'N'] {
        Some(Method::Option)
    } else if s == seq!['H', 'e', 'a', 'd'] {
        Some(Method::Head)
    } else {
        None
    }
}

/// The method that `Method::from_bytes` recognises: the ASCII bytes of the
/// names that `method_of_text` recognises.
pub open spec fn method_of_bytes(s: Seq<u8>) -> Option<Method> {
    if s == seq![71u8, 69u8, 84u8] {
        Some(Method::Get)
    } else if s == seq![80u8, 79u8, 83u8, 84u8] {
        Some(Method::Post)
    } else if s == seq![80u8, 65u8, 84u8, 67u8, 72u8] {
        Some(Method::Patch)
    } else if s == seq![68u8, 69u8, 76u8, 69u8, 84u8, 69u8] {
        Some(Method::Delete)
    } else if s == seq![79u8, 80u8, 84u8, 73u8, 79u8, 78u8] {
        Some(Method::Option)
    } else if s == seq![72u8, 101u8, 97u8, 100u8] {
        Some(Method::Head)
    } else {
        None
    }
}

/// Law: reading back the name of a method gives the method again, for every
/// method but `Head`, which is written `HEAD` but read only as `Head`.
pub proof fn lemma_method_name_roundtrip(m: Method)
    requires
        m != Method::Head,
    ensures
        method_of_text(method_name(m)) == Some(m),
{
    let g = seq!['G', 'E', 'T'];
    let po = seq!['P', 'O', 'S', 'T'];
    let pa = seq!['P', 'A', 'T', 'C', 'H'];
    let de = seq!['D', 'E', 'L', 'E', 'T', 'E'];
    let op = seq!['O', 'P', 'T', 'I', 'O', 'N'];
    assert(po.len() != g.len());
    assert(pa.len() != g.len() && pa.len() != po.len());
    assert(de.len() != g.len() && de.len() != po.len() && de.len() != pa.len());
    assert(op.len() != g.len() && op.len() != po.len() && op.len() != pa.len());
    assert(op[0] != de[0]);
}

/// Each method name that is read encodes to the bytes that are read for it.
proof fn lemma_method_literals()
    ensures
        encode_utf8(seq!['G', 'E', 'T']) == seq![71u8, 69u8, 84u8],
        encode_utf8(seq!['P', 'O', 'S', 'T']) == seq![80u8, 79u8, 83u8, 84u8],
        encode_utf8(seq!['P', 'A', 'T', 'C', 'H']) == seq![80u8, 65u8, 84u8, 67u8, 72u8],
        encode_utf8(seq!['D', 'E', 'L', 'E', 'T', 'E']) == seq![68u8, 69u8, 76u8, 69u8, 84u8, 69u8],
        encode_utf8(seq!['O', 'P', 'T', 'I', 'O', 'N']) == seq![79u8, 80u8, 84u8, 73u8, 79u8, 78u8],
        encode_utf8(seq!['H', 'e', 'a', 'd']) == seq![72u8, 101u8, 97u8, 100u8],
{
    lemma_encode_ascii(seq!['G', 'E', 'T'], seq![71u8, 69u8, 84u8]);
    lemma_encode_ascii(seq!['P', 'O', 'S', 'T'], seq![80u8, 79u8, 83u8, 84u8]);
    lemma_encode_ascii(seq!['P', 'A', 'T', 'C', 'H'], seq![80u8, 65u8, 84u8, 67u8, 72u8]);
    lemma_encode_ascii(
        seq!['D', 'E', 'L', 'E', 'T', 'E'],
        seq![68u8, 69u8, 76u8, 69u8, 84u8, 69u8],
    );
    lemma_encode_ascii(
        seq!['O', 'P', 'T', 'I', 'O', 'N'],
        seq![79u8, 80u8, 84u8, 73u8, 79u8, 78u8],
    );
    lemma_encode_ascii(seq!['H', 'e', 'a', 'd'], seq![72u8, 101u8, 97u8, 100u8]);
}

/// `encode_utf8(s) == encode_utf8(t)` exactly when `s == t`.
proof fn lemma_encode_utf8_injective(s: Seq<char>, t: Seq<char>)
    ensures
        (encode_utf8(s) == encode_utf8(t)) == (s == t),
{
    encode_utf8_decode_utf8(s);
    encode_utf8_decode_utf8(t);
}

/// Law: `Method::from_string` on a text and `Method::from_bytes` on its
/// UTF-8 bytes recognise the same method, or both none.
pub proof fn lemma_method_text_bytes_agree(s: Seq<char>)
    ensures
        method_of_bytes(encode_utf8(s)) == method_of_text(s),
{
    lemma_method_literals();
    lemma_encode_utf8_injective(s, seq!['G', 'E', 'T']);
    lemma_encode_utf8_injective(s, seq!['P', 'O', 'S', 'T']);
    lemma_encode_utf8_injective(s, seq!['P', 'A', 'T', 'C', 'H']);
    lemma_encode_utf8_injective(s, seq!['D', 'E', 'L', 'E', 'T', 'E']);
    lemma_encode_utf8_injective(s, seq!['O', 'P', 'T', 'I', 'O', 'N']);
    lemma_encode_utf8_injective(s, seq!['H', 'e', 'a', 'd']);
}

/// Law: reading back the UTF-8 bytes of a method's name gives the method
/// again, for every method but `Head` (written `HEAD`, read only as `Head`).
pub proof fn lemma_method_bytes_roundtrip(m: Method)
    requires
        m != Method::Head,
    ensures
        method_of_bytes(encode_utf8(method_name(m))) == Some(m),
{
    lemma_method_name_roundtrip(m);
    lemma_method_text_bytes_agree(method_name(m));
}

/// Whether `s` holds exactly the bytes of `t`.
fn bytes_are(s: &[u8], t: &[u8]) -> (res: bool)
    ensures
        res == (s@ == t@),
{
    if s.len() != t.len() {
        return false;
    }
    let n = s.len();
    let mut i: usize = 0;
    while i < n
        invariant
            n == s@.len() == t@.len(),
            0 <= i <= n,
            forall|j: int| 0 <= j < i ==> s@[j] == t@[j],
        decreases n - i,
    {
        if s[i] != t[i] {
            return false;
        }
        i = i + 1;
    }
    assert(s@ =~= t@);
    true
}

/// Whether `s` holds exactly the characters of `t`.
fn chars_are(s: &Vec<char>, t: &str) -> (res: bool)
    ensures
        res == (s@ == t@),
{
    let tc = chars_of(t);
    if s.len() != tc.len() {
        return false;
    }
    let n = s.len();
    let mut i: usize = 0;
    while i < n
        invariant
            n == s@.len() == tc@.len(),
            tc@ == t@,
            0 <= i <= n,
            forall|j: int| 0 <= j < i ==> s@[j] == tc@[j],
        decreases n - i,
    {
        if s[i] != tc[i] {
            return false;
        }
        i = i + 1;
    }
    assert(s@ =~= tc@);
    true
}

impl Method {
    /// The method named by `s`; `MethodNotFound` for any other text.
    pub fn from_string(s: &str) -> (res: Result<Self, RequestErrorEnum>)
        ensures
            match method_of_text(s@) {
                Some(m) => res == Ok::<Method, RequestErrorEnum>(m),
                None => res == Err::<Method, RequestErrorEnum>(RequestErrorEnum::MethodNotFound),
            },
    {
        proof {
            reveal_strlit("GET");
            reveal_strlit("POST");
            reveal_strlit("PATCH");
            reveal_strlit("DELETE");
            reveal_strlit("OPTION");
            reveal_strlit("Head");
        }
        assert("GET"@ =~= seq!['G', 'E', 'T']);
        assert("POST"@ =~= seq!['P', 'O', 'S', 'T']);
        assert("PATCH"@ =~= seq!['P', 'A', 'T', 'C', 'H']);
        assert("DELETE"@ =~= seq!['D', 'E', 'L', 'E', 'T', 'E']);
        assert("OPTION"@ =~= seq!['O', 'P', 'T', 'I', 'O', 'N']);
        assert("Head"@ =~= seq!['H', 'e', 'a', 'd']);
        let cs = chars_of(s);
        if chars_are(&cs, "GET") {
            Ok(Method::Get)
        } else if chars_are(&cs, "POST") {
            Ok(Method::Post)
        } else if chars_are(&cs, "PATCH") {
            Ok(Method::Patch)
        } else if chars_are(&cs, "DELETE") {
            Ok(Method::Delete)
        } else if chars_are(&cs, "OPTION") {
            Ok(Method::Option)
        } else if chars_are(&cs, "Head") {
            Ok(Method::Head)
        } else {
            Err(RequestErrorEnum::MethodNotFound)
        }
    }

    /// The method whose name `s` holds; `MethodNotFound` for any other bytes.
    pub fn from_bytes(s: &[u8]) -> (res: Result<Self, RequestErrorEnum>)
        ensures
            match method_of_bytes(s@) {
                Some(m) => res == Ok::<Method, RequestErrorEnum>(m),
                None => res == Err::<Method, RequestErrorEnum>(RequestErrorEnum::MethodNotFound),
            },
    {
        let get: [u8; 3] = [71, 69, 84];
        let post: [u8; 4] = [80, 79, 83, 84];
        let patch: [u8; 5] = [80, 65, 84, 67, 72];
        let delete: [u8; 6] = [68, 69, 76, 69, 84, 69];
        let option: [u8; 6] = [79, 80, 84, 73, 79, 78];
        let head: [u8; 4] = [72, 101, 97, 100];
        assert(get@ =~= seq![71u8, 69u8, 84u8]);
        assert(post@ =~= seq![80u8, 79u8, 83u8, 84u8]);
        assert(patch@ =~= seq![80u8, 65u8, 84u8, 67u8, 72u8]);
        assert(delete@ =~= seq![68u8, 69u8, 76u8, 69u8, 84u8, 69u8]);
        assert(option@ =~= seq![79u8, 80u8, 84u8, 73u8, 79u8, 78u8]);
        assert(head@ =~= seq![72u8, 101u8, 97u8, 100u8]);
        if bytes_are(s, &get) {
            Ok(Method::Get)
        } else if bytes_are(s, &post) {
            Ok(Method::Post)
        } else if bytes_are(s, &patch) {
            Ok(Method::Patch)
        } else if bytes_are(s, &delete) {
            Ok(Method::Delete)
        } else if bytes_are(s, &option) {
            Ok(Method::Option)
        } else if bytes_are(s, &head) {
            Ok(Method::Head)
        } else {
            Err(RequestErrorEnum::MethodNotFound)
        }
    }

    /// The method's name.
    pub fn to_string(&self) -> (res: String)
        ensures
            res@ == method_name(*self),
    {
        proof {
            reveal_strlit("GET");
            reveal_strlit("POST");
            reveal_strlit("PATCH");
            reveal_strlit("DELETE");
            reveal_strlit("OPTION");
            reveal_strlit("HEAD");
        }
        assert("GET"@ =~= seq!['G', 'E', 'T']);
        assert("POST"@ =~= seq!['P', 'O', 'S', 'T']);
        assert("PATCH"@ =~= seq!['P', 'A', 'T', 'C', 'H']);
        assert("DELETE"@ =~= seq!['D', 'E', 'L', 'E', 'T', 'E']);
        assert("OPTION"@ =~= seq!['O', 'P', 'T', 'I', 'O', 'N']);
        assert("HEAD"@ =~= seq!['H', 'E', 'A', 'D']);
        match self {
            Method::Get => String::from_str("GET"),
            Method::Post => String::from_str("POST"),
            Method::Patch => String::from_str("PATCH"),
            Method::Delete => String::from_str("DELETE"),
            Method::Option => String::from_str("OPTION"),
            Method::Head => String::from_str("HEAD"),
        }
    }
}

/// The byte `' '`.
pub open spec fn space() -> u8 {
    32u8
}

/// A request line as values: method, target, major and minor version.
pub type LineModel = (Method, Seq<char>, Seq<char>, Seq<char>);

/// What `RequestLine::parse_request_line` makes of the line `line` (without
/// its `"\r\n"`): exactly three parts separated by single spaces, a known
/// method, a UTF-8 target and the version `HTTP/1.1`; the errors are
/// checked in that order.
pub open spec fn line_spec(line: Seq<u8>) -> Result<LineModel, RequestErrorEnum> {
    let n = line.len() as int;
    let p1 = first_index(line, space());
    let p2 = scan_to(line, space(), p1 + 1, n);
    let p3 = scan_to(line, space(), p2 + 1, n);
    let method = line.subrange(0, p1);
    let target = line.subrange(p1 + 1, p2);
    let version = line.subrange(p2 + 1, n);
    if p1 == n || p2 == n || p3 < n {
        Err(RequestErrorEnum::ParseError)
    } else if method_of_bytes(method) is None {
        Err(RequestErrorEnum::MethodNotFound)
    } else if !valid_utf8(target) {
        Err(RequestErrorEnum::ParseError)
    } else {
        match version_spec(version) {
            Err(e) => Err(e),
            Ok((major, minor)) => if major != seq!['1'] || minor != seq!['1'] {
                Err(RequestErrorEnum::IncompatibleVersion)
            } else {
                Ok((method_of_bytes(method).unwrap(), decode_utf8(target), major, minor))
            },
        }
    }
}

/// What `RequestLine::parse_request_line` gives for the bytes `request`:
/// the line before the first `"\r\n"` parsed by `line_spec`, and the number
/// of bytes up to and including that `"\r\n"`; `IncompleteRequest` when
/// there is none yet.
pub open spec fn request_line_spec(request: Seq<u8>) -> Result<(LineModel, int), RequestErrorEnum> {
    let idx = first_window(request, separator());
    if idx < 0 {
        Err(RequestErrorEnum::IncompleteRequest)
    } else {
        match line_spec(request.take(idx)) {
            Ok(l) => Ok((l, idx + 2)),
            Err(e) => Err(e),
        }
    }
}

/// The bytes `"HTTP/1.1"`.
pub open spec fn http_1_1() -> Seq<u8> {
    seq![72u8, 84u8, 84u8, 80u8, 47u8, 49u8, 46u8, 49u8]
}

/// Law: whatever the target holds, as long as it is UTF-8 without spaces or
/// carriage returns, a line `<method> <target> HTTP/1.1` with a known method
/// is taken: the target is exactly the text of those bytes, and the line
/// and its `"\r\n"` are consumed, whatever follows.
pub proof fn lemma_any_target_is_taken(mb: Seq<u8>, t: Seq<u8>, rest: Seq<u8>)
    requires
        method_of_bytes(mb) is Some,
        valid_utf8(t),
        forall|i: int| 0 <= i < t.len() ==> #[trigger] t[i] != space() && t[i] != 13u8,
    ensures
        ({
            let line = mb + seq![space()] + t + seq![space()] + http_1_1();
            request_line_spec(line + separator() + rest) == Ok::<
                (LineModel, int),
                RequestErrorEnum,
            >(
                (
                    (method_of_bytes(mb).unwrap(), decode_utf8(t), seq!['1'], seq!['1']),
                    line.len() as int + 2,
                ),
            )
        }),
{
    let line = mb + seq![space()] + t + seq![space()] + http_1_1();
    let d = line + separator() + rest;
    let n = line.len() as int;
    let p1 = mb.len() as int;
    let p2 = p1 + 1 + t.len();
    assert(forall|i: int| 0 <= i < mb.len() ==> #[trigger] mb[i] != space() && mb[i] != 13u8);
    assert forall|j: int| 0 <= j < n implies #[trigger] line[j] != 13u8 by {
        if j < p1 {
            assert(line[j] == mb[j]);
        } else if p1 < j < p2 {
            assert(line[j] == t[j - p1 - 1]);
        } else if j > p2 {
            assert(line[j] == http_1_1()[j - p2 - 1]);
        }
    }
    assert(d.subrange(n, n + 2) =~= separator());
    assert forall|j: int| 0 <= j < n implies d[j] != separator()[0] by {
        assert(d[j] == line[j]);
    }
    lemma_window_first(d, separator(), 0, n);
    assert(d.take(n) == line);
    assert forall|j: int| 0 <= j < p1 implies line[j] != space() by {
        assert(line[j] == mb[j]);
    }
    lemma_scan_to_first(line, space(), 0, n, p1);
    assert forall|j: int| p1 + 1 <= j < p2 implies line[j] != space() by {
        assert(line[j] == t[j - p1 - 1]);
    }
    lemma_scan_to_first(line, space(), p1 + 1, n, p2);
    assert forall|j: int| p2 + 1 <= j < n implies line[j] != space() by {
        assert(line[j] == http_1_1()[j - p2 - 1]);
    }
    lemma_scan_to_none(line, space(), p2 + 1, n);
    assert(line.subrange(0, p1) == mb);
    assert(line.subrange(p1 + 1, p2) == t);
    assert(line.subrange(p2 + 1, n) == http_1_1());
    // the version `1.1`
    let v = http_1_1();
    let vr = v.skip(5);
    assert(v.take(5) =~= http_prefix());
    assert(vr =~= seq![49u8, 46u8, 49u8]);
    assert(vr[0] != crate::http_version::dot());
    lemma_scan_to_first(vr, crate::http_version::dot(), 0, 3, 1);
    assert(vr.take(1) =~= seq![49u8]);
    assert(vr.skip(2) =~= seq![49u8]);
    crate::text::lemma_encode_ascii(seq!['1'], seq![49u8]);
    encode_utf8_valid_utf8(seq!['1']);
    encode_utf8_decode_utf8(seq!['1']);
}

/// The first line of a request: `<method> <target> HTTP/<major>.<minor>`.
#[derive(Debug)]
pub struct RequestLine {
    pub http_version: HttpVersion,
    pub request_target: String,
    pub method: Method,
}

impl RequestLine {
    /// The line as values.
    pub open spec fn model(&self) -> LineModel {
        (self.method, self.request_target@, self.http_version.major@, self.http_version.minor@)
    }

    /// Parses the request line at the start of `request`, and returns it with
    /// the number of bytes it took, its `"\r\n"` included.
    pub fn parse_request_line(request: &[u8]) -> (res: Result<(Self, usize), RequestErrorEnum>)
        ensures
            match res {
                Ok((l, consumed)) => request_line_spec(request@) == Ok::<
                    (LineModel, int),
                    RequestErrorEnum,
                >((l.model(), consumed as int)),
                Err(e) => request_line_spec(request@) == Err::<(LineModel, int), RequestErrorEnum>(
                    e,
                ),
            },
    {
        let idx = match find_line_break(request, false) {
            Some(i) => i,
            None => {
                return Err(RequestErrorEnum::IncompleteRequest);
            },
        };
        proof {
            crate::text::lemma_window_from(request@, separator(), 0);
            assert(crate::text::occurs_at(request@, separator(), idx as int));
            assert(separator().len() == 2);
        }
        let line = slice_subrange(request, 0, idx);
        assert(line@ == request@.take(idx as int));
        let rl = request.len();
        assert(idx + 2 <= rl);
        let consumed = idx + 2;
        let n = line.len();
        let p1 = find_byte(line, 32, 0, n);
        if p1 == n {
            return Err(RequestErrorEnum::ParseError);
        }
        let p2 = find_byte(line, 32, p1 + 1, n);
        if p2 == n {
            return Err(RequestErrorEnum::ParseError);
        }
        let p3 = find_byte(line, 32, p2 + 1, n);
        if p3 < n {
            return Err(RequestErrorEnum::ParseError);
        }
        let method_bytes = slice_subrange(line, 0, p1);
        let target_bytes = slice_subrange(line, p1 + 1, p2);
        let version_bytes = slice_subrange(line, p2 + 1, n);
        let method = match Method::from_bytes(method_bytes) {
            Ok(m) => m,
            Err(e) => {
                return Err(e);
            },
        };
        let target = match str_from_utf8(target_bytes) {
            Some(t) => t,
            None => {
                return Err(RequestErrorEnum::ParseError);
            },
        };
        proof {
            lemma_str_of_utf8(target, target_bytes@);
        }
        let request_target = String::from_str(target);
        let http_version = match HttpVersion::from_bytes(version_bytes) {
            Ok(v) => v,
            Err(e) => {
                return Err(e);
            },
        };
        if !is_single_char(http_version.major.as_str(), '1') || !is_single_char(http_version.minor.as_str(), '1') {
            return Err(RequestErrorEnum::IncompatibleVersion);
        }
        Ok((RequestLine { http_version, method, request_target }, consumed))
    }
}

/// How a request stands, given the bytes received so far.
pub enum RequestOutcome {
    /// More bytes are needed.
    Incomplete,
    /// The request is refused for this reason.
    Rejected(RequestErrorEnum),
    /// The request line, the headers and the body.
    Complete(LineModel, Entries, Seq<u8>),
    /// The header block holds a line with a valid name and no `':'`, which
    /// has no value to store; parsing does not go on past it.
    HeaderLineWithoutColon,
}

/// The name under which the body length is looked up.
pub open spec fn content_length_key() -> Seq<char> {
    lowercase("Content-Length"@)
}

/// The body that the headers `h` call for, out of the bytes `b` that follow
/// the header block: none without `Content-Length` or when it is `"0"`;
/// otherwise as many bytes as it says, once they are there.
pub open spec fn body_spec(line: LineModel, h: Entries, b: Seq<u8>) -> RequestOutcome {
    match lookup(h, content_length_key()) {
        None => RequestOutcome::Complete(line, h, Seq::empty()),
        Some(v) => if v == seq!['0'] {
            RequestOutcome::Complete(line, h, Seq::empty())
        } else {
            match parse_usize_spec(v) {
                None => RequestOutcome::Rejected(RequestErrorEnum::ParseError),
                Some(n) => if b.len() >= n {
                    RequestOutcome::Complete(line, h, b.take(n as int))
                } else {
                    RequestOutcome::Incomplete
                },
            }
        }
    }
}

/// How the request in the bytes `d` stands: its request line (up to the
/// first `"\r\n"`), then its header block (up to the first blank line after
/// it), then its body as `Content-Length` frames it. Anything after the
/// body is not looked at.
pub open spec fn request_spec(d: Seq<u8>) -> RequestOutcome {
    match request_line_spec(d) {
        Err(e) => if e == RequestErrorEnum::IncompleteRequest {
            RequestOutcome::Incomplete
        } else {
            RequestOutcome::Rejected(e)
        },
        Ok((line, consumed)) => {
            let r = d.skip(consumed);
            match header_block_spec(Seq::empty(), r) {
                LinesOutcome::MissingColon => RequestOutcome::HeaderLineWithoutColon,
                LinesOutcome::Rejected(_, e) => if e == RequestErrorEnum::IncompleteRequest {
                    RequestOutcome::Incomplete
                } else {
                    RequestOutcome::Rejected(e)
                },
                LinesOutcome::Applied(h) => body_spec(line, h, r.skip(header_block_len(r) + 2)),
            }
        },
    }
}

/// Law: whatever number `n` the `Content-Length` value reads as, the body is
/// exactly the first `n` bytes after the header block once they have
/// arrived, and the request waits for more bytes before that; no length
/// that reads as a number is refused.
pub proof fn lemma_content_length_frames_body(d: Seq<u8>, n: usize)
    requires
        request_line_spec(d) is Ok,
        header_block_spec(Seq::empty(), d.skip(request_line_spec(d)->Ok_0.1)) is Applied,
        lookup(
            header_block_spec(Seq::empty(), d.skip(request_line_spec(d)->Ok_0.1))->Applied_0,
            content_length_key(),
        ) matches Some(v) && parse_usize_spec(v) == Some(n),
    ensures
        ({
            let (line, c) = request_line_spec(d)->Ok_0;
            let r = d.skip(c);
            let h = header_block_spec(Seq::empty(), r)->Applied_0;
            let b = r.skip(header_block_len(r) + 2);
            &&& b.len() >= n ==> request_spec(d) == RequestOutcome::Complete(
                line,
                h,
                b.take(n as int),
            )
            &&& b.len() < n ==> request_spec(d) == RequestOutcome::Incomplete
        }),
{
    let (line, c) = request_line_spec(d)->Ok_0;
    let r = d.skip(c);
    let h = header_block_spec(Seq::empty(), r)->Applied_0;
    let b = r.skip(header_block_len(r) + 2);
    let v = lookup(h, content_length_key())->Some_0;
    if v == seq!['0'] {
        assert(crate::numbers::unsigned_digits(v) == v);
        assert(crate::numbers::decimal_value(v) == crate::numbers::decimal_value(
            v.drop_last(),
        ) * 10 + crate::numbers::digit_value(v.last()));
        assert(v.drop_last() == Seq::<char>::empty());
        assert(b.take(0) =~= Seq::<u8>::empty());
    }
}

/// Law: a text is read as a method only when it is that method's own name
/// (`Head` is read from `Head`, the others from the names they are written
/// with); any other text is no method.
pub proof fn lemma_method_only_from_its_name(s: Seq<char>)
    ensures
        method_of_text(s) matches Some(m) ==> (s == method_name(m) || (m == Method::Head && s
            == seq!['H', 'e', 'a', 'd'])),
        method_of_bytes(encode_utf8(s)) matches Some(m) ==> (s == method_name(m) || (m
            == Method::Head && s == seq!['H', 'e', 'a', 'd'])),
{
    lemma_method_text_bytes_agree(s);
}

/// Once the request line is complete, more bytes do not change it.
pub proof fn lemma_request_line_extend(d: Seq<u8>, more: Seq<u8>)
    requires
        first_window(d, separator()) >= 0,
    ensures
        request_line_spec(d + more) == request_line_spec(d),
{
    let idx = first_window(d, separator());
    lemma_window_from_extend(d, more, separator(), 0);
    lemma_window_from(d, separator(), 0);
    assert((d + more).take(idx) == d.take(idx));
}

/// Once the header block is complete, more bytes do not change it.
pub proof fn lemma_header_block_extend(e: Entries, r: Seq<u8>, more: Seq<u8>)
    requires
        first_window(r, crlf_crlf()) >= 0,
    ensures
        header_block_spec(e, r + more) == header_block_spec(e, r),
        header_block_len(r + more) == header_block_len(r),
{
    let p = first_window(r, crlf_crlf());
    lemma_window_from_extend(r, more, crlf_crlf(), 0);
    lemma_window_from(r, crlf_crlf(), 0);
    assert((r + more).take(p + 2) == r.take(p + 2));
}

/// Law: once a request is complete or refused, the bytes that arrive after
/// do not change the outcome.
pub proof fn lemma_request_outcome_stable(d: Seq<u8>, more: Seq<u8>)
    requires
        !(request_spec(d) is Incomplete),
    ensures
        request_spec(d + more) == request_spec(d),
{
    if first_window(d, separator()) >= 0 {
        lemma_request_line_extend(d, more);
        lemma_window_from(d, separator(), 0);
        if let Ok((line, consumed)) = request_line_spec(d) {
            let r = d.skip(consumed);
            assert((d + more).skip(consumed) == r + more);
            if first_window(r, crlf_crlf()) >= 0 {
                lemma_header_block_extend(Seq::empty(), r, more);
                lemma_window_from(r, crlf_crlf(), 0);
                if let LinesOutcome::Applied(h) = header_block_spec(Seq::empty(), r) {
                    let b = r.skip(header_block_len(r) + 2);
                    assert((r + more).skip(header_block_len(r) + 2) == b + more);
                    if let Some(v) = lookup(h, content_length_key()) {
                        if let Some(n) = parse_usize_spec(v) {
                            if b.len() >= n {
                                assert((b + more).take(n as int) == b.take(n as int));
                            }
                        }
                    }
                }
            }
        }
    }
}

/// A parsed request.
#[derive(Debug)]
pub struct Request {
    pub line: RequestLine,
    pub headers: Headers,
    pub body: Body,
}

/// Where the parse of a request stands.
#[derive(Debug, Clone, Copy, PartialEq, Eq, Structural)]
pub enum ParseState {
    RequestLine,
    RequestHeaders,
    Body,
    Done,
}

/// How many steps are left before `Done`.
pub open spec fn state_rank(s: ParseState) -> nat {
    match s {
        ParseState::RequestLine => 3,
        ParseState::RequestHeaders => 2,
        ParseState::Body => 1,
        ParseState::Done => 0,
    }
}

/// Which bytes of the body the parse may hold, given the headers `h`:
/// none, or at most as many as `Content-Length` says.
pub open spec fn body_fits(h: Entries, k: int) -> bool {
    k == 0 || match lookup(h, content_length_key()) {
        Some(v) => v != seq!['0'] && match parse_usize_spec(v) {
            Some(n) => k <= n,
            None => false,
        },
        None => false,
    }
}

/// What the parse holds in each state, for the bytes `received` so far: in
/// `RequestLine` nothing is parsed yet; in `RequestHeaders` the request line
/// is, and the buffer holds what follows it; in `Body` the headers are too,
/// and the body holds the first bytes after the header block, the buffer
/// the rest.
pub open spec fn stage_inv(
    received: Seq<u8>,
    state: ParseState,
    buffer: Seq<u8>,
    line: Option<RequestLine>,
    headers: Option<Headers>,
    body: Seq<u8>,
) -> bool {
    match state {
        ParseState::RequestLine => buffer == received && line is None && headers is None
            && body.len() == 0,
        ParseState::RequestHeaders => match (request_line_spec(received), line) {
            (Ok((l, c)), Some(rl)) => rl.model() == l && buffer == received.skip(c)
                && headers is None && body.len() == 0,
            _ => false,
        },
        ParseState::Body => match (request_line_spec(received), line) {
            (Ok((l, c)), Some(rl)) => {
                let r = received.skip(c);
                match (header_block_spec(Seq::empty(), r), headers) {
                    (LinesOutcome::Applied(h), Some(hs)) => {
                        let b = r.skip(header_block_len(r) + 2);
                        &&& rl.model() == l
                        &&& hs@ == h
                        &&& body.len() <= b.len()
                        &&& body == b.take(body.len() as int)
                        &&& buffer == b.skip(body.len() as int)
                        &&& body_fits(h, body.len() as int)
                    },
                    _ => false,
                }
            },
            _ => false,
        },
        ParseState::Done => true,
    }
}

/// The parts hold the complete request that `received` makes.
pub open spec fn holds_request(
    received: Seq<u8>,
    line: Option<RequestLine>,
    headers: Option<Headers>,
    body: Seq<u8>,
) -> bool {
    match (request_spec(received), line, headers) {
        (RequestOutcome::Complete(l, h, b), Some(rl), Some(hs)) => rl.model() == l && hs@ == h
            && body == b,
        _ => false,
    }
}

/// The body length that `Content-Length` asks for in the headers `h`:
/// `None` when there is no body to read (no such header, or `"0"`);
/// `Some(None)` when the value is not a number; otherwise that number.
pub open spec fn wanted_length(h: Entries) -> Option<Option<usize>> {
    match lookup(h, content_length_key()) {
        None => None,
        Some(v) => if v == seq!['0'] {
            None
        } else {
            Some(parse_usize_spec(v))
        },
    }
}

/// The body step can run without running past `Content-Length`: the body
/// already held is not longer than what is asked for.
pub open spec fn body_within(headers: Option<Headers>, held: int) -> bool {
    match headers {
        Some(hs) => match wanted_length(hs@) {
            Some(Some(k)) => held <= k,
            _ => true,
        },
        None => true,
    }
}

/// What one step of the parse does, from the parts `b0` (buffer), `l0`
/// (line), `h0` (headers), `d0` (body) to `b1`, `l1`, `h1`, `d1`, with the
/// result `res`:
/// - `RequestLine`: a request line at the start of the buffer is stored and
///   its bytes dropped, giving `RequestHeaders`;
/// - `RequestHeaders`: a header block at the start of the buffer is stored
///   and its bytes and the blank line after it dropped, giving `Body`;
/// - `Body`: `min(k - held, buffered)` bytes move from the buffer to the body,
///   `k` being `Content-Length`; `Done` once the body has `k` bytes,
///   `IncompleteRequest` before; `Done` at once without such a header or
///   when it is `"0"`; `ParseError` when it is not a number;
///   `UnexpectedStateError` without headers;
/// - `Done` stays `Done`.
/// Every error comes with all parts unchanged, and so does any step that
/// moves nothing.
pub open spec fn step_spec(
    state: ParseState,
    b0: Seq<u8>,
    l0: Option<RequestLine>,
    h0: Option<Headers>,
    d0: Seq<u8>,
    b1: Seq<u8>,
    l1: Option<RequestLine>,
    h1: Option<Headers>,
    d1: Seq<u8>,
    res: Result<ParseState, RequestErrorEnum>,
) -> bool {
    let unchanged = b1 == b0 && l1 == l0 && h1 == h0 && d1 == d0;
    match state {
        ParseState::RequestLine => match request_line_spec(b0) {
            Ok((l, c)) => {
                &&& res == Ok::<ParseState, RequestErrorEnum>(ParseState::RequestHeaders)
                &&& b1 == b0.skip(c)
                &&& (l1 matches Some(rl) && rl.model() == l)
                &&& h1 == h0
                &&& d1 == d0
            },
            Err(e) => res == Err::<ParseState, RequestErrorEnum>(e) && unchanged,
        },
        ParseState::RequestHeaders => match header_block_spec(Seq::empty(), b0) {
            LinesOutcome::Applied(h) => {
                &&& res == Ok::<ParseState, RequestErrorEnum>(ParseState::Body)
                &&& b1 == b0.skip(header_block_len(b0) + 2)
                &&& (h1 matches Some(hs) && hs@ == h)
                &&& l1 == l0
                &&& d1 == d0
            },
            LinesOutcome::Rejected(_, e) => res == Err::<ParseState, RequestErrorEnum>(e)
                && unchanged,
            LinesOutcome::MissingColon => false,
        },
        ParseState::Body => match h0 {
            None => res == Err::<ParseState, RequestErrorEnum>(
                RequestErrorEnum::UnexpectedStateError,
            ) && unchanged,
            Some(hs) => match wanted_length(hs@) {
                None => res == Ok::<ParseState, RequestErrorEnum>(ParseState::Done) && unchanged,
                Some(None) => res == Err::<ParseState, RequestErrorEnum>(
                    RequestErrorEnum::ParseError,
                ) && unchanged,
                Some(Some(k)) => {
                    let m = if k - d0.len() < b0.len() {
                        k - d0.len()
                    } else {
                        b0.len() as int
                    };
                    &&& d1 == d0 + b0.take(m)
                    &&& b1 == b0.skip(m)
                    &&& l1 == l0
                    &&& h1 == h0
                    &&& res == if d0.len() + m == k {
                        Ok::<ParseState, RequestErrorEnum>(ParseState::Done)
                    } else {
                        Err::<ParseState, RequestErrorEnum>(RequestErrorEnum::IncompleteRequest)
                    }
                },
            },
        },
        ParseState::Done => res == Ok::<ParseState, RequestErrorEnum>(ParseState::Done)
            && unchanged,
    }
}

/// A step allowed in a stage is one the step function can take.
pub proof fn lemma_stage_step_allowed(
    received: Seq<u8>,
    state: ParseState,
    buffer: Seq<u8>,
    line: Option<RequestLine>,
    headers: Option<Headers>,
    body: Seq<u8>,
)
    requires
        stage_inv(received, state, buffer, line, headers, body),
        !(request_spec(received) is HeaderLineWithoutColon),
    ensures
        state == ParseState::RequestHeaders ==> !crate::headers::header_block_panics(buffer),
        state == ParseState::Body ==> body_within(headers, body.len() as int),
{
}

/// A step taken in a stage ends in the next stage, or tells how the whole
/// request stands.
pub proof fn lemma_step_stage(
    received: Seq<u8>,
    state: ParseState,
    b0: Seq<u8>,
    l0: Option<RequestLine>,
    h0: Option<Headers>,
    d0: Seq<u8>,
    b1: Seq<u8>,
    l1: Option<RequestLine>,
    h1: Option<Headers>,
    d1: Seq<u8>,
    res: Result<ParseState, RequestErrorEnum>,
)
    requires
        stage_inv(received, state, b0, l0, h0, d0),
        state != ParseState::Done,
        !(request_spec(received) is HeaderLineWithoutColon),
        step_spec(state, b0, l0, h0, d0, b1, l1, h1, d1, res),
    ensures
        match res {
            Ok(next) => {
                &&& stage_inv(received, next, b1, l1, h1, d1)
                &&& state_rank(next) < state_rank(state)
                &&& next == ParseState::Done ==> holds_request(received, l1, h1, d1)
            },
            Err(e) => {
                &&& e == RequestErrorEnum::IncompleteRequest ==> {
                    &&& request_spec(received) is Incomplete
                    &&& stage_inv(received, state, b1, l1, h1, d1)
                }
                &&& e != RequestErrorEnum::IncompleteRequest ==> request_spec(received)
                    == RequestOutcome::Rejected(e)
            },
        },
{
    match state {
        ParseState::RequestLine => {
            lemma_window_from(b0, separator(), 0);
        },
        ParseState::RequestHeaders => {
            let c = request_line_spec(received)->Ok_0.1;
            lemma_window_from(b0, crlf_crlf(), 0);
            if header_block_spec(Seq::empty(), b0) is Applied {
                assert(occurs_at(b0, crlf_crlf(), first_window(b0, crlf_crlf())));
                let b = b0.skip(header_block_len(b0) + 2);
                assert(b.take(0) =~= Seq::<u8>::empty());
                assert(b.skip(0) == b);
                assert(d1 =~= Seq::<u8>::empty());
            }
        },
        ParseState::Body => {
            let l = request_line_spec(received)->Ok_0.0;
            let c = request_line_spec(received)->Ok_0.1;
            let r = received.skip(c);
            let h = header_block_spec(Seq::empty(), r)->Applied_0;
            let b = r.skip(header_block_len(r) + 2);
            assert(request_spec(received) == body_spec(l, h, b));
            let hs = h0->Some_0;
            assert(hs@ == h);
            match wanted_length(h) {
                None => {
                    assert(d0 =~= Seq::<u8>::empty());
                },
                Some(None) => {},
                Some(Some(k)) => {
                    let held = d0.len() as int;
                    let m = if k - held < b0.len() {
                        k - held
                    } else {
                        b0.len() as int
                    };
                    assert(d1 == b.take(held + m));
                    assert(b1 == b.skip(held + m));
                },
            }
        },
        ParseState::Done => {},
    }
}

impl Request {
    /// One step of the parse: the request line, the header block or the
    /// body, whichever `state` says is next (see `step_spec`).
    /// `IncompleteRequest` asks for more bytes.
    fn state_machine(
        state: &ParseState,
        buffer: &mut Vec<u8>,
        request_line: &mut Option<RequestLine>,
        request_headers: &mut Option<Headers>,
        request_body: &mut Body,
    ) -> (res: Result<ParseState, RequestErrorEnum>)
        requires
            *state == ParseState::RequestHeaders ==> !crate::headers::header_block_panics(
                old(buffer)@,
            ),
            *state == ParseState::Body ==> body_within(
                *old(request_headers),
                old(request_body)@.len() as int,
            ),
        ensures
            step_spec(
                *state,
                old(buffer)@,
                *old(request_line),
                *old(request_headers),
                old(request_body)@,
                final(buffer)@,
                *final(request_line),
                *final(request_headers),
                final(request_body)@,
                res,
            ),
    {
        match state {
            ParseState::RequestLine => match RequestLine::parse_request_line(buffer.as_slice()) {
                Ok((rl, consumed)) => {
                    proof {
                        lemma_window_from(buffer@, separator(), 0);
                        assert(occurs_at(buffer@, separator(), first_window(buffer@, separator())));
                    }
                    let rest = buffer.split_off(consumed);
                    *buffer = rest;
                    *request_line = Some(rl);
                    Ok(ParseState::RequestHeaders)
                },
                Err(e) => Err(e),
            },
            ParseState::RequestHeaders => {
                match Headers::new_from_data(buffer.as_slice()) {
                    Ok((headers, consumed)) => {
                        proof {
                            lemma_window_from(buffer@, crlf_crlf(), 0);
                            assert(occurs_at(buffer@, crlf_crlf(), first_window(buffer@, crlf_crlf())));
                        }
                        let bl = buffer.len();
                        assert(consumed + 2 <= bl);
                        let rest = buffer.split_off(consumed + 2);
                        *buffer = rest;
                        *request_headers = Some(headers);
                        Ok(ParseState::Body)
                    },
                    Err(e) => Err(e),
                }
            },
            ParseState::Body => {
                let headers = match request_headers {
                    Some(hs) => hs,
                    None => {
                        return Err(RequestErrorEnum::UnexpectedStateError);
                    },
                };
                proof {
                    reveal_strlit("Content-Length");
                }
                match headers.get("Content-Length") {
                    None => Ok(ParseState::Done),
                    Some(len_str) => {
                        if is_single_char(len_str, '0') {
                            return Ok(ParseState::Done);
                        }
                        let len_int = match parse_usize(len_str) {
                            Some(n) => n,
                            None => {
                                return Err(RequestErrorEnum::ParseError);
                            },
                        };
                        let want = len_int - request_body.len();
                        let avail = buffer.len();
                        let take = if want < avail {
                            want
                        } else {
                            avail
                        };
                        let mut front = buffer.split_off(take);
                        std::mem::swap(buffer, &mut front);
                        request_body.extend(&front);
                        if request_body.len() == len_int {
                            Ok(ParseState::Done)
                        } else {
                            Err(RequestErrorEnum::IncompleteRequest)
                        }
                    },
                }
            },
            ParseState::Done => Ok(ParseState::Done),
        }
    }
}

/// A request being received: the bytes so far and the parse of them.
/// Feed it what is read, and ask it to `advance` until it has a request or
/// refuses one.
pub struct RequestParser {
    state: ParseState,
    buffer: Vec<u8>,
    line: Option<RequestLine>,
    headers: Option<Headers>,
    body: Body,
    received: Ghost<Seq<u8>>,
}

impl RequestParser {
    /// The bytes fed so far.
    pub closed spec fn received(&self) -> Seq<u8> {
        self.received@
    }

    /// The parse matches the bytes received, and no request was handed out yet.
    pub closed spec fn inv(&self) -> bool {
        &&& self.state != ParseState::Done
        &&& stage_inv(
            self.received@,
            self.state,
            self.buffer@,
            self.line,
            self.headers,
            self.body@,
        )
    }

    /// A parser that has received nothing.
    pub fn new() -> (res: Self)
        ensures
            res.inv(),
            res.received() == Seq::<u8>::empty(),
    {
        let p = RequestParser {
            state: ParseState::RequestLine,
            buffer: Vec::new(),
            line: None,
            headers: None,
            body: Body::new(),
            received: Ghost(Seq::empty()),
        };
        assert(p.buffer@ =~= p.received@);
        p
    }

    /// Takes in more bytes of the request.
    pub fn feed(&mut self, bytes: &[u8])
        requires
            old(self).inv(),
        ensures
            final(self).inv(),
            final(self).received() == old(self).received() + bytes@,
    {
        let ghost d = self.received@;
        let ghost old_buffer = self.buffer@;
        let n = bytes.len();
        let mut i: usize = 0;
        while i < n
            invariant
                n == bytes@.len(),
                0 <= i <= n,
                self.buffer@ == old_buffer + bytes@.take(i as int),
                self.received@ == d,
                self.state == old(self).state,
                self.line == old(self).line,
                self.headers == old(self).headers,
                self.body == old(self).body,
            decreases n - i,
        {
            self.buffer.push(bytes[i]);
            assert(bytes@.take(i + 1) == bytes@.take(i as int).push(bytes@[i as int]));
            i = i + 1;
        }
        assert(bytes@.take(n as int) == bytes@);
        self.received = Ghost(d + bytes@);
        proof {
            let x = bytes@;
            match self.state {
                ParseState::RequestLine => {},
                ParseState::RequestHeaders => {
                    let c = request_line_spec(d)->Ok_0.1;
                    lemma_request_line_extend(d, x);
                    lemma_window_from(d, separator(), 0);
                    assert((d + x).skip(c) =~= d.skip(c) + x);
                },
                ParseState::Body => {
                    let c = request_line_spec(d)->Ok_0.1;
                    lemma_request_line_extend(d, x);
                    lemma_window_from(d, separator(), 0);
                    let r = d.skip(c);
                    assert((d + x).skip(c) =~= r + x);
                    lemma_header_block_extend(Seq::empty(), r, x);
                    lemma_window_from(r, crlf_crlf(), 0);
                    let hl = header_block_len(r) + 2;
                    let b = r.skip(hl);
                    let k = self.body@.len() as int;
                    assert((r + x).skip(hl) == b + x);
                    assert((b + x).take(k) == b.take(k));
                    assert((b + x).skip(k) == b.skip(k) + x);
                },
                ParseState::Done => {},
            }
        }
    }

    /// Parses as far as the bytes received allow: `Ok(Some(request))` once
    /// the request is complete, `Ok(None)` when more bytes are needed, or the
    /// error that refuses the request.
    pub fn advance(&mut self) -> (res: Result<Option<Request>, RequestErrorEnum>)
        requires
            old(self).inv(),
            !(request_spec(old(self).received()) is HeaderLineWithoutColon),
        ensures
            final(self).received() == old(self).received(),
            match request_spec(old(self).received()) {
                RequestOutcome::Incomplete => (res matches Ok(None)) && final(self).inv(),
                RequestOutcome::Rejected(e) => (res matches Err(x) && x == e),
                RequestOutcome::Complete(l, h, b) => (res matches Ok(Some(r)) && r.line.model()
                    == l && r.headers@ == h && r.body@ == b),
                RequestOutcome::HeaderLineWithoutColon => false,
            },
    {
        loop
            invariant
                self.inv(),
                self.received() == old(self).received(),
                !(request_spec(self.received()) is HeaderLineWithoutColon),
            decreases state_rank(self.state),
        {
            let ghost state0 = self.state;
            let ghost b0 = self.buffer@;
            let ghost l0 = self.line;
            let ghost h0 = self.headers;
            let ghost d0 = self.body@;
            proof {
                lemma_stage_step_allowed(self.received@, state0, b0, l0, h0, d0);
            }
            let step = Request::state_machine(
                &self.state,
                &mut self.buffer,
                &mut self.line,
                &mut self.headers,
                &mut self.body,
            );
            proof {
                lemma_step_stage(
                    self.received@,
                    state0,
                    b0,
                    l0,
                    h0,
                    d0,
                    self.buffer@,
                    self.line,
                    self.headers,
                    self.body@,
                    step,
                );
            }
            match step {
                Ok(next) => {
                    self.state = next;
                    if next == ParseState::Done {
                        let line = match self.line.take() {
                            Some(l) => l,
                            None => {
                                return Err(RequestErrorEnum::UnexpectedStateError);
                            },
                        };
                        let headers = match self.headers.take() {
                            Some(h) => h,
                            None => {
                                return Err(RequestErrorEnum::UnexpectedStateError);
                            },
                        };
                        let mut body = Body::new();
                        std::mem::swap(&mut body, &mut self.body);
                        return Ok(Some(Request { line, headers, body }));
                    }
                },
                Err(e) => {
                    if e == RequestErrorEnum::IncompleteRequest {
                        return Ok(None);
                    }
                    return Err(e);
                },
            }
        }
    }

    /// Whether the bytes received make a header block with a valid name and
    /// no `':'`, which `advance` does not accept.
    pub fn header_line_without_colon(&self) -> (res: bool)
        requires
            self.inv(),
        ensures
            res == (request_spec(self.received()) is HeaderLineWithoutColon),
    {
        match self.state {
            ParseState::RequestLine => match RequestLine::parse_request_line(
                self.buffer.as_slice(),
            ) {
                Ok((_, consumed)) => {
                    proof {
                        lemma_window_from(self.buffer@, separator(), 0);
                        assert(occurs_at(
                            self.buffer@,
                            separator(),
                            first_window(self.buffer@, separator()),
                        ));
                    }
                    let rest = slice_subrange(self.buffer.as_slice(), consumed, self.buffer.len());
                    assert(rest@ == self.buffer@.skip(consumed as int));
                    Headers::parse_panics(rest)
                },
                Err(_) => false,
            },
            ParseState::RequestHeaders => Headers::parse_panics(self.buffer.as_slice()),
            _ => false,
        }
    }
}

/// The chunks as byte sequences.
pub open spec fn chunk_views(chunks: Seq<Vec<u8>>) -> Seq<Seq<u8>> {
    chunks.map_values(|c: Vec<u8>| c@)
}

/// The bytes that a reader handing out `chunks` in turn delivers before its
/// end: the chunks up to the first empty one, which marks the end.
pub open spec fn stream_of(chunks: Seq<Seq<u8>>) -> Seq<u8>
    decreases chunks.len(),
{
    if chunks.len() == 0 || chunks[0].len() == 0 {
        Seq::empty()
    } else {
        chunks[0] + stream_of(chunks.drop_first())
    }
}

impl Request {
    /// Reads a request from a reader that hands out `chunks` in turn, an
    /// empty chunk marking the end, and stops reading as soon as the request
    /// is complete or refused. Nothing to read at all is `NoRequestToRead`;
    /// a request cut short by the end is a `ParseError`. The outcome depends
    /// on the bytes delivered only, not on how they are cut into chunks.
    pub fn from_chunks(chunks: &Vec<Vec<u8>>) -> (res: Result<Request, RequestErrorEnum>)
        requires
            !(request_spec(stream_of(chunk_views(chunks@))) is HeaderLineWithoutColon),
        ensures
            (chunks@.len() == 0 || chunks@[0]@.len() == 0) ==> (res matches Err(e) && e
                == RequestErrorEnum::NoRequestToRead),
            (chunks@.len() > 0 && chunks@[0]@.len() > 0) ==> match request_spec(
                stream_of(chunk_views(chunks@)),
            ) {
                RequestOutcome::Incomplete => (res matches Err(e) && e
                    == RequestErrorEnum::ParseError),
                RequestOutcome::Rejected(e) => (res matches Err(x) && x == e),
                RequestOutcome::Complete(l, h, b) => (res matches Ok(r) && r.line.model() == l
                    && r.headers@ == h && r.body@ == b),
                RequestOutcome::HeaderLineWithoutColon => false,
            },
    {
        let ghost cv = chunk_views(chunks@);
        let ghost total = stream_of(cv);
        let n = chunks.len();
        if n == 0 || chunks[0].len() == 0 {
            return Err(RequestErrorEnum::NoRequestToRead);
        }
        let mut parser = RequestParser::new();
        parser.feed(chunks[0].as_slice());
        assert(cv.drop_first() == cv.skip(1));
        assert(parser.received() == Seq::<u8>::empty() + cv[0]);
        assert(Seq::<u8>::empty() + cv[0] == cv[0]);
        let mut i: usize = 1;
        loop
            invariant
                n == chunks@.len(),
                chunks@[0]@.len() > 0,
                cv == chunk_views(chunks@),
                total == stream_of(cv),
                1 <= i <= n,
                parser.inv(),
                total == parser.received() + stream_of(cv.skip(i as int)),
                !(request_spec(total) is HeaderLineWithoutColon),
            decreases n - i,
        {
            let ghost rest = stream_of(cv.skip(i as int));
            proof {
                if !(request_spec(parser.received()) is Incomplete) {
                    lemma_request_outcome_stable(parser.received(), rest);
                }
            }
            match parser.advance() {
                Ok(Some(r)) => {
                    return Ok(r);
                },
                Ok(None) => {
                    if i == n || chunks[i].len() == 0 {
                        proof {
                            assert(rest == Seq::<u8>::empty());
                            assert(total == parser.received());
                        }
                        return Err(RequestErrorEnum::ParseError);
                    }
                    proof {
                        assert(cv.skip(i as int).drop_first() == cv.skip(i + 1));
                        assert(rest == cv[i as int] + stream_of(cv.skip(i + 1)));
                        assert(total == (parser.received() + cv[i as int]) + stream_of(
                            cv.skip(i + 1),
                        ));
                    }
                    parser.feed(chunks[i].as_slice());
                    i = i + 1;
                },
                Err(e) => {
                    return Err(e);
                },
            }
        }
    }
}

} // verus!
