//! Responses: building them and writing them out as text.
use vstd::prelude::*;
use vstd::string::StringExecFns;
use crate::body::Body;
use crate::headers::{Headers, Entries, default_entries, set_spec, lowercase, pairs_view};
use crate::http_version::{HttpVersion, version_text};
use crate::numbers::{usize_to_string, decimal_text};
use crate::request::{Method, RequestLine};
use crate::status_codes::{StatusCode, status_text};
use crate::text::{utf8_lossy, is_single_char};

verus! {

/// The first line of a response: version and status.
pub struct ResponseLine {
    pub http_version: HttpVersion,
    pub status_code: StatusCode,
}

impl Default for ResponseLine {
    /// `HTTP/1.1 200 OK`.
    fn default() -> (res: Self)
        ensures
            res.http_version.major@ == seq!['1'],
            res.http_version.minor@ == seq!['1'],
            res.status_code == StatusCode::Success,
    {
        ResponseLine { http_version: HttpVersion::default(), status_code: StatusCode::Success }
    }
}

/// A response.
pub struct Response {
    pub response_line: ResponseLine,
    pub headers: Headers,
    pub body: Body,
}

impl Default for Response {
    /// `200 OK` over HTTP/1.1, with the default headers and no body.
    fn default() -> (res: Self)
        ensures
            res.response_line.http_version.major@ == seq!['1'],
            res.response_line.http_version.minor@ == seq!['1'],
            res.response_line.status_code == StatusCode::Success,
            res.headers@ == default_entries(),
            res.body@ == Seq::<u8>::empty(),
    {
        Response {
            response_line: ResponseLine::default(),
            headers: Headers::default(),
            body: Body::new(),
        }
    }
}

/// The header lines `<name>: <value>\r\n`, in order.
pub open spec fn headers_text(e: Entries) -> Seq<char>
    decreases e.len(),
{
    if e.len() == 0 {
        Seq::empty()
    } else {
        headers_text(e.drop_last()) + e.last().0 + ": "@ + e.last().1 + "\r\n"@
    }
}

/// The text of a response: `HTTP/<version> <status>\r\n`, the header lines,
/// a blank line, and the body as text.
pub open spec fn response_text(r: Response) -> Seq<char> {
    "HTTP/"@ + version_text(r.response_line.http_version.major@, r.response_line.http_version.minor@)
        + " "@ + status_text(r.response_line.status_code) + "\r\n"@ + headers_text(r.headers@)
        + "\r\n"@ + utf8_lossy(r.body@)
}

/// The body of the answer to an unknown target.
pub open spec fn not_found_body() -> Seq<u8> {
    seq![78u8, 111u8, 116u8, 32u8, 70u8, 111u8, 117u8, 110u8, 100u8]
}

/// The text a response starts with, before its body.
pub open spec fn response_head(r: Response) -> Seq<char> {
    response_text(r).take(response_text(r).len() - utf8_lossy(r.body@).len())
}

/// Law: whatever its status, the text of a response ends with its whole
/// body as text; what comes before the body depends on the version, the
/// status and the headers only, starts with `"HTTP/"` and ends with a blank
/// line.
pub proof fn lemma_response_text_ends_with_body(r1: Response, r2: Response)
    ensures
        response_text(r1).len() >= utf8_lossy(r1.body@).len(),
        response_text(r1) == response_head(r1) + utf8_lossy(r1.body@),
        response_head(r1).take(5) == "HTTP/"@,
        response_head(r1).skip(response_head(r1).len() - 4) == "\r\n\r\n"@,
        (r1.response_line.http_version.major@ == r2.response_line.http_version.major@
            && r1.response_line.http_version.minor@ == r2.response_line.http_version.minor@
            && r1.response_line.status_code == r2.response_line.status_code && r1.headers@
            == r2.headers@) ==> response_head(r1) == response_head(r2),
{
    let body1 = utf8_lossy(r1.body@);
    let head1 = "HTTP/"@ + version_text(
        r1.response_line.http_version.major@,
        r1.response_line.http_version.minor@,
    ) + " "@ + status_text(r1.response_line.status_code) + "\r\n"@ + headers_text(r1.headers@)
        + "\r\n"@;
    let head2 = "HTTP/"@ + version_text(
        r2.response_line.http_version.major@,
        r2.response_line.http_version.minor@,
    ) + " "@ + status_text(r2.response_line.status_code) + "\r\n"@ + headers_text(r2.headers@)
        + "\r\n"@;
    assert(response_text(r1) == head1 + body1);
    assert((head1 + body1).take(head1.len() as int) == head1);
    assert(response_head(r1) == head1);
    assert(response_text(r2) == head2 + utf8_lossy(r2.body@));
    assert((head2 + utf8_lossy(r2.body@)).take(head2.len() as int) == head2);
    reveal_strlit("HTTP/");
    reveal_strlit("\r\n");
    reveal_strlit("\r\n\r\n");
    assert(head1.take(5) =~= "HTTP/"@);
    if r1.headers@.len() == 0 {
        assert(headers_text(r1.headers@) == Seq::<char>::empty());
        assert(head1.skip(head1.len() - 4) =~= "\r\n\r\n"@);
    } else {
        lemma_headers_text_ends(r1.headers@);
        assert(head1.skip(head1.len() - 4) =~= "\r\n\r\n"@);
    }
}

/// Header lines, when there are any, end with `"\r\n"`.
proof fn lemma_headers_text_ends(e: Entries)
    requires
        e.len() > 0,
    ensures
        headers_text(e).len() >= 2,
        headers_text(e).skip(headers_text(e).len() - 2) == "\r\n"@,
{
    reveal_strlit("\r\n");
    let t = headers_text(e);
    let pre = headers_text(e.drop_last()) + e.last().0 + ": "@ + e.last().1;
    assert(t == pre + "\r\n"@);
    assert(t.skip(t.len() - 2) =~= "\r\n"@);
}

impl Response {
    /// The response as text, as it is sent.
    pub fn to_string(&self) -> (res: String)
        ensures
            res@ == response_text(*self),
    {
        let mut s = String::from_str("HTTP/");
        let v = self.response_line.http_version.to_string();
        s.append(v.as_str());
        s.append(" ");
        let st = self.response_line.status_code.to_string();
        s.append(st.as_str());
        s.append("\r\n");
        let ghost head = s@;
        let pairs = self.headers.pairs();
        let n = pairs.len();
        let mut i: usize = 0;
        while i < n
            invariant
                n == pairs@.len(),
                0 <= i <= n,
                pairs_view(pairs@) == self.headers@,
                s@ == head + headers_text(pairs_view(pairs@).take(i as int)),
            decreases n - i,
        {
            let ghost e = pairs_view(pairs@);
            assert(e.take(i + 1).drop_last() == e.take(i as int));
            s.append(pairs[i].0.as_str());
            s.append(": ");
            s.append(pairs[i].1.as_str());
            s.append("\r\n");
            i = i + 1;
        }
        assert(pairs_view(pairs@).take(n as int) == self.headers@);
        s.append("\r\n");
        let b = self.body.to_string();
        s.append(b.as_str());
        s
    }

    /// The answer to a request: `200 OK` with the default response for
    /// `GET /`; `404 Not Found` with the body `Not Found`, its length under
    /// `content-length` and the request's version for anything else.
    pub fn for_request(line: RequestLine) -> (res: Response)
        ensures
            (line.method == Method::Get && line.request_target@ == seq!['/']) ==> {
                &&& res.response_line.status_code == StatusCode::Success
                &&& res.response_line.http_version.major@ == seq!['1']
                &&& res.response_line.http_version.minor@ == seq!['1']
                &&& res.headers@ == default_entries()
                &&& res.body@ == Seq::<u8>::empty()
            },
            !(line.method == Method::Get && line.request_target@ == seq!['/']) ==> {
                &&& res.response_line.status_code == StatusCode::NotFound
                &&& res.response_line.http_version.major@ == line.http_version.major@
                &&& res.response_line.http_version.minor@ == line.http_version.minor@
                &&& res.headers@ == set_spec(
                    default_entries(),
                    lowercase("Content-Length"@),
                    decimal_text(not_found_body().len()),
                )
                &&& res.body@ == not_found_body()
            },
    {
        if line.method == Method::Get && is_single_char(line.request_target.as_str(), '/') {
            return Response::default();
        }
        let body: Vec<u8> = vec![78u8, 111, 116, 32, 70, 111, 117, 110, 100];
        assert(body@ =~= not_found_body());
        let mut headers = Headers::default();
        let len = usize_to_string(body.len());
        headers.set("Content-Length", len.as_str());
        Response {
            response_line: ResponseLine {
                http_version: line.http_version,
                status_code: StatusCode::NotFound,
            },
            headers,
            body: Body::from_bytes(body),
        }
    }
}

} // verus!
