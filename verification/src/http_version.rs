//! The HTTP version of a request or response line, such as `HTTP/1.1`.
use vstd::prelude::*;
use vstd::slice::slice_subrange;
use vstd::utf8::*;
use vstd::string::StringExecFns;
use crate::shared::RequestErrorEnum;
use crate::text::{first_index, find_byte, str_from_utf8, lemma_str_of_utf8, lemma_scan_to,
    lemma_encode_utf8_concat, lemma_encode_ascii};

verus! {

/// The version numbers of `HTTP/<major>.<minor>`, as text.
#[derive(Debug)]
pub struct HttpVersion {
    pub major: String,
    pub minor: String,
}

/// The bytes `"HTTP/"`.
pub open spec fn http_prefix() -> Seq<u8> {
    seq![72u8, 84u8, 84u8, 80u8, 47u8]
}

/// The byte `'.'`.
pub open spec fn dot() -> u8 {
    46u8
}

/// What `HttpVersion::from_bytes` gives for `s`: after `"HTTP/"`, the text
/// before the first `'.'` is the major number and the text after it the
/// minor one; both must be non-empty and valid UTF-8.
pub open spec fn version_spec(s: Seq<u8>) -> Result<(Seq<char>, Seq<char>), RequestErrorEnum> {
    let rest = s.skip(5);
    let d = first_index(rest, dot());
    let major = rest.take(d);
    let minor = rest.skip(d + 1);
    if !(s.len() >= 5 && s.take(5) == http_prefix()) {
        Err(RequestErrorEnum::HttpVersionParseError)
    } else if d == rest.len() {
        Err(RequestErrorEnum::HttpVersionParseError)
    } else if major.len() == 0 || minor.len() == 0 {
        Err(RequestErrorEnum::HttpVersionParseError)
    } else if !valid_utf8(major) || !valid_utf8(minor) {
        Err(RequestErrorEnum::HttpVersionParseError)
    } else {
        Ok((decode_utf8(major), decode_utf8(minor)))
    }
}

/// The text `<major>.<minor>` (what the version displays as).
pub open spec fn version_text(major: Seq<char>, minor: Seq<char>) -> Seq<char> {
    major + seq!['.'] + minor
}

/// The text `"HTTP/"`.
pub open spec fn http_prefix_text() -> Seq<char> {
    seq!['H', 'T', 'T', 'P', '/']
}

/// Law: a parsed version, displayed after `"HTTP/"`, gives back exactly the
/// bytes it was parsed from, and parsing those gives the same version.
pub proof fn lemma_version_text_roundtrip(s: Seq<u8>)
    requires
        version_spec(s) is Ok,
    ensures
        ({
            let (major, minor) = version_spec(s)->Ok_0;
            &&& encode_utf8(http_prefix_text() + version_text(major, minor)) == s
            &&& version_spec(encode_utf8(http_prefix_text() + version_text(major, minor)))
                == version_spec(s)
        }),
{
    let rest = s.skip(5);
    let d = first_index(rest, dot());
    lemma_scan_to(rest, dot(), 0, rest.len() as int);
    let maj_b = rest.take(d);
    let min_b = rest.skip(d + 1);
    let (major, minor) = version_spec(s)->Ok_0;
    decode_utf8_encode_utf8(maj_b);
    decode_utf8_encode_utf8(min_b);
    lemma_encode_ascii(http_prefix_text(), s.take(5));
    lemma_encode_ascii(seq!['.'], seq![46u8]);
    lemma_encode_utf8_concat(http_prefix_text(), major);
    lemma_encode_utf8_concat(http_prefix_text() + major, seq!['.']);
    lemma_encode_utf8_concat(http_prefix_text() + major + seq!['.'], minor);
    assert(http_prefix_text() + version_text(major, minor) == http_prefix_text() + major
        + seq!['.'] + minor);
    assert(rest == maj_b + seq![46u8] + min_b);
    assert(s == s.take(5) + rest);
}

impl Default for HttpVersion {
    /// `HTTP/1.1`.
    fn default() -> (res: Self)
        ensures
            res.major@ == seq!['1'],
            res.minor@ == seq!['1'],
    {
        proof {
            reveal_strlit("1");
        }
        HttpVersion { major: String::from_str("1"), minor: String::from_str("1") }
    }
}

impl HttpVersion {
    /// Parses `HTTP/<major>.<minor>`.
    pub fn from_bytes(s: &[u8]) -> (res: Result<Self, RequestErrorEnum>)
        ensures
            match res {
                Ok(v) => version_spec(s@) == Ok::<(Seq<char>, Seq<char>), RequestErrorEnum>(
                    (v.major@, v.minor@),
                ),
                Err(e) => version_spec(s@) == Err::<(Seq<char>, Seq<char>), RequestErrorEnum>(e),
            },
    {
        let n = s.len();
        if n < 5 || !(s[0] == 72 && s[1] == 84 && s[2] == 84 && s[3] == 80 && s[4] == 47) {
            proof {
                if n >= 5 && s@.take(5) == http_prefix() {
                    assert(s@.take(5)[0] == 72u8 && s@.take(5)[1] == 84u8 && s@.take(5)[2] == 84u8
                        && s@.take(5)[3] == 80u8 && s@.take(5)[4] == 47u8);
                }
            }
            return Err(RequestErrorEnum::HttpVersionParseError);
        }
        assert(s@.take(5) =~= http_prefix());
        let rest = slice_subrange(s, 5, n);
        assert(rest@ == s@.skip(5));
        let rn = rest.len();
        let d = find_byte(rest, 46, 0, rn);
        if d == rn {
            return Err(RequestErrorEnum::HttpVersionParseError);
        }
        let major = slice_subrange(rest, 0, d);
        let minor = slice_subrange(rest, d + 1, rn);
        assert(major@ == rest@.take(d as int));
        assert(minor@ == rest@.skip(d + 1));
        if major.len() == 0 || minor.len() == 0 {
            return Err(RequestErrorEnum::HttpVersionParseError);
        }
        let major_str = match str_from_utf8(major) {
            Some(m) => m,
            None => {
                return Err(RequestErrorEnum::HttpVersionParseError);
            },
        };
        let minor_str = match str_from_utf8(minor) {
            Some(m) => m,
            None => {
                return Err(RequestErrorEnum::HttpVersionParseError);
            },
        };
        proof {
            lemma_str_of_utf8(major_str, major@);
            lemma_str_of_utf8(minor_str, minor@);
        }
        Ok(HttpVersion { major: String::from_str(major_str), minor: String::from_str(minor_str) })
    }

    /// The text `<major>.<minor>`.
    pub fn to_string(&self) -> (res: String)
        ensures
            res@ == version_text(self.major@, self.minor@),
    {
        proof {
            reveal_strlit(".");
        }
        let mut s = String::from_str(self.major.as_str());
        s.append(".");
        s.append(self.minor.as_str());
        s
    }
}

} // verus!
