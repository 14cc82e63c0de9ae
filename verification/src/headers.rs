//! Request and response headers: a map from names to values, filled from
//! the header block of a request.
use vstd::prelude::*;
use vstd::slice::slice_subrange;
use vstd::utf8::*;
use vstd::string::{StringExecFns, StrSliceExecFns};
use crate::shared::{RequestErrorEnum, crlf_crlf};
use crate::text::{first_index, first_window, trim, chars_of, find_char, trim_bounds,
    find_line_break, str_from_utf8, lemma_str_of_utf8, lemma_scan_to, lemma_window_from_take,
    lemma_window_from_extend, lemma_scan_to_first, lemma_trim_end_concat, lemma_trim_of_trim_end,
    trim_end, trim_start, is_whitespace, lemma_scan_shift, lemma_window_from};

verus! {

/// What `str::to_lowercase` gives for a text.
pub uninterp spec fn lowercase(s: Seq<char>) -> Seq<char>;

/// ASCII lowercasing: `'A'..='Z'` become `'a'..='z'`, all else stays.
pub open spec fn ascii_lowercase(s: Seq<char>) -> Seq<char> {
    s.map_values(
        |c: char|
            if 'A' <= c <= 'Z' {
                ((c as u32) + 32) as char
            } else {
                c
            },
    )
}

/// `str::to_lowercase`.
///
/// Trusted: the result is a function of the text alone, and an ASCII text
/// is lowercased letter by letter (`'A'..='Z'` to `'a'..='z'`, other ASCII
/// characters kept), as Unicode's lowercase mapping does for ASCII; what
/// other characters become is left unsaid.
#[verifier::external_body]
fn str_to_lowercase(s: &str) -> (res: String)
    ensures
        res@ == lowercase(s@),
        is_ascii_chars(s@) ==> res@ == ascii_lowercase(s@),
{
    s.to_lowercase()
}

/// Header entries as values: `(name, value)` pairs in insertion order.
pub type Entries = Seq<(Seq<char>, Seq<char>)>;

/// No two entries share a name.
pub open spec fn distinct_keys(e: Entries) -> bool {
    forall|i: int, j: int|
        0 <= i < e.len() && 0 <= j < e.len() && i != j ==> #[trigger] e[i].0 != #[trigger] e[j].0
}

/// Index of the (last) entry named `k`, or -1.
pub open spec fn key_index(e: Entries, k: Seq<char>) -> int
    decreases e.len(),
{
    if e.len() == 0 {
        -1
    } else if e.last().0 == k {
        e.len() - 1
    } else {
        key_index(e.drop_last(), k)
    }
}

/// The value of the entry named `k`.
pub open spec fn lookup(e: Entries, k: Seq<char>) -> Option<Seq<char>> {
    let i = key_index(e, k);
    if i < 0 {
        None
    } else {
        Some(e[i].1)
    }
}

/// The text `", "` that joins repeated header values.
pub open spec fn value_joiner() -> Seq<char> {
    seq![',', ' ']
}

/// `Headers::set` on values: a new name is added at the end; the value of a
/// name already there becomes `<old>, <new>`.
pub open spec fn set_spec(e: Entries, k: Seq<char>, v: Seq<char>) -> Entries {
    let i = key_index(e, k);
    if i < 0 {
        e.push((k, v))
    } else {
        e.update(i, (k, e[i].1 + value_joiner() + v))
    }
}

/// What `key_index` finds.
pub proof fn lemma_key_index(e: Entries, k: Seq<char>)
    ensures
        -1 <= key_index(e, k) < e.len(),
        key_index(e, k) >= 0 ==> e[key_index(e, k)].0 == k,
        key_index(e, k) < 0 ==> forall|j: int| 0 <= j < e.len() ==> e[j].0 != k,
        forall|j: int| key_index(e, k) < j < e.len() ==> e[j].0 != k,
    decreases e.len(),
{
    if e.len() > 0 && e.last().0 != k {
        lemma_key_index(e.drop_last(), k);
        assert(forall|j: int| 0 <= j < e.len() - 1 ==> e.drop_last()[j] == e[j]);
    }
}

/// With distinct names, any entry named `k` is the one `key_index` finds.
pub proof fn lemma_key_index_unique(e: Entries, k: Seq<char>, i: int)
    requires
        distinct_keys(e),
        0 <= i < e.len(),
        e[i].0 == k,
    ensures
        key_index(e, k) == i,
{
    lemma_key_index(e, k);
}

/// `set_spec` keeps names distinct.
pub proof fn lemma_set_distinct(e: Entries, k: Seq<char>, v: Seq<char>)
    requires
        distinct_keys(e),
    ensures
        distinct_keys(set_spec(e, k, v)),
{
    lemma_key_index(e, k);
}

/// Law: after `set(k, v)`, the value under `k` is `v`, joined behind the value
/// that was there; every other name keeps its value.
pub proof fn lemma_lookup_after_set(e: Entries, k: Seq<char>, v: Seq<char>, other: Seq<char>)
    requires
        distinct_keys(e),
    ensures
        lookup(set_spec(e, k, v), k) == Some(
            match lookup(e, k) {
                Some(old) => old + value_joiner() + v,
                None => v,
            },
        ),
        other != k ==> lookup(set_spec(e, k, v), other) == lookup(e, other),
{
    let e2 = set_spec(e, k, v);
    lemma_key_index(e, k);
    lemma_key_index(e, other);
    lemma_set_distinct(e, k, v);
    lemma_key_index(e2, k);
    lemma_key_index(e2, other);
    if key_index(e, k) < 0 {
        lemma_key_index_unique(e2, k, e.len() as int);
        if other != k && key_index(e, other) >= 0 {
            lemma_key_index_unique(e2, other, key_index(e, other));
        }
    } else {
        lemma_key_index_unique(e2, k, key_index(e, k));
        if other != k && key_index(e, other) >= 0 {
            lemma_key_index_unique(e2, other, key_index(e, other));
        }
    }
}

/// Law: a header line whose name is made of ASCII letters, digits and
/// `'-'`, followed by `':'`, is always taken: whatever the value, its text
/// without surrounding whitespace is stored under the lowercased name.
pub proof fn lemma_plain_name_is_taken(e: Entries, name: Seq<char>, value: Seq<char>)
    requires
        name.len() > 0,
        forall|i: int|
            0 <= i < name.len() ==> ('a' <= #[trigger] name[i] <= 'z' || 'A' <= name[i] <= 'Z'
                || '0' <= name[i] <= '9' || name[i] == '-'),
    ensures
        apply_line(e, name + seq![':'] + value) == LinesOutcome::Applied(
            set_spec(e, lowercase(name), trim(value)),
        ),
{
    let a = name + seq![':'];
    let raw = a + value;
    assert(raw == name + seq![':'] + value);
    assert(raw[0] == name[0]);
    assert(trim_start(raw) == raw);
    lemma_trim_end_concat(a, value);
    let line = trim(raw);
    assert(line == a + trim_end(value));
    assert forall|j: int| 0 <= j < name.len() implies line[j] != ':' by {
        assert(line[j] == name[j]);
    }
    assert(line[name.len() as int] == ':');
    lemma_scan_to_first(line, ':', 0, line.len() as int, name.len() as int);
    assert(line.take(name.len() as int) == name);
    assert(line.skip(name.len() as int + 1) == trim_end(value));
    lemma_trim_of_trim_end(value);
    assert(is_token(name));
}

/// The characters that `Headers::is_valid_token` accepts: ASCII letters and
/// digits and ``!#$%&'*+-.^_`|~``.
pub open spec fn is_token_char(c: char) -> bool {
    ||| 'a' <= c <= 'z'
    ||| 'A' <= c <= 'Z'
    ||| '0' <= c <= '9'
    ||| c == '!'
    ||| c == '#'
    ||| c == '$'
    ||| c == '%'
    ||| c == '&'
    ||| c == '\''
    ||| c == '*'
    ||| c == '+'
    ||| c == '-'
    ||| c == '.'
    ||| c == '^'
    ||| c == '_'
    ||| c == '`'
    ||| c == '|'
    ||| c == '~'
}

/// Whether every character of `s` is a token character.
pub open spec fn is_token(s: Seq<char>) -> bool {
    forall|i: int| 0 <= i < s.len() ==> is_token_char(#[trigger] s[i])
}

/// How the lines of a header block end up.
pub enum LinesOutcome {
    /// All lines were taken; the entries that result.
    Applied(Entries),
    /// A line was refused; the entries set by the lines before it, and why.
    Rejected(Entries, RequestErrorEnum),
    /// A line with a valid name and no `':'`, which has no value to store.
    MissingColon,
}

/// One header line, trimmed: blank lines are skipped; the name before the
/// first `':'` must be non-empty, must not end with a space and must be a
/// token; the trimmed text after the `':'` is added under the lowercased name.
pub open spec fn apply_line(e: Entries, raw: Seq<char>) -> LinesOutcome {
    let line = trim(raw);
    let c = first_index(line, ':');
    let key = line.take(c);
    if line.len() == 0 {
        LinesOutcome::Applied(e)
    } else if key.len() == 0 || key.last() == ' ' {
        LinesOutcome::Rejected(e, RequestErrorEnum::ParseError)
    } else if !is_token(key) {
        LinesOutcome::Rejected(e, RequestErrorEnum::MalFormedHeader)
    } else if c == line.len() {
        LinesOutcome::MissingColon
    } else {
        LinesOutcome::Applied(set_spec(e, lowercase(key), trim(line.skip(c + 1))))
    }
}

/// `s` without one trailing `'\r'`.
pub open spec fn strip_cr(s: Seq<char>) -> Seq<char> {
    if s.len() > 0 && s.last() == '\r' {
        s.drop_last()
    } else {
        s
    }
}

/// The lines of `t` (split as `str::lines` does: at each `'\n'`, with one
/// `'\r'` before it removed) applied in order, stopping at the first one
/// refused.
pub open spec fn apply_lines(e: Entries, t: Seq<char>) -> LinesOutcome
    decreases t.len(),
{
    if t.len() == 0 {
        LinesOutcome::Applied(e)
    } else {
        let i = first_index(t, '\n');
        if i >= t.len() {
            apply_line(e, t)
        } else {
            match apply_line(e, strip_cr(t.take(i))) {
                LinesOutcome::Applied(e2) => {
                    if 0 <= i {
                        apply_lines(e2, t.skip(i + 1))
                    } else {
                        LinesOutcome::Applied(e2)
                    }
                },
                other => other,
            }
        }
    }
}

/// What `Headers::parse` does with `data` starting from the entries `e`: the
/// header block runs to the first `"\r\n\r\n"` (its first `"\r\n"`
/// included); it must be valid UTF-8, and its lines are applied in order.
pub open spec fn header_block_spec(e: Entries, data: Seq<u8>) -> LinesOutcome {
    let p = first_window(data, crlf_crlf());
    if p < 0 {
        LinesOutcome::Rejected(e, RequestErrorEnum::IncompleteRequest)
    } else if !valid_utf8(data.take(p + 2)) {
        LinesOutcome::Rejected(e, RequestErrorEnum::ParseError)
    } else {
        apply_lines(e, decode_utf8(data.take(p + 2)))
    }
}

/// The length of the header block of `data` that `Headers::parse` reports.
pub open spec fn header_block_len(data: Seq<u8>) -> int {
    first_window(data, crlf_crlf()) + 2
}

/// Whether parsing the header block of `data` from empty headers meets a
/// line with a valid name and no `':'`, which has no value to store.
pub open spec fn header_block_panics(data: Seq<u8>) -> bool {
    header_block_spec(Seq::empty(), data) is MissingColon
}

/// Law: the header block ends at the first blank line, and nothing after it
/// is read: replacing what follows the blank line by any bytes gives the
/// same outcome and the same block length.
pub proof fn lemma_header_block_ignores_rest(e: Entries, data: Seq<u8>, t: Seq<u8>)
    requires
        first_window(data, crlf_crlf()) >= 0,
    ensures
        header_block_spec(e, data.take(first_window(data, crlf_crlf()) + 4) + t)
            == header_block_spec(e, data),
        header_block_len(data.take(first_window(data, crlf_crlf()) + 4) + t) == header_block_len(
            data,
        ),
{
    let p = first_window(data, crlf_crlf());
    let q = p + 4;
    lemma_window_from(data, crlf_crlf(), 0);
    lemma_window_from_take(data, crlf_crlf(), 0, q);
    let pre = data.take(q);
    lemma_window_from_extend(pre, t, crlf_crlf(), 0);
    assert(pre.take(p + 2) == data.take(p + 2));
    assert((pre + t).take(p + 2) == data.take(p + 2));
}

/// Whether a header block meets a line without `':'` does not depend on
/// the headers it starts from.
pub proof fn lemma_missing_colon_any_start(e1: Entries, e2: Entries, data: Seq<u8>)
    ensures
        (header_block_spec(e1, data) is MissingColon) == (header_block_spec(e2, data) is MissingColon),
{
    let p = first_window(data, crlf_crlf());
    if p >= 0 && valid_utf8(data.take(p + 2)) {
        lemma_lines_missing_colon(e1, e2, decode_utf8(data.take(p + 2)));
    }
}

proof fn lemma_lines_missing_colon(e1: Entries, e2: Entries, t: Seq<char>)
    ensures
        (apply_lines(e1, t) is MissingColon) == (apply_lines(e2, t) is MissingColon),
    decreases t.len(),
{
    if t.len() > 0 {
        let i = first_index(t, '\n');
        if i < t.len() {
            let raw = strip_cr(t.take(i));
            if let (LinesOutcome::Applied(a1), LinesOutcome::Applied(a2)) = (
                apply_line(e1, raw),
                apply_line(e2, raw),
            ) {
                lemma_scan_to(t, '\n', 0, t.len() as int);
                lemma_lines_missing_colon(a1, a2, t.skip(i + 1));
            }
        }
    }
}

/// Header names and values. Names are stored lowercased by `set`; no name
/// occurs twice.
#[derive(Debug)]
pub struct Headers(Vec<(String, String)>);

/// Stored pairs as values.
pub open spec fn pairs_view(v: Seq<(String, String)>) -> Entries {
    v.map_values(|p: (String, String)| (p.0@, p.1@))
}

/// The exec outcome of scanning a header block.
enum Scan {
    Done(usize),
    Failed(RequestErrorEnum),
    NoColon,
}

impl View for Headers {
    type V = Entries;

    closed spec fn view(&self) -> Entries {
        pairs_view(self.0@)
    }
}

impl Headers {
    #[verifier::type_invariant]
    spec fn wf(&self) -> bool {
        distinct_keys(self@)
    }

    /// No header.
    pub fn new() -> (res: Self)
        ensures
            res@ == Entries::empty(),
    {
        let h = Headers(Vec::new());
        assert(h@ =~= Entries::empty());
        h
    }

    /// The value stored under the lowercased `key`.
    pub fn get(&self, key: &str) -> (res: Option<&str>)
        ensures
            match res {
                Some(v) => lookup(self@, lowercase(key@)) == Some(v@),
                None => lookup(self@, lowercase(key@)) is None,
            },
            is_ascii_chars(key@) ==> lowercase(key@) == ascii_lowercase(key@),
    {
        let k = str_to_lowercase(key);
        match self.find(&k) {
            Some(i) => Some(self.0[i].1.as_str()),
            None => None,
        }
    }

    /// Whether a value is stored under the lowercased `key`.
    pub fn contains_key(&self, key: &str) -> (res: bool)
        ensures
            res == (lookup(self@, lowercase(key@)) is Some),
            is_ascii_chars(key@) ==> lowercase(key@) == ascii_lowercase(key@),
    {
        let k = str_to_lowercase(key);
        self.find(&k).is_some()
    }

    /// Index of the entry named `k`.
    fn find(&self, k: &String) -> (res: Option<usize>)
        ensures
            match res {
                Some(i) => key_index(self@, k@) == i && i < self@.len(),
                None => key_index(self@, k@) < 0,
            },
    {
        proof {
            use_type_invariant(self);
            lemma_key_index(self@, k@);
        }
        let n = self.0.len();
        let mut i: usize = 0;
        while i < n
            invariant
                n == self@.len(),
                0 <= i <= n,
                distinct_keys(self@),
                forall|j: int| 0 <= j < i ==> self@[j].0 != k@,
            decreases n - i,
        {
            if self.0[i].0 == *k {
                proof {
                    lemma_key_index_unique(self@, k@, i as int);
                }
                return Some(i);
            }
            i = i + 1;
        }
        proof {
            lemma_key_index(self@, k@);
            if key_index(self@, k@) >= 0 {
                assert(self@[key_index(self@, k@)].0 == k@);
            }
        }
        None
    }

    /// Stores `value` under the lowercased `key`; when the name is already
    /// there, the value becomes `<old>, <value>`.
    pub fn set(&mut self, key: &str, value: &str)
        ensures
            final(self)@ == set_spec(old(self)@, lowercase(key@), value@),
            is_ascii_chars(key@) ==> lowercase(key@) == ascii_lowercase(key@),
    {
        proof {
            use_type_invariant(&*self);
        }
        let k = str_to_lowercase(key);
        match self.find(&k) {
            Some(i) => {
                proof {
                    reveal_strlit(", ");
                    assert(", "@ =~= value_joiner());
                }
                let mut joined = self.0[i].1.clone();
                joined.append(", ");
                joined.append(value);
                let ghost e = self@;
                proof {
                    lemma_set_distinct(e, k@, value@);
                }
                let mut v: Vec<(String, String)> = Vec::new();
                std::mem::swap(&mut v, &mut self.0);
                v.set(i, (k, joined));
                assert(pairs_view(v@) =~= set_spec(e, lowercase(key@), value@));
                self.0 = v;
                assert(self@ =~= set_spec(e, lowercase(key@), value@));
            },
            None => {
                let ghost e = self@;
                proof {
                    lemma_set_distinct(e, k@, value@);
                }
                let mut v: Vec<(String, String)> = Vec::new();
                std::mem::swap(&mut v, &mut self.0);
                v.push((k, String::from_str(value)));
                assert(pairs_view(v@) =~= set_spec(e, lowercase(key@), value@));
                self.0 = v;
                assert(self@ =~= set_spec(e, lowercase(key@), value@));
            },
        }
    }

    /// Whether every character of `token` may stand in a header name.
    fn is_valid_token(token: &str) -> (res: bool)
        ensures
            res == is_token(token@),
    {
        let cs = chars_of(token);
        let n = cs.len();
        let mut i: usize = 0;
        while i < n
            invariant
                n == cs@.len(),
                cs@ == token@,
                0 <= i <= n,
                forall|j: int| 0 <= j < i ==> is_token_char(#[trigger] cs@[j]),
            decreases n - i,
        {
            let c = cs[i];
            if !(('a' <= c && c <= 'z') || ('A' <= c && c <= 'Z') || ('0' <= c && c <= '9') || c
                == '!' || c == '#' || c == '$' || c == '%' || c == '&' || c == '\'' || c == '*'
                || c == '+' || c == '-' || c == '.' || c == '^' || c == '_' || c == '`' || c
                == '|' || c == '~') {
                return false;
            }
            i = i + 1;
        }
        true
    }

    /// Applies the header block of `data` to `self`, reporting a line without
    /// `':'` instead of failing on it.
    fn scan_block(&mut self, data: &[u8]) -> (res: Scan)
        ensures
            match header_block_spec(old(self)@, data@) {
                LinesOutcome::Applied(e) => final(self)@ == e && (res matches Scan::Done(n) && n
                    == header_block_len(data@)),
                LinesOutcome::Rejected(e, err) => final(self)@ == e && res == Scan::Failed(err),
                LinesOutcome::MissingColon => res == Scan::NoColon,
            },
    {
        let p = match find_line_break(data, true) {
            Some(p) => p,
            None => {
                return Scan::Failed(RequestErrorEnum::IncompleteRequest);
            },
        };
        proof {
            lemma_window_from(data@, crlf_crlf(), 0);
            assert(crate::text::occurs_at(data@, crlf_crlf(), p as int));
        }
        let dl = data.len();
        assert(p + 4 <= dl);
        let block = slice_subrange(data, 0, p + 2);
        assert(block@ == data@.take(p + 2));
        let text = match str_from_utf8(block) {
            Some(t) => t,
            None => {
                return Scan::Failed(RequestErrorEnum::ParseError);
            },
        };
        proof {
            lemma_str_of_utf8(text, block@);
        }
        let cs = chars_of(text);
        let n = cs.len();
        let mut pos: usize = 0;
        assert(cs@.subrange(0, n as int) == cs@);
        while pos < n
            invariant
                n == cs@.len(),
                cs@ == text@,
                pos <= n,
                p + 2 == header_block_len(data@),
                header_block_spec(old(self)@, data@) == apply_lines(
                    self@,
                    cs@.subrange(pos as int, n as int),
                ),
            decreases n - pos,
        {
            let ghost t = cs@.subrange(pos as int, n as int);
            let ghost e = self@;
            let nl = find_char(&cs, '\n', pos, n);
            proof {
                lemma_scan_shift(cs@, '\n', pos as int, n as int, 0);
            }
            let raw_end: usize = if nl < n && nl > pos && cs[nl - 1] == '\r' {
                nl - 1
            } else {
                nl
            };
            let next: usize = if nl < n {
                nl + 1
            } else {
                n
            };
            let ghost raw = cs@.subrange(pos as int, raw_end as int);
            proof {
                if nl < n {
                    assert(t.take(nl - pos) == cs@.subrange(pos as int, nl as int));
                    assert(strip_cr(t.take(nl - pos)) == raw);
                    assert(t.skip(nl - pos + 1) == cs@.subrange(next as int, n as int));
                } else {
                    assert(raw == t);
                    assert(cs@.subrange(next as int, n as int) == Seq::<char>::empty());
                }
            }
            let (a, b) = trim_bounds(&cs, pos, raw_end);
            let ghost line = cs@.subrange(a as int, b as int);
            if a == b {
                assert(line.len() == 0);
                pos = next;
                continue;
            }
            let c = find_char(&cs, ':', a, b);
            proof {
                lemma_scan_shift(cs@, ':', a as int, b as int, 0);
                assert(line.take(c - a) == cs@.subrange(a as int, c as int));
            }
            if c == a || cs[c - 1] == ' ' {
                return Scan::Failed(RequestErrorEnum::ParseError);
            }
            let key = text.substring_char(a, c);
            if !Self::is_valid_token(key) {
                return Scan::Failed(RequestErrorEnum::MalFormedHeader);
            }
            if c == b {
                return Scan::NoColon;
            }
            let (va, vb) = trim_bounds(&cs, c + 1, b);
            proof {
                assert(line.skip(c - a + 1) == cs@.subrange(c + 1, b as int));
            }
            let value = text.substring_char(va, vb);
            self.set(key, value);
            pos = next;
        }
        Scan::Done(p + 2)
    }

    /// Applies the header block at the start of `data` (up to the first
    /// blank line) to `self`, and returns its length (its first `"\r\n"`
    /// included, the blank line not).
    pub fn parse(&mut self, data: &[u8]) -> (res: Result<usize, RequestErrorEnum>)
        requires
            !(header_block_spec(old(self)@, data@) is MissingColon),
        ensures
            match header_block_spec(old(self)@, data@) {
                LinesOutcome::Applied(e) => final(self)@ == e && (res matches Ok(n) && n
                    == header_block_len(data@)),
                LinesOutcome::Rejected(e, err) => final(self)@ == e && res == Err::<
                    usize,
                    RequestErrorEnum,
                >(err),
                LinesOutcome::MissingColon => false,
            },
    {
        match self.scan_block(data) {
            Scan::Done(n) => Ok(n),
            Scan::Failed(e) => Err(e),
            Scan::NoColon => Err(RequestErrorEnum::ParseError),
        }
    }

    /// New headers from the header block at the start of `data`, with the
    /// block's length.
    pub fn new_from_data(data: &[u8]) -> (res: Result<(Self, usize), RequestErrorEnum>)
        requires
            !header_block_panics(data@),
        ensures
            match header_block_spec(Seq::empty(), data@) {
                LinesOutcome::Applied(e) => (res matches Ok((h, n)) && h@ == e && n
                    == header_block_len(data@)),
                LinesOutcome::Rejected(_, err) => (res matches Err(x) && x == err),
                LinesOutcome::MissingColon => false,
            },
    {
        let mut headers = Headers::new();
        let n = headers.parse(data)?;
        Ok((headers, n))
    }

    /// Whether the header block of `data` holds a line with a valid name and
    /// no `':'`, which `parse` and `new_from_data` do not accept.
    pub fn parse_panics(data: &[u8]) -> (res: bool)
        ensures
            res == header_block_panics(data@),
    {
        let mut headers = Headers::new();
        match headers.scan_block(data) {
            Scan::NoColon => true,
            _ => false,
        }
    }
}

/// The entries of `Headers::default`.
pub open spec fn default_entries() -> Entries {
    seq![
        ("Content-Length"@, "0"@),
        ("Connection"@, "close"@),
        ("Content-Type"@, "text/plain"@),
    ]
}

impl Default for Headers {
    /// The headers of a plain response: `Content-Length: 0`,
    /// `Connection: close` and `Content-Type: text/plain`, under these
    /// names as written.
    fn default() -> (res: Self)
        ensures
            res@ == default_entries(),
    {
        proof {
            reveal_strlit("Content-Length");
            reveal_strlit("Connection");
            reveal_strlit("Content-Type");
        }
        let mut v: Vec<(String, String)> = Vec::new();
        v.push((String::from_str("Content-Length"), String::from_str("0")));
        v.push((String::from_str("Connection"), String::from_str("close")));
        v.push((String::from_str("Content-Type"), String::from_str("text/plain")));
        assert(pairs_view(v@) =~= default_entries());
        assert("Content-Length"@[8] != "Connection"@[8]);
        assert("Content-Length"@[8] != "Content-Type"@[8]);
        assert("Connection"@.len() != "Content-Type"@.len());
        Headers(v)
    }
}

impl Headers {
    /// The stored `(name, value)` pairs, in order.
    pub fn pairs(&self) -> (res: &[(String, String)])
        ensures
            pairs_view(res@) == self@,
    {
        self.0.as_slice()
    }
}

} // verus!
