//! Searching, trimming and decoding helpers on bytes and characters.
use vstd::prelude::*;
use vstd::utf8::*;
use vstd::string::StringSliceAdditionalSpecFns;

verus! {

/// Index of the first `x` in `s[from..to]`, or `to` when there is none.
pub open spec fn scan_to<T>(s: Seq<T>, x: T, from: int, to: int) -> int
    decreases to - from,
{
    if from >= to {
        to
    } else if s[from] == x {
        from
    } else {
        scan_to(s, x, from + 1, to)
    }
}

/// Index of the first `x` in `s`, or `s.len()` when there is none.
pub open spec fn first_index<T>(s: Seq<T>, x: T) -> int {
    scan_to(s, x, 0, s.len() as int)
}

/// Whether `pat` occurs in `data` at `at`.
pub open spec fn occurs_at(data: Seq<u8>, pat: Seq<u8>, at: int) -> bool {
    0 <= at && at + pat.len() <= data.len() && data.subrange(at, at + pat.len()) == pat
}

/// Index of the first occurrence of `pat` in `data` at or after `from`, or -1.
pub open spec fn window_from(data: Seq<u8>, pat: Seq<u8>, from: int) -> int
    decreases data.len() + 1 - from,
{
    if from < 0 || from + pat.len() > data.len() {
        -1
    } else if occurs_at(data, pat, from) {
        from
    } else {
        window_from(data, pat, from + 1)
    }
}

/// Index of the first occurrence of `pat` in `data`, or -1 when it does not occur.
pub open spec fn first_window(data: Seq<u8>, pat: Seq<u8>) -> int {
    window_from(data, pat, 0)
}

/// What `scan_to` finds: no `x` before the result, and `x` at it unless it is `to`.
pub proof fn lemma_scan_to<T>(s: Seq<T>, x: T, from: int, to: int)
    requires
        0 <= from <= to <= s.len(),
    ensures
        from <= scan_to(s, x, from, to) <= to,
        forall|j: int| from <= j < scan_to(s, x, from, to) ==> s[j] != x,
        scan_to(s, x, from, to) < to ==> s[scan_to(s, x, from, to)] == x,
    decreases to - from,
{
    if from < to && s[from] != x {
        lemma_scan_to(s, x, from + 1, to);
    }
}

/// `scan_to` finds the first `x`.
pub proof fn lemma_scan_to_first<T>(s: Seq<T>, x: T, from: int, to: int, k: int)
    requires
        0 <= from <= k < to <= s.len(),
        s[k] == x,
        forall|j: int| from <= j < k ==> s[j] != x,
    ensures
        scan_to(s, x, from, to) == k,
    decreases k - from,
{
    if from < k {
        lemma_scan_to_first(s, x, from + 1, to, k);
    }
}

/// `scan_to` finds nothing where there is no `x`.
pub proof fn lemma_scan_to_none<T>(s: Seq<T>, x: T, from: int, to: int)
    requires
        0 <= from <= to <= s.len(),
        forall|j: int| from <= j < to ==> s[j] != x,
    ensures
        scan_to(s, x, from, to) == to,
    decreases to - from,
{
    if from < to {
        lemma_scan_to_none(s, x, from + 1, to);
    }
}

/// Scanning a sub-range is scanning the whole sequence, shifted.
pub proof fn lemma_scan_shift<T>(s: Seq<T>, x: T, a: int, b: int, i: int)
    requires
        0 <= a <= b <= s.len(),
        0 <= i <= b - a,
    ensures
        scan_to(s.subrange(a, b), x, i, b - a) == scan_to(s, x, a + i, b) - a,
    decreases b - a - i,
{
    if i < b - a {
        assert(s.subrange(a, b)[i] == s[a + i]);
        lemma_scan_shift(s, x, a, b, i + 1);
    }
}

/// What `window_from` finds: the first occurrence at or after `from`.
pub proof fn lemma_window_from(data: Seq<u8>, pat: Seq<u8>, from: int)
    requires
        0 <= from,
    ensures
        window_from(data, pat, from) == -1 || from <= window_from(data, pat, from),
        window_from(data, pat, from) >= 0 ==> occurs_at(data, pat, window_from(data, pat, from)),
        forall|j: int|
            from <= j && (window_from(data, pat, from) == -1 || j < window_from(data, pat, from))
                ==> !occurs_at(data, pat, j),
    decreases data.len() + 1 - from,
{
    if from + pat.len() <= data.len() && !occurs_at(data, pat, from) {
        lemma_window_from(data, pat, from + 1);
    }
}

/// A pattern whose first byte does not occur before `k` is first found at
/// `k` when it occurs there.
pub proof fn lemma_window_first(data: Seq<u8>, pat: Seq<u8>, from: int, k: int)
    requires
        0 <= from <= k,
        pat.len() > 0,
        occurs_at(data, pat, k),
        forall|j: int| from <= j < k ==> data[j] != pat[0],
    ensures
        window_from(data, pat, from) == k,
    decreases k - from,
{
    if from < k {
        assert(data.subrange(from, from + pat.len())[0] == data[from]);
        lemma_window_first(data, pat, from + 1, k);
    }
}

/// Once found, the first occurrence of a pattern stays where it is when
/// more bytes arrive behind the data.
pub proof fn lemma_window_from_extend(data: Seq<u8>, more: Seq<u8>, pat: Seq<u8>, from: int)
    requires
        0 <= from,
        window_from(data, pat, from) >= 0,
    ensures
        window_from(data + more, pat, from) == window_from(data, pat, from),
    decreases data.len() + 1 - from,
{
    let ext = data + more;
    if occurs_at(data, pat, from) {
        assert(ext.subrange(from, from + pat.len()) == data.subrange(from, from + pat.len()));
    } else {
        if from + pat.len() <= data.len() {
            assert(ext.subrange(from, from + pat.len()) == data.subrange(from, from + pat.len()));
        }
        lemma_window_from_extend(data, more, pat, from + 1);
    }
}

/// The first occurrence of a pattern is also the first one in any prefix
/// that holds it.
pub proof fn lemma_window_from_take(data: Seq<u8>, pat: Seq<u8>, from: int, m: int)
    requires
        0 <= from,
        window_from(data, pat, from) >= 0,
        window_from(data, pat, from) + pat.len() <= m <= data.len(),
    ensures
        window_from(data.take(m), pat, from) == window_from(data, pat, from),
    decreases data.len() + 1 - from,
{
    let pre = data.take(m);
    if from + pat.len() <= m {
        assert(pre.subrange(from, from + pat.len()) == data.subrange(from, from + pat.len()));
    }
    if !occurs_at(data, pat, from) {
        lemma_window_from_take(data, pat, from + 1, m);
    }
}

/// `char::is_whitespace`: the characters with the Unicode `White_Space` property.
pub open spec fn is_whitespace(c: char) -> bool {
    let u = c as u32;
    ||| 0x09 <= u <= 0x0d
    ||| u == 0x20
    ||| u == 0x85
    ||| u == 0xa0
    ||| u == 0x1680
    ||| 0x2000 <= u <= 0x200a
    ||| u == 0x2028
    ||| u == 0x2029
    ||| u == 0x202f
    ||| u == 0x205f
    ||| u == 0x3000
}

/// Executable `is_whitespace`.
pub fn char_is_whitespace(c: char) -> (res: bool)
    ensures
        res == is_whitespace(c),
{
    let u = c as u32;
    (0x09 <= u && u <= 0x0d) || u == 0x20 || u == 0x85 || u == 0xa0 || u == 0x1680 || (0x2000
        <= u && u <= 0x200a) || u == 0x2028 || u == 0x2029 || u == 0x202f || u == 0x205f || u
        == 0x3000
}

/// `s` without its leading whitespace.
pub open spec fn trim_start(s: Seq<char>) -> Seq<char>
    decreases s.len(),
{
    if s.len() > 0 && is_whitespace(s[0]) {
        trim_start(s.drop_first())
    } else {
        s
    }
}

/// `s` without its trailing whitespace.
pub open spec fn trim_end(s: Seq<char>) -> Seq<char>
    decreases s.len(),
{
    if s.len() > 0 && is_whitespace(s.last()) {
        trim_end(s.drop_last())
    } else {
        s
    }
}

/// `str::trim`: `s` without leading and trailing whitespace.
pub open spec fn trim(s: Seq<char>) -> Seq<char> {
    trim_end(trim_start(s))
}

/// A text whose last character is not whitespace keeps that character,
/// last, when leading whitespace goes.
pub proof fn lemma_trim_start_keeps_last(v: Seq<char>)
    requires
        v.len() > 0,
        !is_whitespace(v.last()),
    ensures
        trim_start(v).len() > 0,
        trim_start(v).last() == v.last(),
    decreases v.len(),
{
    if is_whitespace(v[0]) {
        assert(v.drop_first().last() == v.last());
        lemma_trim_start_keeps_last(v.drop_first());
    }
}

/// What `trim_end` leaves is empty or ends with a non-whitespace character.
pub proof fn lemma_trim_end_result(x: Seq<char>)
    ensures
        trim_end(x).len() == 0 || !is_whitespace(trim_end(x).last()),
    decreases x.len(),
{
    if x.len() > 0 && is_whitespace(x.last()) {
        lemma_trim_end_result(x.drop_last());
    }
}

/// Dropping leading whitespace after appending a whitespace character.
proof fn lemma_trim_start_push_ws(u: Seq<char>, w: char)
    requires
        is_whitespace(w),
    ensures
        trim_start(u.push(w)) == if trim_start(u).len() > 0 {
            trim_start(u).push(w)
        } else {
            Seq::<char>::empty()
        },
    decreases u.len(),
{
    assert(u.push(w)[0] == if u.len() == 0 { w } else { u[0] });
    if u.len() == 0 {
        assert(u.push(w).drop_first() =~= Seq::<char>::empty());
        assert(trim_start(Seq::<char>::empty()) == Seq::<char>::empty());
        assert(trim_start(u) == u);
    } else if is_whitespace(u[0]) {
        assert(u.push(w).drop_first() =~= u.drop_first().push(w));
        lemma_trim_start_push_ws(u.drop_first(), w);
    }
}

/// Leading and trailing whitespace can go in either order.
pub proof fn lemma_trim_commute(v: Seq<char>)
    ensures
        trim_start(trim_end(v)) == trim_end(trim_start(v)),
    decreases v.len(),
{
    if v.len() > 0 {
        if is_whitespace(v.last()) {
            let u = v.drop_last();
            lemma_trim_commute(u);
            assert(v == u.push(v.last()));
            lemma_trim_start_push_ws(u, v.last());
            if trim_start(u).len() > 0 {
                assert(trim_start(u).push(v.last()).drop_last() == trim_start(u));
            }
        } else {
            lemma_trim_start_keeps_last(v);
        }
    }
}

/// Trimming after dropping trailing whitespace is trimming.
pub proof fn lemma_trim_of_trim_end(v: Seq<char>)
    ensures
        trim(trim_end(v)) == trim(v),
{
    lemma_trim_commute(v);
    lemma_trim_end_result(trim_start(v));
    let t = trim_end(trim_start(v));
    assert(trim_end(t) == t);
}

/// Trailing whitespace after a non-whitespace character only comes from
/// what follows it.
pub proof fn lemma_trim_end_concat(a: Seq<char>, b: Seq<char>)
    requires
        a.len() > 0,
        !is_whitespace(a.last()),
    ensures
        trim_end(a + b) == a + trim_end(b),
    decreases b.len(),
{
    if b.len() == 0 {
        assert(a + b == a);
    } else {
        assert((a + b).last() == b.last());
        if is_whitespace(b.last()) {
            assert((a + b).drop_last() == a + b.drop_last());
            lemma_trim_end_concat(a, b.drop_last());
        }
    }
}

/// Bounds of `trim(s[from..to])` inside `s`.
pub fn trim_bounds(s: &Vec<char>, from: usize, to: usize) -> (res: (usize, usize))
    requires
        from <= to <= s@.len(),
    ensures
        from <= res.0 <= res.1 <= to,
        s@.subrange(res.0 as int, res.1 as int) == trim(s@.subrange(from as int, to as int)),
{
    let mut a = from;
    while a < to && char_is_whitespace(s[a])
        invariant
            from <= a <= to <= s@.len(),
            trim_start(s@.subrange(from as int, to as int)) == trim_start(
                s@.subrange(a as int, to as int),
            ),
        decreases to - a,
    {
        assert(s@.subrange(a + 1, to as int) == s@.subrange(a as int, to as int).drop_first());
        a = a + 1;
    }
    let ghost start = s@.subrange(a as int, to as int);
    assert(trim_start(start) == start);
    let mut b = to;
    while b > a && char_is_whitespace(s[b - 1])
        invariant
            from <= a <= b <= to <= s@.len(),
            trim_end(start) == trim_end(s@.subrange(a as int, b as int)),
        decreases b - a,
    {
        assert(s@.subrange(a as int, b - 1) == s@.subrange(a as int, b as int).drop_last());
        b = b - 1;
    }
    (a, b)
}

/// Index of the first `x` in `s[from..to]`, or `to`.
pub fn find_char(s: &Vec<char>, x: char, from: usize, to: usize) -> (res: usize)
    requires
        from <= to <= s@.len(),
    ensures
        res == scan_to(s@, x, from as int, to as int),
        from <= res <= to,
        forall|j: int| from <= j < res ==> s@[j] != x,
        res < to ==> s@[res as int] == x,
{
    proof {
        lemma_scan_to(s@, x, from as int, to as int);
    }
    let mut i = from;
    while i < to && s[i] != x
        invariant
            from <= i <= to <= s@.len(),
            scan_to(s@, x, from as int, to as int) == scan_to(s@, x, i as int, to as int),
        decreases to - i,
    {
        i = i + 1;
    }
    i
}

/// Index of the first byte `x` in `s[from..to]`, or `to`.
pub fn find_byte(s: &[u8], x: u8, from: usize, to: usize) -> (res: usize)
    requires
        from <= to <= s@.len(),
    ensures
        res == scan_to(s@, x, from as int, to as int),
        from <= res <= to,
        forall|j: int| from <= j < res ==> s@[j] != x,
        res < to ==> s@[res as int] == x,
{
    proof {
        lemma_scan_to(s@, x, from as int, to as int);
    }
    let mut i = from;
    while i < to && s[i] != x
        invariant
            from <= i <= to <= s@.len(),
            scan_to(s@, x, from as int, to as int) == scan_to(s@, x, i as int, to as int),
        decreases to - i,
    {
        i = i + 1;
    }
    i
}

/// Index of the first `"\r\n"` (when `four` is false) or `"\r\n\r\n"` (when
/// it is true) in `data`, or `None`.
pub fn find_line_break(data: &[u8], four: bool) -> (res: Option<usize>)
    ensures
        ({
            let pat = if four {
                crate::shared::crlf_crlf()
            } else {
                crate::shared::separator()
            };
            match res {
                Some(p) => first_window(data@, pat) == p,
                None => first_window(data@, pat) == -1,
            }
        }),
{
    let ghost pat = if four {
        crate::shared::crlf_crlf()
    } else {
        crate::shared::separator()
    };
    let w: usize = if four {
        4
    } else {
        2
    };
    let n = data.len();
    if n < w {
        return None;
    }
    let mut i: usize = 0;
    while i <= n - w
        invariant
            n == data@.len(),
            w == pat.len(),
            w <= n,
            pat == (if four { crate::shared::crlf_crlf() } else { crate::shared::separator() }),
            0 <= i <= n - w + 1,
            first_window(data@, pat) == window_from(data@, pat, i as int),
        decreases n - i,
    {
        let hit = if four {
            data[i] == 13 && data[i + 1] == 10 && data[i + 2] == 13 && data[i + 3] == 10
        } else {
            data[i] == 13 && data[i + 1] == 10
        };
        let ghost win = data@.subrange(i as int, i + w);
        if hit {
            assert(win =~= pat);
            return Some(i);
        }
        assert(!occurs_at(data@, pat, i as int)) by {
            if win == pat {
                assert(win[0] == pat[0] && win[1] == pat[1]);
                if four {
                    assert(win[2] == pat[2] && win[3] == pat[3]);
                }
            }
        }
        i = i + 1;
    }
    None
}

/// The UTF-8 encoding of joined texts is the joined encodings.
pub proof fn lemma_encode_utf8_concat(a: Seq<char>, b: Seq<char>)
    ensures
        encode_utf8(a + b) == encode_utf8(a) + encode_utf8(b),
    decreases a.len(),
{
    if a.len() == 0 {
        assert(a + b == b);
    } else {
        assert((a + b)[0] == a[0]);
        assert((a + b).drop_first() == a.drop_first() + b);
        lemma_encode_utf8_concat(a.drop_first(), b);
    }
}

/// An ASCII text encodes to its characters' codes.
pub proof fn lemma_encode_ascii(chars: Seq<char>, bytes: Seq<u8>)
    requires
        is_ascii_chars(chars),
        chars.len() == bytes.len(),
        forall|i: int| 0 <= i < chars.len() ==> chars[i] as u8 == #[trigger] bytes[i],
    ensures
        encode_utf8(chars) == bytes,
{
    is_ascii_chars_encode_utf8(chars);
    assert(encode_utf8(chars) =~= bytes);
}

/// Converts bytes to a string slice when they are valid UTF-8 (`std::str::from_utf8`).
///
/// Trusted: claims that `std::str::from_utf8` succeeds exactly on valid
/// UTF-8 and that the resulting string slice holds the same bytes.
#[verifier::external_body]
pub(crate) fn str_from_utf8(bytes: &[u8]) -> (res: Option<&str>)
    ensures
        res is Some <==> valid_utf8(bytes@),
        res matches Some(s) ==> s.spec_bytes() == bytes@,
{
    std::str::from_utf8(bytes).ok()
}

/// The characters of the string that `str_from_utf8` gives for valid bytes.
pub proof fn lemma_str_of_utf8(s: &str, bytes: Seq<u8>)
    requires
        s.spec_bytes() == bytes,
    ensures
        s@ == decode_utf8(bytes),
        valid_utf8(bytes),
{
    encode_utf8_decode_utf8(s@);
    encode_utf8_valid_utf8(s@);
}

/// What `String::from_utf8_lossy` gives for a byte sequence.
pub uninterp spec fn utf8_lossy(bytes: Seq<u8>) -> Seq<char>;

/// `String::from_utf8_lossy`, made an owned `String`.
///
/// Trusted: the result is a function of the bytes alone, and valid UTF-8
/// converts to exactly the characters it encodes; what replaces invalid
/// sequences is left unsaid.
#[verifier::external_body]
pub(crate) fn string_from_utf8_lossy(bytes: &[u8]) -> (res: String)
    ensures
        res@ == utf8_lossy(bytes@),
        valid_utf8(bytes@) ==> res@ == decode_utf8(bytes@),
{
    String::from_utf8_lossy(bytes).into_owned()
}

/// The characters of a string slice, in order.
pub fn chars_of(s: &str) -> (res: Vec<char>)
    ensures
        res@ == s@,
{
    let mut v: Vec<char> = Vec::new();
    for c in it: s.chars()
        invariant
            v@ == it.seq().take(it.index() as int),
    {
        v.push(c);
    }
    v
}

/// Whether the text `s` is the single character `c`.
pub fn is_single_char(s: &str, c: char) -> (res: bool)
    ensures
        res == (s@ == seq![c]),
{
    let cs = chars_of(s);
    if cs.len() == 1 && cs[0] == c {
        assert(cs@ =~= seq![c]);
        true
    } else {
        false
    }
}

} // verus!
