//! Reading recorded level grids stored in NumPy `.npy` files.
//!
//! The file is a magic string, a version, a header length, a text header
//! giving the shape and element type, then the elements. Only the bytes are
//! read here; the header is searched byte by byte, which for the ASCII
//! patterns searched gives the same positions as searching the decoded text.
use vstd::prelude::*;
use vstd::utf8::valid_utf8;
use crate::grid::{ByteGrid, shape_fits};

verus! {

/// `needle` occurs in `hay` starting at byte `i`.
pub open spec fn occurs_at(hay: Seq<u8>, needle: Seq<u8>, i: int) -> bool {
    0 <= i && i + needle.len() <= hay.len() && hay.subrange(i, i + needle.len()) == needle
}

/// The first position at or after `from` where `needle` occurs in `hay`.
pub open spec fn first_occurrence(hay: Seq<u8>, needle: Seq<u8>, from: int) -> Option<int> {
    if exists|i: int| from <= i && #[trigger] occurs_at(hay, needle, i) {
        Some(choose|i: int| from <= i && #[trigger] occurs_at(hay, needle, i) && forall|j: int| from <= j < i ==> !occurs_at(hay, needle, j))
    } else {
        None
    }
}

/// The first position at or after `from` where `needle` occurs in `hay`, or
/// `None`.
pub fn find_bytes(hay: &[u8], needle: &[u8], from: usize) -> (r: Option<usize>)
    requires
        needle@.len() > 0,
    ensures
        r matches Some(i) ==> from <= i && occurs_at(hay@, needle@, i as int) && forall|j: int|
            from <= j < i ==> !occurs_at(hay@, needle@, j),
        r is None ==> forall|j: int| from <= j ==> !occurs_at(hay@, needle@, j),
{
    let n = hay.len();
    let m = needle.len();
    if m > n {
        return None;
    }
    let mut i = from;
    while i <= n - m
        invariant
            n == hay@.len(),
            m == needle@.len(),
            0 < m <= n,
            from <= i,
            forall|j: int| from <= j < i ==> !occurs_at(hay@, needle@, j),
        decreases n - i,
    {
        let mut k: usize = 0;
        let mut same = true;
        while k < m && same
            invariant
                n == hay@.len(),
                m == needle@.len(),
                i + m <= n,
                0 <= k <= m,
                same ==> forall|t: int| 0 <= t < k ==> hay@[i + t] == needle@[t],
                !same ==> !occurs_at(hay@, needle@, i as int),
            decreases m - k,
        {
            if hay[i + k] != needle[k] {
                same = false;
                assert(hay@.subrange(i as int, i + m)[k as int] != needle@[k as int]);
            }
            k = k + 1;
        }
        if same {
            assert(hay@.subrange(i as int, i + m) =~= needle@);
            return Some(i);
        }
        i = i + 1;
    }
    assert forall|j: int| from <= j implies !occurs_at(hay@, needle@, j) by {
        if j >= i {
            assert(j + m > n);
        }
    }
    None
}

/// The magic string that opens a `.npy` file: `\x93NUMPY`.
pub open spec fn npy_magic() -> Seq<u8> {
    seq![0x93u8, 0x4eu8, 0x55u8, 0x4du8, 0x50u8, 0x59u8]
}

/// Where the text header lies, as `(start, length)`: version 1 files store a
/// two-byte length at bytes 8..10 and start the header at 10, other versions
/// a four-byte length at 8..12 and start it at 12 (both little-endian).
/// `None` when the magic string is missing or the file is too short.
pub open spec fn npy_header_range(d: Seq<u8>) -> Option<(int, int)> {
    if d.len() < 7 || d.subrange(0, 6) != npy_magic() {
        None
    } else if d[6] == 1 {
        if d.len() < 10 {
            None
        } else {
            let len = d[8] + 256 * d[9];
            if 10 + len <= d.len() { Some((10int, len)) } else { None }
        }
    } else {
        if d.len() < 12 {
            None
        } else {
            let len = d[8] + 256 * d[9] + 65536 * d[10] + 16777216 * d[11];
            if 12 + len <= d.len() { Some((12int, len)) } else { None }
        }
    }
}

/// Finds the header's position; `None` exactly when `npy_header_range` is.
fn header_range(data: &[u8]) -> (r: Option<(usize, usize)>)
    ensures
        r matches Some(p) ==> npy_header_range(data@) == Some((p.0 as int, p.1 as int)) && p.0 + p.1 <= data@.len(),
        r is None ==> npy_header_range(data@) is None,
{
    let n = data.len();
    if n < 7 {
        return None;
    }
    if data[0] != 0x93 || data[1] != 0x4e || data[2] != 0x55 || data[3] != 0x4d || data[4] != 0x50 || data[5] != 0x59 {
        assert(data@.subrange(0, 6) != npy_magic()) by {
            if data@.subrange(0, 6) == npy_magic() {
                assert(data@.subrange(0, 6)[0] == data@[0]);
                assert(data@.subrange(0, 6)[1] == data@[1]);
                assert(data@.subrange(0, 6)[2] == data@[2]);
                assert(data@.subrange(0, 6)[3] == data@[3]);
                assert(data@.subrange(0, 6)[4] == data@[4]);
                assert(data@.subrange(0, 6)[5] == data@[5]);
            }
        }
        return None;
    }
    assert(data@.subrange(0, 6) =~= npy_magic());
    if data[6] == 1 {
        if n < 10 {
            return None;
        }
        let len = data[8] as usize + 256 * (data[9] as usize);
        if len <= n - 10 {
            Some((10, len))
        } else {
            None
        }
    } else {
        if n < 12 {
            return None;
        }
        let len: u64 = data[8] as u64 + 256 * (data[9] as u64) + 65536 * (data[10] as u64) + 16777216 * (data[11] as u64);
        if len <= (n - 12) as u64 {
            Some((12, len as usize))
        } else {
            None
        }
    }
}

/// The bytes `start..end` of the slice, copied.
fn copy_range(data: &[u8], start: usize, end: usize) -> (r: Vec<u8>)
    requires
        start <= end <= data@.len(),
    ensures
        r@ == data@.subrange(start as int, end as int),
{
    let mut r: Vec<u8> = Vec::new();
    let mut i = start;
    while i < end
        invariant
            start <= i <= end <= data@.len(),
            r@ == data@.subrange(start as int, i as int),
        decreases end - i,
    {
        r.push(data[i]);
        assert(r@ =~= data@.subrange(start as int, i + 1));
        i = i + 1;
    }
    r
}

/// `std::str::from_utf8(bytes).is_ok()`: whether the bytes are well-formed
/// UTF-8, which is what vstd's `valid_utf8` describes.
#[verifier::external_body]
fn is_valid_utf8(bytes: &[u8]) -> (b: bool)
    ensures
        b == valid_utf8(bytes@),
{
    std::str::from_utf8(bytes).is_ok()
}

/// `first_occurrence` is the position `find_bytes` reports.
pub proof fn lemma_first_occurrence(hay: Seq<u8>, needle: Seq<u8>, from: int, i: int)
    requires
        from <= i,
        occurs_at(hay, needle, i),
        forall|j: int| from <= j < i ==> !occurs_at(hay, needle, j),
    ensures
        first_occurrence(hay, needle, from) == Some(i),
{
    assert(from <= i && occurs_at(hay, needle, i));
    let c = choose|c: int| from <= c && #[trigger] occurs_at(hay, needle, c) && forall|j: int| from <= j < c ==> !occurs_at(hay, needle, j);
    if c < i {
        assert(!occurs_at(hay, needle, c));
    }
    if c > i {
        assert(!occurs_at(hay, needle, i));
    }
}

/// An ASCII whitespace byte: tab, line feed, vertical tab, form feed,
/// carriage return or space.
pub open spec fn ascii_ws(b: u8) -> bool {
    b == 9 || b == 10 || b == 11 || b == 12 || b == 13 || b == 32
}

/// Three bytes that encode a Unicode whitespace character in UTF-8: U+1680,
/// U+2000 to U+200A, U+2028, U+2029, U+202F, U+205F or U+3000.
pub open spec fn three_byte_ws(a: u8, b: u8, c: u8) -> bool {
    ||| (a == 0xE1 && b == 0x9A && c == 0x80)
    ||| (a == 0xE2 && b == 0x80 && ((0x80 <= c <= 0x8A) || c == 0xA8 || c == 0xA9 || c == 0xAF))
    ||| (a == 0xE2 && b == 0x81 && c == 0x9F)
    ||| (a == 0xE3 && b == 0x80 && c == 0x80)
}

/// The length in bytes of the Unicode whitespace character (Unicode
/// property White_Space, what `char::is_whitespace` tests) that `s` starts
/// with; 0 when it starts with none. U+0085 and U+00A0 take two bytes.
pub open spec fn ws_prefix_len(s: Seq<u8>) -> int {
    if s.len() >= 1 && ascii_ws(s[0]) {
        1
    } else if s.len() >= 2 && s[0] == 0xC2 && (s[1] == 0x85 || s[1] == 0xA0) {
        2
    } else if s.len() >= 3 && three_byte_ws(s[0], s[1], s[2]) {
        3
    } else {
        0
    }
}

/// The length in bytes of the Unicode whitespace character that `s` ends
/// with; 0 when it ends with none.
pub open spec fn ws_suffix_len(s: Seq<u8>) -> int {
    let n = s.len() as int;
    if n >= 1 && ascii_ws(s[n - 1]) {
        1
    } else if n >= 2 && s[n - 2] == 0xC2 && (s[n - 1] == 0x85 || s[n - 1] == 0xA0) {
        2
    } else if n >= 3 && three_byte_ws(s[n - 3], s[n - 2], s[n - 1]) {
        3
    } else {
        0
    }
}

/// `s` without its leading whitespace characters.
pub open spec fn trim_start_ws(s: Seq<u8>) -> Seq<u8>
    decreases s.len(),
{
    let k = ws_prefix_len(s);
    if k > 0 {
        trim_start_ws(s.subrange(k, s.len() as int))
    } else {
        s
    }
}

/// `s` without its trailing whitespace characters.
pub open spec fn trim_end_ws(s: Seq<u8>) -> Seq<u8>
    decreases s.len(),
{
    let k = ws_suffix_len(s);
    if k > 0 {
        trim_end_ws(s.subrange(0, s.len() - k))
    } else {
        s
    }
}

/// The UTF-8 text `s` without leading and trailing whitespace, as
/// `str::trim` gives it.
pub open spec fn trim_ws(s: Seq<u8>) -> Seq<u8> {
    trim_end_ws(trim_start_ws(s))
}

/// An ASCII decimal digit.
pub open spec fn is_digit_byte(b: u8) -> bool {
    48 <= b <= 57
}

/// Every byte is an ASCII decimal digit.
pub open spec fn all_digits(s: Seq<u8>) -> bool {
    forall|i: int| 0 <= i < s.len() ==> is_digit_byte(#[trigger] s[i])
}

/// The number written by the decimal digits `s`.
pub open spec fn digits_value(s: Seq<u8>) -> nat
    decreases s.len(),
{
    if s.len() == 0 {
        0
    } else {
        digits_value(s.drop_last()) * 10 + (s.last() - 48) as nat
    }
}

/// `str::parse::<usize>`: an optional `+` then one or more decimal digits
/// whose value fits in `usize`; anything else is refused.
pub open spec fn parse_usize_bytes(s: Seq<u8>) -> Option<usize> {
    if s.len() == 0 || (s[0] == 43 && s.len() == 1) {
        None
    } else {
        let d = if s[0] == 43 { s.subrange(1, s.len() as int) } else { s };
        if all_digits(d) && digits_value(d) <= usize::MAX {
            Some(digits_value(d) as usize)
        } else {
            None
        }
    }
}

/// One element when the option holds a value, none otherwise.
pub open spec fn opt_seq(o: Option<usize>) -> Seq<usize> {
    match o {
        Some(v) => seq![v],
        None => seq![],
    }
}

/// The numbers read from the pieces of `s` split at commas, from the piece
/// starting at `start`, with `k` the scan position inside it: each piece is
/// trimmed and parsed, and pieces that do not parse are skipped.
pub open spec fn dims_from(s: Seq<u8>, start: int, k: int) -> Seq<usize>
    decreases s.len() - k,
{
    if k >= s.len() {
        opt_seq(parse_usize_bytes(trim_ws(s.subrange(start, s.len() as int))))
    } else if s[k] == 44 {
        opt_seq(parse_usize_bytes(trim_ws(s.subrange(start, k)))) + dims_from(s, k + 1, k + 1)
    } else {
        dims_from(s, start, k + 1)
    }
}

/// The numbers of a shape text such as `40, 60`: `s.split(',')` with each
/// piece trimmed and parsed as `usize`, failures left out.
pub open spec fn shape_dims(s: Seq<u8>) -> Seq<usize> {
    dims_from(s, 0, 0)
}

fn ws_prefix_len_at(s: &Vec<u8>, lo: usize, hi: usize) -> (k: usize)
    requires
        lo <= hi <= s@.len(),
    ensures
        k == ws_prefix_len(s@.subrange(lo as int, hi as int)),
{
    let ghost t = s@.subrange(lo as int, hi as int);
    let n = hi - lo;
    if n >= 1 && (s[lo] == 9 || s[lo] == 10 || s[lo] == 11 || s[lo] == 12 || s[lo] == 13 || s[lo] == 32) {
        assert(t[0] == s@[lo as int]);
        1
    } else if n >= 2 && s[lo] == 0xC2 && (s[lo + 1] == 0x85 || s[lo + 1] == 0xA0) {
        assert(t[0] == s@[lo as int] && t[1] == s@[lo + 1]);
        2
    } else if n >= 3 && ((s[lo] == 0xE1 && s[lo + 1] == 0x9A && s[lo + 2] == 0x80) || (s[lo] == 0xE2 && s[lo + 1] == 0x80
        && ((0x80 <= s[lo + 2] && s[lo + 2] <= 0x8A) || s[lo + 2] == 0xA8 || s[lo + 2] == 0xA9 || s[lo + 2] == 0xAF)) || (
    s[lo] == 0xE2 && s[lo + 1] == 0x81 && s[lo + 2] == 0x9F) || (s[lo] == 0xE3 && s[lo + 1] == 0x80 && s[lo + 2] == 0x80)) {
        assert(t[0] == s@[lo as int] && t[1] == s@[lo + 1] && t[2] == s@[lo + 2]);
        3
    } else {
        assert(n >= 1 ==> t[0] == s@[lo as int]);
        assert(n >= 2 ==> t[1] == s@[lo + 1]);
        assert(n >= 3 ==> t[2] == s@[lo + 2]);
        0
    }
}

fn ws_suffix_len_at(s: &Vec<u8>, lo: usize, hi: usize) -> (k: usize)
    requires
        lo <= hi <= s@.len(),
    ensures
        k == ws_suffix_len(s@.subrange(lo as int, hi as int)),
{
    let ghost t = s@.subrange(lo as int, hi as int);
    let n = hi - lo;
    if n >= 1 && (s[hi - 1] == 9 || s[hi - 1] == 10 || s[hi - 1] == 11 || s[hi - 1] == 12 || s[hi - 1] == 13 || s[hi - 1]
        == 32) {
        assert(t[n - 1] == s@[hi - 1]);
        1
    } else if n >= 2 && s[hi - 2] == 0xC2 && (s[hi - 1] == 0x85 || s[hi - 1] == 0xA0) {
        assert(t[n - 2] == s@[hi - 2] && t[n - 1] == s@[hi - 1]);
        2
    } else if n >= 3 && ((s[hi - 3] == 0xE1 && s[hi - 2] == 0x9A && s[hi - 1] == 0x80) || (s[hi - 3] == 0xE2 && s[hi
        - 2] == 0x80 && ((0x80 <= s[hi - 1] && s[hi - 1] <= 0x8A) || s[hi - 1] == 0xA8 || s[hi - 1] == 0xA9 || s[hi - 1]
        == 0xAF)) || (s[hi - 3] == 0xE2 && s[hi - 2] == 0x81 && s[hi - 1] == 0x9F) || (s[hi - 3] == 0xE3 && s[hi - 2]
        == 0x80 && s[hi - 1] == 0x80)) {
        assert(t[n - 3] == s@[hi - 3] && t[n - 2] == s@[hi - 2] && t[n - 1] == s@[hi - 1]);
        3
    } else {
        assert(n >= 1 ==> t[n - 1] == s@[hi - 1]);
        assert(n >= 2 ==> t[n - 2] == s@[hi - 2]);
        assert(n >= 3 ==> t[n - 3] == s@[hi - 3]);
        0
    }
}

/// The bounds `(lo, hi)` of `s[from..to]` with leading and trailing
/// whitespace removed.
fn trim_bounds(s: &Vec<u8>, from: usize, to: usize) -> (r: (usize, usize))
    requires
        from <= to <= s@.len(),
    ensures
        from <= r.0 <= r.1 <= to,
        s@.subrange(r.0 as int, r.1 as int) == trim_ws(s@.subrange(from as int, to as int)),
{
    let mut lo = from;
    loop
        invariant
            from <= lo <= to <= s@.len(),
            trim_start_ws(s@.subrange(from as int, to as int)) == trim_start_ws(s@.subrange(lo as int, to as int)),
        ensures
            from <= lo <= to <= s@.len(),
            trim_start_ws(s@.subrange(from as int, to as int)) == s@.subrange(lo as int, to as int),
        decreases to - lo,
    {
        let k = ws_prefix_len_at(s, lo, to);
        if k == 0 {
            break;
        }
        assert(s@.subrange(lo as int, to as int).subrange(k as int, (to - lo) as int) =~= s@.subrange(lo + k, to as int));
        lo = lo + k;
    }
    let mut hi = to;
    loop
        invariant
            from <= lo <= hi <= to <= s@.len(),
            trim_ws(s@.subrange(from as int, to as int)) == trim_end_ws(s@.subrange(lo as int, hi as int)),
        ensures
            from <= lo <= hi <= to <= s@.len(),
            trim_ws(s@.subrange(from as int, to as int)) == s@.subrange(lo as int, hi as int),
        decreases hi - lo,
    {
        let k = ws_suffix_len_at(s, lo, hi);
        if k == 0 {
            break;
        }
        assert(s@.subrange(lo as int, hi as int).subrange(0, (hi - lo - k) as int) =~= s@.subrange(lo as int, hi - k));
        hi = hi - k;
    }
    (lo, hi)
}

proof fn lemma_digits_value_grows(s: Seq<u8>, k: int)
    requires
        0 <= k <= s.len(),
    ensures
        digits_value(s.subrange(0, k)) <= digits_value(s),
    decreases s.len() - k,
{
    if k < s.len() {
        lemma_digits_value_grows(s, k + 1);
        let p = s.subrange(0, k + 1);
        assert(p.drop_last() =~= s.subrange(0, k));
        assert(digits_value(p) == digits_value(p.drop_last()) * 10 + (p.last() - 48) as nat);
    } else {
        assert(s.subrange(0, k) =~= s);
    }
}

/// `str::parse::<usize>` on the bytes `s[lo..hi]`.
fn parse_usize_at(s: &Vec<u8>, lo: usize, hi: usize) -> (r: Option<usize>)
    requires
        lo <= hi <= s@.len(),
    ensures
        r == parse_usize_bytes(s@.subrange(lo as int, hi as int)),
{
    let ghost t = s@.subrange(lo as int, hi as int);
    if lo == hi {
        return None;
    }
    assert(t[0] == s@[lo as int]);
    if s[lo] == 43 && hi - lo == 1 {
        return None;
    }
    let start = if s[lo] == 43 { lo + 1 } else { lo };
    let ghost d = s@.subrange(start as int, hi as int);
    assert(d =~= (if t[0] == 43 { t.subrange(1, t.len() as int) } else { t }));
    let mut acc: usize = 0;
    let mut i = start;
    while i < hi
        invariant
            start <= i <= hi <= s@.len(),
            d == s@.subrange(start as int, hi as int),
            t == s@.subrange(lo as int, hi as int),
            t.len() > 0,
            !(t[0] == 43 && t.len() == 1),
            d == (if t[0] == 43 { t.subrange(1, t.len() as int) } else { t }),
            all_digits(s@.subrange(start as int, i as int)),
            acc == digits_value(s@.subrange(start as int, i as int)),
        decreases hi - i,
    {
        let b = s[i];
        let ghost p = s@.subrange(start as int, i + 1);
        assert(p.drop_last() =~= s@.subrange(start as int, i as int));
        assert(d[i - start] == b);
        if b < 48 || b > 57 {
            assert(!all_digits(d));
            return None;
        }
        let digit = (b - 48) as usize;
        if acc > (usize::MAX - digit) / 10 {
            proof {
                lemma_digits_value_grows(d, i - start + 1);
                assert(d.subrange(0, i - start + 1) =~= p);
                assert(p.last() == b);
                assert(digits_value(p) == digits_value(p.drop_last()) * 10 + (p.last() - 48) as nat);
                assert(digits_value(p) > usize::MAX);
            }
            return None;
        }
        acc = acc * 10 + digit;
        i = i + 1;
    }
    assert(s@.subrange(start as int, i as int) =~= d);
    Some(acc)
}

/// The numbers of the shape text `s`: split at commas, each piece trimmed
/// and parsed, failures left out.
fn parse_shape_dims(s: &Vec<u8>) -> (dims: Vec<usize>)
    ensures
        dims@ == shape_dims(s@),
{
    let n = s.len();
    let mut dims: Vec<usize> = Vec::new();
    let mut start: usize = 0;
    let mut k: usize = 0;
    while k < n
        invariant
            n == s@.len(),
            start <= k <= n,
            dims@ + dims_from(s@, start as int, k as int) == shape_dims(s@),
        decreases n - k,
    {
        if s[k] == 44 {
            let (lo, hi) = trim_bounds(s, start, k);
            let v = parse_usize_at(s, lo, hi);
            let ghost before = dims@;
            match v {
                Some(x) => {
                    dims.push(x);
                },
                None => {},
            }
            assert(dims@ =~= before + opt_seq(parse_usize_bytes(trim_ws(s@.subrange(start as int, k as int)))));
            assert(before + (opt_seq(parse_usize_bytes(trim_ws(s@.subrange(start as int, k as int)))) + dims_from(
                s@,
                k + 1,
                k + 1,
            )) =~= dims@ + dims_from(s@, k + 1, k + 1));
            start = k + 1;
        }
        k = k + 1;
    }
    let (lo, hi) = trim_bounds(s, start, n);
    let v = parse_usize_at(s, lo, hi);
    let ghost before = dims@;
    match v {
        Some(x) => {
            dims.push(x);
        },
        None => {},
    }
    assert(dims@ =~= before + dims_from(s@, start as int, k as int));
    dims
}

/// `needle` occurs somewhere in `hay`.
pub open spec fn contains_bytes(hay: Seq<u8>, needle: Seq<u8>) -> bool {
    exists|i: int| #[trigger] occurs_at(hay, needle, i)
}

/// The element type of a `.npy` file.
#[derive(Clone, Copy, PartialEq, Eq, Structural)]
pub enum NpyKind {
    U8,
    U16,
    I32,
}

/// `'<u1'`
pub open spec fn pat_u1() -> Seq<u8> { seq![39u8, 60u8, 117u8, 49u8, 39u8] }
/// `'uint8'`
pub open spec fn pat_uint8() -> Seq<u8> { seq![39u8, 117u8, 105u8, 110u8, 116u8, 56u8, 39u8] }
/// `'<i4'`
pub open spec fn pat_i4() -> Seq<u8> { seq![39u8, 60u8, 105u8, 52u8, 39u8] }
/// `'int32'`
pub open spec fn pat_int32() -> Seq<u8> { seq![39u8, 105u8, 110u8, 116u8, 51u8, 50u8, 39u8] }
/// `'<u2'`
pub open spec fn pat_u2() -> Seq<u8> { seq![39u8, 60u8, 117u8, 50u8, 39u8] }
/// `'uint16'`
pub open spec fn pat_uint16() -> Seq<u8> { seq![39u8, 117u8, 105u8, 110u8, 116u8, 49u8, 54u8, 39u8] }
/// `shape`
pub open spec fn pat_shape() -> Seq<u8> { seq![115u8, 104u8, 97u8, 112u8, 101u8] }

/// The element type named in the header: 8-bit unsigned when it says `'<u1'`
/// or `'uint8'`, else 32-bit signed for `'<i4'` or `'int32'`, else 16-bit
/// unsigned for `'<u2'` or `'uint16'`, and 8-bit unsigned otherwise.
pub open spec fn header_kind(hd: Seq<u8>) -> NpyKind {
    if contains_bytes(hd, pat_u1()) || contains_bytes(hd, pat_uint8()) {
        NpyKind::U8
    } else if contains_bytes(hd, pat_i4()) || contains_bytes(hd, pat_int32()) {
        NpyKind::I32
    } else if contains_bytes(hd, pat_u2()) || contains_bytes(hd, pat_uint16()) {
        NpyKind::U16
    } else {
        NpyKind::U8
    }
}

/// The shape `(rows, columns)` read from the header: the text between the
/// first `(` after the first `shape` and the next `)`, split into numbers; two
/// or more numbers give the first two, one gives one column, none gives 1 by
/// 1. `None` when `shape`, `(` or `)` is missing.
pub open spec fn npy_shape(hd: Seq<u8>) -> Option<(int, int)> {
    match first_occurrence(hd, pat_shape(), 0) {
        None => None,
        Some(s0) => match first_occurrence(hd, seq![40u8], s0) {
            None => None,
            Some(p0) => match first_occurrence(hd, seq![41u8], p0) {
                None => None,
                Some(p1) => {
                    let dims = shape_dims(hd.subrange(p0 + 1, p1));
                    Some(
                        if dims.len() >= 2 {
                            (dims[0] as int, dims[1] as int)
                        } else if dims.len() == 1 {
                            (dims[0] as int, 1int)
                        } else {
                            (1int, 1int)
                        },
                    )
                },
            },
        },
    }
}

/// A 32-bit little-endian signed integer clamped to `0..=255`.
pub open spec fn clamp_i32_le(b0: u8, b1: u8, b2: u8, b3: u8) -> u8 {
    let v = b0 + 256 * b1 + 65536 * b2 + 16777216 * b3 - if b3 >= 128 { 0x1_0000_0000int } else { 0int };
    if v < 0 { 0 } else if v > 255 { 255 } else { v as u8 }
}

/// The smaller of two integers.
pub open spec fn min_int(a: int, b: int) -> int {
    if a < b { a } else { b }
}

/// The grid elements read from the payload: at most `count` of them, each
/// byte as is for 8-bit files, the low byte of each little-endian 16-bit
/// value, or each 32-bit signed value clamped to `0..=255`; an incomplete
/// last value is dropped.
pub open spec fn npy_values(payload: Seq<u8>, kind: NpyKind, count: int) -> Seq<u8> {
    match kind {
        NpyKind::U8 => payload.subrange(0, min_int(count, payload.len() as int)),
        NpyKind::U16 => Seq::new(min_int(count, (payload.len() / 2) as int) as nat, |i: int| payload[2 * i]),
        NpyKind::I32 => Seq::new(
            min_int(count, (payload.len() / 4) as int) as nat,
            |i: int| clamp_i32_le(payload[4 * i], payload[4 * i + 1], payload[4 * i + 2], payload[4 * i + 3]),
        ),
    }
}

/// What a `.npy` file holds, as `(rows, columns, elements in row-major
/// order)`; `None` when it is malformed: no magic string, too short, a header
/// that is not UTF-8 or names no shape, more elements than `usize` counts, a
/// shape that overflows `isize`, or fewer elements than the shape needs.
pub open spec fn npy_contents(d: Seq<u8>) -> Option<(int, int, Seq<u8>)> {
    match npy_header_range(d) {
        None => None,
        Some((st, len)) => {
            let hd = d.subrange(st, st + len);
            if !valid_utf8(hd) {
                None
            } else {
                match npy_shape(hd) {
                    None => None,
                    Some((h, w)) => {
                        if h * w > usize::MAX {
                            None
                        } else {
                            let vals = npy_values(d.subrange(st + len, d.len() as int), header_kind(hd), h * w);
                            if vals.len() == h * w && shape_fits(h, w) {
                                Some((h, w, vals))
                            } else {
                                None
                            }
                        }
                    },
                }
            }
        },
    }
}

fn pattern(which: u8) -> (p: Vec<u8>)
    ensures
        which == 0 ==> p@ == pat_u1(),
        which == 1 ==> p@ == pat_uint8(),
        which == 2 ==> p@ == pat_i4(),
        which == 3 ==> p@ == pat_int32(),
        which == 4 ==> p@ == pat_u2(),
        which == 5 ==> p@ == pat_uint16(),
        which == 6 ==> p@ == pat_shape(),
        which == 7 ==> p@ == seq![40u8],
        which == 8 ==> p@ == seq![41u8],
        p@.len() > 0,
{
    let p = if which == 0 {
        vec![39u8, 60u8, 117u8, 49u8, 39u8]
    } else if which == 1 {
        vec![39u8, 117u8, 105u8, 110u8, 116u8, 56u8, 39u8]
    } else if which == 2 {
        vec![39u8, 60u8, 105u8, 52u8, 39u8]
    } else if which == 3 {
        vec![39u8, 105u8, 110u8, 116u8, 51u8, 50u8, 39u8]
    } else if which == 4 {
        vec![39u8, 60u8, 117u8, 50u8, 39u8]
    } else if which == 5 {
        vec![39u8, 117u8, 105u8, 110u8, 116u8, 49u8, 54u8, 39u8]
    } else if which == 6 {
        vec![115u8, 104u8, 97u8, 112u8, 101u8]
    } else if which == 7 {
        vec![40u8]
    } else {
        vec![41u8]
    };
    assert(which == 0 ==> p@ =~= pat_u1());
    assert(which == 1 ==> p@ =~= pat_uint8());
    assert(which == 2 ==> p@ =~= pat_i4());
    assert(which == 3 ==> p@ =~= pat_int32());
    assert(which == 4 ==> p@ =~= pat_u2());
    assert(which == 5 ==> p@ =~= pat_uint16());
    assert(which == 6 ==> p@ =~= pat_shape());
    assert(which == 7 ==> p@ =~= seq![40u8]);
    assert(which == 8 ==> p@ =~= seq![41u8]);
    p
}

/// Whether `needle` occurs in `hay`.
fn has_bytes(hay: &Vec<u8>, needle: &Vec<u8>) -> (b: bool)
    requires
        needle@.len() > 0,
    ensures
        b == contains_bytes(hay@, needle@),
{
    match find_bytes(hay.as_slice(), needle.as_slice(), 0) {
        Some(i) => {
            assert(occurs_at(hay@, needle@, i as int));
            true
        },
        None => false,
    }
}

/// The element type named in the header.
fn read_kind(hd: &Vec<u8>) -> (k: NpyKind)
    ensures
        k == header_kind(hd@),
{
    if has_bytes(hd, &pattern(0)) || has_bytes(hd, &pattern(1)) {
        NpyKind::U8
    } else if has_bytes(hd, &pattern(2)) || has_bytes(hd, &pattern(3)) {
        NpyKind::I32
    } else if has_bytes(hd, &pattern(4)) || has_bytes(hd, &pattern(5)) {
        NpyKind::U16
    } else {
        NpyKind::U8
    }
}

/// The shape read from the header, as `npy_shape` describes it.
fn read_shape(hd: &Vec<u8>) -> (r: Option<(usize, usize)>)
    ensures
        r matches Some(p) ==> npy_shape(hd@) == Some((p.0 as int, p.1 as int)),
        r is None ==> npy_shape(hd@) is None,
{
    let pat_s = pattern(6);
    let pat_open = pattern(7);
    let pat_close = pattern(8);
    let s0 = match find_bytes(hd.as_slice(), pat_s.as_slice(), 0) {
        Some(i) => i,
        None => {
            return None;
        },
    };
    proof {
        lemma_first_occurrence(hd@, pat_shape(), 0, s0 as int);
    }
    let p0 = match find_bytes(hd.as_slice(), pat_open.as_slice(), s0) {
        Some(i) => i,
        None => {
            return None;
        },
    };
    proof {
        lemma_first_occurrence(hd@, seq![40u8], s0 as int, p0 as int);
        assert(hd@.subrange(p0 as int, p0 + 1)[0] == hd@[p0 as int]);
    }
    let p1 = match find_bytes(hd.as_slice(), pat_close.as_slice(), p0) {
        Some(i) => i,
        None => {
            return None;
        },
    };
    proof {
        lemma_first_occurrence(hd@, seq![41u8], p0 as int, p1 as int);
        assert(hd@.subrange(p1 as int, p1 + 1)[0] == hd@[p1 as int]);
        assert(p1 != p0);
    }
    let inner = copy_range(hd.as_slice(), p0 + 1, p1);
    let dims = parse_shape_dims(&inner);
    if dims.len() >= 2 {
        Some((dims[0], dims[1]))
    } else if dims.len() == 1 {
        Some((dims[0], 1))
    } else {
        Some((1, 1))
    }
}

/// The grid elements read from `data[from..]`, as `npy_values` describes.
fn read_values(data: &[u8], from: usize, kind: NpyKind, count: usize) -> (v: Vec<u8>)
    requires
        from <= data@.len(),
    ensures
        v@ == npy_values(data@.subrange(from as int, data@.len() as int), kind, count as int),
{
    let ghost payload = data@.subrange(from as int, data@.len() as int);
    let dlen = data.len();
    let avail = dlen - from;
    let mut v: Vec<u8> = Vec::new();
    match kind {
        NpyKind::U8 => {
            let n = if count < avail { count } else { avail };
            let mut i: usize = 0;
            while i < n
                invariant
                    n <= avail,
                    avail == dlen - from,
                    dlen == data@.len(),
                    from <= dlen,
                    payload == data@.subrange(from as int, data@.len() as int),
                    i <= n,
                    v@ == payload.subrange(0, i as int),
                decreases n - i,
            {
                v.push(data[from + i]);
                assert(v@ =~= payload.subrange(0, i + 1));
                i = i + 1;
            }
        },
        NpyKind::U16 => {
            let n = if count < avail / 2 { count } else { avail / 2 };
            let mut i: usize = 0;
            while i < n
                invariant
                    n <= avail / 2,
                    avail == dlen - from,
                    dlen == data@.len(),
                    from <= dlen,
                    payload == data@.subrange(from as int, data@.len() as int),
                    i <= n,
                    v@ == Seq::new(i as nat, |k: int| payload[2 * k]),
                decreases n - i,
            {
                v.push(data[from + 2 * i]);
                assert(v@ =~= Seq::new((i + 1) as nat, |k: int| payload[2 * k]));
                i = i + 1;
            }
        },
        NpyKind::I32 => {
            let n = if count < avail / 4 { count } else { avail / 4 };
            let mut i: usize = 0;
            while i < n
                invariant
                    n <= avail / 4,
                    avail == dlen - from,
                    dlen == data@.len(),
                    from <= dlen,
                    payload == data@.subrange(from as int, data@.len() as int),
                    i <= n,
                    v@ == Seq::new(
                        i as nat,
                        |k: int| clamp_i32_le(payload[4 * k], payload[4 * k + 1], payload[4 * k + 2], payload[4 * k + 3]),
                    ),
                decreases n - i,
            {
                let b0 = data[from + 4 * i];
                let b1 = data[from + 4 * i + 1];
                let b2 = data[from + 4 * i + 2];
                let b3 = data[from + 4 * i + 3];
                let c: u8 = if b3 >= 128 {
                    0
                } else if b3 > 0 || b2 > 0 || b1 > 0 {
                    255
                } else {
                    b0
                };
                assert(c == clamp_i32_le(b0, b1, b2, b3));
                v.push(c);
                assert(v@ =~= Seq::new(
                    (i + 1) as nat,
                    |k: int| clamp_i32_le(payload[4 * k], payload[4 * k + 1], payload[4 * k + 2], payload[4 * k + 3]),
                ));
                i = i + 1;
            }
        },
    }
    v
}

/// Reads a recorded level grid from the bytes of a `.npy` file: the shape and
/// element type from the header, then the elements in row-major order,
/// converted to bytes. `None` when the file is malformed (see
/// `npy_contents`).
pub fn parse_npy(data: &[u8]) -> (r: Option<ByteGrid>)
    ensures
        r is Some <==> npy_contents(data@) is Some,
        r matches Some(g) ==> {
            let c = npy_contents(data@)->0;
            &&& g.rows() == c.0
            &&& g.cols() == c.1
            &&& forall|y: int, x: int| 0 <= y < c.0 && 0 <= x < c.1 ==> #[trigger] g.at(y, x) == c.2[y * c.1 + x]
        },
{
    let dlen = data.len();
    let (start, len) = match header_range(data) {
        Some(p) => p,
        None => {
            return None;
        },
    };
    let hd = copy_range(data, start, start + len);
    if !is_valid_utf8(hd.as_slice()) {
        return None;
    }
    let (h, w) = match read_shape(&hd) {
        Some(p) => p,
        None => {
            return None;
        },
    };
    let kind = read_kind(&hd);
    if w != 0 && h > usize::MAX / w {
        proof {
            assert(h * w > usize::MAX) by (nonlinear_arith)
                requires
                    w != 0,
                    h > usize::MAX / w,
            ;
        }
        return None;
    }
    proof {
        assert(h * w <= usize::MAX) by (nonlinear_arith)
            requires
                w == 0 || h <= usize::MAX / w,
        ;
    }
    let count = h * w;
    let values = read_values(data, start + len, kind, count);
    ByteGrid::from_row_major(h, w, values)
}

} // verus!
