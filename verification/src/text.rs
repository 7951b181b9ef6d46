//! Byte-level text primitives over UTF-8 source, with their specifications.
//!
//! Every specification works on the UTF-8 bytes of a string (`s.spec_bytes()`)
//! and on half-open windows `[lo, hi)` of one byte sequence.

use vstd::prelude::*;
use vstd::utf8::*;
use vstd::string::*;

verus! {

broadcast use vstd::seq_lib::group_seq_properties;

/// A UTF-8 continuation byte (`10xxxxxx`).
pub open spec fn is_cont(x: u8) -> bool {
    0x80 <= x <= 0xbf
}

/// `i` is a character boundary of the UTF-8 sequence `b`, judged by its bytes
/// as `str::is_char_boundary` does.
pub open spec fn is_boundary(b: Seq<u8>, i: int) -> bool {
    i == 0 || i == b.len() || (0 < i < b.len() && !is_cont(b[i]))
}

/// An ASCII whitespace byte that `char::is_whitespace` accepts.
pub open spec fn is_ascii_ws(x: u8) -> bool {
    x == 0x20 || (0x09 <= x <= 0x0d)
}

/// The length of the encoding of a Unicode `White_Space` character starting at
/// `i` inside the window ending at `hi`, or 0 if none starts there.
pub open spec fn ws_len_in(b: Seq<u8>, i: int, hi: int) -> int {
    if 0 <= i < hi && hi <= b.len() {
        let x = b[i];
        if is_ascii_ws(x) {
            1
        } else if x == 0xc2 && hi - i > 1 && (b[i + 1] == 0x85 || b[i + 1] == 0xa0) {
            2
        } else if x == 0xe1 && i + 2 < hi && b[i + 1] == 0x9a && b[i + 2] == 0x80 {
            3
        } else if x == 0xe2 && i + 2 < hi && ((b[i + 1] == 0x80 && ((0x80 <= b[i + 2] <= 0x8a)
            || b[i + 2] == 0xa8 || b[i + 2] == 0xa9 || b[i + 2] == 0xaf)) || (b[i + 1] == 0x81
            && b[i + 2] == 0x9f)) {
            3
        } else if x == 0xe3 && i + 2 < hi && b[i + 1] == 0x80 && b[i + 2] == 0x80 {
            3
        } else {
            0
        }
    } else {
        0
    }
}

/// The length of the encoding of a `White_Space` character that ends at `e`
/// and starts at or after `lo`, or 0 if none does.
pub open spec fn ws_suffix_in(b: Seq<u8>, lo: int, e: int) -> int {
    if lo + 1 <= e && is_ascii_ws(b[e - 1]) {
        1
    } else if lo + 2 <= e && ws_len_in(b, e - 2, e) == 2 {
        2
    } else if lo + 3 <= e && ws_len_in(b, e - 3, e) == 3 {
        3
    } else {
        0
    }
}

/// Start of the window `[i, hi)` once leading whitespace is removed
/// (`str::trim_start`).
pub open spec fn trim_start_at(b: Seq<u8>, i: int, hi: int) -> int
    decreases hi - i,
{
    if i < hi && ws_len_in(b, i, hi) > 0 {
        trim_start_at(b, i + ws_len_in(b, i, hi), hi)
    } else {
        i
    }
}

/// End of the window `[lo, e)` once trailing whitespace is removed
/// (`str::trim_end`).
pub open spec fn trim_end_at(b: Seq<u8>, lo: int, e: int) -> int
    decreases e - lo,
{
    if lo < e && ws_suffix_in(b, lo, e) > 0 {
        trim_end_at(b, lo, e - ws_suffix_in(b, lo, e))
    } else {
        e
    }
}

/// The pattern `p` occurs at `i` and ends within `hi`.
pub open spec fn matches_at(b: Seq<u8>, i: int, hi: int, p: Seq<u8>) -> bool {
    0 <= i && i + p.len() <= hi && hi <= b.len() && forall|k: int|
        0 <= k < p.len() ==> #[trigger] b[i + k] == p[k]
}

/// First occurrence of `p` starting at or after `i` and ending within `hi`
/// (`str::find`).
pub open spec fn find_from(b: Seq<u8>, i: int, hi: int, p: Seq<u8>) -> Option<int>
    decreases hi + 1 - i,
{
    if i < 0 || i + p.len() > hi {
        None
    } else if matches_at(b, i, hi, p) {
        Some(i)
    } else {
        find_from(b, i + 1, hi, p)
    }
}

/// Last occurrence of `p` starting at or after `lo` and at or before `j`,
/// ending within `hi` (`str::rfind` when `j == hi - p.len()`).
pub open spec fn rfind_upto(b: Seq<u8>, lo: int, j: int, hi: int, p: Seq<u8>) -> Option<int>
    decreases j + 1 - lo,
{
    if j < lo {
        None
    } else if matches_at(b, j, hi, p) {
        Some(j)
    } else {
        rfind_upto(b, lo, j - 1, hi, p)
    }
}

/// First index in `[i, hi)` whose byte is `x`, or `hi`.
pub open spec fn index_of_byte(b: Seq<u8>, i: int, hi: int, x: u8) -> int
    decreases hi - i,
{
    if i >= hi {
        hi
    } else if b[i] == x {
        i
    } else {
        index_of_byte(b, i + 1, hi, x)
    }
}

/// Last index in `[lo, j)` whose byte is `x`, if any.
pub open spec fn last_index_of_byte(b: Seq<u8>, lo: int, j: int, x: u8) -> Option<int>
    decreases j - lo,
{
    if j <= lo {
        None
    } else if b[j - 1] == x {
        Some(j - 1)
    } else {
        last_index_of_byte(b, lo, j - 1, x)
    }
}

/// An optional index as a machine index.
pub open spec fn opt_usize(o: Option<int>) -> Option<usize> {
    match o {
        Some(i) => Some(i as usize),
        None => None,
    }
}

/// Bytes of the UTF-8 encoding of a string value.
pub open spec fn bytes_of(s: String) -> Seq<u8> {
    encode_utf8(s@)
}

// ---------------------------------------------------------------------------
// Lemmas on UTF-8
// ---------------------------------------------------------------------------

/// The encoding of a concatenation is the concatenation of the encodings.
pub proof fn lemma_encode_concat(a: Seq<char>, c: Seq<char>)
    ensures
        encode_utf8(a + c) == encode_utf8(a) + encode_utf8(c),
    decreases a.len(),
{
    if a.len() == 0 {
        assert(a + c =~= c);
    } else {
        lemma_encode_concat(a.drop_first(), c);
        assert((a + c).drop_first() =~= a.drop_first() + c);
        assert((a + c)[0] == a[0]);
    }
}

/// The bytes of a string slice are valid UTF-8.
pub proof fn lemma_str_valid(s: &str)
    ensures
        valid_utf8(s.spec_bytes()),
{
    encode_utf8_valid_utf8(s@);
}

/// On valid UTF-8, the byte test for a boundary agrees with `is_char_boundary`.
pub proof fn lemma_boundary(b: Seq<u8>, i: int)
    requires
        valid_utf8(b),
        is_boundary(b, i),
    ensures
        is_char_boundary(b, i),
{
    is_char_boundary_start_end_of_seq(b);
    if 0 < i < b.len() {
        is_char_boundary_iff_not_is_continuation_byte(b, i);
    }
}

// ---------------------------------------------------------------------------
// Executable primitives
// ---------------------------------------------------------------------------

/// The sub-slice `s[lo..hi]`, cut at two character boundaries.
pub fn str_slice<'a>(s: &'a str, lo: usize, hi: usize) -> (r: &'a str)
    requires
        lo <= hi <= s.spec_bytes().len(),
        is_boundary(s.spec_bytes(), lo as int),
        is_boundary(s.spec_bytes(), hi as int),
    ensures
        r.spec_bytes() == s.spec_bytes().subrange(lo as int, hi as int),
{
    let ghost b = s.spec_bytes();
    proof {
        lemma_str_valid(s);
        lemma_boundary(b, lo as int);
    }
    let (_, rest) = s.split_at(lo);
    let ghost rb = rest.spec_bytes();
    proof {
        lemma_str_valid(rest);
        assert(rb =~= b.subrange(lo as int, b.len() as int));
        if 0 < hi - lo < rb.len() {
            assert(rb[hi - lo] == b[hi as int]);
        }
        assert(is_boundary(rb, hi - lo));
        lemma_boundary(rb, hi - lo);
    }
    let (mid, _) = rest.split_at(hi - lo);
    proof {
        assert(mid.spec_bytes() =~= b.subrange(lo as int, hi as int));
    }
    mid
}

/// `String::from_utf8`: a string with exactly the given bytes, if they are
/// valid UTF-8. Its documentation promises `Ok` exactly for valid UTF-8 and a
/// string whose bytes are the vector's.
#[verifier::external_body]
fn string_from_utf8(bytes: Vec<u8>) -> (r: Option<String>)
    ensures
        r is Some <==> valid_utf8(bytes@),
        r matches Some(s) ==> bytes_of(s) == bytes@,
{
    String::from_utf8(bytes).ok()
}

/// A string made of the given bytes, when they are valid UTF-8.
pub fn utf8_string(bytes: Vec<u8>) -> (r: Option<String>)
    ensures
        r is Some <==> valid_utf8(bytes@),
        r matches Some(s) ==> bytes_of(s) == bytes@,
{
    string_from_utf8(bytes)
}

/// Length of the whitespace character encoded at `i` in `[.., hi)`.
pub fn ws_len(b: &[u8], i: usize, hi: usize) -> (r: usize)
    requires
        hi <= b@.len(),
    ensures
        r == ws_len_in(b@, i as int, hi as int),
        r <= 3,
{
    if i >= hi {
        return 0;
    }
    let x = b[i];
    if x == 0x20 || (0x09 <= x && x <= 0x0d) {
        1
    } else if x == 0xc2 && i + 1 < hi && (b[i + 1] == 0x85 || b[i + 1] == 0xa0) {
        2
    } else if x == 0xe1 && hi - i > 2 && b[i + 1] == 0x9a && b[i + 2] == 0x80 {
        3
    } else if x == 0xe2 && hi - i > 2 && ((b[i + 1] == 0x80 && ((0x80 <= b[i + 2] && b[i + 2]
        <= 0x8a) || b[i + 2] == 0xa8 || b[i + 2] == 0xa9 || b[i + 2] == 0xaf)) || (b[i + 1]
        == 0x81 && b[i + 2] == 0x9f)) {
        3
    } else if x == 0xe3 && hi - i > 2 && b[i + 1] == 0x80 && b[i + 2] == 0x80 {
        3
    } else {
        0
    }
}

/// Length of the whitespace character that ends at `e` and starts at or after `lo`.
pub fn ws_suffix(b: &[u8], lo: usize, e: usize) -> (r: usize)
    requires
        lo <= e <= b@.len(),
    ensures
        r == ws_suffix_in(b@, lo as int, e as int),
        r <= e - lo,
{
    if e - lo >= 1 && (b[e - 1] == 0x20 || (0x09 <= b[e - 1] && b[e - 1] <= 0x0d)) {
        1
    } else if e - lo >= 2 && ws_len(b, e - 2, e) == 2 {
        2
    } else if e - lo >= 3 && ws_len(b, e - 3, e) == 3 {
        3
    } else {
        0
    }
}

/// `trim_start` on the window `[lo, hi)`: index of its first non-whitespace char.
pub fn trim_start_idx(b: &[u8], lo: usize, hi: usize) -> (r: usize)
    requires
        lo <= hi <= b@.len(),
    ensures
        r == trim_start_at(b@, lo as int, hi as int),
        lo <= r <= hi,
{
    let mut i = lo;
    while i < hi && ws_len(b, i, hi) > 0
        invariant
            lo <= i <= hi <= b@.len(),
            trim_start_at(b@, i as int, hi as int) == trim_start_at(b@, lo as int, hi as int),
        decreases hi - i,
    {
        let k = ws_len(b, i, hi);
        i = i + k;
    }
    i
}

/// `trim_end` on the window `[lo, hi)`: end of its last non-whitespace char.
pub fn trim_end_idx(b: &[u8], lo: usize, hi: usize) -> (r: usize)
    requires
        lo <= hi <= b@.len(),
    ensures
        r == trim_end_at(b@, lo as int, hi as int),
        lo <= r <= hi,
{
    let mut e = hi;
    while lo < e && ws_suffix(b, lo, e) > 0
        invariant
            lo <= e <= hi <= b@.len(),
            trim_end_at(b@, lo as int, e as int) == trim_end_at(b@, lo as int, hi as int),
        decreases e - lo,
    {
        let k = ws_suffix(b, lo, e);
        e = e - k;
    }
    e
}

/// Whether the pattern `p` occurs at `i` within `[.., hi)`.
pub fn bytes_match_at(b: &[u8], i: usize, hi: usize, p: &[u8]) -> (r: bool)
    requires
        hi <= b@.len(),
    ensures
        r == matches_at(b@, i as int, hi as int, p@),
{
    if i > hi || hi - i < p.len() {
        return false;
    }
    let mut k: usize = 0;
    while k < p.len()
        invariant
            i + p@.len() <= hi <= b@.len(),
            k <= p@.len(),
            forall|j: int| 0 <= j < k ==> #[trigger] b@[i + j] == p@[j],
        decreases p@.len() - k,
    {
        if b[i + k] != p[k] {
            return false;
        }
        k = k + 1;
    }
    true
}

/// First occurrence of `p` in the window `[lo, hi)` (`str::find`).
pub fn find_bytes(b: &[u8], lo: usize, hi: usize, p: &[u8]) -> (r: Option<usize>)
    requires
        lo <= hi <= b@.len(),
    ensures
        r == opt_usize(find_from(b@, lo as int, hi as int, p@)),
        find_from(b@, lo as int, hi as int, p@) matches Some(i) ==> lo <= i && i + p@.len() <= hi,
{
    let mut i = lo;
    while i <= hi && hi - i >= p.len()
        invariant
            lo <= i,
            hi <= b@.len(),
            find_from(b@, i as int, hi as int, p@) == find_from(b@, lo as int, hi as int, p@),
            i <= hi + 1,
        decreases hi + 1 - i,
    {
        if bytes_match_at(b, i, hi, p) {
            return Some(i);
        }
        i = i + 1;
    }
    None
}

/// Last occurrence of `p` in the window `[lo, hi)` (`str::rfind`).
pub fn rfind_bytes(b: &[u8], lo: usize, hi: usize, p: &[u8]) -> (r: Option<usize>)
    requires
        lo <= hi <= b@.len(),
    ensures
        r == opt_usize(rfind_upto(b@, lo as int, hi - p@.len(), hi as int, p@)),
        rfind_upto(b@, lo as int, hi - p@.len(), hi as int, p@) matches Some(i) ==> lo <= i
            && i + p@.len() <= hi,
{
    if hi - lo < p.len() {
        return None;
    }
    let mut j = hi - p.len();
    loop
        invariant
            lo <= j <= hi - p@.len(),
            p@.len() <= hi - lo,
            hi <= b@.len(),
            rfind_upto(b@, lo as int, j as int, hi as int, p@) == rfind_upto(
                b@,
                lo as int,
                hi - p@.len(),
                hi as int,
                p@,
            ),
        decreases j - lo,
    {
        if bytes_match_at(b, j, hi, p) {
            return Some(j);
        }
        if j == lo {
            assert(rfind_upto(b@, lo as int, j - 1, hi as int, p@) is None);
            return None;
        }
        j = j - 1;
    }
}

/// First index in `[lo, hi)` holding byte `x`, or `hi`.
pub fn index_of(b: &[u8], lo: usize, hi: usize, x: u8) -> (r: usize)
    requires
        lo <= hi <= b@.len(),
    ensures
        r == index_of_byte(b@, lo as int, hi as int, x),
        lo <= r <= hi,
        r < hi ==> b@[r as int] == x,
        forall|j: int| lo <= j < r ==> b@[j] != x,
{
    let mut i = lo;
    while i < hi && b[i] != x
        invariant
            lo <= i <= hi <= b@.len(),
            index_of_byte(b@, i as int, hi as int, x) == index_of_byte(b@, lo as int, hi as int, x),
            forall|j: int| lo <= j < i ==> b@[j] != x,
        decreases hi - i,
    {
        i = i + 1;
    }
    i
}

/// Last index in `[lo, j)` holding byte `x`, if any.
pub fn last_index_of(b: &[u8], lo: usize, j: usize, x: u8) -> (r: Option<usize>)
    requires
        lo <= j <= b@.len(),
    ensures
        r == opt_usize(last_index_of_byte(b@, lo as int, j as int, x)),
        last_index_of_byte(b@, lo as int, j as int, x) matches Some(i) ==> lo <= i < j && b@[i]
            == x,
        r matches Some(i) ==> forall|k: int| i < k < j ==> b@[k] != x,
        r is None ==> forall|k: int| lo <= k < j ==> b@[k] != x,
{
    let mut k = j;
    while k > lo && b[k - 1] != x
        invariant
            lo <= k <= j <= b@.len(),
            last_index_of_byte(b@, lo as int, k as int, x) == last_index_of_byte(b@, lo as int, j as int, x),
            forall|m: int| k <= m < j ==> b@[m] != x,
        decreases k - lo,
    {
        k = k - 1;
    }
    if k > lo {
        Some(k - 1)
    } else {
        None
    }
}

} // verus!

verus! {

/// Width in bytes of the character whose lead byte is `x`.
pub open spec fn char_width(x: u8) -> int {
    if x < 0x80 {
        1
    } else if 0xc0 <= x <= 0xdf {
        2
    } else if 0xe0 <= x <= 0xef {
        3
    } else {
        4
    }
}

proof fn lemma_next_char_boundary(b: Seq<u8>, i: int)
    requires
        valid_utf8(b),
        0 <= i < b.len(),
        is_char_boundary(b, i),
    ensures
        i + length_of_first_scalar(b.subrange(i, b.len() as int)) <= b.len(),
        is_char_boundary(b, i + length_of_first_scalar(b.subrange(i, b.len() as int))),
    decreases b.len(),
{
    let l0 = length_of_first_scalar(b);
    let p = pop_first_scalar(b);
    assert(l0 <= b.len());
    if i == 0 {
        assert(b.subrange(0, b.len() as int) =~= b);
        assert(is_char_boundary(p, 0));
    } else {
        assert(is_char_boundary(p, i - l0));
        assert(i - l0 >= 0);
        assert(p.subrange(i - l0, p.len() as int) =~= b.subrange(i, b.len() as int));
        if i - l0 < p.len() {
            lemma_next_char_boundary(p, i - l0);
        } else {
            assert(b.subrange(i, b.len() as int).len() == 0);
        }
        let w = length_of_first_scalar(b.subrange(i, b.len() as int));
        assert(is_char_boundary(p, i - l0 + w));
    }
}

/// In valid UTF-8, the character starting at a non-continuation byte `i`
/// ends at a boundary `i + char_width(b[i])`.
pub proof fn lemma_char_end(b: Seq<u8>, i: int)
    requires
        valid_utf8(b),
        0 <= i < b.len(),
        !is_cont(b[i]),
    ensures
        i + char_width(b[i]) <= b.len(),
        is_boundary(b, i + char_width(b[i])),
{
    is_char_boundary_iff_not_is_continuation_byte(b, i);
    lemma_next_char_boundary(b, i);
    let t = b.subrange(i, b.len() as int);
    assert(t[0] == b[i]);
    assert(length_of_first_scalar(t) == char_width(b[i]));
    let j = i + char_width(b[i]);
    if j < b.len() {
        is_char_boundary_iff_not_is_continuation_byte(b, j);
    }
}

/// In valid UTF-8, a position right after an ASCII byte is a boundary.
pub proof fn lemma_after_ascii(b: Seq<u8>, i: int)
    requires
        valid_utf8(b),
        0 <= i < b.len(),
        b[i] < 0x80,
    ensures
        is_boundary(b, i + 1),
{
    lemma_char_end(b, i);
}

} // verus!

verus! {

/// Appends `t` to `s`.
pub fn push_str(s: &mut String, t: &str)
    ensures
        bytes_of(*final(s)) == bytes_of(*old(s)) + t.spec_bytes(),
{
    proof {
        lemma_encode_concat(s@, t@);
    }
    s.append(t);
}

/// Byte length of a string slice.
pub fn str_len(s: &str) -> (r: usize)
    ensures
        r == s.spec_bytes().len(),
{
    s.as_bytes().len()
}

/// A new string with the bytes of `t`.
pub fn to_string_of(t: &str) -> (r: String)
    ensures
        bytes_of(r) == t.spec_bytes(),
{
    t.to_owned()
}

/// The separator `"::"`.
pub fn dcolon_str() -> (r: &'static str)
    ensures
        r.spec_bytes() == seq![0x3au8, 0x3au8],
{
    let r = "::";
    proof {
        reveal_strlit("::");
        is_ascii_chars_encode_utf8(r@);
        assert(r.spec_bytes() =~= seq![0x3au8, 0x3au8]);
    }
    r
}

} // verus!

verus! {

/// The bytes of an optional string.
pub open spec fn opt_bytes(o: Option<String>) -> Option<Seq<u8>> {
    match o {
        Some(s) => Some(bytes_of(s)),
        None => None,
    }
}

} // verus!

verus! {

/// Trimming leading whitespace from a boundary stops at a boundary.
pub proof fn lemma_trim_start_boundary(b: Seq<u8>, i: int, hi: int)
    requires
        valid_utf8(b),
        0 <= i <= hi <= b.len(),
        is_boundary(b, i),
    ensures
        i <= trim_start_at(b, i, hi) <= hi,
        is_boundary(b, trim_start_at(b, i, hi)),
    decreases hi - i,
{
    if i < hi && ws_len_in(b, i, hi) > 0 {
        lemma_char_end(b, i);
        lemma_trim_start_boundary(b, i + ws_len_in(b, i, hi), hi);
    }
}

/// Trimming trailing whitespace from a boundary stops at a boundary.
pub proof fn lemma_trim_end_boundary(b: Seq<u8>, lo: int, e: int)
    requires
        0 <= lo <= e <= b.len(),
        is_boundary(b, e),
    ensures
        lo <= trim_end_at(b, lo, e) <= e,
        is_boundary(b, trim_end_at(b, lo, e)),
    decreases e - lo,
{
    if lo < e && ws_suffix_in(b, lo, e) > 0 {
        lemma_trim_end_boundary(b, lo, e - ws_suffix_in(b, lo, e));
    }
}

/// A position whose byte is ASCII, or the end, is a boundary.
pub proof fn lemma_ascii_at(b: Seq<u8>, i: int)
    requires
        0 <= i <= b.len(),
        i == b.len() || b[i] < 0x80,
    ensures
        is_boundary(b, i),
{
}

} // verus!

verus! {

pub proof fn lemma_index_of_range(b: Seq<u8>, i: int, hi: int, x: u8)
    requires
        i <= hi,
    ensures
        i <= index_of_byte(b, i, hi, x) <= hi,
    decreases hi - i,
{
    if i < hi && b[i] != x {
        lemma_index_of_range(b, i + 1, hi, x);
    }
}

/// The `(start, end)` window of each line of `b` from offset `s` on, as
/// `str::lines` yields them: split at `\n`, a `\r` before the `\n` dropped,
/// and no empty line after a final `\n`.
pub open spec fn line_spans(b: Seq<u8>, s: int) -> Seq<(int, int)>
    decreases b.len() + 1 - s,
    via line_spans_decreases
{
    if s < 0 || s >= b.len() {
        seq![]
    } else {
        let e = index_of_byte(b, s, b.len() as int, 0x0au8);
        let ce = if e < b.len() && e > s && b[e - 1] == 0x0d {
            e - 1
        } else {
            e
        };
        seq![(s, ce)] + line_spans(b, e + 1)
    }
}

#[via_fn]
proof fn line_spans_decreases(b: Seq<u8>, s: int) {
    if !(s < 0 || s >= b.len()) {
        lemma_index_of_range(b, s, b.len() as int, 0x0au8);
    }
}

/// The lines of a text, as windows of its bytes.
pub open spec fn lines_of(b: Seq<u8>) -> Seq<(int, int)> {
    line_spans(b, 0)
}

/// The window `(start, end)` of `t` once surrounding whitespace is trimmed.
pub open spec fn trim_span(t: Seq<u8>) -> (int, int) {
    let a = trim_start_at(t, 0, t.len() as int);
    (a, trim_end_at(t, a, t.len() as int))
}

/// `s.trim_start()`.
pub fn str_trim_start(s: &str) -> (r: &str)
    ensures
        r.spec_bytes() == s.spec_bytes().subrange(
            trim_start_at(s.spec_bytes(), 0, s.spec_bytes().len() as int),
            s.spec_bytes().len() as int,
        ),
        0 <= trim_start_at(s.spec_bytes(), 0, s.spec_bytes().len() as int) <= s.spec_bytes().len(),
{
    let b = s.as_bytes();
    let a = trim_start_idx(b, 0, b.len());
    proof {
        lemma_str_valid(s);
        lemma_trim_start_boundary(b@, 0, b@.len() as int);
    }
    str_slice(s, a, b.len())
}

/// `s.trim()`.
pub fn str_trim(s: &str) -> (r: &str)
    ensures
        r.spec_bytes() == s.spec_bytes().subrange(
            trim_span(s.spec_bytes()).0,
            trim_span(s.spec_bytes()).1,
        ),
        0 <= trim_span(s.spec_bytes()).0 <= trim_span(s.spec_bytes()).1 <= s.spec_bytes().len(),
{
    let b = s.as_bytes();
    let a = trim_start_idx(b, 0, b.len());
    let e = trim_end_idx(b, a, b.len());
    proof {
        lemma_str_valid(s);
        lemma_trim_start_boundary(b@, 0, b@.len() as int);
        lemma_trim_end_boundary(b@, a as int, b@.len() as int);
    }
    str_slice(s, a, e)
}

} // verus!

verus! {

/// A found occurrence lies inside the searched window.
pub proof fn lemma_find_range(b: Seq<u8>, i: int, hi: int, p: Seq<u8>)
    ensures
        find_from(b, i, hi, p) matches Some(j) ==> i <= j && j + p.len() <= hi && matches_at(
            b,
            j,
            hi,
            p,
        ),
    decreases hi + 1 - i,
{
    if !(i < 0 || i + p.len() > hi) && !matches_at(b, i, hi, p) {
        lemma_find_range(b, i + 1, hi, p);
    }
}

} // verus!

verus! {

/// A found last occurrence lies inside the window and holds the byte.
pub proof fn lemma_last_index_found(b: Seq<u8>, lo: int, j: int, x: u8)
    ensures
        last_index_of_byte(b, lo, j, x) matches Some(i) ==> lo <= i < j && b[i] == x,
    decreases j - lo,
{
    if j > lo && b[j - 1] != x {
        lemma_last_index_found(b, lo, j - 1, x);
    }
}

} // verus!
