//! Conversions between byte offsets, 1-based line/byte-column pairs and LSP
//! positions (0-based lines, UTF-16 columns), and incremental document edits.

use vstd::prelude::*;
use vstd::string::*;
use crate::text::{bytes_of, is_boundary, is_cont, index_of_byte, last_index_of_byte, opt_usize, index_of};

verus! {

broadcast use vstd::seq_lib::group_seq_properties;

/// A position in a document: 0-based line and UTF-16 code-unit column.
#[derive(Clone, Copy, Debug, PartialEq, Eq, Structural)]
pub struct Position {
    pub line: u32,
    pub character: u32,
}

/// A half-open range between two positions.
#[derive(Clone, Copy, Debug, PartialEq, Eq, Structural)]
pub struct Range {
    pub start: Position,
    pub end: Position,
}

impl Position {
    pub fn new(line: u32, character: u32) -> (r: Position)
        ensures
            r == (Position { line, character }),
    {
        Position { line, character }
    }
}

impl Range {
    pub fn new(start: Position, end: Position) -> (r: Range)
        ensures
            r == (Range { start, end }),
    {
        Range { start, end }
    }
}

pub const NEWLINE: u8 = 0x0a;

/// Number of bytes equal to `x` in `[lo, hi)`.
pub open spec fn count_byte(b: Seq<u8>, lo: int, hi: int, x: u8) -> int
    decreases hi - lo,
{
    if hi <= lo {
        0
    } else {
        count_byte(b, lo, hi - 1, x) + if b[hi - 1] == x {
            1int
        } else {
            0int
        }
    }
}

/// UTF-16 code units contributed by one byte of a UTF-8 sequence: the lead
/// byte of a character carries all of its units.
pub open spec fn utf16_weight(x: u8) -> int {
    if is_cont(x) {
        0
    } else if x >= 0xf0 {
        2
    } else {
        1
    }
}

/// UTF-16 length of the characters that start in `[lo, hi)`.
pub open spec fn utf16_units(b: Seq<u8>, lo: int, hi: int) -> int
    decreases hi - lo,
{
    if hi <= lo {
        0
    } else {
        utf16_units(b, lo, hi - 1) + utf16_weight(b[hi - 1])
    }
}

/// Offset at which the line holding offset `c` starts.
pub open spec fn line_start_before(b: Seq<u8>, c: int) -> int {
    match last_index_of_byte(b, 0, c, NEWLINE) {
        Some(i) => i + 1,
        None => 0,
    }
}

/// Offset at which the `n`-th line (0-based) counted from the line starting
/// at `s` starts, if the text has that many lines.
pub open spec fn line_start_from(b: Seq<u8>, s: int, n: nat) -> Option<int>
    decreases n,
{
    if n == 0 {
        Some(s)
    } else {
        let e = index_of_byte(b, s, b.len() as int, NEWLINE);
        if e >= b.len() {
            None
        } else {
            line_start_from(b, e + 1, (n - 1) as nat)
        }
    }
}

/// Offset of the `n`-th line (0-based) of the text.
pub open spec fn line_start(b: Seq<u8>, n: nat) -> Option<int> {
    line_start_from(b, 0, n)
}

/// End of the line starting at `s`: its newline, or the end of the text.
pub open spec fn line_end(b: Seq<u8>, s: int) -> int {
    index_of_byte(b, s, b.len() as int, NEWLINE)
}

/// `offset_to_line_col`: 1-based line and byte column of `min(t, len)`.
pub open spec fn spec_offset_to_line_col(b: Seq<u8>, t: int) -> (int, int) {
    let c = if t < b.len() {
        t
    } else {
        b.len() as int
    };
    (1 + count_byte(b, 0, c, NEWLINE), c - line_start_before(b, c))
}

/// `line_col_to_offset`: the offset of 1-based line `l`, byte column `col`,
/// clamped to the end of a line that ends in a newline.
pub open spec fn spec_line_col_to_offset(b: Seq<u8>, l: int, col: int) -> Option<int> {
    if l < 1 {
        None
    } else {
        match line_start(b, (l - 1) as nat) {
            None => None,
            Some(s) => {
                let e = line_end(b, s);
                if e < b.len() {
                    Some(if s + col < e {
                        s + col
                    } else {
                        e
                    })
                } else if s + col <= b.len() {
                    Some(s + col)
                } else {
                    None
                }
            },
        }
    }
}

/// Scanning the line from `k` to its end `e`, with `rem` UTF-16 units left to
/// reach the target column: the first character start where the column is
/// reached, the line end when the column lies beyond a newline-terminated
/// line, and nothing when the column falls inside a character or beyond the
/// end of the text.
pub open spec fn column_offset(b: Seq<u8>, k: int, e: int, rem: int) -> Option<int>
    decreases e - k,
{
    if k >= e {
        if e < b.len() || rem == 0 {
            Some(e)
        } else {
            None
        }
    } else if !is_cont(b[k]) && rem == 0 {
        Some(k)
    } else if utf16_weight(b[k]) > rem {
        None
    } else {
        column_offset(b, k + 1, e, rem - utf16_weight(b[k]))
    }
}

/// `lsp_position_to_byte_offset` on the bytes of a text.
pub open spec fn spec_position_to_offset(b: Seq<u8>, p: Position) -> Option<int> {
    match line_start(b, p.line as nat) {
        None => None,
        Some(s) => column_offset(b, s, line_end(b, s), p.character as int),
    }
}

/// `byte_offset_to_lsp_position` on the bytes of a text.
pub open spec fn spec_offset_to_position(b: Seq<u8>, t: int) -> Position {
    let c = if t < b.len() {
        t
    } else {
        b.len() as int
    };
    Position {
        line: count_byte(b, 0, c, NEWLINE) as u32,
        character: utf16_units(b, line_start_before(b, c), c) as u32,
    }
}

proof fn lemma_last_index_range(b: Seq<u8>, lo: int, j: int, x: u8)
    ensures
        last_index_of_byte(b, lo, j, x) matches Some(i) ==> lo <= i < j,
    decreases j - lo,
{
    if j > lo {
        lemma_last_index_range(b, lo, j - 1, x);
    }
}

proof fn lemma_column_offset_range(b: Seq<u8>, k: int, e: int, rem: int)
    requires
        k <= e,
    ensures
        column_offset(b, k, e, rem) matches Some(x) ==> k <= x <= e,
    decreases e - k,
{
    if k < e {
        lemma_column_offset_range(b, k + 1, e, rem - utf16_weight(b[k]));
    }
}

proof fn lemma_count_bound(b: Seq<u8>, lo: int, hi: int, x: u8)
    requires
        lo <= hi,
    ensures
        0 <= count_byte(b, lo, hi, x) <= hi - lo,
    decreases hi - lo,
{
    if lo < hi {
        lemma_count_bound(b, lo, hi - 1, x);
    }
}

proof fn lemma_units_bound(b: Seq<u8>, lo: int, hi: int)
    requires
        lo <= hi,
    ensures
        0 <= utf16_units(b, lo, hi) <= 2 * (hi - lo),
    decreases hi - lo,
{
    if lo < hi {
        lemma_units_bound(b, lo, hi - 1);
    }
}

proof fn lemma_line_start_from_range(b: Seq<u8>, s: int, n: nat)
    requires
        0 <= s <= b.len(),
    ensures
        line_start_from(b, s, n) matches Some(x) ==> s <= x <= b.len(),
    decreases n,
{
    if n > 0 {
        crate::text::lemma_index_of_range(b, s, b.len() as int, NEWLINE);
        let e = index_of_byte(b, s, b.len() as int, NEWLINE);
        if e < b.len() {
            lemma_line_start_from_range(b, e + 1, (n - 1) as nat);
        }
    }
}

/// A resolved line/column lies inside the text.
pub proof fn lemma_line_col_range(b: Seq<u8>, l: int, col: int)
    requires
        0 <= col,
    ensures
        spec_line_col_to_offset(b, l, col) matches Some(x) ==> 0 <= x <= b.len(),
{
    if l >= 1 {
        lemma_line_start_from_range(b, 0, (l - 1) as nat);
        if let Some(s) = line_start(b, (l - 1) as nat) {
            crate::text::lemma_index_of_range(b, s, b.len() as int, NEWLINE);
        }
    }
}

/// 1-based line and byte column of `min(target_offset, source.len())`.
pub fn offset_to_line_col(source: &[u8], target_offset: usize) -> (r: (usize, usize))
    requires
        source@.len() < usize::MAX,
    ensures
        r.0 as int == spec_offset_to_line_col(source@, target_offset as int).0,
        r.1 as int == spec_offset_to_line_col(source@, target_offset as int).1,
{
    let clamped = if target_offset < source.len() {
        target_offset
    } else {
        source.len()
    };
    let mut line: usize = 1;
    let mut col: usize = 0;
    let mut i: usize = 0;
    while i < clamped
        invariant
            i <= clamped <= source@.len() < usize::MAX,
            line == 1 + count_byte(source@, 0, i as int, NEWLINE),
            col == i - line_start_before(source@, i as int),
            line_start_before(source@, i as int) <= i,
        decreases clamped - i,
    {
        proof {
            lemma_count_bound(source@, 0, i as int, NEWLINE);
            lemma_last_index_range(source@, 0, i as int, NEWLINE);
            lemma_last_index_range(source@, 0, i + 1, NEWLINE);
        }
        if source[i] == NEWLINE {
            line = line + 1;
            col = 0;
        } else {
            col = col + 1;
        }
        i = i + 1;
    }
    (line, col)
}

/// Offset where the `n`-th line (0-based) starts, if the text has that line.
pub fn line_start_offset(b: &[u8], n: usize) -> (r: Option<usize>)
    ensures
        r == opt_usize(line_start(b@, n as nat)),
        line_start(b@, n as nat) matches Some(s) ==> 0 <= s <= b@.len(),
{
    let mut s: usize = 0;
    let mut k: usize = 0;
    while k < n
        invariant
            k <= n,
            s <= b@.len(),
            line_start_from(b@, s as int, (n - k) as nat) == line_start(b@, n as nat),
        decreases n - k,
    {
        let e = index_of(b, s, b.len(), NEWLINE);
        if e >= b.len() {
            return None;
        }
        s = e + 1;
        k = k + 1;
    }
    Some(s)
}

/// Offset of 1-based line `target_line`, byte column `target_col`; a column
/// beyond a newline-terminated line is clamped to its newline.
pub fn line_col_to_offset(source: &[u8], target_line: usize, target_col: usize) -> (r: Option<
    usize,
>)
    ensures
        r == opt_usize(spec_line_col_to_offset(source@, target_line as int, target_col as int)),
{
    if target_line < 1 {
        return None;
    }
    let s = match line_start_offset(source, target_line - 1) {
        Some(s) => s,
        None => return None,
    };
    let e = index_of(source, s, source.len(), NEWLINE);
    if e < source.len() {
        if target_col < e - s {
            Some(s + target_col)
        } else {
            Some(e)
        }
    } else if target_col <= source.len() - s {
        Some(s + target_col)
    } else {
        None
    }
}

/// The UTF-16 weight of one byte.
pub fn utf16_weight_of(x: u8) -> (r: u32)
    ensures
        r as int == utf16_weight(x),
{
    if 0x80 <= x && x <= 0xbf {
        0
    } else if x >= 0xf0 {
        2
    } else {
        1
    }
}

/// The byte offset of an LSP position (0-based line, UTF-16 column).
pub fn lsp_position_to_byte_offset(source: &str, position: Position) -> (r: Option<usize>)
    ensures
        r == opt_usize(spec_position_to_offset(source.spec_bytes(), position)),
        spec_position_to_offset(source.spec_bytes(), position) matches Some(x) ==> 0 <= x
            <= source.spec_bytes().len(),
{
    let b = source.as_bytes();
    let n = position.line as usize;
    let blen = b.len();
    let s = match line_start_offset(b, n) {
        Some(s) => s,
        None => return None,
    };
    assert(line_start(b@, n as nat) == Some(s as int));
    let e = index_of(b, s, b.len(), NEWLINE);
    assert(line_end(b@, s as int) == e);
    assert(spec_position_to_offset(b@, position) == column_offset(b@, s as int, e as int, position.character as int));
    proof {
        lemma_column_offset_range(b@, s as int, e as int, position.character as int);
    }
    let mut k = s;
    let mut rem: u32 = position.character;
    while k < e
        invariant
            s <= k <= e <= b@.len(),
            b@ == source.spec_bytes(),
            spec_position_to_offset(b@, position) == column_offset(b@, s as int, e as int, position.character as int),
            column_offset(b@, k as int, e as int, rem as int) == column_offset(
                b@,
                s as int,
                e as int,
                position.character as int,
            ),
        decreases e - k,
    {
        let x = b[k];
        assert(x == b@[k as int]);
        if !(0x80 <= x && x <= 0xbf) && rem == 0 {
            assert(column_offset(b@, k as int, e as int, rem as int) == Some(k as int));
            return Some(k);
        }
        let w = utf16_weight_of(x);
        if w > rem {
            return None;
        }
        rem = rem - w;
        k = k + 1;
    }
    if e < b.len() || rem == 0 {
        Some(e)
    } else {
        None
    }
}

/// The LSP position (0-based line, UTF-16 column) of a byte offset, clamped
/// to the end of the text.
pub fn byte_offset_to_lsp_position(source: &str, target_offset: usize) -> (r: Position)
    requires
        source.spec_bytes().len() <= u32::MAX,
    ensures
        r == spec_offset_to_position(source.spec_bytes(), target_offset as int),
{
    let b = source.as_bytes();
    let clamped = if target_offset < b.len() {
        target_offset
    } else {
        b.len()
    };
    let mut line: u32 = 0;
    let mut col: u64 = 0;
    let mut i: usize = 0;
    while i < clamped
        invariant
            i <= clamped <= b@.len() <= u32::MAX,
            line == count_byte(b@, 0, i as int, NEWLINE),
            col == utf16_units(b@, line_start_before(b@, i as int), i as int),
            line_start_before(b@, i as int) <= i,
        decreases clamped - i,
    {
        proof {
            lemma_count_bound(b@, 0, i as int, NEWLINE);
            lemma_last_index_range(b@, 0, i as int, NEWLINE);
            lemma_last_index_range(b@, 0, i + 1, NEWLINE);
            lemma_units_bound(b@, line_start_before(b@, i as int), i as int);
        }
        if b[i] == NEWLINE {
            line = line + 1;
            col = 0;
        } else {
            col = col + utf16_weight_of(b[i]) as u64;
        }
        i = i + 1;
    }
    Position::new(line, #[verifier::truncate] (col as u32))
}

} // verus!

verus! {

/// One change of a `didChange` notification: a replacement of `range`, or of
/// the whole text when there is no range.
#[derive(Clone, Debug)]
pub struct ContentChange {
    pub range: Option<Range>,
    pub text: String,
}

/// The text after one change, or `None` when its range cannot be applied.
pub open spec fn spec_apply_change(src: Seq<u8>, c: ContentChange) -> Option<Seq<u8>> {
    match c.range {
        None => Some(bytes_of(c.text)),
        Some(r) => match spec_position_to_offset(src, r.start) {
            None => None,
            Some(s) => match spec_position_to_offset(src, r.end) {
                None => None,
                Some(e) => if s > e || !is_boundary(src, s) || !is_boundary(src, e) {
                    None
                } else {
                    Some(src.subrange(0, s) + bytes_of(c.text) + src.subrange(e, src.len() as int))
                },
            },
        },
    }
}

/// The text after applying `cs` in order, or `None` when one cannot be applied.
pub open spec fn spec_apply_changes(src: Seq<u8>, cs: Seq<ContentChange>) -> Option<Seq<u8>>
    decreases cs.len(),
{
    if cs.len() == 0 {
        Some(src)
    } else {
        match spec_apply_changes(src, cs.drop_last()) {
            None => None,
            Some(s) => spec_apply_change(s, cs.last()),
        }
    }
}

/// Once a prefix of the changes fails, the whole sequence fails.
proof fn lemma_apply_none_extends(src: Seq<u8>, cs: Seq<ContentChange>, i: int)
    requires
        0 <= i <= cs.len(),
        spec_apply_changes(src, cs.take(i)) is None,
    ensures
        spec_apply_changes(src, cs) is None,
    decreases cs.len(),
{
    if i == cs.len() {
        assert(cs.take(i) =~= cs);
    } else {
        assert(cs.drop_last().take(i) =~= cs.take(i));
        lemma_apply_none_extends(src, cs.drop_last(), i);
    }
}

/// `String::replace_range`: replaces the bytes `start..end` by `text`. Its
/// documentation promises exactly that splice, and a panic when either end is
/// out of bounds or not on a character boundary, which `requires` excludes.
#[verifier::external_body]
fn string_replace_range(s: &mut String, start: usize, end: usize, text: &str)
    requires
        start <= end <= bytes_of(*old(s)).len(),
        is_boundary(bytes_of(*old(s)), start as int),
        is_boundary(bytes_of(*old(s)), end as int),
    ensures
        bytes_of(*final(s)) == bytes_of(*old(s)).subrange(0, start as int) + text.spec_bytes()
            + bytes_of(*old(s)).subrange(end as int, bytes_of(*old(s)).len() as int),
{
    s.replace_range(start..end, text);
}

/// `str::is_char_boundary` judged on the bytes.
pub fn byte_is_boundary(b: &[u8], i: usize) -> (r: bool)
    ensures
        r == is_boundary(b@, i as int),
{
    i == 0 || i == b.len() || (i < b.len() && !(0x80 <= b[i] && b[i] <= 0xbf))
}

/// Applies the changes of a `didChange` notification in order; `None` when a
/// range does not resolve to a valid byte range of the current text.
pub fn apply_content_changes(current_source: &str, changes: &[ContentChange]) -> (r: Option<String>)
    ensures
        match spec_apply_changes(current_source.spec_bytes(), changes@) {
            Some(out) => r matches Some(s) && bytes_of(s) == out,
            None => r is None,
        },
{
    let mut source: String = current_source.to_owned();
    let mut i: usize = 0;
    while i < changes.len()
        invariant
            i <= changes@.len(),
            spec_apply_changes(current_source.spec_bytes(), changes@.take(i as int)) == Some(
                bytes_of(source),
            ),
        decreases changes@.len() - i,
    {
        let change = &changes[i];
        proof {
            assert(changes@.take(i + 1).drop_last() =~= changes@.take(i as int));
            assert(changes@.take(i + 1).last() == changes@[i as int]);
        }
        match change.range {
            Some(range) => {
                let start = match lsp_position_to_byte_offset(source.as_str(), range.start) {
                    Some(start) => start,
                    None => {
                        proof {
                            lemma_apply_none_extends(current_source.spec_bytes(), changes@, i + 1);
                        }
                        return None;
                    },
                };
                let end = match lsp_position_to_byte_offset(source.as_str(), range.end) {
                    Some(end) => end,
                    None => {
                        proof {
                            lemma_apply_none_extends(current_source.spec_bytes(), changes@, i + 1);
                        }
                        return None;
                    },
                };
                let b = source.as_str().as_bytes();
                let blen = b.len();
                assert(b@ == bytes_of(source));
                assert(spec_position_to_offset(bytes_of(source), range.start) == Some(start as int));
                assert(spec_position_to_offset(bytes_of(source), range.end) == Some(end as int));
                assert(change.range == Some(range));
                if start > end || !byte_is_boundary(b, start) || !byte_is_boundary(b, end) {
                    proof {
                        lemma_apply_none_extends(current_source.spec_bytes(), changes@, i + 1);
                    }
                    return None;
                }
                string_replace_range(&mut source, start, end, change.text.as_str());
            },
            None => {
                source = change.text.clone();
            },
        }
        i = i + 1;
    }
    proof {
        assert(changes@.take(changes@.len() as int) =~= changes@);
    }
    Some(source)
}

} // verus!

verus! {

/// No newline lies between the start of the line holding `c` and `c`.
proof fn lemma_no_newline_before(b: Seq<u8>, c: int)
    requires
        0 <= c <= b.len(),
    ensures
        0 <= line_start_before(b, c) <= c,
        forall|k: int| line_start_before(b, c) <= k < c ==> b[k] != NEWLINE,
{
    lemma_last_index_range(b, 0, c, NEWLINE);
    lemma_no_newline_after_last(b, 0, c);
}

proof fn lemma_no_newline_after_last(b: Seq<u8>, lo: int, j: int)
    requires
        lo <= j,
    ensures
        match last_index_of_byte(b, lo, j, NEWLINE) {
            Some(i) => forall|k: int| i < k < j ==> b[k] != NEWLINE,
            None => forall|k: int| lo <= k < j ==> b[k] != NEWLINE,
        },
    decreases j - lo,
{
    if j > lo && b[j - 1] != NEWLINE {
        lemma_no_newline_after_last(b, lo, j - 1);
    }
}

/// The line after the `n`-th one from `s` starts after the newline that
/// ends the `n`-th.
proof fn lemma_line_start_from_next(b: Seq<u8>, s: int, n: nat)
    ensures
        line_start_from(b, s, n + 1) == match line_start_from(b, s, n) {
            Some(y) => {
                let e = index_of_byte(b, y, b.len() as int, NEWLINE);
                if e >= b.len() {
                    None
                } else {
                    Some(e + 1)
                }
            },
            None => None,
        },
    decreases n,
{
    let e = index_of_byte(b, s, b.len() as int, NEWLINE);
    if n > 0 {
        if e < b.len() {
            lemma_line_start_from_next(b, e + 1, (n - 1) as nat);
        }
    } else {
        assert(line_start_from(b, s, 0) == Some(s));
        if e < b.len() {
            assert(line_start_from(b, e + 1, 0) == Some(e + 1));
        }
    }
}

/// `index_of_byte` finds the first newline after a run without one.
proof fn lemma_index_of_skips(b: Seq<u8>, i: int, c: int, hi: int)
    requires
        i <= c <= hi,
        forall|k: int| i <= k < c ==> b[k] != NEWLINE,
    ensures
        index_of_byte(b, i, hi, NEWLINE) == index_of_byte(b, c, hi, NEWLINE),
    decreases c - i,
{
    if i < c {
        lemma_index_of_skips(b, i + 1, c, hi);
    }
}

/// The line holding offset `c` is the line numbered by the newlines before
/// `c`.
pub proof fn lemma_line_of_offset(b: Seq<u8>, c: int)
    requires
        0 <= c <= b.len(),
    ensures
        line_start(b, count_byte(b, 0, c, NEWLINE) as nat) == Some(line_start_before(b, c)),
    decreases c,
{
    lemma_count_bound(b, 0, c, NEWLINE);
    if c > 0 {
        lemma_line_of_offset(b, c - 1);
        lemma_count_bound(b, 0, c - 1, NEWLINE);
        let n = count_byte(b, 0, c - 1, NEWLINE);
        if b[c - 1] == NEWLINE {
            lemma_line_start_from_next(b, 0, n as nat);
            let y = line_start_before(b, c - 1);
            lemma_no_newline_before(b, c - 1);
            lemma_index_of_skips(b, y, c - 1, b.len() as int);
            assert(index_of_byte(b, c - 1, b.len() as int, NEWLINE) == c - 1);
        }
    }
}

/// UTF-16 units split at any middle point.
proof fn lemma_units_split(b: Seq<u8>, lo: int, mid: int, hi: int)
    requires
        lo <= mid <= hi,
    ensures
        utf16_units(b, lo, hi) == utf16_units(b, lo, mid) + utf16_units(b, mid, hi),
    decreases hi - mid,
{
    if hi > mid {
        lemma_units_split(b, lo, mid, hi - 1);
    }
}

/// UTF-16 units of a window are those of the same window of a slice.
proof fn lemma_units_shift(b: Seq<u8>, a: int, c: int, lo: int, hi: int)
    requires
        0 <= a <= lo <= hi <= c <= b.len(),
    ensures
        utf16_units(b, lo, hi) == utf16_units(b.subrange(a, c), lo - a, hi - a),
    decreases hi - lo,
{
    if hi > lo {
        lemma_units_shift(b, a, c, lo, hi - 1);
    }
}

/// The first character of valid UTF-8 carries no more UTF-16 units than
/// bytes.
proof fn lemma_first_scalar_units(v: Seq<u8>)
    requires
        vstd::utf8::valid_utf8(v),
        v.len() > 0,
    ensures
        1 <= vstd::utf8::length_of_first_scalar(v) <= v.len(),
        utf16_units(v, 0, vstd::utf8::length_of_first_scalar(v)) <= vstd::utf8::length_of_first_scalar(v),
{
    let w = vstd::utf8::length_of_first_scalar(v);
    assert(utf16_units(v, 0, 0) == 0);
    assert(utf16_units(v, 0, 1) == utf16_weight(v[0]));
    if w >= 2 {
        assert(utf16_units(v, 0, 2) == utf16_units(v, 0, 1) + utf16_weight(v[1]));
    }
    if w >= 3 {
        assert(utf16_units(v, 0, 3) == utf16_units(v, 0, 2) + utf16_weight(v[2]));
    }
    if w >= 4 {
        assert(utf16_units(v, 0, 4) == utf16_units(v, 0, 3) + utf16_weight(v[3]));
    }
}

/// Valid UTF-8 has no more UTF-16 units than bytes.
proof fn lemma_units_of_valid(v: Seq<u8>)
    requires
        vstd::utf8::valid_utf8(v),
    ensures
        utf16_units(v, 0, v.len() as int) <= v.len(),
    decreases v.len(),
{
    if v.len() > 0 {
        lemma_first_scalar_units(v);
        let w = vstd::utf8::length_of_first_scalar(v);
        let rest = vstd::utf8::pop_first_scalar(v);
        assert(rest =~= v.subrange(w, v.len() as int));
        lemma_units_of_valid(rest);
        lemma_units_split(v, 0, w, v.len() as int);
        lemma_units_shift(v, w, v.len() as int, w, v.len() as int);
    }
}

/// Between two character boundaries of valid UTF-8 there are no more UTF-16
/// units than bytes.
proof fn lemma_units_within_bytes(b: Seq<u8>, lo: int, hi: int)
    requires
        vstd::utf8::valid_utf8(b),
        0 <= lo <= hi <= b.len(),
        is_boundary(b, lo),
        is_boundary(b, hi),
    ensures
        utf16_units(b, lo, hi) <= hi - lo,
{
    crate::text::lemma_boundary(b, lo);
    crate::text::lemma_boundary(b, hi);
    vstd::utf8::valid_utf8_split(b, hi);
    let pre = b.subrange(0, hi);
    assert(is_boundary(pre, lo));
    crate::text::lemma_boundary(pre, lo);
    vstd::utf8::valid_utf8_split(pre, lo);
    assert(pre.subrange(lo, hi) =~= b.subrange(lo, hi));
    lemma_units_of_valid(b.subrange(lo, hi));
    lemma_units_shift(b, lo, hi, lo, hi);
}

/// Scanning a line for the column of a character boundary finds it.
proof fn lemma_column_scan(b: Seq<u8>, k: int, s: int, e: int)
    requires
        0 <= k <= s <= e <= b.len(),
        is_boundary(b, s),
        s < b.len() ==> !is_cont(b[s]),
        e == b.len() || b[e] == NEWLINE,
    ensures
        column_offset(b, k, e, utf16_units(b, k, s)) == Some(s),
    decreases s - k,
{
    if k < s {
        lemma_units_split(b, k, k + 1, s);
        assert(utf16_units(b, k, k) == 0);
        assert(utf16_units(b, k, k + 1) == utf16_weight(b[k]));
        lemma_units_bound(b, k + 1, s);
        lemma_column_scan(b, k + 1, s, e);
        let rem = utf16_units(b, k, s);
        assert(rem - utf16_weight(b[k]) == utf16_units(b, k + 1, s));
        assert(!(!is_cont(b[k]) && rem == 0));
        assert(!(utf16_weight(b[k]) > rem));
        assert(column_offset(b, k, e, rem) == column_offset(b, k + 1, e, rem - utf16_weight(b[k])));
    } else {
        assert(utf16_units(b, k, s) == 0);
    }
}

/// A character boundary is not a continuation byte in valid UTF-8.
proof fn lemma_boundary_not_cont(b: Seq<u8>, s: int)
    requires
        vstd::utf8::valid_utf8(b),
        0 <= s < b.len(),
        is_boundary(b, s),
    ensures
        !is_cont(b[s]),
{
    crate::text::lemma_boundary(b, s);
    vstd::utf8::is_char_boundary_iff_not_is_continuation_byte(b, s);
}

/// The start of the line holding `s` is a character boundary.
proof fn lemma_line_start_boundary(b: Seq<u8>, s: int)
    requires
        vstd::utf8::valid_utf8(b),
        0 <= s <= b.len(),
    ensures
        is_boundary(b, line_start_before(b, s)),
{
    lemma_last_index_range(b, 0, s, NEWLINE);
    crate::text::lemma_last_index_found(b, 0, s, NEWLINE);
    let ls = line_start_before(b, s);
    if ls > 0 {
        crate::text::lemma_after_ascii(b, ls - 1);
    }
}

/// A byte offset at a character boundary converts to an LSP position and
/// back to the same offset.
pub proof fn law_lsp_position_round_trip(b: Seq<u8>, s: int)
    requires
        vstd::utf8::valid_utf8(b),
        b.len() <= u32::MAX,
        0 <= s <= b.len(),
        is_boundary(b, s),
    ensures
        spec_position_to_offset(b, spec_offset_to_position(b, s)) == Some(s),
{
    let ls = line_start_before(b, s);
    let n = count_byte(b, 0, s, NEWLINE);
    let u = utf16_units(b, ls, s);
    assert(line_start(b, n as nat) == Some(ls) && 0 <= n <= s) by {
        lemma_line_of_offset(b, s);
        lemma_count_bound(b, 0, s, NEWLINE);
    }
    assert(0 <= ls <= s && forall|k: int| ls <= k < s ==> b[k] != NEWLINE) by {
        lemma_no_newline_before(b, s);
    }
    assert(0 <= u <= s - ls) by {
        lemma_line_start_boundary(b, s);
        lemma_units_within_bytes(b, ls, s);
        lemma_units_bound(b, ls, s);
    }
    let p = spec_offset_to_position(b, s);
    assert(p.line as int == n && p.character as int == u);
    let e = line_end(b, ls);
    assert(e == index_of_byte(b, s, b.len() as int, NEWLINE) && s <= e <= b.len()) by {
        lemma_index_of_skips(b, ls, s, b.len() as int);
        crate::text::lemma_index_of_range(b, s, b.len() as int, NEWLINE);
    }
    assert(e == b.len() || b[e] == NEWLINE) by {
        lemma_index_found(b, s, b.len() as int);
    }
    if s < b.len() {
        lemma_boundary_not_cont(b, s);
    }
    lemma_column_scan(b, ls, s, e);
}

proof fn lemma_index_found(b: Seq<u8>, i: int, hi: int)
    requires
        i <= hi,
    ensures
        index_of_byte(b, i, hi, NEWLINE) < hi ==> b[index_of_byte(b, i, hi, NEWLINE)] == NEWLINE,
    decreases hi - i,
{
    if i < hi && b[i] != NEWLINE {
        lemma_index_found(b, i + 1, hi);
    }
}

/// A byte offset converts to a 1-based line and byte column and back to the
/// same offset.
pub proof fn law_line_col_round_trip(b: Seq<u8>, c: int)
    requires
        0 <= c <= b.len(),
    ensures
        spec_line_col_to_offset(
            b,
            spec_offset_to_line_col(b, c).0,
            spec_offset_to_line_col(b, c).1,
        ) == Some(c),
{
    lemma_line_of_offset(b, c);
    lemma_count_bound(b, 0, c, NEWLINE);
    lemma_no_newline_before(b, c);
    let ls = line_start_before(b, c);
    lemma_index_of_skips(b, ls, c, b.len() as int);
    crate::text::lemma_index_of_range(b, c, b.len() as int, NEWLINE);
}

} // verus!

verus! {

/// Applying a list of changes in two batches, the second to the text the
/// first produced, gives what applying them all at once gives.
pub proof fn law_apply_changes_in_batches(src: Seq<u8>, first: Seq<ContentChange>, second: Seq<ContentChange>)
    ensures
        spec_apply_changes(src, first + second) == match spec_apply_changes(src, first) {
            Some(mid) => spec_apply_changes(mid, second),
            None => None,
        },
    decreases second.len(),
{
    if second.len() == 0 {
        assert(first + second =~= first);
    } else {
        law_apply_changes_in_batches(src, first, second.drop_last());
        assert((first + second).drop_last() =~= first + second.drop_last());
        assert((first + second).last() == second.last());
    }
}

/// Whether a byte is a newline.
pub open spec fn is_newline(x: u8) -> bool {
    x == NEWLINE
}

/// `count_byte` counts the newlines of the prefix.
proof fn lemma_count_is_filter(b: Seq<u8>, c: int)
    requires
        0 <= c <= b.len(),
    ensures
        count_byte(b, 0, c, NEWLINE) == b.take(c).filter(|x: u8| is_newline(x)).len(),
    decreases c,
{
    reveal(Seq::filter);
    if c > 0 {
        lemma_count_is_filter(b, c - 1);
        assert(b.take(c).drop_last() =~= b.take(c - 1));
        assert(b.take(c).last() == b[c - 1]);
    }
}

/// A position's line is one more than the newlines before it, and its
/// column is its distance from just after the last of those newlines (from
/// the start of the text when there is none); an offset past the end
/// counts as the end.
pub proof fn law_line_col_counts_newlines(b: Seq<u8>, t: int)
    requires
        0 <= t,
    ensures
        ({
            let c = if t < b.len() { t } else { b.len() as int };
            &&& spec_offset_to_line_col(b, t).0 == 1 + b.take(c).filter(|x: u8| is_newline(x)).len()
            &&& match last_index_of_byte(b, 0, c, NEWLINE) {
                Some(i) => {
                    &&& 0 <= i < c
                    &&& b[i] == NEWLINE
                    &&& forall|k: int| i < k < c ==> b[k] != NEWLINE
                    &&& spec_offset_to_line_col(b, t).1 == c - (i + 1)
                },
                None => {
                    &&& forall|k: int| 0 <= k < c ==> b[k] != NEWLINE
                    &&& spec_offset_to_line_col(b, t).1 == c
                },
            }
        }),
{
    let c = if t < b.len() { t } else { b.len() as int };
    lemma_count_is_filter(b, c);
    lemma_no_newline_after_last(b, 0, c);
    crate::text::lemma_last_index_found(b, 0, c, NEWLINE);
}

} // verus!
