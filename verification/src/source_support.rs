//! Scanning Ruby source lines: `def` headers, method names and columns, and
//! the annotations (`#:`, `# @rbs`, Sorbet `sig`) that make a signature code
//! lens unnecessary.

use vstd::prelude::*;
use vstd::string::*;
use crate::text::{
    is_ascii_ws, ws_suffix_in,
    find_bytes, find_from, index_of, index_of_byte, lemma_after_ascii, lemma_ascii_at,
    lemma_str_valid, lemma_trim_end_boundary, lemma_trim_start_boundary, line_spans, lines_of,
    matches_at, bytes_match_at, str_slice, str_trim, str_trim_start, trim_end_at, trim_span,
    trim_start_at, trim_start_idx, is_boundary, ws_len_in, ws_len, last_index_of_byte, rfind_upto,
};

verus! {

broadcast use vstd::seq_lib::group_seq_properties;

/// `def `
pub open spec fn pat_def() -> Seq<u8> {
    seq![0x64u8, 0x65u8, 0x66u8, 0x20u8]
}

/// ` def `
pub open spec fn pat_wrapped_def() -> Seq<u8> {
    seq![0x20u8, 0x64u8, 0x65u8, 0x66u8, 0x20u8]
}

/// `#:`
pub open spec fn pat_hash_colon() -> Seq<u8> {
    seq![0x23u8, 0x3au8]
}

/// `# @rbs`
pub open spec fn pat_hash_rbs() -> Seq<u8> {
    seq![0x23u8, 0x20u8, 0x40u8, 0x72u8, 0x62u8, 0x73u8]
}

/// `sig`
pub open spec fn pat_sig() -> Seq<u8> {
    seq![0x73u8, 0x69u8, 0x67u8]
}

/// `sig `
pub open spec fn pat_sig_space() -> Seq<u8> {
    seq![0x73u8, 0x69u8, 0x67u8, 0x20u8]
}

/// `sig(`
pub open spec fn pat_sig_paren() -> Seq<u8> {
    seq![0x73u8, 0x69u8, 0x67u8, 0x28u8]
}

/// `sig {`
pub open spec fn pat_sig_brace() -> Seq<u8> {
    seq![0x73u8, 0x69u8, 0x67u8, 0x20u8, 0x7bu8]
}

/// `sig do`
pub open spec fn pat_sig_do() -> Seq<u8> {
    seq![0x73u8, 0x69u8, 0x67u8, 0x20u8, 0x64u8, 0x6fu8]
}

/// `def_header_from_line` on the window `[lo, hi)`: where the text after a
/// leading `def ` or the first ` def ` starts.
pub open spec fn def_header_at(t: Seq<u8>, lo: int, hi: int) -> Option<int> {
    if matches_at(t, lo, hi, pat_def()) {
        Some(lo + 4)
    } else {
        match find_from(t, lo, hi, pat_wrapped_def()) {
            Some(i) => Some(i + 5),
            None => None,
        }
    }
}

/// A line whose text, once indentation is removed, holds a `def` header.
pub open spec fn line_supports_signature(t: Seq<u8>) -> bool {
    def_header_at(t, trim_start_at(t, 0, t.len() as int), t.len() as int) is Some
}

/// The trimmed window of the last non-empty line before `line`, if any,
/// stopping at the first index outside `ls` (`previous_non_empty_line`).
pub open spec fn prev_non_empty(ls: Seq<Seq<u8>>, line: int) -> Option<int>
    decreases line,
{
    if line <= 0 || line - 1 >= ls.len() {
        None
    } else if trim_span(ls[line - 1]).0 < trim_span(ls[line - 1]).1 {
        Some(line - 1)
    } else {
        prev_non_empty(ls, line - 1)
    }
}

/// A line with surrounding whitespace removed (`str::trim`).
pub open spec fn trimmed(t: Seq<u8>) -> Seq<u8> {
    t.subrange(trim_span(t).0, trim_span(t).1)
}

/// `p` starts with `pat`.
pub open spec fn has_prefix(p: Seq<u8>, pat: Seq<u8>) -> bool {
    matches_at(p, 0, p.len() as int, pat)
}

/// A trimmed line that opens a Sorbet `sig`.
pub open spec fn sig_opener(p: Seq<u8>) -> bool {
    p == pat_sig() || has_prefix(p, pat_sig_space()) || has_prefix(p, pat_sig_paren())
        || has_prefix(p, pat_sig_brace()) || has_prefix(p, pat_sig_do())
}

/// A trimmed line that annotates the line after it: a `#:` or `# @rbs`
/// comment, or a one-line Sorbet `sig`. The `end` that closes a multi-line
/// `sig do ... end` does not count: looking back from an `end`, the first
/// non-empty line is that `end` itself, which opens no `sig` block, so such
/// a `def` is not taken as annotated.
pub open spec fn annotates_next_line(p: Seq<u8>) -> bool {
    ||| has_prefix(p, pat_hash_colon())
    ||| has_prefix(p, pat_hash_rbs())
    ||| (has_prefix(p, pat_sig()) && sig_opener(p))
}

/// `source_line_has_direct_annotation`: the line holds an inline `#:`
/// annotation, or the last non-empty line before it annotates it.
pub open spec fn direct_annotation(ls: Seq<Seq<u8>>, line: int) -> bool {
    ||| (0 <= line < ls.len() && find_from(
        trimmed(ls[line]),
        0,
        trimmed(ls[line]).len() as int,
        pat_hash_colon(),
    ) is Some)
    ||| match prev_non_empty(ls, line) {
        None => false,
        Some(j) => annotates_next_line(trimmed(ls[j])),
    }
}

/// The found line lies before `line` and inside the list.
pub proof fn lemma_prev_range(ls: Seq<Seq<u8>>, line: int)
    ensures
        prev_non_empty(ls, line) matches Some(j) ==> 0 <= j < line && j < ls.len(),
    decreases line,
{
    if !(line <= 0 || line - 1 >= ls.len()) && !(trim_span(ls[line - 1]).0 < trim_span(ls[line - 1]).1) {
        lemma_prev_range(ls, line - 1);
    }
}

/// The bytes of each line of a list.
pub open spec fn line_bytes_of(ls: Seq<&str>) -> Seq<Seq<u8>> {
    ls.map_values(|l: &str| l.spec_bytes())
}

/// The bytes of each line of a text.
pub open spec fn source_lines(b: Seq<u8>) -> Seq<Seq<u8>> {
    Seq::new(lines_of(b).len(), |i: int| b.subrange(lines_of(b)[i].0, lines_of(b)[i].1))
}

/// The lines of `source` (`str::lines`).
pub fn split_source_lines(source: &str) -> (r: Vec<&str>)
    ensures
        r@.len() == lines_of(source.spec_bytes()).len(),
        forall|i: int|
            0 <= i < r@.len() ==> #[trigger] r@[i].spec_bytes() == source.spec_bytes().subrange(
                lines_of(source.spec_bytes())[i].0,
                lines_of(source.spec_bytes())[i].1,
            ),
        line_bytes_of(r@) == source_lines(source.spec_bytes()),
{
    let b = source.as_bytes();
    let n = b.len();
    let ghost spans = lines_of(b@);
    let mut out: Vec<&str> = Vec::new();
    let mut s: usize = 0;
    proof {
        lemma_str_valid(source);
    }
    while s < n
        invariant
            b@ == source.spec_bytes(),
            n == b@.len(),
            s <= n,
            is_boundary(b@, s as int),
            spans == lines_of(b@),
            out@.len() <= spans.len(),
            line_spans(b@, s as int) =~= spans.skip(out@.len() as int),
            forall|i: int|
                0 <= i < out@.len() ==> #[trigger] out@[i].spec_bytes() == b@.subrange(
                    spans[i].0,
                    spans[i].1,
                ),
            vstd::utf8::valid_utf8(b@),
        decreases n - s,
    {
        let e = index_of(b, s, n, 0x0a);
        let ce = if e < n && e > s && b[e - 1] == 0x0d {
            e - 1
        } else {
            e
        };
        proof {
            lemma_ascii_at(b@, ce as int);
        }
        let line = str_slice(source, s, ce);
        proof {
            assert(line_spans(b@, s as int)[0] == (s as int, ce as int));
            assert(line_spans(b@, s as int).skip(1) =~= line_spans(b@, e + 1));
        }
        out.push(line);
        if e >= n {
            proof {
                assert(line_spans(b@, e + 1) =~= Seq::<(int, int)>::empty());
            }
            s = n;
        } else {
            proof {
                lemma_after_ascii(b@, e as int);
            }
            s = e + 1;
        }
    }
    proof {
        assert(line_spans(b@, s as int) =~= Seq::<(int, int)>::empty());
        assert(line_bytes_of(out@) =~= source_lines(b@));
    }
    out
}

} // verus!

verus! {

/// The header of a `def` line: the offset where the text after a leading
/// `def ` (or the first ` def `, as in `private def`) starts, and that text.
pub fn def_header_from_line(trimmed: &str) -> (r: Option<(usize, &str)>)
    ensures
        match def_header_at(trimmed.spec_bytes(), 0, trimmed.spec_bytes().len() as int) {
            Some(a) => r matches Some((o, rest)) && o == a && rest.spec_bytes()
                == trimmed.spec_bytes().subrange(a, trimmed.spec_bytes().len() as int),
            None => r is None,
        },
{
    let b = trimmed.as_bytes();
    match def_header_in(b, 0, b.len()) {
        Some(a) => {
            proof {
                lemma_str_valid(trimmed);
                lemma_def_header_boundary(b@, 0, b@.len() as int);
            }
            Some((a, str_slice(trimmed, a, b.len())))
        },
        None => None,
    }
}

/// `def_header_at` on a window of bytes.
pub fn def_header_in(b: &[u8], lo: usize, hi: usize) -> (r: Option<usize>)
    requires
        lo <= hi <= b@.len(),
    ensures
        r == crate::text::opt_usize(def_header_at(b@, lo as int, hi as int)),
        def_header_at(b@, lo as int, hi as int) matches Some(a) ==> lo <= a <= hi,
{
    let def_kw: [u8; 4] = [0x64, 0x65, 0x66, 0x20];
    let wrapped: [u8; 5] = [0x20, 0x64, 0x65, 0x66, 0x20];
    proof {
        assert(def_kw@ =~= pat_def());
        assert(wrapped@ =~= pat_wrapped_def());
    }
    if bytes_match_at(b, lo, hi, def_kw.as_slice()) {
        Some(lo + 4)
    } else {
        match find_bytes(b, lo, hi, wrapped.as_slice()) {
            Some(i) => Some(i + 5),
            None => None,
        }
    }
}

/// The text after a `def` header starts at a boundary.
pub proof fn lemma_def_header_boundary(b: Seq<u8>, lo: int, hi: int)
    requires
        vstd::utf8::valid_utf8(b),
        0 <= lo <= hi <= b.len(),
    ensures
        def_header_at(b, lo, hi) matches Some(a) ==> lo <= a <= hi && is_boundary(b, a),
{
    if matches_at(b, lo, hi, pat_def()) {
        assert(b[lo + 3] == pat_def()[3]);
        lemma_after_ascii(b, lo + 3);
    } else {
        crate::text::lemma_find_range(b, lo, hi, pat_wrapped_def());
        if let Some(i) = find_from(b, lo, hi, pat_wrapped_def()) {
            assert(b[i + 4] == pat_wrapped_def()[4]);
            lemma_after_ascii(b, i + 4);
        }
    }
}

/// Whether line `line` of `lines` is a `def` line, where a signature
/// comment can be inserted.
pub fn source_line_supports_signature_comment_from_lines(lines: &[&str], line: usize) -> (r: bool)
    ensures
        r == (line < lines@.len() && line_supports_signature(line_bytes_of(lines@)[line as int])),
{
    if line >= lines.len() {
        return false;
    }
    let b = lines[line].as_bytes();
    let k = trim_start_idx(b, 0, b.len());
    def_header_in(b, k, b.len()).is_some()
}

/// Whether line `line` of `source` is a `def` line.
pub fn source_line_supports_signature_comment(source: &str, line: usize) -> (r: bool)
    ensures
        r == (line < source_lines(source.spec_bytes()).len() && line_supports_signature(
            source_lines(source.spec_bytes())[line as int],
        )),
{
    let lines = split_source_lines(source);
    source_line_supports_signature_comment_from_lines(lines.as_slice(), line)
}

/// The last non-empty line before `line`, trimmed.
pub fn previous_non_empty_line<'a>(lines: &'a [&'a str], line: usize) -> (r: Option<&'a str>)
    ensures
        match prev_non_empty(line_bytes_of(lines@), line as int) {
            Some(j) => r matches Some(t) && t.spec_bytes() == trimmed(lines@[j].spec_bytes()),
            None => r is None,
        },
{
    let mut l = line;
    while l > 0
        invariant
            l <= line,
            prev_non_empty(line_bytes_of(lines@), l as int) == prev_non_empty(line_bytes_of(lines@), line as int),
        decreases l,
    {
        l = l - 1;
        if l >= lines.len() {
            return None;
        }
        let trimmed = str_trim(lines[l]);
        if crate::text::str_len(trimmed) > 0 {
            return Some(trimmed);
        }
    }
    None
}

} // verus!

verus! {

/// `b` starts with `p`.
pub fn starts_with_bytes(b: &[u8], p: &[u8]) -> (r: bool)
    ensures
        r == has_prefix(b@, p@),
{
    bytes_match_at(b, 0, b.len(), p)
}

/// `b` is exactly `p`.
pub fn equals_bytes(b: &[u8], p: &[u8]) -> (r: bool)
    ensures
        r == (b@ == p@),
{
    if b.len() != p.len() {
        return false;
    }
    let r = bytes_match_at(b, 0, b.len(), p);
    proof {
        if r {
            assert forall|k: int| 0 <= k < b@.len() implies b@[k] == p@[k] by {
                assert(b@[0 + k] == p@[k]);
            }
            assert(b@ =~= p@);
        }
    }
    r
}

/// Whether a trimmed line opens a Sorbet `sig`.
fn is_sig_opener(p: &[u8]) -> (r: bool)
    ensures
        r == sig_opener(p@),
{
    let sig: [u8; 3] = [0x73, 0x69, 0x67];
    let sig_space: [u8; 4] = [0x73, 0x69, 0x67, 0x20];
    let sig_paren: [u8; 4] = [0x73, 0x69, 0x67, 0x28];
    let sig_brace: [u8; 5] = [0x73, 0x69, 0x67, 0x20, 0x7b];
    let sig_do: [u8; 6] = [0x73, 0x69, 0x67, 0x20, 0x64, 0x6f];
    proof {
        assert(sig@ =~= pat_sig());
        assert(sig_space@ =~= pat_sig_space());
        assert(sig_paren@ =~= pat_sig_paren());
        assert(sig_brace@ =~= pat_sig_brace());
        assert(sig_do@ =~= pat_sig_do());
    }
    equals_bytes(p, sig.as_slice()) || starts_with_bytes(p, sig_space.as_slice()) || starts_with_bytes(
        p,
        sig_paren.as_slice(),
    ) || starts_with_bytes(p, sig_brace.as_slice()) || starts_with_bytes(p, sig_do.as_slice())
}

/// Whether line `line` already carries a signature: an inline `#:`
/// annotation, or a `#:` / `# @rbs` comment or Sorbet `sig` on the last
/// non-empty line before it.
pub fn source_line_has_direct_annotation(lines: &[&str], line: usize) -> (r: bool)
    ensures
        r == direct_annotation(line_bytes_of(lines@), line as int),
{
    let hash_colon: [u8; 2] = [0x23, 0x3a];
    let hash_rbs: [u8; 6] = [0x23, 0x20, 0x40, 0x72, 0x62, 0x73];
    let sig: [u8; 3] = [0x73, 0x69, 0x67];
    proof {
        assert(hash_colon@ =~= pat_hash_colon());
        assert(hash_rbs@ =~= pat_hash_rbs());
        assert(sig@ =~= pat_sig());
    }
    let ghost ls = line_bytes_of(lines@);
    proof {
        lemma_prev_range(ls, line as int);
    }
    if line < lines.len() {
        assert(ls[line as int] == lines@[line as int].spec_bytes());
        let current = str_trim(lines[line]).as_bytes();
        if find_bytes(current, 0, current.len(), hash_colon.as_slice()).is_some() {
            return true;
        }
    }
    let previous = match previous_non_empty_line(lines, line) {
        Some(p) => p.as_bytes(),
        None => return false,
    };
    let ghost j = prev_non_empty(line_bytes_of(lines@), line as int)->0;
    assert(ls[j] == lines@[j].spec_bytes());
    if starts_with_bytes(previous, hash_colon.as_slice()) || starts_with_bytes(
        previous,
        hash_rbs.as_slice(),
    ) {
        return true;
    }
    if starts_with_bytes(previous, sig.as_slice()) && is_sig_opener(previous) {
        return true;
    }
    false
}

} // verus!

verus! {

/// Where the method name of a `def` header ends: at whitespace or one of
/// `(`, `;`, `=`, or at `hi`.
pub open spec fn header_end_from(b: Seq<u8>, i: int, hi: int) -> int
    decreases hi - i,
{
    if i >= hi {
        hi
    } else if ws_len_in(b, i, hi) > 0 || b[i] == 0x28 || b[i] == 0x3b || b[i] == 0x3d {
        i
    } else {
        header_end_from(b, i + 1, hi)
    }
}

/// End of `[lo, e)` once trailing `{` are removed (`trim_end_matches('{')`).
pub open spec fn strip_trailing_brace(b: Seq<u8>, lo: int, e: int) -> int
    decreases e - lo,
{
    if e > lo && b[e - 1] == 0x7b {
        strip_trailing_brace(b, lo, e - 1)
    } else {
        e
    }
}

/// For the `def` header of the line `[lo, hi)`: the header start `h`, the
/// receiver-and-name window `[rl, rh)` and the method-name window `[ml, mh)`
/// (the part after the last `.`, trimmed).
pub open spec fn def_method_window(b: Seq<u8>, lo: int, hi: int) -> Option<(int, int, int, int, int)> {
    let k = trim_start_at(b, lo, hi);
    match def_header_at(b, k, hi) {
        None => None,
        Some(a) => {
            let h = trim_start_at(b, a, hi);
            let e0 = strip_trailing_brace(b, h, header_end_from(b, h, hi));
            let rl = trim_start_at(b, h, e0);
            let rh = trim_end_at(b, rl, e0);
            let m0 = match last_index_of_byte(b, rl, rh, 0x2eu8) {
                Some(d) => d + 1,
                None => rl,
            };
            let ml = trim_start_at(b, m0, rh);
            let mh = trim_end_at(b, ml, rh);
            Some((h, rl, rh, ml, mh))
        },
    }
}

/// Last occurrence of the method name `[ml, mh)` in the header `[h, hi)`.
pub open spec fn name_in_header(b: Seq<u8>, h: int, hi: int, ml: int, mh: int) -> Option<int> {
    rfind_upto(b, h, hi - (mh - ml), hi, b.subrange(ml, mh))
}

/// `source_method_identity_from_line`: method-name window, whether the
/// method is a singleton (`def self.x`), and the column of the name.
pub open spec fn method_identity(t: Seq<u8>) -> Option<(int, int, bool, int)> {
    match def_method_window(t, 0, t.len() as int) {
        None => None,
        Some((h, rl, rh, ml, mh)) => if rl == rh || ml == mh {
            None
        } else {
            match name_in_header(t, h, t.len() as int, ml, mh) {
                None => None,
                Some(i) => Some((ml, mh, last_index_of_byte(t, rl, rh, 0x2eu8) is Some, i)),
            }
        },
    }
}

proof fn lemma_header_end(b: Seq<u8>, i: int, hi: int)
    requires
        0 <= i <= hi <= b.len(),
        is_boundary(b, hi),
    ensures
        i <= header_end_from(b, i, hi) <= hi,
        is_boundary(b, header_end_from(b, i, hi)),
    decreases hi - i,
{
    if i < hi && !(ws_len_in(b, i, hi) > 0 || b[i] == 0x28 || b[i] == 0x3b || b[i] == 0x3d) {
        lemma_header_end(b, i + 1, hi);
    }
}

proof fn lemma_strip_brace(b: Seq<u8>, lo: int, e: int)
    requires
        0 <= lo <= e <= b.len(),
        is_boundary(b, e),
    ensures
        lo <= strip_trailing_brace(b, lo, e) <= e,
        is_boundary(b, strip_trailing_brace(b, lo, e)),
    decreases e - lo,
{
    if e > lo && b[e - 1] == 0x7b {
        lemma_strip_brace(b, lo, e - 1);
    }
}

/// All windows of `def_method_window` are ordered, inside the line, and cut at
/// character boundaries.
pub proof fn lemma_def_method_window(b: Seq<u8>, lo: int, hi: int)
    requires
        vstd::utf8::valid_utf8(b),
        0 <= lo <= hi <= b.len(),
        is_boundary(b, lo),
        is_boundary(b, hi),
    ensures
        def_method_window(b, lo, hi) matches Some((h, rl, rh, ml, mh)) ==> {
            &&& lo <= h <= rl <= ml <= mh <= rh <= hi
            &&& is_boundary(b, h)
            &&& is_boundary(b, ml)
            &&& is_boundary(b, mh)
        },
{
    lemma_trim_start_boundary(b, lo, hi);
    let k = trim_start_at(b, lo, hi);
    lemma_def_header_boundary(b, k, hi);
    if let Some(a) = def_header_at(b, k, hi) {
        lemma_trim_start_boundary(b, a, hi);
        let h = trim_start_at(b, a, hi);
        lemma_header_end(b, h, hi);
        let he = header_end_from(b, h, hi);
        lemma_strip_brace(b, h, he);
        let e0 = strip_trailing_brace(b, h, he);
        lemma_trim_start_boundary(b, h, e0);
        let rl = trim_start_at(b, h, e0);
        lemma_trim_end_boundary(b, rl, e0);
        let rh = trim_end_at(b, rl, e0);
        crate::text::lemma_last_index_found(b, rl, rh, 0x2eu8);
        let m0 = match last_index_of_byte(b, rl, rh, 0x2eu8) {
            Some(d) => d + 1,
            None => rl,
        };
        if let Some(d) = last_index_of_byte(b, rl, rh, 0x2eu8) {
            lemma_after_ascii(b, d);
        }
        lemma_trim_start_boundary(b, m0, rh);
        let ml = trim_start_at(b, m0, rh);
        lemma_trim_end_boundary(b, ml, rh);
    }
}

proof fn lemma_header_end_range(b: Seq<u8>, i: int, hi: int)
    requires
        i <= hi,
    ensures
        i <= header_end_from(b, i, hi) <= hi,
    decreases hi - i,
{
    if i < hi && !(ws_len_in(b, i, hi) > 0 || b[i] == 0x28 || b[i] == 0x3b || b[i] == 0x3d) {
        lemma_header_end_range(b, i + 1, hi);
    }
}

/// Every byte before the end of a header's name is neither whitespace nor
/// one of `(`, `;`, `=`.
proof fn lemma_header_end_bytes(b: Seq<u8>, i: int, hi: int)
    requires
        0 <= i <= hi <= b.len(),
    ensures
        forall|k: int|
            i <= k < header_end_from(b, i, hi) ==> !is_ascii_ws(#[trigger] b[k]) && b[k] != 0x28u8 && b[k]
                != 0x3bu8 && b[k] != 0x3du8,
    decreases hi - i,
{
    if i < hi && !(ws_len_in(b, i, hi) > 0 || b[i] == 0x28 || b[i] == 0x3b || b[i] == 0x3d) {
        lemma_header_end_bytes(b, i + 1, hi);
    }
}

/// The header after `def ` starts inside the window.
proof fn lemma_def_header_range(b: Seq<u8>, lo: int, hi: int)
    requires
        0 <= lo <= hi <= b.len(),
    ensures
        def_header_at(b, lo, hi) matches Some(a) ==> lo <= a <= hi,
{
    if !matches_at(b, lo, hi, pat_def()) {
        crate::text::lemma_find_range(b, lo, hi, pat_wrapped_def());
    }
}

/// Trimming leading whitespace stays inside the window.
proof fn lemma_trim_start_range(b: Seq<u8>, i: int, hi: int)
    requires
        i <= hi,
    ensures
        i <= trim_start_at(b, i, hi) <= hi,
    decreases hi - i,
{
    if i < hi && ws_len_in(b, i, hi) > 0 {
        lemma_trim_start_range(b, i + ws_len_in(b, i, hi), hi);
    }
}

/// Trimming trailing whitespace stays inside the window.
proof fn lemma_trim_end_range(b: Seq<u8>, lo: int, e: int)
    requires
        lo <= e,
    ensures
        lo <= trim_end_at(b, lo, e) <= e,
    decreases e - lo,
{
    if lo < e && ws_suffix_in(b, lo, e) > 0 {
        lemma_trim_end_range(b, lo, e - ws_suffix_in(b, lo, e));
    }
}

/// Removing trailing `{` stays inside the window.
proof fn lemma_strip_brace_range(b: Seq<u8>, lo: int, e: int)
    requires
        lo <= e,
    ensures
        lo <= strip_trailing_brace(b, lo, e) <= e,
    decreases e - lo,
{
    if e > lo && b[e - 1] == 0x7b {
        lemma_strip_brace_range(b, lo, e - 1);
    }
}

/// The header's name ends at the window's end or at whitespace, `(`, `;`
/// or `=`.
proof fn lemma_header_end_stop(b: Seq<u8>, i: int, hi: int)
    requires
        0 <= i <= hi <= b.len(),
    ensures
        header_end_from(b, i, hi) == hi || ws_len_in(b, header_end_from(b, i, hi), hi) > 0
            || b[header_end_from(b, i, hi)] == 0x28u8 || b[header_end_from(b, i, hi)] == 0x3bu8
            || b[header_end_from(b, i, hi)] == 0x3du8,
    decreases hi - i,
{
    if i < hi && !(ws_len_in(b, i, hi) > 0 || b[i] == 0x28 || b[i] == 0x3b || b[i] == 0x3d) {
        lemma_header_end_stop(b, i + 1, hi);
    }
}

/// Where removing trailing `{` stops short of the end, a `{` follows.
proof fn lemma_strip_brace_stop(b: Seq<u8>, lo: int, e: int)
    requires
        lo <= e,
    ensures
        strip_trailing_brace(b, lo, e) == e || b[strip_trailing_brace(b, lo, e)] == 0x7bu8,
    decreases e - lo,
{
    if e > lo && b[e - 1] == 0x7b {
        lemma_strip_brace_stop(b, lo, e - 1);
    }
}

/// Where trimming trailing whitespace stops short of the end, whitespace
/// starts there; and where it stops, no whitespace ends.
proof fn lemma_trim_end_stop(b: Seq<u8>, lo: int, e: int, hi: int)
    requires
        0 <= lo <= e <= hi <= b.len(),
    ensures
        trim_end_at(b, lo, e) == e || ws_len_in(b, trim_end_at(b, lo, e), hi) > 0,
        trim_end_at(b, lo, e) == lo || ws_suffix_in(b, lo, trim_end_at(b, lo, e)) == 0,
    decreases e - lo,
{
    if lo < e && ws_suffix_in(b, lo, e) > 0 {
        let s = ws_suffix_in(b, lo, e);
        lemma_trim_end_stop(b, lo, e - s, hi);
        lemma_trim_end_range(b, lo, e - s);
        if trim_end_at(b, lo, e - s) == e - s {
            if s == 1 {
                assert(is_ascii_ws(b[e - 1]));
            } else if s == 2 {
                assert(ws_len_in(b, e - 2, e) == 2);
            } else {
                assert(ws_len_in(b, e - 3, e) == 3);
            }
        }
    }
}

/// A window already trimmed at its end stays as it is when trimmed again
/// from a later start.
proof fn lemma_trim_end_again(b: Seq<u8>, lo: int, lo2: int, e: int)
    requires
        0 <= lo <= e <= b.len(),
        lo <= lo2 <= trim_end_at(b, lo, e),
    ensures
        trim_end_at(b, lo2, trim_end_at(b, lo, e)) == trim_end_at(b, lo, e),
{
    lemma_trim_end_stop(b, lo, e, e);
}

/// The method name read from a `def` line never holds whitespace, `(`, `;`
/// or `=`, and it runs up to the first of them (or a `{`, or the end of the
/// line): so `def foo; end` names `foo` and `def foo(x)` names `foo`. The
/// name lies within the line and after the header's start.
pub proof fn law_def_name_stops_at_separators(b: Seq<u8>, lo: int, hi: int)
    requires
        0 <= lo <= hi <= b.len(),
    ensures
        def_method_window(b, lo, hi) matches Some((h, rl, rh, ml, mh)) ==> {
            &&& lo <= h <= ml <= mh <= hi
            &&& forall|k: int|
                ml <= k < mh ==> !is_ascii_ws(#[trigger] b[k]) && b[k] != 0x28u8 && b[k] != 0x3bu8 && b[k]
                    != 0x3du8
            &&& (mh == hi || ws_len_in(b, mh, hi) > 0 || b[mh] == 0x28u8 || b[mh] == 0x3bu8 || b[mh] == 0x3du8
                || b[mh] == 0x7bu8)
        },
{
    lemma_trim_start_range(b, lo, hi);
    let k = trim_start_at(b, lo, hi);
    if let Some(a) = def_header_at(b, k, hi) {
        lemma_def_header_range(b, k, hi);
        lemma_trim_start_range(b, a, hi);
        let h = trim_start_at(b, a, hi);
        lemma_header_end_range(b, h, hi);
        lemma_header_end_bytes(b, h, hi);
        let he = header_end_from(b, h, hi);
        lemma_strip_brace_range(b, h, he);
        let e0 = strip_trailing_brace(b, h, he);
        lemma_trim_start_range(b, h, e0);
        let rl = trim_start_at(b, h, e0);
        lemma_trim_end_range(b, rl, e0);
        let rh = trim_end_at(b, rl, e0);
        crate::text::lemma_last_index_found(b, rl, rh, 0x2eu8);
        let m0 = match last_index_of_byte(b, rl, rh, 0x2eu8) {
            Some(d) => d + 1,
            None => rl,
        };
        lemma_trim_start_range(b, m0, rh);
        let ml = trim_start_at(b, m0, rh);
        lemma_trim_end_range(b, ml, rh);
        lemma_trim_end_again(b, rl, ml, e0);
        lemma_trim_end_stop(b, rl, e0, hi);
        lemma_strip_brace_stop(b, h, he);
        lemma_header_end_stop(b, h, hi);
    }
}

/// The method name `source_method_identity_from_line` reads is not empty,
/// holds no whitespace, `(`, `;` or `=`, and runs up to the first of them,
/// a `{` or the end of the line.
pub proof fn law_method_identity_name_stops_at_separators(t: Seq<u8>)
    ensures
        method_identity(t) matches Some((ml, mh, singleton, col)) ==> {
            &&& 0 <= ml < mh <= t.len()
            &&& forall|k: int|
                ml <= k < mh ==> !is_ascii_ws(#[trigger] t[k]) && t[k] != 0x28u8 && t[k] != 0x3bu8 && t[k]
                    != 0x3du8
            &&& (mh == t.len() || ws_len_in(t, mh, t.len() as int) > 0 || t[mh] == 0x28u8 || t[mh] == 0x3bu8
                || t[mh] == 0x3du8 || t[mh] == 0x7bu8)
        },
{
    law_def_name_stops_at_separators(t, 0, t.len() as int);
}

/// Exec form of `header_end_from`.
fn header_end(b: &[u8], h: usize, hi: usize) -> (r: usize)
    requires
        h <= hi <= b@.len(),
    ensures
        r == header_end_from(b@, h as int, hi as int),
{
    let mut i = h;
    while i < hi && !(ws_len(b, i, hi) > 0 || b[i] == 0x28 || b[i] == 0x3b || b[i] == 0x3d)
        invariant
            h <= i <= hi <= b@.len(),
            header_end_from(b@, i as int, hi as int) == header_end_from(b@, h as int, hi as int),
        decreases hi - i,
    {
        i = i + 1;
    }
    i
}

/// Exec form of `def_method_window`.
pub(crate) fn def_method_window_in(b: &[u8], lo: usize, hi: usize) -> (r: Option<(usize, usize, usize, usize, usize)>)
    requires
        lo <= hi <= b@.len(),
    ensures
        match def_method_window(b@, lo as int, hi as int) {
            Some((h, rl, rh, ml, mh)) => r == Some((h as usize, rl as usize, rh as usize, ml as usize, mh as usize)),
            None => r is None,
        },
        def_method_window(b@, lo as int, hi as int) matches Some((h, rl, rh, ml, mh)) ==> lo
            <= trim_start_at(b@, lo as int, hi as int) <= h <= rl <= ml <= mh <= rh <= hi,
{
    let k = trim_start_idx(b, lo, hi);
    let a = match def_header_in(b, k, hi) {
        Some(a) => a,
        None => return None,
    };
    let h = trim_start_idx(b, a, hi);
    let he = header_end(b, h, hi);
    proof {
        lemma_header_end_range(b@, h as int, hi as int);
    }
    let mut e0 = he;
    while e0 > h && b[e0 - 1] == 0x7b
        invariant
            h <= e0 <= he <= hi <= b@.len(),
            strip_trailing_brace(b@, h as int, e0 as int) == strip_trailing_brace(b@, h as int, he as int),
        decreases e0,
    {
        e0 = e0 - 1;
    }
    let rl = trim_start_idx(b, h, e0);
    let rh = crate::text::trim_end_idx(b, rl, e0);
    let m0 = match crate::text::last_index_of(b, rl, rh, 0x2e) {
        Some(d) => d + 1,
        None => rl,
    };
    let ml = trim_start_idx(b, m0, rh);
    let mh = crate::text::trim_end_idx(b, ml, rh);
    Some((h, rl, rh, ml, mh))
}

/// The method name, singleton flag (`def self.x`) and 0-based column of the
/// name on a `def` line.
pub fn source_method_identity_from_line(line_text: &str) -> (r: Option<(String, bool, u32)>)
    requires
        line_text.spec_bytes().len() <= u32::MAX,
    ensures
        match method_identity(line_text.spec_bytes()) {
            Some((ml, mh, singleton, col)) => r matches Some((name, s, c)) && crate::text::bytes_of(
                name,
            ) == line_text.spec_bytes().subrange(ml, mh) && s == singleton && c == col,
            None => r is None,
        },
{
    let b = line_text.as_bytes();
    let n = b.len();
    proof {
        lemma_str_valid(line_text);
        lemma_def_method_window(b@, 0, n as int);
    }
    let (h, rl, rh, ml, mh) = match def_method_window_in(b, 0, n) {
        Some(w) => w,
        None => return None,
    };
    if rl == rh || ml == mh {
        return None;
    }
    let name = vstd::slice::slice_subrange(b, ml, mh);
    let i = match crate::text::rfind_bytes(b, h, n, name) {
        Some(i) => i,
        None => return None,
    };
    let k = trim_start_idx(b, 0, n);
    let indent = k as u32;
    let header_offset = (h - k) as u32;
    let method_offset_in_header = (i - h) as u32;
    let method_column = indent + header_offset + method_offset_in_header;
    let is_singleton = crate::text::last_index_of(b, rl, rh, 0x2e).is_some();
    let method_name = crate::text::to_string_of(str_slice(line_text, ml, mh));
    Some((method_name, is_singleton, method_column))
}

} // verus!

verus! {

/// A 1-based line and 0-based byte column in a source file.
#[derive(Clone, Copy, Debug, PartialEq, Eq, Structural)]
pub struct SourceLocation {
    pub line: u32,
    pub column: u32,
}

/// What the code-lens logic reads of a method signature: its name, whether
/// it is a singleton method, where it is defined, and where its types come
/// from.
#[derive(Clone, Debug)]
pub struct MethodSig {
    pub name: String,
    pub is_singleton: bool,
    pub loc: Option<SourceLocation>,
    pub rbs_annotated: bool,
    pub rbs_inline_annotated: bool,
    pub sig_annotated: bool,
    pub rbs_file_source: bool,
    pub synthetic_dsl_source: bool,
    pub is_private: bool,
}

/// The fallback entry for line `i`: an uncovered, unannotated `def` line
/// whose method name can be read, as (name, singleton, column).
pub open spec fn fallback_entry(ls: Seq<Seq<u8>>, covered: Set<usize>, i: int) -> Option<(Seq<u8>, bool, int)> {
    if covered.contains(i as usize) || !line_supports_signature(ls[i]) || direct_annotation(ls, i) {
        None
    } else {
        match method_identity(ls[i]) {
            Some((ml, mh, singleton, col)) => Some((ls[i].subrange(ml, mh), singleton, col)),
            None => None,
        }
    }
}

/// The fallback entries of the first `n` lines, each with its 1-based line.
pub open spec fn fallback_entries(ls: Seq<Seq<u8>>, covered: Set<usize>, n: int) -> Seq<(Seq<u8>, bool, int, int)>
    decreases n,
{
    if n <= 0 {
        seq![]
    } else {
        fallback_entries(ls, covered, n - 1) + match fallback_entry(ls, covered, n - 1) {
            Some((name, singleton, col)) => seq![(name, singleton, col, n)],
            None => seq![],
        }
    }
}

/// A fallback signature as the code-lens logic sees it.
pub open spec fn fallback_sig_matches(sig: MethodSig, e: (Seq<u8>, bool, int, int)) -> bool {
    &&& crate::text::bytes_of(sig.name) == e.0
    &&& sig.is_singleton == e.1
    &&& sig.loc == Some(SourceLocation { line: e.3 as u32, column: e.2 as u32 })
    &&& !sig.rbs_annotated && !sig.rbs_inline_annotated && !sig.sig_annotated
    &&& !sig.rbs_file_source && !sig.synthetic_dsl_source && !sig.is_private
}

pub proof fn lemma_spans_bounds(b: Seq<u8>, s: int)
    requires
        0 <= s,
    ensures
        forall|i: int|
            0 <= i < line_spans(b, s).len() ==> s <= #[trigger] line_spans(b, s)[i].0 <= line_spans(
                b,
                s,
            )[i].1 <= b.len(),
    decreases b.len() + 1 - s,
{
    if s < b.len() {
        crate::text::lemma_index_of_range(b, s, b.len() as int, 0x0au8);
        let e = index_of_byte(b, s, b.len() as int, 0x0au8);
        lemma_spans_bounds(b, e + 1);
        assert forall|i: int| 0 <= i < line_spans(b, s).len() implies s <= #[trigger] line_spans(
            b,
            s,
        )[i].0 <= line_spans(b, s)[i].1 <= b.len() by {
            if i > 0 {
                assert(line_spans(b, s)[i] == line_spans(b, e + 1)[i - 1]);
            }
        }
    }
}

proof fn lemma_lines_count(b: Seq<u8>, s: int)
    requires
        0 <= s,
    ensures
        line_spans(b, s).len() <= if s < b.len() {
            b.len() - s
        } else {
            0
        },
    decreases b.len() + 1 - s,
{
    if s < b.len() {
        crate::text::lemma_index_of_range(b, s, b.len() as int, 0x0au8);
        let e = index_of_byte(b, s, b.len() as int, 0x0au8);
        lemma_lines_count(b, e + 1);
    }
}

/// `fallback_entry` for line `idx` of `lines`.
fn fallback_entry_at(
    lines: &[&str],
    covered_lines: &std::collections::HashSet<usize>,
    idx: usize,
) -> (r: Option<(String, bool, u32)>)
    requires
        idx < lines@.len(),
        lines@[idx as int].spec_bytes().len() <= u32::MAX,
    ensures
        match fallback_entry(line_bytes_of(lines@), covered_lines@, idx as int) {
            Some((name, singleton, col)) => r matches Some((n, s, c)) && crate::text::bytes_of(n)
                == name && s == singleton && c == col,
            None => r is None,
        },
{
    broadcast use vstd::std_specs::hash::group_hash_axioms;

    proof {
        assert(line_bytes_of(lines@)[idx as int] == lines@[idx as int].spec_bytes());
    }
    if covered_lines.contains(&idx) {
        return None;
    }
    if !source_line_supports_signature_comment_from_lines(lines, idx) {
        return None;
    }
    if source_line_has_direct_annotation(lines, idx) {
        return None;
    }
    source_method_identity_from_line(lines[idx])
}

/// Signatures for the `def` lines that no analysed method covers and that
/// carry no annotation, read from the source text alone: name, singleton
/// flag and position of each, with no types.
pub fn fallback_code_lens_methods_from_source(
    source: &str,
    covered_lines: &std::collections::HashSet<usize>,
) -> (r: Vec<(String, MethodSig)>)
    requires
        source.spec_bytes().len() < u32::MAX,
    ensures
        r@.len() == fallback_entries(
            source_lines(source.spec_bytes()),
            covered_lines@,
            source_lines(source.spec_bytes()).len() as int,
        ).len(),
        forall|i: int|
            0 <= i < r@.len() ==> crate::text::bytes_of(#[trigger] r@[i].0).len() == 0
                && fallback_sig_matches(
                r@[i].1,
                fallback_entries(
                    source_lines(source.spec_bytes()),
                    covered_lines@,
                    source_lines(source.spec_bytes()).len() as int,
                )[i],
            ),
{
    let lines = split_source_lines(source);
    let ghost ls = source_lines(source.spec_bytes());
    proof {
        lemma_lines_count(source.spec_bytes(), 0);
        lemma_spans_bounds(source.spec_bytes(), 0);
    }
    let mut out: Vec<(String, MethodSig)> = Vec::new();
    let mut idx: usize = 0;
    while idx < lines.len()
        invariant
            idx <= lines@.len(),
            line_bytes_of(lines@) == ls,
            ls == source_lines(source.spec_bytes()),
            lines@.len() == ls.len(),
            ls.len() < u32::MAX,
            forall|i: int| 0 <= i < ls.len() ==> #[trigger] ls[i].len() <= source.spec_bytes().len(),
            source.spec_bytes().len() < u32::MAX,
            out@.len() == fallback_entries(ls, covered_lines@, idx as int).len(),
            forall|i: int|
                0 <= i < out@.len() ==> crate::text::bytes_of(#[trigger] out@[i].0).len() == 0
                    && fallback_sig_matches(
                    out@[i].1,
                    fallback_entries(ls, covered_lines@, idx as int)[i],
                ),
        decreases lines@.len() - idx,
    {
        let ghost prev = fallback_entries(ls, covered_lines@, idx as int);
        proof {
            assert(ls[idx as int] == lines@[idx as int].spec_bytes());
        }
        let entry = fallback_entry_at(lines.as_slice(), covered_lines, idx);
        let ghost old_out = out@;
        if let Some((method_name, is_singleton, def_column)) = entry {
            let sig = MethodSig {
                name: method_name,
                is_singleton,
                loc: Some(SourceLocation { line: idx as u32 + 1, column: def_column }),
                rbs_annotated: false,
                rbs_inline_annotated: false,
                sig_annotated: false,
                rbs_file_source: false,
                synthetic_dsl_source: false,
                is_private: false,
            };
            out.push((String::new(), sig));
        }
        idx = idx + 1;
        proof {
            let next = fallback_entries(ls, covered_lines@, idx as int);
            assert(next.take(prev.len() as int) =~= prev);
            assert forall|i: int| 0 <= i < out@.len() implies crate::text::bytes_of(
                #[trigger] out@[i].0,
            ).len() == 0 && fallback_sig_matches(out@[i].1, next[i]) by {
                if i < old_out.len() {
                    assert(out@[i] == old_out[i]);
                    assert(next[i] == prev[i]);
                    assert(crate::text::bytes_of(old_out[i].0).len() == 0);
                    assert(fallback_sig_matches(old_out[i].1, prev[i]));
                } else {
                    assert(crate::text::bytes_of(out@[i].0) =~= Seq::<u8>::empty());
                    let e = fallback_entry(ls, covered_lines@, idx - 1)->0;
                    assert(next == prev + seq![(e.0, e.1, e.2, idx as int)]);
                    assert(next[i] == (e.0, e.1, e.2, idx as int));
                }
            }
        }
    }
    proof {
        assert(idx as int == ls.len());
        let all = fallback_entries(ls, covered_lines@, ls.len() as int);
        assert forall|i: int| 0 <= i < out@.len() implies crate::text::bytes_of(
            #[trigger] out@[i].0,
        ).len() == 0 && fallback_sig_matches(out@[i].1, all[i]) by {}
    }
    out
}

/// Keeps a fallback entry whose 1-based line is not in `covered` (a set of
/// 0-based lines).
pub open spec fn line_not_covered(covered: Set<usize>) -> spec_fn((Seq<u8>, bool, int, int)) -> bool {
    |e: (Seq<u8>, bool, int, int)| !covered.contains((e.3 - 1) as usize)
}

/// The fallback lenses for a set of covered lines are those with no line
/// covered, each line's entry filtered out when an analysed method covers
/// it; the entries run down the source, one per line at most, each on a
/// line between 1 and the number of lines read.
pub proof fn law_fallback_lenses_skip_covered_lines(ls: Seq<Seq<u8>>, covered: Set<usize>, n: int)
    requires
        0 <= n,
    ensures
        fallback_entries(ls, covered, n) == fallback_entries(ls, Set::<usize>::empty(), n).filter(
            line_not_covered(covered),
        ),
        forall|i: int|
            0 <= i < fallback_entries(ls, covered, n).len() ==> 1 <= #[trigger] fallback_entries(
                ls,
                covered,
                n,
            )[i].3 <= n,
        forall|i: int, j: int|
            0 <= i < j < fallback_entries(ls, covered, n).len() ==> #[trigger] fallback_entries(
                ls,
                covered,
                n,
            )[i].3 < #[trigger] fallback_entries(ls, covered, n)[j].3,
    decreases n,
{
    let keep = line_not_covered(covered);
    if n > 0 {
        law_fallback_lenses_skip_covered_lines(ls, covered, n - 1);
        let prev_c = fallback_entries(ls, covered, n - 1);
        let prev_e = fallback_entries(ls, Set::<usize>::empty(), n - 1);
        let tail_c = match fallback_entry(ls, covered, n - 1) {
            Some((name, singleton, col)) => seq![(name, singleton, col, n)],
            None => seq![],
        };
        let tail_e = match fallback_entry(ls, Set::<usize>::empty(), n - 1) {
            Some((name, singleton, col)) => seq![(name, singleton, col, n)],
            None => seq![],
        };
        assert(fallback_entries(ls, covered, n) == prev_c + tail_c);
        assert(fallback_entries(ls, Set::<usize>::empty(), n) == prev_e + tail_e);
        Seq::filter_distributes_over_add(prev_e, tail_e, keep);
        assert(tail_e.filter(keep) == tail_c) by {
            reveal_with_fuel(Seq::filter, 2);
            if tail_e.len() == 1 {
                assert(tail_e.drop_last() =~= Seq::<(Seq<u8>, bool, int, int)>::empty());
                assert(tail_e.last().3 - 1 == n - 1);
            }
        }
        let all = prev_c + tail_c;
        assert forall|i: int| 0 <= i < all.len() implies 1 <= #[trigger] all[i].3 <= n by {
            if i < prev_c.len() {
                assert(all[i] == prev_c[i]);
            }
        }
        assert forall|i: int, j: int| 0 <= i < j < all.len() implies #[trigger] all[i].3 < #[trigger] all[j].3 by {
            assert(all[i] == prev_c[i]);
            if j < prev_c.len() {
                assert(all[j] == prev_c[j]);
            }
        }
    } else {
        reveal(Seq::filter);
    }
}

/// The last non-empty line before `line`, trimmed, or the empty text.
pub open spec fn previous_trimmed(ls: Seq<Seq<u8>>, line: int) -> Seq<u8> {
    match prev_non_empty(ls, line) {
        Some(j) => trimmed(ls[j]),
        None => seq![],
    }
}

/// A line carries a signature exactly when it holds `#:` itself, or the last
/// non-empty line before it starts with `#:` or `# @rbs`, or is `sig`, or
/// starts with `sig `, `sig(`, `sig {` or `sig do`. In particular a line
/// after a plain line (one that starts neither with `#` nor with `sig`), an
/// `end`, or nothing at all (the first line, or a line past the end) is not
/// annotated.
pub proof fn law_direct_annotation_reads_the_previous_line(ls: Seq<Seq<u8>>, line: int)
    ensures
        direct_annotation(ls, line) <==> {
            let p = previous_trimmed(ls, line);
            ||| (0 <= line < ls.len() && find_from(trimmed(ls[line]), 0, trimmed(ls[line]).len() as int, pat_hash_colon()) is Some)
            ||| has_prefix(p, pat_hash_colon())
            ||| has_prefix(p, pat_hash_rbs())
            ||| p == pat_sig()
            ||| has_prefix(p, pat_sig_space())
            ||| has_prefix(p, pat_sig_paren())
            ||| has_prefix(p, pat_sig_brace())
            ||| has_prefix(p, pat_sig_do())
        },
{
    let p = previous_trimmed(ls, line);
    if p == pat_sig() {
        assert(has_prefix(p, pat_sig()));
    }
    if has_prefix(p, pat_sig_space()) || has_prefix(p, pat_sig_paren()) || has_prefix(p, pat_sig_brace())
        || has_prefix(p, pat_sig_do()) {
        assert forall|k: int| 0 <= k < 3 implies #[trigger] p[0 + k] == pat_sig()[k] by {
            if has_prefix(p, pat_sig_space()) {
                assert(p[0 + k] == pat_sig_space()[k]);
            } else if has_prefix(p, pat_sig_paren()) {
                assert(p[0 + k] == pat_sig_paren()[k]);
            } else if has_prefix(p, pat_sig_brace()) {
                assert(p[0 + k] == pat_sig_brace()[k]);
            } else {
                assert(p[0 + k] == pat_sig_do()[k]);
            }
        }
        assert(has_prefix(p, pat_sig()));
    }
}

/// Keeps a fallback lens whose 1-based line is not in `covered` (0-based
/// lines), as the server filters the lenses of a source.
pub open spec fn lens_line_not_covered(covered: Set<usize>) -> spec_fn((String, MethodSig)) -> bool {
    |e: (String, MethodSig)| match e.1.loc {
        Some(l) => !covered.contains((l.line - 1) as usize),
        None => true,
    }
}

/// Two signatures say the same: the same name text, place and flags.
pub open spec fn same_signature(x: MethodSig, y: MethodSig) -> bool {
    &&& x.name@ == y.name@
    &&& x.is_singleton == y.is_singleton
    &&& x.loc == y.loc
    &&& x.rbs_annotated == y.rbs_annotated
    &&& x.rbs_inline_annotated == y.rbs_inline_annotated
    &&& x.sig_annotated == y.sig_annotated
    &&& x.rbs_file_source == y.rbs_file_source
    &&& x.synthetic_dsl_source == y.synthetic_dsl_source
    &&& x.is_private == y.is_private
}

/// What `fallback_code_lens_methods_from_source` promises of its result for
/// a source and a covered set.
pub open spec fn fallback_result(
    r: Seq<(String, MethodSig)>,
    b: Seq<u8>,
    covered: Set<usize>,
) -> bool {
    let es = fallback_entries(source_lines(b), covered, source_lines(b).len() as int);
    &&& r.len() == es.len()
    &&& forall|i: int| 0 <= i < r.len() ==> fallback_sig_matches(#[trigger] r[i].1, es[i])
}

/// Filtering two lists that correspond element by element, with filters
/// that agree on corresponding elements, keeps them in correspondence.
proof fn lemma_filter_pointwise(
    xs: Seq<(String, MethodSig)>,
    ys: Seq<(Seq<u8>, bool, int, int)>,
    p: spec_fn((String, MethodSig)) -> bool,
    q: spec_fn((Seq<u8>, bool, int, int)) -> bool,
)
    requires
        xs.len() == ys.len(),
        forall|i: int| 0 <= i < xs.len() ==> fallback_sig_matches(#[trigger] xs[i].1, ys[i]) && p(xs[i]) == q(ys[i]),
    ensures
        xs.filter(p).len() == ys.filter(q).len(),
        forall|i: int| 0 <= i < xs.filter(p).len() ==> fallback_sig_matches(#[trigger] xs.filter(p)[i].1, ys.filter(q)[i]),
    decreases xs.len(),
{
    reveal(Seq::filter);
    if xs.len() > 0 {
        let xd = xs.drop_last();
        let yd = ys.drop_last();
        assert forall|i: int| 0 <= i < xd.len() implies fallback_sig_matches(#[trigger] xd[i].1, yd[i]) && p(xd[i]) == q(yd[i]) by {
            assert(xd[i] == xs[i] && yd[i] == ys[i]);
        }
        lemma_filter_pointwise(xd, yd, p, q);
        assert(fallback_sig_matches(xs[xs.len() - 1].1, ys[ys.len() - 1]));
        assert(p(xs.last()) == q(ys.last())) by {
            assert(xs.last() == xs[xs.len() - 1]);
            assert(ys.last() == ys[ys.len() - 1]);
        }
    }
}

/// The fallback lenses for a set of covered lines are the lenses for no
/// covered line, less those on a covered line (the line before the lens's
/// 1-based line), in the same order and with the same signatures; each sits
/// on a line from 1 on, and lines strictly increase along the result.
pub proof fn law_fallback_results_skip_covered_lines(
    b: Seq<u8>,
    covered: Set<usize>,
    all: Seq<(String, MethodSig)>,
    some: Seq<(String, MethodSig)>,
)
    requires
        fallback_result(all, b, Set::<usize>::empty()),
        fallback_result(some, b, covered),
        b.len() < u32::MAX,
    ensures
        some.len() == all.filter(lens_line_not_covered(covered)).len(),
        forall|i: int|
            0 <= i < some.len() ==> same_signature(
                #[trigger] some[i].1,
                all.filter(lens_line_not_covered(covered))[i].1,
            ),
        forall|i: int| 0 <= i < some.len() ==> ((#[trigger] some[i].1).loc matches Some(l) && l.line >= 1),
        forall|i: int, j: int|
            0 <= i < j < some.len() ==> (#[trigger] some[i].1).loc.unwrap().line < (#[trigger] some[j].1).loc.unwrap().line,
{
    let ls = source_lines(b);
    let n = ls.len() as int;
    lemma_lines_count(b, 0);
    let e0 = fallback_entries(ls, Set::<usize>::empty(), n);
    let ec = fallback_entries(ls, covered, n);
    law_fallback_lenses_skip_covered_lines(ls, covered, n);
    law_fallback_lenses_skip_covered_lines(ls, Set::<usize>::empty(), n);
    let keep = lens_line_not_covered(covered);
    let nc = line_not_covered(covered);
    assert forall|i: int| 0 <= i < all.len() implies fallback_sig_matches(#[trigger] all[i].1, e0[i]) && keep(all[i]) == nc(e0[i]) by {
        assert(fallback_sig_matches(all[i].1, e0[i]));
        assert(1 <= e0[i].3 <= n);
    }
    lemma_filter_pointwise(all, e0, keep, nc);
    let af = all.filter(keep);
    assert forall|i: int| 0 <= i < some.len() implies same_signature(#[trigger] some[i].1, af[i].1) by {
        assert(fallback_sig_matches(some[i].1, ec[i]));
        assert(fallback_sig_matches(af[i].1, ec[i]));
        vstd::utf8::encode_utf8_decode_utf8(some[i].1.name@);
        vstd::utf8::encode_utf8_decode_utf8(af[i].1.name@);
    }
    assert forall|i: int| 0 <= i < some.len() implies ((#[trigger] some[i].1).loc matches Some(l) && l.line >= 1) by {
        assert(fallback_sig_matches(some[i].1, ec[i]));
        assert(1 <= ec[i].3 <= n);
    }
    assert forall|i: int, j: int| 0 <= i < j < some.len() implies (#[trigger] some[i].1).loc.unwrap().line < (
    #[trigger] some[j].1).loc.unwrap().line by {
        assert(fallback_sig_matches(some[i].1, ec[i]));
        assert(fallback_sig_matches(some[j].1, ec[j]));
        assert(1 <= ec[i].3 <= n && 1 <= ec[j].3 <= n);
        assert(ec[i].3 < ec[j].3);
    }
}

} // verus!
