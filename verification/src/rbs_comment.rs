//! Type names referenced from RBS comments (`#: -> Foo::Bar`, `# @rbs x:
//! Baz`), for go-to-type-definition from inside a comment.

use vstd::prelude::*;
use vstd::string::*;
use crate::text::{bytes_of, index_of, index_of_byte, is_boundary, matches_at, trim_start_at, trim_start_idx, bytes_match_at, lemma_str_valid, lemma_after_ascii, str_slice, to_string_of, opt_bytes, last_index_of};
use crate::completion_context::{CharClass, in_class, run_start, run_end, run_start_idx, run_end_idx, is_constant_path_char, segments_valid, constant_segments_valid, class_context_of, is_ruby_constant_path_char};
use crate::position::{line_start_before, line_end, byte_is_boundary, NEWLINE};

verus! {

broadcast use vstd::seq_lib::group_seq_properties;

/// `@rbs`
pub open spec fn pat_at_rbs() -> Seq<u8> {
    seq![0x40u8, 0x72u8, 0x62u8, 0x73u8]
}

/// The first `#:` or `#|` marker of `t` at or after `i`.
pub open spec fn first_marker(t: Seq<u8>, i: int) -> Option<int>
    decreases t.len() - i,
{
    if i < 0 || i + 2 > t.len() {
        None
    } else if t[i] == 0x23 && (t[i + 1] == 0x3a || t[i + 1] == 0x7c) {
        Some(i)
    } else {
        first_marker(t, i + 1)
    }
}

/// Where the body of an RBS comment on the line `t` starts: after the first
/// `#:` or `#|`, or else after `@rbs` when it follows the first `#` and
/// whitespace.
pub open spec fn rbs_body_start(t: Seq<u8>) -> Option<int> {
    match first_marker(t, 0) {
        Some(m) => Some(m + 2),
        None => {
            let h = index_of_byte(t, 0, t.len() as int, 0x23u8);
            if h >= t.len() {
                None
            } else {
                let ms = trim_start_at(t, h + 1, t.len() as int);
                if matches_at(t, ms, t.len() as int, pat_at_rbs()) {
                    Some(ms + 4)
                } else {
                    None
                }
            }
        },
    }
}

/// The byte of the constant path under or just before `off` in `t`.
pub open spec fn token_cursor(t: Seq<u8>, off: int) -> Option<int> {
    let c = if off < t.len() {
        off
    } else {
        t.len() as int
    };
    if c < t.len() && is_constant_path_char(t[c]) {
        Some(c)
    } else if c > 0 && is_constant_path_char(t[c - 1]) {
        Some(c - 1)
    } else {
        None
    }
}

/// The maximal run of constant-path bytes around `off` in `t`.
pub open spec fn token_span(t: Seq<u8>, off: int) -> Option<(int, int)> {
    match token_cursor(t, off) {
        None => None,
        Some(c) => {
            let s = run_start(t, 0, c, CharClass::ConstantPath);
            let e = run_end(t, c, t.len() as int, CharClass::ConstantPath);
            if s < e {
                Some((s, e))
            } else {
                None
            }
        },
    }
}

/// `normalize_rbs_type_name_token`: a token is a type name when, after an
/// optional leading `::` (not `:::`), it is a non-empty `::`-separated path
/// of constant names; the token is kept as written.
pub open spec fn rbs_type_name(t: Seq<u8>) -> Option<Seq<u8>> {
    let anchored = t.len() >= 2 && t[0] == 0x3a && t[1] == 0x3a;
    if anchored && t.len() >= 3 && t[2] == 0x3a {
        None
    } else {
        let body = if anchored {
            t.skip(2)
        } else {
            t
        };
        if body.len() == 0 || (body.len() >= 2 && body[body.len() - 2] == 0x3a && body[body.len()
            - 1] == 0x3a) {
            None
        } else if segments_valid(body) {
            Some(t)
        } else {
            None
        }
    }
}

/// The first `#:`/`#|` marker at or after `i`.
fn first_marker_from(t: &[u8], i: usize) -> (r: Option<usize>)
    ensures
        match first_marker(t@, i as int) {
            Some(m) => r == Some(m as usize) && i <= m && m + 2 <= t@.len(),
            None => r is None,
        },
{
    let mut k = i;
    while k < t.len() && t.len() - k >= 2
        invariant
            i <= k,
            first_marker(t@, k as int) == first_marker(t@, i as int),
        decreases t@.len() - k,
    {
        if t[k] == 0x23 && (t[k + 1] == 0x3a || t[k + 1] == 0x7c) {
            return Some(k);
        }
        k = k + 1;
    }
    None
}

/// Where the body of an RBS comment on `line` starts, if the line has one.
pub fn rbs_comment_body_start(line: &str) -> (r: Option<usize>)
    ensures
        r == crate::text::opt_usize(rbs_body_start(line.spec_bytes())),
        rbs_body_start(line.spec_bytes()) matches Some(s) ==> 0 <= s <= line.spec_bytes().len(),
{
    let t = line.as_bytes();
    let at_rbs: [u8; 4] = [0x40, 0x72, 0x62, 0x73];
    proof {
        assert(at_rbs@ =~= pat_at_rbs());
    }
    let n = t.len();
    if let Some(m) = first_marker_from(t, 0) {
        return Some(m + 2);
    }
    let h = index_of(t, 0, t.len(), 0x23);
    if h >= t.len() {
        return None;
    }
    let ms = trim_start_idx(t, h + 1, t.len());
    if bytes_match_at(t, ms, t.len(), at_rbs.as_slice()) {
        Some(ms + 4)
    } else {
        None
    }
}

/// The span of the constant path under or just before `local_offset`.
pub fn constant_path_token_span(bytes: &[u8], local_offset: usize) -> (r: Option<(usize, usize)>)
    ensures
        match token_span(bytes@, local_offset as int) {
            Some((s, e)) => r == Some((s as usize, e as usize)) && 0 <= s < e <= bytes@.len(),
            None => r is None,
        },
{
    let n = bytes.len();
    let c0 = if local_offset < n {
        local_offset
    } else {
        n
    };
    let cursor = if c0 < n && is_ruby_constant_path_char(bytes[c0]) {
        c0
    } else if c0 > 0 && is_ruby_constant_path_char(bytes[c0 - 1]) {
        c0 - 1
    } else {
        return None;
    };
    let start = run_start_idx(bytes, 0, cursor, CharClass::ConstantPath);
    let end = run_end_idx(bytes, cursor, n, CharClass::ConstantPath);
    if start < end {
        Some((start, end))
    } else {
        None
    }
}

/// The token kept as written when it names a type, else `None`.
pub fn normalize_rbs_type_name_token(token: &str) -> (r: Option<String>)
    ensures
        opt_bytes(r) == rbs_type_name(token.spec_bytes()),
{
    let t = token.as_bytes();
    let n = t.len();
    let anchored = n >= 2 && t[0] == 0x3a && t[1] == 0x3a;
    if anchored && n >= 3 && t[2] == 0x3a {
        return None;
    }
    let body_start: usize = if anchored {
        2
    } else {
        0
    };
    let body = vstd::slice::slice_subrange(t, body_start, n);
    proof {
        assert(body@ =~= if anchored {
            t@.skip(2)
        } else {
            t@
        });
    }
    let bl = body.len();
    if bl == 0 || (bl >= 2 && body[bl - 2] == 0x3a && body[bl - 1] == 0x3a) {
        return None;
    }
    if constant_segments_valid(body) {
        Some(to_string_of(token))
    } else {
        None
    }
}

/// A run start below `i` holds a byte of the class, and so does every byte
/// of the run.
proof fn lemma_run_start_class(b: Seq<u8>, lo: int, i: int, c: CharClass)
    requires
        0 <= lo <= i <= b.len(),
    ensures
        lo <= run_start(b, lo, i, c) <= i,
        forall|k: int| run_start(b, lo, i, c) <= k < i ==> #[trigger] in_class(c, b[k]),
    decreases i - lo,
{
    if i > lo && in_class(c, b[i - 1]) {
        lemma_run_start_class(b, lo, i - 1, c);
    }
}

/// Every byte of a forward run belongs to the class.
proof fn lemma_run_end_class(b: Seq<u8>, i: int, hi: int, c: CharClass)
    requires
        0 <= i <= hi <= b.len(),
    ensures
        i <= run_end(b, i, hi, c) <= hi,
        (i < hi && in_class(c, b[i])) ==> run_end(b, i, hi, c) > i,
        forall|k: int| i <= k < run_end(b, i, hi, c) ==> #[trigger] in_class(c, b[k]),
    decreases hi - i,
{
    if i < hi && in_class(c, b[i]) {
        lemma_run_end_class(b, i + 1, hi, c);
    }
}

/// A type referenced from an RBS comment, with the class or module the
/// comment sits in.
#[derive(Debug)]
pub struct RbsCommentTypeDefinitionContext {
    pub referenced_type: String,
    pub class_context: String,
}

/// The span, in the whole text, of the type-name token at `off` inside the
/// body of an RBS comment on the line holding `off`.
pub open spec fn rbs_type_token_at(b: Seq<u8>, off: int) -> Option<(int, int)> {
    if off > b.len() {
        None
    } else {
        let ls = line_start_before(b, off);
        let le = line_end(b, off);
        if !is_boundary(b, ls) || !is_boundary(b, off) || !is_boundary(b, le) {
            None
        } else {
            let line = b.subrange(ls, le);
            match rbs_body_start(line) {
                None => None,
                Some(bs) => if off - ls < bs {
                    None
                } else {
                    match token_span(line, off - ls) {
                        None => None,
                        Some((ts, te)) => if ts < bs {
                            None
                        } else {
                            Some((ls + ts, ls + te))
                        },
                    }
                },
            }
        }
    }
}

/// A token span of a line holds constant-path bytes at its first and last
/// position.
proof fn lemma_token_span_ends(line: Seq<u8>, off: int)
    requires
        0 <= off,
        token_span(line, off) is Some,
    ensures
        ({
            let (ts, te) = token_span(line, off)->0;
            &&& 0 <= ts < te <= line.len()
            &&& in_class(CharClass::ConstantPath, line[ts])
            &&& in_class(CharClass::ConstantPath, line[te - 1])
        }),
{
    let c = token_cursor(line, off)->0;
    lemma_run_start_class(line, 0, c, CharClass::ConstantPath);
    lemma_run_end_class(line, c, line.len() as int, CharClass::ConstantPath);
}

/// The type-name token of a line of valid UTF-8 is cut at character
/// boundaries of the whole text.
proof fn lemma_token_boundaries(b: Seq<u8>, line: Seq<u8>, ls: int, le: int, off: int)
    requires
        vstd::utf8::valid_utf8(b),
        0 <= ls <= le <= b.len(),
        line == b.subrange(ls, le),
        0 <= off,
        token_span(line, off) is Some,
    ensures
        ({
            let (ts, te) = token_span(line, off)->0;
            &&& 0 <= ts < te <= le - ls
            &&& is_boundary(b, ls + ts)
            &&& is_boundary(b, ls + te)
        }),
{
    lemma_token_span_ends(line, off);
    let (ts, te) = token_span(line, off)->0;
    assert(b[ls + ts] == line[ts]);
    assert(b[ls + te - 1] == line[te - 1]);
    lemma_after_ascii(b, ls + te - 1);
}

/// The span of `rbs_type_token_at`, cut at character boundaries.
fn rbs_type_token_span(source: &str, byte_offset: usize) -> (r: Option<(usize, usize)>)
    ensures
        match rbs_type_token_at(source.spec_bytes(), byte_offset as int) {
            None => r is None,
            Some((ts, te)) => r matches Some((a, z)) && a == ts && z == te && 0 <= ts <= te
                <= source.spec_bytes().len() && is_boundary(source.spec_bytes(), ts)
                && is_boundary(source.spec_bytes(), te),
        },
{
    let bytes = source.as_bytes();
    let n = bytes.len();
    if byte_offset > n {
        return None;
    }
    let line_start = match last_index_of(bytes, 0, byte_offset, NEWLINE) {
        Some(i) => i + 1,
        None => 0,
    };
    let line_end_off = index_of(bytes, byte_offset, n, NEWLINE);
    if !byte_is_boundary(bytes, line_start) || !byte_is_boundary(bytes, byte_offset)
        || !byte_is_boundary(bytes, line_end_off) {
        return None;
    }
    proof {
        assert(line_start_before(bytes@, byte_offset as int) == line_start);
        assert(line_end(bytes@, byte_offset as int) == line_end_off);
    }
    let line = str_slice(source, line_start, line_end_off);
    let local_offset = byte_offset - line_start;
    let body_start = match rbs_comment_body_start(line) {
        Some(s) => s,
        None => return None,
    };
    if local_offset < body_start {
        return None;
    }
    let (token_start, token_end) = match constant_path_token_span(line.as_bytes(), local_offset) {
        Some(span) => span,
        None => return None,
    };
    if token_start < body_start {
        return None;
    }
    proof {
        lemma_str_valid(source);
        lemma_token_boundaries(
            bytes@,
            line.spec_bytes(),
            line_start as int,
            line_end_off as int,
            local_offset as int,
        );
    }
    Some((line_start + token_start, line_start + token_end))
}

/// The type named at `byte_offset` inside an RBS comment, with the
/// enclosing class or module.
pub fn rbs_comment_type_definition_context(source: &str, byte_offset: usize) -> (r: Option<
    RbsCommentTypeDefinitionContext,
>)
    ensures
        match rbs_type_token_at(source.spec_bytes(), byte_offset as int) {
            None => r is None,
            Some((ts, te)) => match rbs_type_name(source.spec_bytes().subrange(ts, te)) {
                None => r is None,
                Some(name) => r matches Some(c) && bytes_of(c.referenced_type) == name && bytes_of(
                    c.class_context,
                ) == class_context_of(source.spec_bytes(), byte_offset as int),
            },
        },
{
    let (token_start, token_end) = match rbs_type_token_span(source, byte_offset) {
        Some(span) => span,
        None => return None,
    };
    let token = str_slice(source, token_start, token_end);
    let referenced_type = match normalize_rbs_type_name_token(token) {
        Some(t) => t,
        None => return None,
    };
    let class_context = match crate::lexical::lexical_class_context_at(source, byte_offset) {
        Some(c) => c,
        None => String::new(),
    };
    Some(RbsCommentTypeDefinitionContext { referenced_type, class_context })
}

/// `find_from` finds nothing only where nothing matches.
proof fn lemma_find_none(b: Seq<u8>, i: int, hi: int, p: Seq<u8>)
    requires
        0 <= i,
        crate::text::find_from(b, i, hi, p) is None,
    ensures
        forall|j: int| i <= j && j + p.len() <= hi ==> !matches_at(b, j, hi, p),
    decreases hi + 1 - i,
{
    if i + p.len() <= hi {
        lemma_find_none(b, i + 1, hi, p);
    }
}

/// A `::`-path of constant names starts with a capital letter.
proof fn lemma_segments_start(s: Seq<u8>)
    requires
        segments_valid(s),
    ensures
        s.len() > 0,
        crate::completion_context::is_ascii_upper(s[0]),
{
    if let Some(i) = crate::text::find_from(s, 0, s.len() as int, crate::lexical::dcolon()) {
        crate::text::lemma_find_range(s, 0, s.len() as int, crate::lexical::dcolon());
        assert(s.subrange(0, i)[0] == s[0]);
    }
}

/// A `::`-path of constant names does not end with `::`.
proof fn lemma_segments_no_trailing(s: Seq<u8>)
    requires
        s.len() >= 2,
        s[s.len() - 2] == 0x3a,
        s[s.len() - 1] == 0x3a,
    ensures
        !segments_valid(s),
    decreases s.len(),
{
    let d = crate::lexical::dcolon();
    match crate::text::find_from(s, 0, s.len() as int, d) {
        None => {
            lemma_find_none(s, 0, s.len() as int, d);
            assert(matches_at(s, s.len() - 2, s.len() as int, d));
        },
        Some(i) => {
            crate::text::lemma_find_range(s, 0, s.len() as int, d);
            let rest = s.subrange(i + 2, s.len() as int);
            if rest.len() >= 2 {
                assert(rest[rest.len() - 2] == s[s.len() - 2]);
                assert(rest[rest.len() - 1] == s[s.len() - 1]);
                lemma_segments_no_trailing(rest);
            } else if segments_valid(rest) {
                lemma_segments_start(rest);
                assert(rest[0] == s[s.len() - 1]);
            }
        },
    }
}

/// A token names a type exactly when every `::`-separated segment of it
/// (after one leading `::`) is a constant name: an ASCII capital followed by
/// letters, digits and `_`. The token is then kept as written, leading `::`
/// included; `Foo::`, `:::Foo`, `item:` and the empty token are no type
/// names.
pub proof fn law_type_name_tokens_are_constant_paths(t: Seq<u8>)
    ensures
        rbs_type_name(t) == ({
            let body = if t.len() >= 2 && t[0] == 0x3a && t[1] == 0x3a { t.skip(2) } else { t };
            if segments_valid(body) {
                Some(t)
            } else {
                None
            }
        }),
{
    let anchored = t.len() >= 2 && t[0] == 0x3a && t[1] == 0x3a;
    let body = if anchored { t.skip(2) } else { t };
    if segments_valid(body) {
        lemma_segments_start(body);
        if anchored && t.len() >= 3 {
            assert(body[0] == t[2]);
        }
        if body.len() >= 2 && body[body.len() - 2] == 0x3a && body[body.len() - 1] == 0x3a {
            lemma_segments_no_trailing(body);
        }
    }
}

/// A run that `run_start` finds cannot be extended to the left.
proof fn lemma_run_start_maximal(b: Seq<u8>, lo: int, i: int, c: CharClass)
    requires
        lo <= i,
    ensures
        run_start(b, lo, i, c) == lo || !in_class(c, b[run_start(b, lo, i, c) - 1]),
    decreases i - lo,
{
    if i > lo && in_class(c, b[i - 1]) {
        lemma_run_start_maximal(b, lo, i - 1, c);
    }
}

/// A run that `run_end` finds cannot be extended to the right.
proof fn lemma_run_end_maximal(b: Seq<u8>, i: int, hi: int, c: CharClass)
    requires
        i <= hi,
    ensures
        run_end(b, i, hi, c) == hi || !in_class(c, b[run_end(b, i, hi, c)]),
    decreases hi - i,
{
    if i < hi && in_class(c, b[i]) {
        lemma_run_end_maximal(b, i + 1, hi, c);
    }
}

/// The constant path under the cursor: there is one exactly when the byte at
/// the cursor (clamped to the text) or the byte before it belongs to a
/// constant path (`:`, `_`, an ASCII letter or digit); it is then the whole
/// run of such bytes around the cursor, which it touches, and the run cannot
/// be extended on either side.
pub proof fn law_constant_path_span_is_the_run_at_the_cursor(t: Seq<u8>, off: int)
    requires
        0 <= off,
    ensures
        ({
            let c = if off < t.len() { off } else { t.len() as int };
            &&& token_span(t, off) is Some <==> ((c < t.len() && is_constant_path_char(t[c])) || (c > 0
                && is_constant_path_char(t[c - 1])))
            &&& token_span(t, off) matches Some((s, e)) ==> {
                &&& 0 <= s < e <= t.len()
                &&& s <= c <= e
                &&& forall|k: int| s <= k < e ==> #[trigger] is_constant_path_char(t[k])
                &&& (s == 0 || !is_constant_path_char(t[s - 1]))
                &&& (e == t.len() || !is_constant_path_char(t[e]))
            }
        }),
{
    if let Some(cur) = token_cursor(t, off) {
        lemma_run_start_class(t, 0, cur, CharClass::ConstantPath);
        lemma_run_end_class(t, cur, t.len() as int, CharClass::ConstantPath);
        lemma_run_start_maximal(t, 0, cur, CharClass::ConstantPath);
        lemma_run_end_maximal(t, cur, t.len() as int, CharClass::ConstantPath);
        let s0 = run_start(t, 0, cur, CharClass::ConstantPath);
        let e0 = run_end(t, cur, t.len() as int, CharClass::ConstantPath);
        assert(in_class(CharClass::ConstantPath, t[cur]));
        assert forall|k: int| s0 <= k < e0 implies #[trigger] is_constant_path_char(t[k]) by {
            if k < cur {
                assert(in_class(CharClass::ConstantPath, t[k]));
            } else {
                assert(in_class(CharClass::ConstantPath, t[k]));
            }
        }
    }
}

} // verus!
