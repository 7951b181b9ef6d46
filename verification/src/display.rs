//! Ranking of rendered RBS signatures: how many parameter and return slots a
//! signature leaves `untyped`, how many union variants it carries, and which
//! of two renderings is the better one to show.

use vstd::prelude::*;
use vstd::string::*;
use vstd::utf8::*;
use crate::text::{bytes_of, find_from, is_boundary, is_cont, char_width, matches_at, trim_span, bytes_match_at, lemma_str_valid, lemma_char_end, str_slice, str_trim};
use crate::source_support::trimmed;

verus! {

broadcast use vstd::seq_lib::group_seq_properties;

/// The UTF-8 encoding of a character, with the facts about its lead and
/// continuation bytes that matching relies on.
fn char_encoding(c: char) -> (r: Vec<u8>)
    ensures
        r@ == encode_scalar(c as u32),
        1 <= r@.len() <= 4,
        !is_cont(r@[0]),
        char_width(r@[0]) == r@.len(),
        forall|j: int| 1 <= j < r@.len() ==> #[trigger] is_cont(r@[j]),
{
    let s = c as u32;
    proof {
        char_is_scalar(c);
    }
    if s <= 0x7f {
        let b0 = (s & 0x7F) as u8;
        assert(b0 < 0x80) by (bit_vector)
            requires
                s <= 0x7f,
                b0 == (s & 0x7F) as u8,
        ;
        vec![b0]
    } else if s <= 0x7ff {
        let b0 = 0xC0 | ((s >> 6) & 0x1F) as u8;
        let b1 = 0x80 | (s & 0x3F) as u8;
        assert(0xc0 <= b0 <= 0xdf && 0x80 <= b1 <= 0xbf) by (bit_vector)
            requires
                b0 == 0xC0 | ((s >> 6) & 0x1F) as u8,
                b1 == 0x80 | (s & 0x3F) as u8,
        ;
        let v = vec![b0, b1];
        proof {
            assert(v@ =~= encode_scalar(s));
        }
        v
    } else if s <= 0xffff {
        let b0 = 0xE0 | ((s >> 12) & 0x0F) as u8;
        let b1 = 0x80 | ((s >> 6) & 0x3F) as u8;
        let b2 = 0x80 | (s & 0x3F) as u8;
        assert(0xe0 <= b0 <= 0xef && 0x80 <= b1 <= 0xbf && 0x80 <= b2 <= 0xbf) by (bit_vector)
            requires
                b0 == 0xE0 | ((s >> 12) & 0x0F) as u8,
                b1 == 0x80 | ((s >> 6) & 0x3F) as u8,
                b2 == 0x80 | (s & 0x3F) as u8,
        ;
        let v = vec![b0, b1, b2];
        proof {
            assert(v@ =~= encode_scalar(s));
        }
        v
    } else {
        let b0 = 0xF0 | ((s >> 18) & 0x7) as u8;
        let b1 = 0x80 | ((s >> 12) & 0x3F) as u8;
        let b2 = 0x80 | ((s >> 6) & 0x3F) as u8;
        let b3 = 0x80 | (s & 0x3F) as u8;
        assert(0xf0 <= b0 <= 0xf7 && 0x80 <= b1 <= 0xbf && 0x80 <= b2 <= 0xbf && 0x80 <= b3 <= 0xbf)
            by (bit_vector)
            requires
                b0 == 0xF0 | ((s >> 18) & 0x7) as u8,
                b1 == 0x80 | ((s >> 12) & 0x3F) as u8,
                b2 == 0x80 | ((s >> 6) & 0x3F) as u8,
                b3 == 0x80 | (s & 0x3F) as u8,
        ;
        let v = vec![b0, b1, b2, b3];
        proof {
            assert(v@ =~= encode_scalar(s));
        }
        v
    }
}

/// Open `(`, `[` and `{` nesting after one more byte; a closer at depth 0
/// leaves the depth at 0.
pub open spec fn depth_step(dp: (int, int, int), x: u8) -> (int, int, int) {
    if x == 0x28 {
        (dp.0 + 1, dp.1, dp.2)
    } else if x == 0x29 {
        (if dp.0 > 0 { dp.0 - 1 } else { 0 }, dp.1, dp.2)
    } else if x == 0x5b {
        (dp.0, dp.1 + 1, dp.2)
    } else if x == 0x5d {
        (dp.0, if dp.1 > 0 { dp.1 - 1 } else { 0 }, dp.2)
    } else if x == 0x7b {
        (dp.0, dp.1, dp.2 + 1)
    } else if x == 0x7d {
        (dp.0, dp.1, if dp.2 > 0 { dp.2 - 1 } else { 0 })
    } else {
        dp
    }
}

/// The `(`, `[` and `{` nesting after the first `i` bytes.
pub open spec fn nesting_after(b: Seq<u8>, i: int) -> (int, int, int)
    decreases i,
{
    if i <= 0 {
        (0, 0, 0)
    } else {
        depth_step(nesting_after(b, i - 1), b[i - 1])
    }
}

/// The delimiter `d` occurs at `i` outside any bracket (counting the
/// delimiter's own byte).
pub open spec fn top_level_split_at(b: Seq<u8>, i: int, d: Seq<u8>) -> bool {
    matches_at(b, i, b.len() as int, d) && nesting_after(b, i + 1) == (0int, 0int, 0int)
}

/// The windows between top-level delimiters, scanning from `i` with the
/// current segment starting at `start`.
pub open spec fn segment_spans(b: Seq<u8>, d: Seq<u8>, start: int, i: int) -> Seq<(int, int)>
    decreases b.len() - i,
{
    if i >= b.len() {
        seq![(start, b.len() as int)]
    } else if top_level_split_at(b, i, d) {
        seq![(start, i)] + segment_spans(b, d, i + d.len(), i + 1)
    } else {
        segment_spans(b, d, start, i + 1)
    }
}

/// The top-level segments of `b` split at the character `delimiter`, as
/// windows before trimming.
pub open spec fn top_level_segments(b: Seq<u8>, delimiter: char) -> Seq<(int, int)> {
    segment_spans(b, encode_scalar(delimiter as u32), 0, 0)
}

proof fn lemma_segment_spans_len(b: Seq<u8>, d: Seq<u8>, start: int, i: int)
    requires
        0 <= i,
    ensures
        1 <= segment_spans(b, d, start, i).len() <= if i < b.len() { b.len() - i + 1 } else { 1 },
    decreases b.len() - i,
{
    if i < b.len() {
        if top_level_split_at(b, i, d) {
            lemma_segment_spans_len(b, d, i + d.len(), i + 1);
        } else {
            lemma_segment_spans_len(b, d, start, i + 1);
        }
    }
}

/// `input` split at `delimiter` where it stands outside `()`, `[]` and
/// `{}`, each part trimmed.
#[verifier::rlimit(50)]
#[verifier::spinoff_prover]
pub fn split_top_level_segments(input: &str, delimiter: char) -> (r: Vec<&str>)
    ensures
        r@.len() == top_level_segments(input.spec_bytes(), delimiter).len(),
        forall|k: int|
            0 <= k < r@.len() ==> (#[trigger] r@[k]).spec_bytes() == trimmed(
                input.spec_bytes().subrange(
                    top_level_segments(input.spec_bytes(), delimiter)[k].0,
                    top_level_segments(input.spec_bytes(), delimiter)[k].1,
                ),
            ),
{
    let b = input.as_bytes();
    let n = b.len();
    let d = char_encoding(delimiter);
    let ghost all = top_level_segments(input.spec_bytes(), delimiter);
    proof {
        lemma_str_valid(input);
    }
    let mut segments: Vec<&str> = Vec::new();
    let ghost mut done: Seq<(int, int)> = Seq::empty();
    let mut start: usize = 0;
    let mut paren: usize = 0;
    let mut bracket: usize = 0;
    let mut brace: usize = 0;
    let mut i: usize = 0;
    while i < n
        invariant
            i <= n == b@.len(),
            b@ == input.spec_bytes(),
            valid_utf8(b@),
            d@ == encode_scalar(delimiter as u32),
            1 <= d@.len() <= 4,
            !is_cont(d@[0]),
            char_width(d@[0]) == d@.len(),
            forall|j: int| 1 <= j < d@.len() ==> #[trigger] is_cont(d@[j]),
            all == segment_spans(b@, d@, 0, 0),
            all == done + segment_spans(b@, d@, start as int, i as int),
            (paren as int, bracket as int, brace as int) == nesting_after(b@, i as int),
            paren <= i && bracket <= i && brace <= i,
            start <= n,
            is_boundary(b@, start as int),
            i < start ==> forall|j: int| i <= j < start ==> #[trigger] is_cont(b@[j]),
            segments@.len() == done.len(),
            forall|k: int|
                0 <= k < segments@.len() ==> (#[trigger] segments@[k]).spec_bytes() == trimmed(
                    b@.subrange(done[k].0, done[k].1),
                ),
        decreases n - i,
    {
        let x = b[i];
        if x == 0x28 {
            paren = paren + 1;
        } else if x == 0x29 {
            paren = if paren > 0 { paren - 1 } else { 0 };
        } else if x == 0x5b {
            bracket = bracket + 1;
        } else if x == 0x5d {
            bracket = if bracket > 0 { bracket - 1 } else { 0 };
        } else if x == 0x7b {
            brace = brace + 1;
        } else if x == 0x7d {
            brace = if brace > 0 { brace - 1 } else { 0 };
        }
        let hit = bytes_match_at(b, i, n, d.as_slice());
        if hit && paren == 0 && bracket == 0 && brace == 0 {
            proof {
                assert(b@[i as int + 0] == d@[0]);
                if i < start {
                    assert(is_cont(b@[i as int]));
                }
                assert(is_boundary(b@, i as int));
                lemma_char_end(b@, i as int);
                assert(top_level_split_at(b@, i as int, d@));
                assert forall|j: int| i < j < i + d@.len() implies #[trigger] is_cont(b@[j]) by {
                    assert(b@[i + (j - i)] == d@[j - i]);
                }
            }
            let part = str_trim(str_slice(input, start, i));
            segments.push(part);
            proof {
                let sp = segment_spans(b@, d@, start as int, i as int);
                assert(sp == seq![(start as int, i as int)] + segment_spans(b@, d@, i + d@.len(), i + 1));
                done = done.push((start as int, i as int));
                assert(all =~= done + segment_spans(b@, d@, i + d@.len(), i + 1));
            }
            start = i + d.len();
        } else {
            proof {
                assert(!top_level_split_at(b@, i as int, d@));
            }
        }
        i = i + 1;
    }
    proof {
        assert(segment_spans(b@, d@, start as int, i as int) == seq![(start as int, n as int)]);
    }
    let last = str_trim(str_slice(input, start, n));
    segments.push(last);
    proof {
        done = done.push((start as int, n as int));
        assert(all =~= done);
    }
    segments
}

} // verus!

verus! {

/// `untyped`, the marker of an unresolved type.
pub open spec fn pat_untyped() -> Seq<u8> {
    seq![0x75u8, 0x6eu8, 0x74u8, 0x79u8, 0x70u8, 0x65u8, 0x64u8]
}

/// `->`
pub open spec fn pat_arrow() -> Seq<u8> {
    seq![0x2du8, 0x3eu8]
}

/// ` | `, the separator of union variants.
pub open spec fn pat_bar() -> Seq<u8> {
    seq![0x20u8, 0x7cu8, 0x20u8]
}

/// `s` mentions `untyped`.
pub open spec fn mentions_untyped(s: Seq<u8>) -> bool {
    find_from(s, 0, s.len() as int, pat_untyped()) is Some
}

/// Where the run of `->` prefixes that starts at `k` ends
/// (`trim_start_matches("->")`).
pub open spec fn arrows_end(t: Seq<u8>, k: int) -> int
    decreases t.len() - k,
{
    if 0 <= k && k + 2 <= t.len() && t[k] == 0x2d && t[k + 1] == 0x3e {
        arrows_end(t, k + 2)
    } else {
        k
    }
}

/// The last `->` of a trimmed line.
pub open spec fn last_arrow(t: Seq<u8>) -> Option<int> {
    crate::text::rfind_upto(t, 0, t.len() - 2, t.len() as int, pat_arrow())
}

/// The first `(` and the last `)` before `a`, when both occur.
pub open spec fn param_parens(t: Seq<u8>, a: int) -> Option<(int, int)> {
    let o = crate::text::index_of_byte(t, 0, a, 0x28u8);
    match crate::text::last_index_of_byte(t, 0, a, 0x29u8) {
        Some(c) => if o < a {
            Some((o, c))
        } else {
            None
        },
        None => None,
    }
}

/// The number of the spans `sp` of `p` that, trimmed, are non-empty and
/// mention `untyped`.
pub open spec fn unresolved_in_spans(p: Seq<u8>, sp: Seq<(int, int)>) -> int
    decreases sp.len(),
{
    if sp.len() == 0 {
        0
    } else {
        let s = trimmed(p.subrange(sp.last().0, sp.last().1));
        unresolved_in_spans(p, sp.drop_last()) + if s.len() > 0 && mentions_untyped(s) {
            1int
        } else {
            0int
        }
    }
}

/// Unresolved parameter and return slots of one trimmed line of a rendered
/// signature: for `params -> ret`, the return counts once if it mentions
/// `untyped`, and each top-level comma-separated parameter between the first
/// `(` and the last `)` counts once (the whole parameter part once when it
/// has no parentheses); a line without `->` counts as a return.
pub open spec fn line_counts(t: Seq<u8>) -> (int, int) {
    match last_arrow(t) {
        Some(a) => {
            let ret = trimmed(t.subrange(arrows_end(t, a), t.len() as int));
            let rc: int = if mentions_untyped(ret) {
                1
            } else {
                0
            };
            let pc: int = match param_parens(t, a) {
                Some((o, c)) => {
                    let params = t.subrange(o + 1, c);
                    unresolved_in_spans(params, top_level_segments(params, ','))
                },
                None => if find_from(t, 0, a, pat_untyped()) is Some {
                    1
                } else {
                    0
                },
            };
            (pc, rc)
        },
        None => if mentions_untyped(t) {
            (0, 1)
        } else {
            (0, 0)
        },
    }
}

/// The line can be counted: its parameter parentheses, if any, are not
/// reversed (the count slices between them).
pub open spec fn line_countable(t: Seq<u8>) -> bool {
    match last_arrow(t) {
        Some(a) => match param_parens(t, a) {
            Some((o, c)) => o + 1 <= c,
            None => true,
        },
        None => true,
    }
}

/// Every non-empty trimmed line of `ls` can be counted.
pub open spec fn all_countable(ls: Seq<Seq<u8>>) -> bool {
    forall|k: int| 0 <= k < ls.len() ==> #[trigger] line_countable(trimmed(ls[k]))
}

/// Unresolved (parameter, return) slots over the non-empty trimmed lines.
pub open spec fn unresolved_counts(ls: Seq<Seq<u8>>) -> (int, int)
    decreases ls.len(),
{
    if ls.len() == 0 {
        (0, 0)
    } else {
        let prev = unresolved_counts(ls.drop_last());
        let t = trimmed(ls.last());
        if t.len() == 0 {
            prev
        } else {
            (prev.0 + line_counts(t).0, prev.1 + line_counts(t).1)
        }
    }
}

/// The non-overlapping occurrences of ` | ` in `t` from `i` on.
pub open spec fn bar_count(t: Seq<u8>, i: int) -> int
    decreases t.len() - i,
    via bar_count_decreases
{
    match find_from(t, i, t.len() as int, pat_bar()) {
        None => 0,
        Some(j) => 1 + bar_count(t, j + 3),
    }
}

#[via_fn]
proof fn bar_count_decreases(t: Seq<u8>, i: int) {
    crate::text::lemma_find_range(t, i, t.len() as int, pat_bar());
}

/// Union separators over all lines.
pub open spec fn union_count(ls: Seq<Seq<u8>>) -> int
    decreases ls.len(),
{
    if ls.len() == 0 {
        0
    } else {
        union_count(ls.drop_last()) + bar_count(ls.last(), 0)
    }
}

/// Total length of a list of lines.
pub open spec fn lens_sum(ls: Seq<Seq<u8>>) -> int
    decreases ls.len(),
{
    if ls.len() == 0 {
        0
    } else {
        ls[0].len() + lens_sum(ls.drop_first())
    }
}

/// The texts of the windows `sp` of `b`.
pub open spec fn span_texts(b: Seq<u8>, sp: Seq<(int, int)>) -> Seq<Seq<u8>> {
    Seq::new(sp.len(), |i: int| b.subrange(sp[i].0, sp[i].1))
}

proof fn lemma_line_lens(b: Seq<u8>, s: int)
    requires
        0 <= s,
    ensures
        lens_sum(span_texts(b, crate::text::line_spans(b, s))) <= if s <= b.len() {
            b.len() - s
        } else {
            0
        },
    decreases b.len() + 1 - s,
{
    let sp = crate::text::line_spans(b, s);
    if s < b.len() {
        crate::text::lemma_index_of_range(b, s, b.len() as int, 0x0au8);
        let e = crate::text::index_of_byte(b, s, b.len() as int, 0x0au8);
        lemma_line_lens(b, e + 1);
        let rest = crate::text::line_spans(b, e + 1);
        assert(span_texts(b, sp).drop_first() =~= span_texts(b, rest));
    } else {
        assert(span_texts(b, sp).len() == 0);
    }
}

/// The lines of a text are no longer, together, than the text.
proof fn lemma_source_lines_len(b: Seq<u8>)
    ensures
        lens_sum(crate::source_support::source_lines(b)) <= b.len(),
{
    lemma_line_lens(b, 0);
    assert(crate::source_support::source_lines(b) =~= span_texts(b, crate::text::lines_of(b)));
}

} // verus!

verus! {

proof fn lemma_unresolved_spans_bound(p: Seq<u8>, sp: Seq<(int, int)>)
    ensures
        0 <= unresolved_in_spans(p, sp) <= sp.len(),
    decreases sp.len(),
{
    if sp.len() > 0 {
        lemma_unresolved_spans_bound(p, sp.drop_last());
    }
}

proof fn lemma_rfind_range(b: Seq<u8>, lo: int, j: int, hi: int, p: Seq<u8>)
    ensures
        crate::text::rfind_upto(b, lo, j, hi, p) matches Some(i) ==> lo <= i <= j && matches_at(
            b,
            i,
            hi,
            p,
        ),
    decreases j + 1 - lo,
{
    if j >= lo && !matches_at(b, j, hi, p) {
        lemma_rfind_range(b, lo, j - 1, hi, p);
    }
}

/// The slots a non-empty line counts are no more than its length.
proof fn lemma_line_counts_bound(t: Seq<u8>)
    requires
        t.len() > 0,
        line_countable(t),
    ensures
        0 <= line_counts(t).0,
        0 <= line_counts(t).1,
        line_counts(t).0 + line_counts(t).1 <= t.len(),
{
    lemma_rfind_range(t, 0, t.len() - 2, t.len() as int, pat_arrow());
    if let Some(a) = last_arrow(t) {
        if let Some((o, c)) = param_parens(t, a) {
            crate::text::lemma_index_of_range(t, 0, a, 0x28u8);
            crate::text::lemma_last_index_found(t, 0, a, 0x29u8);
            let params = t.subrange(o + 1, c);
            lemma_segment_spans_len(params, encode_scalar(',' as u32), 0, 0);
            lemma_unresolved_spans_bound(params, top_level_segments(params, ','));
        }
    }
}

proof fn lemma_bar_count_bound(t: Seq<u8>, i: int)
    requires
        0 <= i <= t.len(),
    ensures
        0 <= bar_count(t, i) <= t.len() - i,
    decreases t.len() - i,
{
    crate::text::lemma_find_range(t, i, t.len() as int, pat_bar());
    if let Some(j) = find_from(t, i, t.len() as int, pat_bar()) {
        lemma_bar_count_bound(t, j + 3);
    }
}

proof fn lemma_lens_sum_nonneg(ls: Seq<Seq<u8>>)
    ensures
        0 <= lens_sum(ls),
    decreases ls.len(),
{
    if ls.len() > 0 {
        lemma_lens_sum_nonneg(ls.drop_first());
    }
}

/// One step of a scan over a list of lines.
proof fn lemma_lines_step(ls: Seq<Seq<u8>>, i: int)
    requires
        0 <= i < ls.len(),
    ensures
        ls.take(i + 1).drop_last() == ls.take(i),
        ls.take(i + 1).last() == ls[i],
        lens_sum(ls.skip(i)) == ls[i].len() + lens_sum(ls.skip(i + 1)),
{
    assert(ls.take(i + 1).drop_last() =~= ls.take(i));
    assert(ls.skip(i).drop_first() =~= ls.skip(i + 1));
}

/// Whether `segment` mentions `untyped`.
pub fn contains_unresolved_marker(segment: &str) -> (r: bool)
    ensures
        r == mentions_untyped(segment.spec_bytes()),
{
    let b = segment.as_bytes();
    untyped_in(b, 0, b.len())
}

/// Whether `untyped` occurs in the window `[lo, hi)` of `b`.
fn untyped_in(b: &[u8], lo: usize, hi: usize) -> (r: bool)
    requires
        lo <= hi <= b@.len(),
    ensures
        r == (find_from(b@, lo as int, hi as int, pat_untyped()) is Some),
{
    let u: [u8; 7] = [0x75, 0x6e, 0x74, 0x79, 0x70, 0x65, 0x64];
    proof {
        assert(u@ =~= pat_untyped());
    }
    crate::text::find_bytes(b, lo, hi, u.as_slice()).is_some()
}

/// The end of the `->` prefixes of `t` from `a`, where `a` holds `-`.
fn arrows_end_at(t: &[u8], a: usize) -> (r: usize)
    requires
        a < t@.len(),
        t@[a as int] == 0x2d,
        valid_utf8(t@),
    ensures
        r == arrows_end(t@, a as int),
        a <= r <= t@.len(),
        is_boundary(t@, r as int),
{
    let n = t.len();
    let mut k = a;
    while n - k >= 2 && t[k] == 0x2d && t[k + 1] == 0x3e
        invariant
            a <= k <= n == t@.len(),
            arrows_end(t@, k as int) == arrows_end(t@, a as int),
            k == a || t@[k - 1] == 0x3e,
        decreases n - k,
    {
        k = k + 2;
    }
    proof {
        if k == a {
            crate::text::lemma_ascii_at(t@, a as int);
        } else {
            crate::text::lemma_after_ascii(t@, k - 1);
        }
    }
    k
}

/// The comma-separated top-level parameters of `params` that, trimmed, are
/// non-empty and mention `untyped`.
fn unresolved_params(params: &str) -> (r: usize)
    ensures
        r as int == unresolved_in_spans(params.spec_bytes(), top_level_segments(params.spec_bytes(), ',')),
{
    let ghost pb = params.spec_bytes();
    let segments = split_top_level_segments(params, ',');
    let ghost spans = top_level_segments(pb, ',');
    let mut count: usize = 0;
    let mut j: usize = 0;
    while j < segments.len()
        invariant
            j <= segments@.len(),
            segments@.len() == spans.len(),
            forall|q: int|
                0 <= q < segments@.len() ==> (#[trigger] segments@[q]).spec_bytes() == trimmed(
                    pb.subrange(spans[q].0, spans[q].1),
                ),
            count as int == unresolved_in_spans(pb, spans.take(j as int)),
            count <= j,
        decreases segments@.len() - j,
    {
        let seg = segments[j];
        proof {
            assert(spans.take(j + 1).drop_last() =~= spans.take(j as int));
            assert(spans.take(j + 1).last() == spans[j as int]);
        }
        if seg.as_bytes().len() > 0 && contains_unresolved_marker(seg) {
            count = count + 1;
        }
        j = j + 1;
    }
    proof {
        assert(spans.take(spans.len() as int) =~= spans);
    }
    count
}

/// The unresolved (parameter, return) slots of one non-empty trimmed line.
fn line_unresolved_counts(t: &str) -> (r: (usize, usize))
    requires
        t.spec_bytes().len() > 0,
        line_countable(t.spec_bytes()),
    ensures
        (r.0 as int, r.1 as int) == line_counts(t.spec_bytes()),
        r.0 + r.1 <= t.spec_bytes().len(),
{
    let tb = t.as_bytes();
    let n = tb.len();
    proof {
        lemma_str_valid(t);
        lemma_line_counts_bound(tb@);
        lemma_rfind_range(tb@, 0, n - 2, n as int, pat_arrow());
    }
    let arrow: [u8; 2] = [0x2d, 0x3e];
    proof {
        assert(arrow@ =~= pat_arrow());
    }
    let a = match crate::text::rfind_bytes(tb, 0, n, arrow.as_slice()) {
        None => {
            return if contains_unresolved_marker(t) {
                (0, 1)
            } else {
                (0, 0)
            };
        },
        Some(a) => a,
    };
    proof {
        assert(tb@[a + 0] == pat_arrow()[0]);
    }
    let k = arrows_end_at(tb, a);
    let ret = str_trim(str_slice(t, k, n));
    let rc: usize = if contains_unresolved_marker(ret) {
        1
    } else {
        0
    };
    let o = crate::text::index_of(tb, 0, a, 0x28);
    let pc: usize = match crate::text::last_index_of(tb, 0, a, 0x29) {
        Some(c) => if o < a {
            proof {
                crate::text::lemma_after_ascii(tb@, o as int);
                crate::text::lemma_ascii_at(tb@, c as int);
            }
            unresolved_params(str_slice(t, o + 1, c))
        } else {
            if untyped_in(tb, 0, a) {
                1
            } else {
                0
            }
        },
        None => if untyped_in(tb, 0, a) {
            1
        } else {
            0
        },
    };
    (pc, rc)
}

/// The unresolved parameter and return slots of a rendered signature,
/// summed over its non-empty lines.
pub fn hover_signature_unresolved_counts(display: &str) -> (r: (usize, usize))
    requires
        all_countable(crate::source_support::source_lines(display.spec_bytes())),
    ensures
        (r.0 as int, r.1 as int) == unresolved_counts(
            crate::source_support::source_lines(display.spec_bytes()),
        ),
        r.0 + r.1 <= display.spec_bytes().len(),
        r.0 + r.1 <= usize::MAX,
{
    let n = display.as_bytes().len();
    let lines = crate::source_support::split_source_lines(display);
    let ghost ls = crate::source_support::source_lines(display.spec_bytes());
    proof {
        lemma_source_lines_len(display.spec_bytes());
        assert(ls.skip(0) =~= ls);
        assert(ls.take(0) =~= Seq::<Seq<u8>>::empty());
    }
    let mut params_total: usize = 0;
    let mut returns_total: usize = 0;
    let mut i: usize = 0;
    while i < lines.len()
        invariant
            i <= lines@.len() == ls.len(),
            crate::source_support::line_bytes_of(lines@) == ls,
            all_countable(ls),
            (params_total as int, returns_total as int) == unresolved_counts(ls.take(i as int)),
            params_total + returns_total + lens_sum(ls.skip(i as int)) <= n,
            n == display.spec_bytes().len(),
        decreases lines@.len() - i,
    {
        let line = lines[i];
        proof {
            assert(ls[i as int] == line.spec_bytes());
            lemma_lines_step(ls, i as int);
            lemma_lens_sum_nonneg(ls.skip(i + 1));
            assert(line_countable(trimmed(ls[i as int])));
        }
        let t = str_trim(line);
        if t.as_bytes().len() > 0 {
            let (p, r) = line_unresolved_counts(t);
            proof {
                lemma_line_counts_bound(t.spec_bytes());
            }
            params_total = params_total + p;
            returns_total = returns_total + r;
        }
        i = i + 1;
    }
    proof {
        assert(ls.take(ls.len() as int) =~= ls);
    }
    (params_total, returns_total)
}

/// Whether a trimmed line can be counted: when it has a `->` with both a
/// `(` and a `)` before it, the first `(` comes before the last `)`.
fn line_is_countable(t: &str) -> (r: bool)
    ensures
        r == line_countable(t.spec_bytes()),
{
    let tb = t.as_bytes();
    let n = tb.len();
    if n < 2 {
        proof {
            assert(crate::text::rfind_upto(tb@, 0, n - 2, n as int, pat_arrow()) is None);
        }
        return true;
    }
    proof {
        lemma_rfind_range(tb@, 0, n - 2, n as int, pat_arrow());
    }
    let arrow: [u8; 2] = [0x2d, 0x3e];
    proof {
        assert(arrow@ =~= pat_arrow());
    }
    match crate::text::rfind_bytes(tb, 0, n, arrow.as_slice()) {
        None => true,
        Some(a) => {
            let o = crate::text::index_of(tb, 0, a, 0x28);
            match crate::text::last_index_of(tb, 0, a, 0x29) {
                Some(c) => !(o < a) || o + 1 <= c,
                None => true,
            }
        },
    }
}

/// Whether every line of a rendered signature can be counted (see
/// `line_countable`); the counting functions ask for it.
pub fn signature_display_countable(display: &str) -> (r: bool)
    ensures
        r == all_countable(crate::source_support::source_lines(display.spec_bytes())),
{
    let lines = crate::source_support::split_source_lines(display);
    let ghost ls = crate::source_support::source_lines(display.spec_bytes());
    let mut i: usize = 0;
    while i < lines.len()
        invariant
            i <= lines@.len() == ls.len(),
            ls == crate::source_support::source_lines(display.spec_bytes()),
            crate::source_support::line_bytes_of(lines@) == ls,
            forall|k: int| 0 <= k < i ==> #[trigger] line_countable(trimmed(ls[k])),
        decreases lines@.len() - i,
    {
        let line = lines[i];
        proof {
            assert(ls[i as int] == line.spec_bytes());
        }
        let t = str_trim(line);
        if !line_is_countable(t) {
            proof {
                assert(t.spec_bytes() == trimmed(ls[i as int]));
                assert(!line_countable(trimmed(ls[i as int])));
            }
            return false;
        }
        i = i + 1;
    }
    true
}

/// The unresolved slots of a rendered signature, parameters and return
/// together.
pub fn hover_untyped_slots(display: &str) -> (r: usize)
    requires
        all_countable(crate::source_support::source_lines(display.spec_bytes())),
    ensures
        r == unresolved_counts(crate::source_support::source_lines(display.spec_bytes())).0
            + unresolved_counts(crate::source_support::source_lines(display.spec_bytes())).1,
{
    let (param_count, return_count) = hover_signature_unresolved_counts(display);
    param_count + return_count
}

/// The non-overlapping ` | ` separators of one line.
fn line_bar_count(t: &[u8]) -> (r: usize)
    ensures
        r == bar_count(t@, 0),
        r <= t@.len(),
{
    let bar: [u8; 3] = [0x20, 0x7c, 0x20];
    proof {
        assert(bar@ =~= pat_bar());
        lemma_bar_count_bound(t@, 0);
    }
    let n = t.len();
    let mut count: usize = 0;
    let mut i: usize = 0;
    loop
        invariant
            i <= n == t@.len(),
            bar@ == pat_bar(),
            count + bar_count(t@, i as int) == bar_count(t@, 0),
            count <= i,
        decreases n - i,
    {
        match crate::text::find_bytes(t, i, n, bar.as_slice()) {
            None => {
                return count;
            },
            Some(j) => {
                count = count + 1;
                i = j + 3;
            },
        }
    }
}

/// The number of union variant separators (` | `) of a rendered signature.
pub fn signature_union_count(display: &str) -> (r: usize)
    ensures
        r == union_count(crate::source_support::source_lines(display.spec_bytes())),
{
    let n = display.as_bytes().len();
    let lines = crate::source_support::split_source_lines(display);
    let ghost ls = crate::source_support::source_lines(display.spec_bytes());
    proof {
        lemma_source_lines_len(display.spec_bytes());
        assert(ls.skip(0) =~= ls);
        assert(ls.take(0) =~= Seq::<Seq<u8>>::empty());
    }
    let mut total: usize = 0;
    let mut i: usize = 0;
    while i < lines.len()
        invariant
            i <= lines@.len() == ls.len(),
            crate::source_support::line_bytes_of(lines@) == ls,
            total == union_count(ls.take(i as int)),
            total + lens_sum(ls.skip(i as int)) <= n,
            n == display.spec_bytes().len(),
        decreases lines@.len() - i,
    {
        let line = lines[i];
        proof {
            assert(ls[i as int] == line.spec_bytes());
            lemma_lines_step(ls, i as int);
            lemma_lens_sum_nonneg(ls.skip(i + 1));
        }
        let c = line_bar_count(line.as_bytes());
        total = total + c;
        i = i + 1;
    }
    proof {
        assert(ls.take(ls.len() as int) =~= ls);
    }
    total
}

/// `a` renders a signature better than `b`: fewer unresolved parameters,
/// then fewer unresolved returns, then more union variants.
pub open spec fn better_display(a: Seq<u8>, b: Seq<u8>) -> bool {
    let ca = unresolved_counts(crate::source_support::source_lines(a));
    let cb = unresolved_counts(crate::source_support::source_lines(b));
    let va = union_count(crate::source_support::source_lines(a));
    let vb = union_count(crate::source_support::source_lines(b));
    if ca.0 != cb.0 {
        ca.0 < cb.0
    } else if ca.1 != cb.1 {
        ca.1 < cb.1
    } else {
        va > vb
    }
}

/// Whether the rendering `candidate_display` is better than `current_display`.
pub fn is_better_signature_display(candidate_display: &str, current_display: &str) -> (r: bool)
    requires
        all_countable(crate::source_support::source_lines(candidate_display.spec_bytes())),
        all_countable(crate::source_support::source_lines(current_display.spec_bytes())),
    ensures
        r == better_display(candidate_display.spec_bytes(), current_display.spec_bytes()),
{
    let (candidate_param_unresolved, candidate_return_unresolved) =
        hover_signature_unresolved_counts(candidate_display);
    let (current_param_unresolved, current_return_unresolved) = hover_signature_unresolved_counts(
        current_display,
    );
    if candidate_param_unresolved != current_param_unresolved {
        return candidate_param_unresolved < current_param_unresolved;
    }
    if candidate_return_unresolved != current_return_unresolved {
        return candidate_return_unresolved < current_return_unresolved;
    }
    let candidate_untyped = hover_untyped_slots(candidate_display);
    let current_untyped = hover_untyped_slots(current_display);
    if candidate_untyped != current_untyped {
        return candidate_untyped < current_untyped;
    }
    let candidate_variants = signature_union_count(candidate_display);
    let current_variants = signature_union_count(current_display);
    if candidate_variants != current_variants {
        return candidate_variants > current_variants;
    }
    false
}

/// No rendering is better than itself.
pub proof fn law_better_display_irreflexive(a: Seq<u8>)
    ensures
        !better_display(a, a),
{
}

/// Of two renderings, at most one is better than the other.
pub proof fn law_better_display_asymmetric(a: Seq<u8>, b: Seq<u8>)
    ensures
        better_display(a, b) ==> !better_display(b, a),
{
}

/// Being a better rendering is transitive.
pub proof fn law_better_display_transitive(a: Seq<u8>, b: Seq<u8>, c: Seq<u8>)
    requires
        better_display(a, b),
        better_display(b, c),
    ensures
        better_display(a, c),
{
}

/// `: `, between a method's name and its signature in a hover display.
pub open spec fn pat_name_sep() -> Seq<u8> {
    seq![0x3au8, 0x20u8]
}

/// The signature part of a hover display for method `name`: the display
/// without a leading `name: `.
pub open spec fn hover_signature_part(name: Seq<u8>, display: Seq<u8>) -> Seq<u8> {
    let p = name + pat_name_sep();
    if display.len() >= p.len() && display.take(p.len() as int) == p {
        display.skip(p.len() as int)
    } else {
        display
    }
}

/// The signature part of the hover display `display` of method `name`.
pub fn hover_display_candidate<'a>(method_name: &str, display: &'a str) -> (r: &'a str)
    ensures
        r.spec_bytes() == hover_signature_part(method_name.spec_bytes(), display.spec_bytes()),
{
    let d = display.as_bytes();
    let n = method_name.as_bytes();
    let ghost p = n@ + pat_name_sep();
    if d.len() < n.len() || d.len() - n.len() < 2 {
        return display;
    }
    let mut k: usize = 0;
    while k < n.len()
        invariant
            k <= n@.len() <= d@.len(),
            d@.len() >= p.len(),
            p == n@ + pat_name_sep(),
            d@ == display.spec_bytes(),
            n@ == method_name.spec_bytes(),
            forall|j: int| 0 <= j < k ==> d@[j] == n@[j],
        decreases n@.len() - k,
    {
        if d[k] != n[k] {
            proof {
                assert(d@.take(p.len() as int)[k as int] != p[k as int]);
            }
            return display;
        }
        k = k + 1;
    }
    let m = n.len();
    if d[m] != 0x3a || d[m + 1] != 0x20 {
        proof {
            assert(d@.take(p.len() as int)[m as int] == d@[m as int]);
            assert(d@.take(p.len() as int)[m + 1] == d@[m + 1]);
        }
        return display;
    }
    proof {
        assert(d@.take(p.len() as int) =~= p);
        lemma_str_valid(display);
        crate::text::lemma_after_ascii(d@, m + 1);
    }
    str_slice(display, m + 2, d.len())
}

/// The text of a signature code lens when the rendered signature `current`
/// has an `untyped` slot and a hover at the method's name rendered
/// `hover_display`: the hover's signature when it is the better rendering,
/// else `current`.
pub open spec fn lens_text_with_hover(name: Seq<u8>, current: Seq<u8>, hover_display: Option<Seq<u8>>) -> Seq<u8> {
    match hover_display {
        Some(d) => if better_display(hover_signature_part(name, d), current) {
            hover_signature_part(name, d)
        } else {
            current
        },
        None => current,
    }
}

/// The code lens text for method `method_name` given its rendered signature
/// and, when a hover was asked, the hover's display.
pub fn code_lens_text_with_hover(method_name: &str, current: &str, hover_display: Option<&str>) -> (r: String)
    requires
        all_countable(crate::source_support::source_lines(current.spec_bytes())),
        hover_display matches Some(d) ==> all_countable(
            crate::source_support::source_lines(
                hover_signature_part(method_name.spec_bytes(), d.spec_bytes()),
            ),
        ),
    ensures
        bytes_of(r) == lens_text_with_hover(
            method_name.spec_bytes(),
            current.spec_bytes(),
            match hover_display {
                Some(d) => Some(d.spec_bytes()),
                None => None,
            },
        ),
{
    match hover_display {
        None => crate::text::to_string_of(current),
        Some(display) => {
            let candidate = hover_display_candidate(method_name, display);
            if is_better_signature_display(candidate, current) {
                crate::text::to_string_of(candidate)
            } else {
                crate::text::to_string_of(current)
            }
        },
    }
}

} // verus!
