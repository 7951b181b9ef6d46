//! `//` line comments removed from JSON-with-comments configuration text,
//! leaving string literals untouched.

use vstd::prelude::*;
use vstd::string::*;
use vstd::utf8::*;
use crate::text::{bytes_of, index_of, index_of_byte, is_boundary, lemma_str_valid, push_str, str_slice};

verus! {

broadcast use vstd::seq_lib::group_seq_properties;

/// The text from offset `i` on with line comments removed, where
/// `in_string` and `escaped` give the state of the scan: inside a string
/// every byte is kept (a `\` escapes the next one, an unescaped `"` closes
/// it); outside, `"` opens a string and `//` drops everything up to the
/// next newline, which is kept.
pub open spec fn jsonc_stripped(b: Seq<u8>, i: int, in_string: bool, escaped: bool) -> Seq<u8>
    decreases b.len() - i,
    via jsonc_stripped_decreases
{
    if i < 0 || i >= b.len() {
        Seq::empty()
    } else {
        let x = b[i];
        if in_string {
            seq![x] + if escaped {
                jsonc_stripped(b, i + 1, true, false)
            } else if x == 0x5c {
                jsonc_stripped(b, i + 1, true, true)
            } else if x == 0x22 {
                jsonc_stripped(b, i + 1, false, false)
            } else {
                jsonc_stripped(b, i + 1, true, false)
            }
        } else if x == 0x22 {
            seq![x] + jsonc_stripped(b, i + 1, true, false)
        } else if x == 0x2f && i + 1 < b.len() && b[i + 1] == 0x2f {
            let e = index_of_byte(b, i + 2, b.len() as int, 0x0au8);
            if e < b.len() {
                seq![0x0au8] + jsonc_stripped(b, e + 1, false, false)
            } else {
                Seq::empty()
            }
        } else {
            seq![x] + jsonc_stripped(b, i + 1, false, false)
        }
    }
}

#[via_fn]
proof fn jsonc_stripped_decreases(b: Seq<u8>, i: int, in_string: bool, escaped: bool) {
    if 0 <= i < b.len() && i + 2 <= b.len() {
        crate::text::lemma_index_of_range(b, i + 2, b.len() as int, 0x0au8);
    }
}

/// A newline.
fn newline() -> (r: &'static str)
    ensures
        r.spec_bytes() == seq![0x0au8],
{
    let r = "\n";
    proof {
        reveal_strlit("\n");
        vstd::utf8::is_ascii_chars_encode_utf8(r@);
        assert(r.spec_bytes() =~= seq![0x0au8]);
    }
    r
}

/// `input` with its `//` line comments removed; string literals, where
/// `//` is text, are kept as they are.
pub fn strip_jsonc_comments(input: &str) -> (r: String)
    ensures
        bytes_of(r) == jsonc_stripped(input.spec_bytes(), 0, false, false),
{
    let b = input.as_bytes();
    let n = b.len();
    let ghost total = jsonc_stripped(b@, 0, false, false);
    proof {
        lemma_str_valid(input);
    }
    let mut result = String::new();
    proof {
        assert(bytes_of(result) =~= Seq::<u8>::empty());
    }
    let mut run_start: usize = 0;
    let mut i: usize = 0;
    let mut in_string = false;
    let mut escaped = false;
    while i < n
        invariant
            run_start <= i <= n == b@.len(),
            b@ == input.spec_bytes(),
            vstd::utf8::valid_utf8(b@),
            is_boundary(b@, run_start as int),
            !in_string ==> !escaped,
            total == jsonc_stripped(b@, 0, false, false),
            bytes_of(result) + b@.subrange(run_start as int, i as int) + jsonc_stripped(
                b@,
                i as int,
                in_string,
                escaped,
            ) == total,
        decreases n - i,
    {
        let x = b[i];
        let ghost before = b@.subrange(run_start as int, i as int);
        let ghost done = bytes_of(result);
        let ghost st = in_string;
        let ghost esc = escaped;
        if in_string {
            if escaped {
                escaped = false;
            } else if x == 0x5c {
                escaped = true;
            } else if x == 0x22 {
                in_string = false;
            }
            proof {
                assert(b@.subrange(run_start as int, i + 1) =~= before + seq![x]);
                assert(jsonc_stripped(b@, i as int, st, esc) == seq![x] + jsonc_stripped(
                    b@,
                    i + 1,
                    in_string,
                    escaped,
                ));
                assert(done + before + jsonc_stripped(b@, i as int, st, esc) =~= done + (before
                    + seq![x]) + jsonc_stripped(b@, i + 1, in_string, escaped));
            }
            i = i + 1;
        } else if x == 0x22 {
            in_string = true;
            proof {
                assert(b@.subrange(run_start as int, i + 1) =~= before + seq![x]);
                assert(jsonc_stripped(b@, i as int, st, esc) == seq![x] + jsonc_stripped(
                    b@,
                    i + 1,
                    true,
                    false,
                ));
                assert(done + before + jsonc_stripped(b@, i as int, st, esc) =~= done + (before
                    + seq![x]) + jsonc_stripped(b@, i + 1, true, false));
            }
            i = i + 1;
        } else if x == 0x2f && i + 1 < n && b[i + 1] == 0x2f {
            proof {
                crate::text::lemma_ascii_at(b@, i as int);
            }
            push_str(&mut result, str_slice(input, run_start, i));
            let e = index_of(b, i + 2, n, 0x0a);
            if e < n {
                push_str(&mut result, newline());
                proof {
                    crate::text::lemma_after_ascii(b@, e as int);
                    assert(b@.subrange(e + 1, e + 1) =~= Seq::<u8>::empty());
                    assert(jsonc_stripped(b@, i as int, st, esc) == seq![0x0au8] + jsonc_stripped(
                        b@,
                        e + 1,
                        false,
                        false,
                    ));
                    assert(bytes_of(result) + b@.subrange(e + 1, e + 1) + jsonc_stripped(
                        b@,
                        e + 1,
                        false,
                        false,
                    ) =~= done + before + jsonc_stripped(b@, i as int, st, esc));
                }
                run_start = e + 1;
                i = e + 1;
            } else {
                proof {
                    assert(!st);
                    assert(jsonc_stripped(b@, i as int, st, esc) =~= Seq::<u8>::empty());
                    assert(bytes_of(result) =~= done + before);
                    assert(done + before + Seq::<u8>::empty() =~= done + before);
                    assert(bytes_of(result) =~= total);
                }
                return result;
            }
        } else {
            proof {
                assert(b@.subrange(run_start as int, i + 1) =~= before + seq![x]);
                assert(jsonc_stripped(b@, i as int, st, esc) == seq![x] + jsonc_stripped(
                    b@,
                    i + 1,
                    false,
                    false,
                ));
                assert(done + before + jsonc_stripped(b@, i as int, st, esc) =~= done + (before
                    + seq![x]) + jsonc_stripped(b@, i + 1, false, false));
            }
            i = i + 1;
        }
    }
    push_str(&mut result, str_slice(input, run_start, n));
    proof {
        assert(bytes_of(result) =~= total);
    }
    result
}

/// The number of newline bytes in `s`.
pub open spec fn newline_count(s: Seq<u8>) -> int
    decreases s.len(),
{
    if s.len() == 0 {
        0
    } else {
        (if s[0] == 0x0au8 {
            1int
        } else {
            0int
        }) + newline_count(s.drop_first())
    }
}

/// `a` can be read off `b` left to right, skipping items of `b`: `a` is a
/// subsequence of `b`.
pub open spec fn embeds<A>(a: Seq<A>, b: Seq<A>) -> bool
    decreases b.len(),
{
    if a.len() == 0 {
        true
    } else if b.len() == 0 {
        false
    } else if a[0] == b[0] {
        embeds(a.drop_first(), b.drop_first())
    } else {
        embeds(a, b.drop_first())
    }
}

/// The bytes of `b` from `i` on.
spec fn rest(b: Seq<u8>, i: int) -> Seq<u8> {
    b.subrange(i, b.len() as int)
}

/// `rest` peels off one byte at a time.
proof fn lemma_rest_step(b: Seq<u8>, i: int)
    requires
        0 <= i < b.len(),
    ensures
        rest(b, i) == seq![b[i]] + rest(b, i + 1),
        rest(b, i).drop_first() == rest(b, i + 1),
        rest(b, i)[0] == b[i],
{
    assert(rest(b, i) =~= seq![b[i]] + rest(b, i + 1));
    assert(rest(b, i).drop_first() =~= rest(b, i + 1));
}

/// What `index_of_byte` finds: no `x` before it, and `x` at it unless it is
/// `hi`.
proof fn lemma_index_of_found(b: Seq<u8>, i: int, hi: int, x: u8)
    requires
        i <= hi,
    ensures
        i <= index_of_byte(b, i, hi, x) <= hi,
        forall|k: int| i <= k < index_of_byte(b, i, hi, x) ==> b[k] != x,
        index_of_byte(b, i, hi, x) < hi ==> b[index_of_byte(b, i, hi, x)] == x,
    decreases hi - i,
{
    if i < hi && b[i] != x {
        lemma_index_of_found(b, i + 1, hi, x);
    }
}

/// Bytes that are no newline do not count.
proof fn lemma_newlines_skip(b: Seq<u8>, i: int, j: int)
    requires
        0 <= i <= j <= b.len(),
        forall|k: int| i <= k < j ==> b[k] != 0x0au8,
    ensures
        newline_count(rest(b, i)) == newline_count(rest(b, j)),
    decreases j - i,
{
    if i < j {
        lemma_rest_step(b, i);
        lemma_newlines_skip(b, i + 1, j);
    }
}

/// The stripped text has as many newlines as the text it was read from.
proof fn lemma_stripped_newlines(b: Seq<u8>, i: int, in_string: bool, escaped: bool)
    requires
        0 <= i <= b.len(),
    ensures
        newline_count(jsonc_stripped(b, i, in_string, escaped)) == newline_count(rest(b, i)),
    decreases b.len() - i,
{
    if i < b.len() {
        let x = b[i];
        lemma_rest_step(b, i);
        let o = jsonc_stripped(b, i, in_string, escaped);
        if in_string {
            let ns = if escaped { true } else if x == 0x5c { true } else if x == 0x22 { false } else { true };
            let ne = !escaped && x == 0x5c;
            lemma_stripped_newlines(b, i + 1, ns, ne);
            assert(o == seq![x] + jsonc_stripped(b, i + 1, ns, ne));
            assert(o.drop_first() =~= jsonc_stripped(b, i + 1, ns, ne));
        } else if x == 0x22 {
            lemma_stripped_newlines(b, i + 1, true, false);
            assert(o == seq![x] + jsonc_stripped(b, i + 1, true, false));
            assert(o.drop_first() =~= jsonc_stripped(b, i + 1, true, false));
        } else if x == 0x2f && i + 1 < b.len() && b[i + 1] == 0x2f {
            let e = index_of_byte(b, i + 2, b.len() as int, 0x0au8);
            lemma_index_of_found(b, i + 2, b.len() as int, 0x0au8);
            lemma_rest_step(b, i + 1);
            lemma_newlines_skip(b, i + 2, e);
            if e < b.len() {
                lemma_rest_step(b, e);
                lemma_stripped_newlines(b, e + 1, false, false);
                assert(o == seq![0x0au8] + jsonc_stripped(b, e + 1, false, false));
                assert(o.drop_first() =~= jsonc_stripped(b, e + 1, false, false));
                assert(newline_count(rest(b, e)) == 1 + newline_count(rest(b, e + 1)));
            } else {
                assert(rest(b, e) =~= Seq::<u8>::empty());
                assert(o =~= Seq::<u8>::empty());
            }
            assert(newline_count(rest(b, i)) == newline_count(rest(b, i + 1)));
            assert(newline_count(rest(b, i + 1)) == newline_count(rest(b, i + 2)));
        } else {
            lemma_stripped_newlines(b, i + 1, false, false);
            assert(o == seq![x] + jsonc_stripped(b, i + 1, false, false));
            assert(o.drop_first() =~= jsonc_stripped(b, i + 1, false, false));
        }
    } else {
        assert(rest(b, i) =~= Seq::<u8>::empty());
    }
}

/// A subsequence stays one when a byte is put in front of the longer text.
proof fn lemma_embeds_prepend<A>(a: Seq<A>, c: A, t: Seq<A>)
    requires
        embeds(a, t),
    ensures
        embeds(a, seq![c] + t),
    decreases t.len(), 1int,
{
    let ct = seq![c] + t;
    assert(ct.drop_first() =~= t);
    if a.len() > 0 && a[0] == c {
        lemma_embeds_drop(a, t);
    }
}

/// Dropping the first byte of a subsequence leaves a subsequence.
proof fn lemma_embeds_drop<A>(a: Seq<A>, t: Seq<A>)
    requires
        embeds(a, t),
        a.len() > 0,
    ensures
        embeds(a.drop_first(), t),
    decreases t.len(), 0int,
{
    if t.len() > 0 {
        let t1 = t.drop_first();
        assert(t =~= seq![t[0]] + t1);
        if a[0] == t[0] {
            lemma_embeds_prepend(a.drop_first(), t[0], t1);
        } else {
            lemma_embeds_drop(a, t1);
            lemma_embeds_prepend(a.drop_first(), t[0], t1);
        }
    }
}

/// A subsequence of the text from `j` on is one of the text from `i <= j` on.
proof fn lemma_embeds_earlier(a: Seq<u8>, b: Seq<u8>, i: int, j: int)
    requires
        0 <= i <= j <= b.len(),
        embeds(a, rest(b, j)),
    ensures
        embeds(a, rest(b, i)),
    decreases j - i,
{
    if i < j {
        lemma_embeds_earlier(a, b, i + 1, j);
        lemma_rest_step(b, i);
        lemma_embeds_prepend(a, b[i], rest(b, i + 1));
    }
}

/// The stripped text is a subsequence of the text it was read from.
proof fn lemma_stripped_embeds(b: Seq<u8>, i: int, in_string: bool, escaped: bool)
    requires
        0 <= i <= b.len(),
    ensures
        embeds(jsonc_stripped(b, i, in_string, escaped), rest(b, i)),
    decreases b.len() - i,
{
    if i < b.len() {
        let x = b[i];
        lemma_rest_step(b, i);
        let o = jsonc_stripped(b, i, in_string, escaped);
        if in_string {
            let ns = if escaped { true } else if x == 0x5c { true } else if x == 0x22 { false } else { true };
            let ne = !escaped && x == 0x5c;
            lemma_stripped_embeds(b, i + 1, ns, ne);
            assert(o.drop_first() == jsonc_stripped(b, i + 1, ns, ne));
        } else if x == 0x22 {
            lemma_stripped_embeds(b, i + 1, true, false);
            assert(o.drop_first() == jsonc_stripped(b, i + 1, true, false));
        } else if x == 0x2f && i + 1 < b.len() && b[i + 1] == 0x2f {
            let e = index_of_byte(b, i + 2, b.len() as int, 0x0au8);
            lemma_index_of_found(b, i + 2, b.len() as int, 0x0au8);
            if e < b.len() {
                lemma_rest_step(b, e);
                lemma_stripped_embeds(b, e + 1, false, false);
                assert(o.drop_first() == jsonc_stripped(b, e + 1, false, false));
                assert(embeds(o, rest(b, e)));
                lemma_embeds_earlier(o, b, i, e);
            }
        } else {
            lemma_stripped_embeds(b, i + 1, false, false);
            assert(o.drop_first() == jsonc_stripped(b, i + 1, false, false));
        }
    }
}

/// `index_of_byte` after a byte put in front.
proof fn lemma_index_of_shift(x: u8, t: Seq<u8>, k: int, y: u8)
    requires
        0 <= k,
    ensures
        index_of_byte(seq![x] + t, k + 1, (t.len() + 1) as int, y) == index_of_byte(t, k, t.len() as int, y) + 1,
    decreases t.len() - k,
{
    let c = seq![x] + t;
    if k < t.len() {
        assert(c[k + 1] == t[k]);
        if t[k] != y {
            lemma_index_of_shift(x, t, k + 1, y);
        }
    }
}

/// Stripping does not look behind its start: a byte put in front changes
/// nothing from the next offset on.
proof fn lemma_stripped_shift(x: u8, t: Seq<u8>, k: int, in_string: bool, escaped: bool)
    requires
        0 <= k,
    ensures
        jsonc_stripped(seq![x] + t, k + 1, in_string, escaped) == jsonc_stripped(t, k, in_string, escaped),
    decreases t.len() - k,
{
    let c = seq![x] + t;
    if k < t.len() {
        let y = t[k];
        assert(c[k + 1] == y);
        if in_string {
            let ns = if escaped { true } else if y == 0x5c { true } else if y == 0x22 { false } else { true };
            let ne = !escaped && y == 0x5c;
            lemma_stripped_shift(x, t, k + 1, ns, ne);
        } else if y == 0x22 {
            lemma_stripped_shift(x, t, k + 1, true, false);
        } else if y == 0x2f && k + 1 < t.len() && t[k + 1] == 0x2f {
            assert(c[k + 2] == t[k + 1]);
            lemma_index_of_shift(x, t, k + 2, 0x0au8);
            let e = index_of_byte(t, k + 2, t.len() as int, 0x0au8);
            lemma_index_of_found(t, k + 2, t.len() as int, 0x0au8);
            if e < t.len() {
                lemma_stripped_shift(x, t, e + 1, false, false);
            }
        } else {
            if y == 0x2f && k + 2 < c.len() {
                assert(c[k + 2] == t[k + 1]);
            }
            lemma_stripped_shift(x, t, k + 1, false, false);
        }
    }
}

/// Outside strings, stripping from a byte that is no `/` starts with a byte
/// that is no `/`.
proof fn lemma_stripped_first(b: Seq<u8>, j: int)
    requires
        0 <= j < b.len(),
        b[j] != 0x2fu8,
    ensures
        jsonc_stripped(b, j, false, false).len() > 0,
        jsonc_stripped(b, j, false, false)[0] != 0x2fu8,
{
}

/// Stripping a stripped text changes nothing.
proof fn lemma_stripped_idempotent(b: Seq<u8>, i: int, in_string: bool, escaped: bool)
    requires
        0 <= i <= b.len(),
    ensures
        jsonc_stripped(jsonc_stripped(b, i, in_string, escaped), 0, in_string, escaped) == jsonc_stripped(
            b,
            i,
            in_string,
            escaped,
        ),
    decreases b.len() - i,
{
    let o = jsonc_stripped(b, i, in_string, escaped);
    if i < b.len() {
        let x = b[i];
        if in_string {
            let ns = if escaped { true } else if x == 0x5c { true } else if x == 0x22 { false } else { true };
            let ne = !escaped && x == 0x5c;
            let o1 = jsonc_stripped(b, i + 1, ns, ne);
            assert(o == seq![x] + o1);
            lemma_stripped_idempotent(b, i + 1, ns, ne);
            lemma_stripped_shift(x, o1, 0, ns, ne);
        } else if x == 0x22 {
            let o1 = jsonc_stripped(b, i + 1, true, false);
            assert(o == seq![x] + o1);
            lemma_stripped_idempotent(b, i + 1, true, false);
            lemma_stripped_shift(x, o1, 0, true, false);
        } else if x == 0x2f && i + 1 < b.len() && b[i + 1] == 0x2f {
            let e = index_of_byte(b, i + 2, b.len() as int, 0x0au8);
            lemma_index_of_found(b, i + 2, b.len() as int, 0x0au8);
            if e < b.len() {
                let o1 = jsonc_stripped(b, e + 1, false, false);
                assert(o == seq![0x0au8] + o1);
                lemma_stripped_idempotent(b, e + 1, false, false);
                lemma_stripped_shift(0x0au8, o1, 0, false, false);
            } else {
                assert(o =~= Seq::<u8>::empty());
            }
        } else {
            let o1 = jsonc_stripped(b, i + 1, false, false);
            assert(o == seq![x] + o1);
            lemma_stripped_idempotent(b, i + 1, false, false);
            lemma_stripped_shift(x, o1, 0, false, false);
            if x == 0x2f && i + 1 < b.len() {
                lemma_stripped_first(b, i + 1);
                assert(o[1] == o1[0]);
            }
        }
    } else {
        assert(o =~= Seq::<u8>::empty());
    }
}

/// Removing comments keeps every newline (so line numbers in the
/// configuration stay as they were), keeps the rest of the text in order
/// without adding to it, and leaves nothing for a second pass to remove.
pub proof fn law_strip_jsonc_comments(b: Seq<u8>)
    ensures
        newline_count(jsonc_stripped(b, 0, false, false)) == newline_count(b),
        embeds(jsonc_stripped(b, 0, false, false), b),
        jsonc_stripped(jsonc_stripped(b, 0, false, false), 0, false, false) == jsonc_stripped(b, 0, false, false),
{
    assert(rest(b, 0) =~= b);
    lemma_stripped_newlines(b, 0, false, false);
    lemma_stripped_embeds(b, 0, false, false);
    lemma_stripped_idempotent(b, 0, false, false);
}

/// A subsequence stays one when a list is put in front of the longer one.
proof fn lemma_embeds_prepend_all<A>(a: Seq<A>, q: Seq<A>, t: Seq<A>)
    requires
        embeds(a, t),
    ensures
        embeds(a, q + t),
    decreases q.len(),
{
    if q.len() > 0 {
        lemma_embeds_prepend_all(a, q.drop_first(), t);
        lemma_embeds_prepend(a, q[0], q.drop_first() + t);
        assert(seq![q[0]] + (q.drop_first() + t) =~= q + t);
    }
}

/// Stripping does not look behind its start: text put in front changes
/// nothing from the matching offset on.
proof fn lemma_stripped_shift_all(q: Seq<u8>, u: Seq<u8>, k: int, in_string: bool, escaped: bool)
    requires
        0 <= k,
    ensures
        jsonc_stripped(q + u, q.len() + k, in_string, escaped) == jsonc_stripped(u, k, in_string, escaped),
    decreases q.len(),
{
    if q.len() > 0 {
        let q1 = q.drop_first();
        lemma_stripped_shift_all(q1, u, k, in_string, escaped);
        lemma_stripped_shift(q[0], q1 + u, q1.len() + k, in_string, escaped);
        assert(seq![q[0]] + (q1 + u) =~= q + u);
    }
}

/// Bytes of a multi-byte character are kept as they are, and leave no
/// escape pending.
proof fn lemma_keep_high_run(t: Seq<u8>, i: int, j: int, in_string: bool, escaped: bool)
    requires
        0 <= i < j <= t.len(),
        forall|k: int| i <= k < j ==> #[trigger] t[k] >= 0x80,
    ensures
        jsonc_stripped(t, i, in_string, escaped) == t.subrange(i, j) + jsonc_stripped(t, j, in_string, false),
    decreases j - i,
{
    assert(t[i] >= 0x80);
    if i + 1 < j {
        lemma_keep_high_run(t, i + 1, j, in_string, false);
        assert(t.subrange(i, j) =~= seq![t[i]] + t.subrange(i + 1, j));
    } else {
        assert(t.subrange(i, j) =~= seq![t[i]]);
    }
}

/// Decoding a character followed by valid text.
proof fn lemma_decode_first(t: Seq<u8>, r: Seq<u8>)
    requires
        valid_utf8(t),
        t.len() > 0,
        valid_utf8(r),
    ensures
        valid_utf8(take_first_scalar(t) + r),
        decode_utf8(take_first_scalar(t) + r) == seq![decode_first_scalar(t) as char] + decode_utf8(r),
{
    let h = take_first_scalar(t);
    let w = length_of_first_scalar(t);
    let c = h + r;
    assert(forall|k: int| 0 <= k < w ==> #[trigger] c[k] == t[k]);
    assert(valid_first_scalar(c));
    assert(pop_first_scalar(c) =~= r);
    assert(decode_first_scalar(c) == decode_first_scalar(t));
}

/// Where a comment runs from the start of `t` to a newline at `e`, the text
/// after that newline is valid, and the newline is one character.
proof fn lemma_comment_rest(t: Seq<u8>, e: int)
    requires
        valid_utf8(t),
        2 <= e < t.len(),
        t[e] == 0x0au8,
    ensures
        valid_utf8(t.subrange(e + 1, t.len() as int)),
        valid_utf8(t.subrange(e, t.len() as int)),
        take_first_scalar(t.subrange(e, t.len() as int)) == seq![0x0au8],
        pop_first_scalar(t.subrange(e, t.len() as int)) == t.subrange(e + 1, t.len() as int),
        decode_utf8(t) == decode_utf8(t.subrange(0, e)) + decode_utf8(t.subrange(e, t.len() as int)),
{
    vstd::utf8::is_char_boundary_iff_not_is_continuation_byte(t, e);
    vstd::utf8::valid_utf8_split(t, e);
    vstd::utf8::decode_utf8_split(t, e);
    let back = t.subrange(e, t.len() as int);
    assert(back[0] == 0x0au8);
    assert(take_first_scalar(back) =~= seq![0x0au8]);
    assert(pop_first_scalar(back) =~= t.subrange(e + 1, t.len() as int));
}

/// The comment case: a comment from the start of `t` up to a newline at
/// `e` becomes that newline, and the rest is stripped on its own.
proof fn lemma_comment_chars(t: Seq<u8>, e: int, escaped: bool)
    requires
        valid_utf8(t),
        2 <= e < t.len(),
        t[0] == 0x2fu8,
        t[1] == 0x2fu8,
        e == index_of_byte(t, 2, t.len() as int, 0x0au8),
        t[e] == 0x0au8,
        valid_utf8(jsonc_stripped(t.subrange(e + 1, t.len() as int), 0, false, false)),
        embeds(
            decode_utf8(jsonc_stripped(t.subrange(e + 1, t.len() as int), 0, false, false)),
            decode_utf8(t.subrange(e + 1, t.len() as int)),
        ),
    ensures
        valid_utf8(jsonc_stripped(t, 0, false, escaped)),
        embeds(decode_utf8(jsonc_stripped(t, 0, false, escaped)), decode_utf8(t)),
{
    lemma_comment_rest(t, e);
    let back = t.subrange(e, t.len() as int);
    let q = t.subrange(e + 1, t.len() as int);
    let o = jsonc_stripped(t, 0, false, escaped);
    let o2 = jsonc_stripped(q, 0, false, false);
    assert(t =~= t.subrange(0, e + 1) + q);
    lemma_stripped_shift_all(t.subrange(0, e + 1), q, 0, false, false);
    assert(o == seq![0x0au8] + o2);
    lemma_decode_first(back, o2);
    assert(take_first_scalar(back) + o2 =~= o);
    assert(decode_utf8(back) == seq![decode_first_scalar(back) as char] + decode_utf8(q));
    let nl = decode_first_scalar(back) as char;
    assert(embeds(seq![nl] + decode_utf8(o2), seq![nl] + decode_utf8(q))) by {
        assert((seq![nl] + decode_utf8(o2)).drop_first() =~= decode_utf8(o2));
        assert((seq![nl] + decode_utf8(q)).drop_first() =~= decode_utf8(q));
    }
    lemma_embeds_prepend_all(decode_utf8(o), decode_utf8(t.subrange(0, e)), decode_utf8(back));
}

/// The scan state after the first character `t` starts with, outside a
/// comment.
spec fn state_after_first(t: Seq<u8>, in_string: bool, escaped: bool) -> (bool, bool) {
    let x = t[0];
    if length_of_first_scalar(t) == 1 {
        if in_string {
            if escaped {
                (true, false)
            } else if x == 0x5c {
                (true, true)
            } else if x == 0x22 {
                (false, false)
            } else {
                (true, false)
            }
        } else if x == 0x22 {
            (true, false)
        } else {
            (false, false)
        }
    } else {
        (in_string, false)
    }
}

/// Outside a comment, the first character is kept whole and the rest is
/// stripped on its own from the state it leaves.
proof fn lemma_kept_first(t: Seq<u8>, in_string: bool, escaped: bool)
    requires
        valid_utf8(t),
        t.len() > 0,
        !(!in_string && t[0] == 0x2f && 1 < t.len() && t[1] == 0x2f),
    ensures
        jsonc_stripped(t, 0, in_string, escaped) == take_first_scalar(t) + jsonc_stripped(
            pop_first_scalar(t),
            0,
            state_after_first(t, in_string, escaped).0,
            state_after_first(t, in_string, escaped).1,
        ),
{
    let w = length_of_first_scalar(t);
    let h = take_first_scalar(t);
    let p = pop_first_scalar(t);
    let st = state_after_first(t, in_string, escaped);
    assert(t =~= h + p);
    if w == 1 {
        assert(h =~= seq![t[0]]);
    } else {
        assert forall|k: int| 0 <= k < w implies #[trigger] t[k] >= 0x80 by {
            if k > 0 {
                assert(vstd::utf8::is_continuation_byte(t[k]));
            }
        }
        lemma_keep_high_run(t, 0, w, in_string, escaped);
        assert(t.subrange(0, w) == h);
    }
    lemma_stripped_shift_all(h, p, 0, st.0, st.1);
}

/// Stripping valid text gives valid text whose characters are a
/// subsequence of the text's.
proof fn lemma_stripped_chars(t: Seq<u8>, in_string: bool, escaped: bool)
    requires
        valid_utf8(t),
    ensures
        valid_utf8(jsonc_stripped(t, 0, in_string, escaped)),
        embeds(decode_utf8(jsonc_stripped(t, 0, in_string, escaped)), decode_utf8(t)),
    decreases t.len(),
{
    if t.len() == 0 {
        assert(jsonc_stripped(t, 0, in_string, escaped) =~= Seq::<u8>::empty());
    } else if !in_string && t[0] == 0x2f && 1 < t.len() && t[1] == 0x2f {
        let e = index_of_byte(t, 2, t.len() as int, 0x0au8);
        lemma_index_of_found(t, 2, t.len() as int, 0x0au8);
        if e < t.len() {
            lemma_comment_rest(t, e);
            lemma_stripped_chars(t.subrange(e + 1, t.len() as int), false, false);
            lemma_comment_chars(t, e, escaped);
        } else {
            assert(jsonc_stripped(t, 0, in_string, escaped) =~= Seq::<u8>::empty());
        }
    } else {
        let p = pop_first_scalar(t);
        let st = state_after_first(t, in_string, escaped);
        lemma_kept_first(t, in_string, escaped);
        let o2 = jsonc_stripped(p, 0, st.0, st.1);
        lemma_stripped_chars(p, st.0, st.1);
        lemma_decode_first(t, o2);
        let c = decode_first_scalar(t) as char;
        assert(decode_utf8(t) == seq![c] + decode_utf8(p));
        assert(embeds(seq![c] + decode_utf8(o2), seq![c] + decode_utf8(p))) by {
            assert((seq![c] + decode_utf8(o2)).drop_first() =~= decode_utf8(o2));
            assert((seq![c] + decode_utf8(p)).drop_first() =~= decode_utf8(p));
        }
    }
}

/// The characters of the stripped configuration text are a subsequence of
/// the text's characters: removing comments only leaves characters out.
pub proof fn law_strip_jsonc_keeps_characters(input: &str, r: String)
    requires
        bytes_of(r) == jsonc_stripped(input.spec_bytes(), 0, false, false),
    ensures
        embeds(r@, input@),
{
    vstd::utf8::encode_utf8_valid_utf8(input@);
    vstd::utf8::encode_utf8_decode_utf8(input@);
    vstd::utf8::encode_utf8_decode_utf8(r@);
    lemma_stripped_chars(input.spec_bytes(), false, false);
}

} // verus!
