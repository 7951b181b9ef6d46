//! Completion contexts read from the text around the cursor: `recv.prefix`,
//! `send(:prefix` and `Owner::Prefix`. Each context masks the text being
//! completed with spaces, so that the source still parses, and records the
//! range the completion replaces.

use vstd::prelude::*;
use vstd::string::*;
use vstd::utf8::*;
use crate::text::{bytes_of, is_boundary, last_index_of_byte, lemma_boundary, lemma_str_valid, utf8_string};
use crate::position::{Position, Range, line_start_before, spec_offset_to_position, spec_position_to_offset, lsp_position_to_byte_offset, byte_offset_to_lsp_position, NEWLINE};

verus! {

broadcast use vstd::seq_lib::group_seq_properties;

/// An ASCII letter or digit.
pub open spec fn is_ascii_alnum(x: u8) -> bool {
    (0x30 <= x <= 0x39) || (0x41 <= x <= 0x5a) || (0x61 <= x <= 0x7a)
}

/// A byte of a Ruby method name: `_`, `?`, `!`, `=` or an ASCII alphanumeric.
pub open spec fn is_method_char(x: u8) -> bool {
    x == 0x5f || x == 0x3f || x == 0x21 || x == 0x3d || is_ascii_alnum(x)
}

/// A byte of a Ruby constant name: `_` or an ASCII alphanumeric.
pub open spec fn is_constant_char(x: u8) -> bool {
    x == 0x5f || is_ascii_alnum(x)
}

/// A byte of a constant path: `:` or a constant-name byte.
pub open spec fn is_constant_path_char(x: u8) -> bool {
    x == 0x3a || is_constant_char(x)
}

/// A byte that `u8::is_ascii_whitespace` accepts.
pub open spec fn is_ascii_space(x: u8) -> bool {
    x == 0x20 || x == 0x09 || x == 0x0a || x == 0x0c || x == 0x0d
}

/// The byte classes that completion contexts scan over.
#[derive(Clone, Copy, Debug, PartialEq, Eq, Structural)]
pub enum CharClass {
    Method,
    Constant,
    ConstantPath,
    AsciiSpace,
}

/// `x` belongs to class `c`.
pub open spec fn in_class(c: CharClass, x: u8) -> bool {
    match c {
        CharClass::Method => is_method_char(x),
        CharClass::Constant => is_constant_char(x),
        CharClass::ConstantPath => is_constant_path_char(x),
        CharClass::AsciiSpace => is_ascii_space(x),
    }
}

/// Start of the longest run of class-`c` bytes that ends at `i` and does not
/// reach before `lo`.
pub open spec fn run_start(b: Seq<u8>, lo: int, i: int, c: CharClass) -> int
    decreases i - lo,
{
    if i > lo && in_class(c, b[i - 1]) {
        run_start(b, lo, i - 1, c)
    } else {
        i
    }
}

/// End of the longest run of class-`c` bytes that starts at `i` and does not
/// reach past `hi`.
pub open spec fn run_end(b: Seq<u8>, i: int, hi: int, c: CharClass) -> int
    decreases hi - i,
{
    if i < hi && in_class(c, b[i]) {
        run_end(b, i + 1, hi, c)
    } else {
        i
    }
}

/// Every byte of `[lo, hi)` belongs to class `c`.
pub open spec fn all_in_class(b: Seq<u8>, lo: int, hi: int, c: CharClass) -> bool {
    forall|k: int| lo <= k < hi ==> #[trigger] in_class(c, b[k])
}

/// `b` with the bytes of `[lo, hi)` replaced by spaces.
pub open spec fn masked(b: Seq<u8>, lo: int, hi: int) -> Seq<u8> {
    Seq::new(b.len(), |k: int| if lo <= k < hi { 0x20u8 } else { b[k] })
}

/// Whether a byte can be part of a method name being completed.
pub fn is_ruby_method_completion_char(byte: u8) -> (r: bool)
    ensures
        r == is_method_char(byte),
{
    byte == 0x5f || byte == 0x3f || byte == 0x21 || byte == 0x3d || (0x30 <= byte && byte <= 0x39)
        || (0x41 <= byte && byte <= 0x5a) || (0x61 <= byte && byte <= 0x7a)
}

/// Whether a byte can be part of a constant name being completed.
pub fn is_ruby_constant_completion_char(byte: u8) -> (r: bool)
    ensures
        r == is_constant_char(byte),
{
    byte == 0x5f || (0x30 <= byte && byte <= 0x39) || (0x41 <= byte && byte <= 0x5a) || (0x61
        <= byte && byte <= 0x7a)
}

/// Whether a byte can be part of a constant path such as `A::B`.
pub fn is_ruby_constant_path_char(byte: u8) -> (r: bool)
    ensures
        r == is_constant_path_char(byte),
{
    byte == 0x3a || is_ruby_constant_completion_char(byte)
}

/// Whether `x` belongs to class `c`.
fn byte_in_class(c: CharClass, x: u8) -> (r: bool)
    ensures
        r == in_class(c, x),
{
    match c {
        CharClass::Method => is_ruby_method_completion_char(x),
        CharClass::Constant => is_ruby_constant_completion_char(x),
        CharClass::ConstantPath => is_ruby_constant_path_char(x),
        CharClass::AsciiSpace => x == 0x20 || x == 0x09 || x == 0x0a || x == 0x0c || x == 0x0d,
    }
}

/// Exec form of `run_start`.
pub fn run_start_idx(b: &[u8], lo: usize, i: usize, c: CharClass) -> (r: usize)
    requires
        i <= b@.len(),
    ensures
        r == run_start(b@, lo as int, i as int, c),
        r <= i,
        lo <= i ==> lo <= r,
        r < i ==> lo <= r,
{
    let mut k = i;
    while k > lo && byte_in_class(c, b[k - 1])
        invariant
            k <= i <= b@.len(),
            lo <= i ==> lo <= k,
            run_start(b@, lo as int, k as int, c) == run_start(b@, lo as int, i as int, c),
        decreases k,
    {
        k = k - 1;
    }
    k
}

/// Exec form of `run_end`.
pub fn run_end_idx(b: &[u8], i: usize, hi: usize, c: CharClass) -> (r: usize)
    requires
        i <= hi <= b@.len(),
    ensures
        r == run_end(b@, i as int, hi as int, c),
        i <= r <= hi,
{
    let mut k = i;
    while k < hi && byte_in_class(c, b[k])
        invariant
            i <= k <= hi <= b@.len(),
            run_end(b@, k as int, hi as int, c) == run_end(b@, i as int, hi as int, c),
        decreases hi - k,
    {
        k = k + 1;
    }
    k
}

/// Every byte of `[lo, hi)` belongs to class `c`.
pub fn all_bytes_in_class(b: &[u8], lo: usize, hi: usize, c: CharClass) -> (r: bool)
    requires
        lo <= hi <= b@.len(),
    ensures
        r == all_in_class(b@, lo as int, hi as int, c),
{
    let mut k = lo;
    while k < hi
        invariant
            lo <= k <= hi <= b@.len(),
            all_in_class(b@, lo as int, k as int, c),
        decreases hi - k,
    {
        if !byte_in_class(c, b[k]) {
            return false;
        }
        k = k + 1;
    }
    true
}

/// Masking a span between two character boundaries of valid UTF-8 with
/// spaces leaves valid UTF-8.
pub proof fn lemma_mask_valid(b: Seq<u8>, lo: int, hi: int)
    requires
        valid_utf8(b),
        0 <= lo <= hi <= b.len(),
        is_boundary(b, lo),
        is_boundary(b, hi),
    ensures
        valid_utf8(masked(b, lo, hi)),
{
    lemma_boundary(b, lo);
    lemma_boundary(b, hi);
    valid_utf8_split(b, lo);
    valid_utf8_split(b, hi);
    let pre = b.subrange(0, lo);
    let post = b.subrange(hi, b.len() as int);
    let sp = Seq::new((hi - lo) as nat, |k: int| 0x20u8);
    assert(sp.subrange(0, 0) =~= Seq::<u8>::empty());
    assert(partial_valid_utf8(sp, 0));
    partial_valid_utf8_extend_ascii_block(sp, 0, sp.len() as int);
    assert(sp.subrange(0, sp.len() as int) =~= sp);
    valid_utf8_concat(pre, sp);
    valid_utf8_concat(pre + sp, post);
    assert(masked(b, lo, hi) =~= pre + sp + post);
}

/// `source` with the bytes of `[lo, hi)` replaced by spaces.
pub fn mask_with_spaces(source: &str, lo: usize, hi: usize) -> (r: String)
    requires
        lo <= hi <= source.spec_bytes().len(),
        is_boundary(source.spec_bytes(), lo as int),
        is_boundary(source.spec_bytes(), hi as int),
    ensures
        bytes_of(r) == masked(source.spec_bytes(), lo as int, hi as int),
{
    let b = source.as_bytes();
    let mut v: Vec<u8> = Vec::new();
    let mut k: usize = 0;
    while k < b.len()
        invariant
            k <= b@.len(),
            v@ =~= masked(b@, lo as int, hi as int).take(k as int),
        decreases b@.len() - k,
    {
        if lo <= k && k < hi {
            v.push(0x20);
        } else {
            v.push(b[k]);
        }
        k = k + 1;
    }
    proof {
        assert(v@ =~= masked(b@, lo as int, hi as int));
        lemma_str_valid(source);
        lemma_mask_valid(b@, lo as int, hi as int);
    }
    match utf8_string(v) {
        Some(s) => s,
        None => {
            proof {
                assert(false);
            }
            String::new()
        },
    }
}

} // verus!

verus! {

/// What a `recv.prefix` completion reads: the source with `.prefix` masked,
/// the offset of the last byte of the receiver, and the range of `prefix`.
#[derive(Debug)]
pub struct DotMethodCompletionContext {
    pub source: String,
    pub receiver_offset: usize,
    pub replace_range: Range,
}

/// For the cursor at offset `p`: the offset of the `.` before the method
/// prefix being typed, when it follows a receiver on the same line and is not
/// part of a `..` range.
pub open spec fn dot_completion_at(b: Seq<u8>, p: int) -> Option<int> {
    let ls = line_start_before(b, p);
    let d = run_start(b, ls, p, CharClass::Method) - 1;
    if d < 1 || b[d] != 0x2e || (d > ls && b[d - 1] == 0x2e) {
        None
    } else if !is_boundary(b, d) || !is_boundary(b, p) || !is_boundary(b, d - 1) {
        None
    } else {
        Some(d)
    }
}

/// The range between two offsets, as LSP positions.
pub open spec fn offset_range(b: Seq<u8>, lo: int, hi: int) -> Range {
    Range { start: spec_offset_to_position(b, lo), end: spec_offset_to_position(b, hi) }
}

/// The context of a method completion after `recv.` at `pos`.
pub fn dot_method_completion_context(source: &str, pos: Position) -> (r: Option<
    DotMethodCompletionContext,
>)
    requires
        source.spec_bytes().len() <= u32::MAX,
    ensures
        match spec_position_to_offset(source.spec_bytes(), pos) {
            None => r is None,
            Some(p) => match dot_completion_at(source.spec_bytes(), p) {
                None => r is None,
                Some(d) => r matches Some(c) && bytes_of(c.source) == masked(
                    source.spec_bytes(),
                    d,
                    p,
                ) && c.receiver_offset == d - 1 && c.replace_range == offset_range(
                    source.spec_bytes(),
                    d + 1,
                    p,
                ),
            },
        },
{
    let pos_offset = match lsp_position_to_byte_offset(source, pos) {
        Some(o) => o,
        None => return None,
    };
    let bytes = source.as_bytes();
    let line_start = match crate::text::last_index_of(bytes, 0, pos_offset, NEWLINE) {
        Some(i) => i + 1,
        None => 0,
    };
    let prefix_start = run_start_idx(bytes, line_start, pos_offset, CharClass::Method);
    if prefix_start < 2 {
        return None;
    }
    let dot_offset = prefix_start - 1;
    if bytes[dot_offset] != 0x2e {
        return None;
    }
    if dot_offset > line_start && bytes[dot_offset - 1] == 0x2e {
        return None;
    }
    let receiver_offset = dot_offset - 1;
    if !crate::position::byte_is_boundary(bytes, dot_offset) || !crate::position::byte_is_boundary(
        bytes,
        pos_offset,
    ) || !crate::position::byte_is_boundary(bytes, receiver_offset) {
        return None;
    }
    let completion_source = mask_with_spaces(source, dot_offset, pos_offset);
    let replace_range = Range::new(
        byte_offset_to_lsp_position(source, dot_offset + 1),
        byte_offset_to_lsp_position(source, pos_offset),
    );
    Some(DotMethodCompletionContext { source: completion_source, receiver_offset, replace_range })
}

} // verus!

verus! {

/// The receiver of a `send`-style call whose method-name argument is being
/// completed.
#[derive(Debug)]
pub enum SendMethodNameReceiver {
    /// `recv.send(:prefix`: the offset of the last byte of `recv`.
    Explicit { receiver_offset: usize },
    /// `send(:prefix`: the enclosing class or module.
    Implicit { class_context: String },
}

/// What a `send(:prefix` completion reads: the source with the call masked,
/// its receiver, and the range of `prefix`.
#[derive(Debug)]
pub struct SendMethodNameCompletionContext {
    pub source: String,
    pub receiver: SendMethodNameReceiver,
    pub replace_range: Range,
}

/// The methods whose first argument names a method: `send`, `public_send`,
/// `__send__`, `try` and `try!`.
pub open spec fn is_send_name(s: Seq<u8>) -> bool {
    ||| s == seq![0x73u8, 0x65u8, 0x6eu8, 0x64u8]
    ||| s == seq![
        0x70u8,
        0x75u8,
        0x62u8,
        0x6cu8,
        0x69u8,
        0x63u8,
        0x5fu8,
        0x73u8,
        0x65u8,
        0x6eu8,
        0x64u8,
    ]
    ||| s == seq![0x5fu8, 0x5fu8, 0x73u8, 0x65u8, 0x6eu8, 0x64u8, 0x5fu8, 0x5fu8]
    ||| s == seq![0x74u8, 0x72u8, 0x79u8]
    ||| s == seq![0x74u8, 0x72u8, 0x79u8, 0x21u8]
}

/// For the cursor at offset `p` inside the first argument of a send-style
/// call (`send(:pre`, `send("pre`, `send('pre`): the start of the prefix, the
/// start of the method name, and for an explicit receiver (`recv.send` or
/// `recv&.send`) the start of the masked call with the receiver's last byte.
pub open spec fn send_completion_at(b: Seq<u8>, p: int) -> Option<(int, int, Option<(int, int)>)> {
    let ls = line_start_before(b, p);
    let ps = run_start(b, ls, p, CharClass::Method);
    let lit = ps - 1;
    if lit < 0 || !(b[lit] == 0x3a || b[lit] == 0x22 || b[lit] == 0x27) {
        None
    } else {
        match last_index_of_byte(b, 0, lit, 0x28u8) {
            None => None,
            Some(open) => {
                let me = run_start(b, ls, open, CharClass::AsciiSpace);
                let ms = run_start(b, ls, me, CharClass::Method);
                if !all_in_class(b, open + 1, lit, CharClass::AsciiSpace) {
                    None
                } else if !is_send_name(b.subrange(ms, me)) {
                    None
                } else if !is_boundary(b, ms) || !is_boundary(b, me) || !is_boundary(b, ps)
                    || !is_boundary(b, p) {
                    None
                } else if ms >= 1 && b[ms - 1] == 0x2e {
                    let dot = ms - 1;
                    let mask = if dot > ls && b[dot - 1] == 0x26 {
                        dot - 1
                    } else {
                        dot
                    };
                    if mask == ls || !is_boundary(b, mask) {
                        None
                    } else {
                        Some((ps, ms, Some((mask, mask - 1))))
                    }
                } else {
                    Some((ps, ms, None))
                }
            },
        }
    }
}

/// An optional context, or the empty name.
pub open spec fn or_empty(o: Option<Seq<u8>>) -> Seq<u8> {
    match o {
        Some(s) => s,
        None => Seq::empty(),
    }
}

/// The lexical class context of offset `p` in the text `m`, or the empty name.
pub open spec fn class_context_of(m: Seq<u8>, p: int) -> Seq<u8> {
    or_empty(
        crate::lexical::lexical_best(crate::lexical::prism_scope_tree(m), p, None, None),
    )
}

/// Whether `b[lo..hi]` is one of the send-style method names.
fn window_is_send_name(b: &[u8], lo: usize, hi: usize) -> (r: bool)
    requires
        lo <= hi <= b@.len(),
    ensures
        r == is_send_name(b@.subrange(lo as int, hi as int)),
{
    let send: [u8; 4] = [0x73, 0x65, 0x6e, 0x64];
    let public_send: [u8; 11] = [0x70, 0x75, 0x62, 0x6c, 0x69, 0x63, 0x5f, 0x73, 0x65, 0x6e, 0x64];
    let dunder_send: [u8; 8] = [0x5f, 0x5f, 0x73, 0x65, 0x6e, 0x64, 0x5f, 0x5f];
    let try_: [u8; 3] = [0x74, 0x72, 0x79];
    let try_bang: [u8; 4] = [0x74, 0x72, 0x79, 0x21];
    proof {
        assert(send@ =~= seq![0x73u8, 0x65u8, 0x6eu8, 0x64u8]);
        assert(public_send@ =~= seq![
            0x70u8,
            0x75u8,
            0x62u8,
            0x6cu8,
            0x69u8,
            0x63u8,
            0x5fu8,
            0x73u8,
            0x65u8,
            0x6eu8,
            0x64u8,
        ]);
        assert(dunder_send@ =~= seq![0x5fu8, 0x5fu8, 0x73u8, 0x65u8, 0x6eu8, 0x64u8, 0x5fu8, 0x5fu8]);
        assert(try_@ =~= seq![0x74u8, 0x72u8, 0x79u8]);
        assert(try_bang@ =~= seq![0x74u8, 0x72u8, 0x79u8, 0x21u8]);
    }
    let name = vstd::slice::slice_subrange(b, lo, hi);
    crate::source_support::equals_bytes(name, send.as_slice())
        || crate::source_support::equals_bytes(name, public_send.as_slice())
        || crate::source_support::equals_bytes(name, dunder_send.as_slice())
        || crate::source_support::equals_bytes(name, try_.as_slice())
        || crate::source_support::equals_bytes(name, try_bang.as_slice())
}

/// The context of a method-name completion inside the first argument of a
/// `send`-style call at `pos`.
pub fn send_method_name_completion_context(source: &str, pos: Position) -> (r: Option<
    SendMethodNameCompletionContext,
>)
    requires
        source.spec_bytes().len() <= u32::MAX,
    ensures
        match spec_position_to_offset(source.spec_bytes(), pos) {
            None => r is None,
            Some(p) => match send_completion_at(source.spec_bytes(), p) {
                None => r is None,
                Some((ps, ms, explicit)) => r matches Some(c) && c.replace_range == offset_range(
                    source.spec_bytes(),
                    ps,
                    p,
                ) && match explicit {
                    Some((mask, recv)) => bytes_of(c.source) == masked(source.spec_bytes(), mask, p)
                        && c.receiver == (SendMethodNameReceiver::Explicit {
                        receiver_offset: recv as usize,
                    }),
                    None => (c.receiver matches SendMethodNameReceiver::Implicit { class_context }
                        && bytes_of(class_context) == class_context_of(
                        masked(source.spec_bytes(), ms, p),
                        p,
                    ) && bytes_of(c.source) == masked(source.spec_bytes(), ms, p)),
                },
            },
        },
{
    let pos_offset = match lsp_position_to_byte_offset(source, pos) {
        Some(o) => o,
        None => return None,
    };
    let bytes = source.as_bytes();
    let ghost b = bytes@;
    let line_start = match crate::text::last_index_of(bytes, 0, pos_offset, NEWLINE) {
        Some(i) => i + 1,
        None => 0,
    };
    let prefix_start = run_start_idx(bytes, line_start, pos_offset, CharClass::Method);
    if prefix_start < 1 {
        return None;
    }
    let literal_start = prefix_start - 1;
    let quote = bytes[literal_start];
    if !(quote == 0x3a || quote == 0x22 || quote == 0x27) {
        return None;
    }
    let open_paren = match crate::text::last_index_of(bytes, 0, literal_start, 0x28) {
        Some(i) => i,
        None => return None,
    };
    let method_end = run_start_idx(bytes, line_start, open_paren, CharClass::AsciiSpace);
    let method_start = run_start_idx(bytes, line_start, method_end, CharClass::Method);
    if !all_bytes_in_class(bytes, open_paren + 1, literal_start, CharClass::AsciiSpace) {
        return None;
    }
    if !window_is_send_name(bytes, method_start, method_end) {
        return None;
    }
    if !crate::position::byte_is_boundary(bytes, method_start)
        || !crate::position::byte_is_boundary(bytes, method_end)
        || !crate::position::byte_is_boundary(bytes, prefix_start)
        || !crate::position::byte_is_boundary(bytes, pos_offset) {
        return None;
    }
    let replace_range = Range::new(
        byte_offset_to_lsp_position(source, prefix_start),
        byte_offset_to_lsp_position(source, pos_offset),
    );
    if method_start >= 1 && bytes[method_start - 1] == 0x2e {
        let dot_offset = method_start - 1;
        proof {
            assert(bytes@.subrange(method_start as int, method_end as int).len() > 0);
            assert(method_start < method_end);
            assert(method_start >= line_start);
            if method_start == line_start {
                assert(b[line_start - 1] == NEWLINE);
            }
            assert(dot_offset >= line_start);
        }
        let mask_start = if dot_offset > line_start && bytes[dot_offset - 1] == 0x26 {
            dot_offset - 1
        } else {
            dot_offset
        };
        if mask_start == line_start || !crate::position::byte_is_boundary(bytes, mask_start) {
            return None;
        }
        let completion_source = mask_with_spaces(source, mask_start, pos_offset);
        Some(
            SendMethodNameCompletionContext {
                source: completion_source,
                receiver: SendMethodNameReceiver::Explicit { receiver_offset: mask_start - 1 },
                replace_range,
            },
        )
    } else {
        let completion_source = mask_with_spaces(source, method_start, pos_offset);
        let class_context = match crate::lexical::lexical_class_context_at(
            completion_source.as_str(),
            pos_offset,
        ) {
            Some(c) => c,
            None => String::new(),
        };
        Some(
            SendMethodNameCompletionContext {
                source: completion_source,
                receiver: SendMethodNameReceiver::Implicit { class_context },
                replace_range,
            },
        )
    }
}

} // verus!

verus! {

/// An ASCII capital letter.
pub open spec fn is_ascii_upper(x: u8) -> bool {
    0x41 <= x <= 0x5a
}

/// A Ruby constant name: an ASCII capital followed by constant-name bytes.
pub open spec fn valid_constant_name(s: Seq<u8>) -> bool {
    &&& s.len() > 0
    &&& is_ascii_upper(s[0])
    &&& forall|k: int| 1 <= k < s.len() ==> #[trigger] is_constant_char(s[k])
}

/// Every segment of `s` split at `::` (as `str::split` splits, left to
/// right) is a valid constant name.
pub open spec fn segments_valid(s: Seq<u8>) -> bool
    decreases s.len(),
    via segments_valid_decreases
{
    match crate::text::find_from(s, 0, s.len() as int, crate::lexical::dcolon()) {
        None => valid_constant_name(s),
        Some(i) => valid_constant_name(s.subrange(0, i)) && segments_valid(
            s.subrange(i + 2, s.len() as int),
        ),
    }
}

#[via_fn]
proof fn segments_valid_decreases(s: Seq<u8>) {
    crate::text::lemma_find_range(s, 0, s.len() as int, crate::lexical::dcolon());
}

/// `normalize_constant_completion_namespace`: the namespace typed before
/// `::`. Empty stays empty; a bare `::` is the top level; otherwise every
/// segment after an optional leading `::` must be a constant name, and the
/// text is kept as typed.
pub open spec fn normalized_namespace(raw: Seq<u8>) -> Option<Seq<u8>> {
    if raw.len() == 0 {
        Some(Seq::empty())
    } else {
        let ns = if raw.len() >= 2 && raw[0] == 0x3a && raw[1] == 0x3a {
            raw.skip(2)
        } else {
            raw
        };
        if ns.len() == 0 {
            Some(crate::lexical::dcolon())
        } else if segments_valid(ns) {
            Some(raw)
        } else {
            None
        }
    }
}

/// Whether `s` is a constant name.
fn constant_name_bytes_ok(s: &[u8]) -> (r: bool)
    ensures
        r == valid_constant_name(s@),
{
    if s.len() == 0 || !(0x41 <= s[0] && s[0] <= 0x5a) {
        return false;
    }
    let mut k: usize = 1;
    while k < s.len()
        invariant
            1 <= k <= s@.len(),
            forall|j: int| 1 <= j < k ==> #[trigger] is_constant_char(s@[j]),
        decreases s@.len() - k,
    {
        if !is_ruby_constant_completion_char(s[k]) {
            return false;
        }
        k = k + 1;
    }
    true
}

/// Whether every `::`-separated segment of `s` is a constant name.
pub fn constant_segments_valid(s: &[u8]) -> (r: bool)
    ensures
        r == segments_valid(s@),
{
    let dc: [u8; 2] = [0x3a, 0x3a];
    proof {
        assert(dc@ =~= crate::lexical::dcolon());
    }
    let mut rest: &[u8] = s;
    loop
        invariant
            segments_valid(rest@) == segments_valid(s@),
            dc@ == crate::lexical::dcolon(),
        decreases rest@.len(),
    {
        match crate::text::find_bytes(rest, 0, rest.len(), dc.as_slice()) {
            None => {
                return constant_name_bytes_ok(rest);
            },
            Some(i) => {
                proof {
                    crate::text::lemma_find_range(rest@, 0, rest@.len() as int, dc@);
                }
                if !constant_name_bytes_ok(vstd::slice::slice_subrange(rest, 0, i)) {
                    return false;
                }
                rest = vstd::slice::slice_subrange(rest, i + 2, rest.len());
            },
        }
    }
}

/// Whether `name` is a Ruby constant name: an ASCII capital letter followed
/// by ASCII letters, digits and underscores.
pub fn is_valid_ruby_constant_name(name: &str) -> (r: bool)
    ensures
        r == valid_constant_name(name.spec_bytes()),
{
    constant_name_bytes_ok(name.as_bytes())
}

/// The namespace typed before `::`, checked and kept as typed; `None` when it
/// is not a constant path.
pub fn normalize_constant_completion_namespace(raw_namespace: &str) -> (r: Option<String>)
    ensures
        crate::text::opt_bytes(r) == normalized_namespace(raw_namespace.spec_bytes()),
{
    let b = raw_namespace.as_bytes();
    if b.len() == 0 {
        let e = String::new();
        proof {
            assert(bytes_of(e) =~= Seq::<u8>::empty());
        }
        return Some(e);
    }
    let ns_start: usize = if b.len() >= 2 && b[0] == 0x3a && b[1] == 0x3a {
        2
    } else {
        0
    };
    let ns = vstd::slice::slice_subrange(b, ns_start, b.len());
    proof {
        assert(ns@ =~= if b@.len() >= 2 && b@[0] == 0x3a && b@[1] == 0x3a {
            b@.skip(2)
        } else {
            b@
        });
    }
    if ns.len() == 0 {
        return Some(crate::text::to_string_of(crate::text::dcolon_str()));
    }
    if constant_segments_valid(ns) {
        Some(crate::text::to_string_of(raw_namespace))
    } else {
        None
    }
}

/// What an `Owner::Prefix` completion reads: the source with `::Prefix`
/// masked, the owner namespace, the typed prefix, the enclosing class or
/// module, and the range of the prefix.
#[derive(Debug)]
pub struct ConstantPathCompletionContext {
    pub source: String,
    pub namespace: String,
    pub prefix: String,
    pub class_context: String,
    pub replace_range: Range,
}

/// For the cursor at offset `p` after `Owner::Prefix`: the start of the
/// owner path, of the `::`, and of the prefix.
pub open spec fn double_colon_at(b: Seq<u8>, p: int) -> Option<(int, int, int)> {
    let ls = line_start_before(b, p);
    let ps = run_start(b, ls, p, CharClass::Constant);
    let dc = ps - 2;
    if dc < 0 || b[dc] != 0x3a || b[dc + 1] != 0x3a {
        None
    } else {
        let os = run_start(b, ls, dc, CharClass::ConstantPath);
        if !is_boundary(b, os) || !is_boundary(b, dc) || !is_boundary(b, ps) || !is_boundary(b, p) {
            None
        } else {
            Some((os, dc, ps))
        }
    }
}

/// The context of a constant completion after `Owner::` at `pos`.
pub fn double_colon_constant_completion_context(source: &str, pos: Position) -> (r: Option<
    ConstantPathCompletionContext,
>)
    requires
        source.spec_bytes().len() <= u32::MAX,
    ensures
        match spec_position_to_offset(source.spec_bytes(), pos) {
            None => r is None,
            Some(p) => match double_colon_at(source.spec_bytes(), p) {
                None => r is None,
                Some((os, dc, ps)) => match normalized_namespace(
                    source.spec_bytes().subrange(os, dc),
                ) {
                    None => r is None,
                    Some(ns) => r matches Some(c) && bytes_of(c.namespace) == ns && bytes_of(
                        c.prefix,
                    ) == source.spec_bytes().subrange(ps, p) && bytes_of(c.source) == masked(
                        source.spec_bytes(),
                        dc,
                        p,
                    ) && bytes_of(c.class_context) == class_context_of(
                        masked(source.spec_bytes(), dc, p),
                        p,
                    ) && c.replace_range == offset_range(source.spec_bytes(), ps, p),
                },
            },
        },
{
    let pos_offset = match lsp_position_to_byte_offset(source, pos) {
        Some(o) => o,
        None => return None,
    };
    let bytes = source.as_bytes();
    let line_start = match crate::text::last_index_of(bytes, 0, pos_offset, NEWLINE) {
        Some(i) => i + 1,
        None => 0,
    };
    let prefix_start = run_start_idx(bytes, line_start, pos_offset, CharClass::Constant);
    if prefix_start < 2 {
        return None;
    }
    let double_colon_start = prefix_start - 2;
    if bytes[double_colon_start] != 0x3a || bytes[double_colon_start + 1] != 0x3a {
        return None;
    }
    let owner_start = run_start_idx(bytes, line_start, double_colon_start, CharClass::ConstantPath);
    if !crate::position::byte_is_boundary(bytes, owner_start)
        || !crate::position::byte_is_boundary(bytes, double_colon_start)
        || !crate::position::byte_is_boundary(bytes, prefix_start)
        || !crate::position::byte_is_boundary(bytes, pos_offset) {
        return None;
    }
    let namespace = match normalize_constant_completion_namespace(
        crate::text::str_slice(source, owner_start, double_colon_start),
    ) {
        Some(n) => n,
        None => return None,
    };
    let prefix = crate::text::to_string_of(crate::text::str_slice(source, prefix_start, pos_offset));
    let completion_source = mask_with_spaces(source, double_colon_start, pos_offset);
    let class_context = match crate::lexical::lexical_class_context_at(
        completion_source.as_str(),
        pos_offset,
    ) {
        Some(c) => c,
        None => String::new(),
    };
    let replace_range = Range::new(
        byte_offset_to_lsp_position(source, prefix_start),
        byte_offset_to_lsp_position(source, pos_offset),
    );
    Some(
        ConstantPathCompletionContext {
            source: completion_source,
            namespace,
            prefix,
            class_context,
            replace_range,
        },
    )
}

} // verus!

verus! {

/// Masking keeps every offset of the text: the masked text has the same
/// length, spaces inside the masked span and the unmasked text's bytes
/// elsewhere, so offsets computed on the unmasked text (a receiver, the
/// cursor) stay valid in the text handed to analysis.
pub proof fn law_masked_source_keeps_offsets(b: Seq<u8>, lo: int, hi: int)
    ensures
        masked(b, lo, hi).len() == b.len(),
        forall|k: int|
            0 <= k < b.len() ==> #[trigger] masked(b, lo, hi)[k] == if lo <= k < hi {
                0x20u8
            } else {
                b[k]
            },
{
}

/// Where `run_start` stops short of `lo`, the byte before is not of the
/// class.
proof fn lemma_run_start_stop(b: Seq<u8>, lo: int, i: int, c: CharClass)
    requires
        lo <= i,
    ensures
        run_start(b, lo, i, c) == lo || !in_class(c, b[run_start(b, lo, i, c) - 1]),
    decreases i - lo,
{
    if i > lo && in_class(c, b[i - 1]) {
        lemma_run_start_stop(b, lo, i - 1, c);
    }
}

/// The namespace of an `Owner::Prefix` completion is the whole constant
/// path before the last `::`: the owner is the longest run of `:`, `_` and
/// ASCII letters and digits that ends at the `::` right before the prefix,
/// so after `Outer::Inner::V` the namespace is `Outer::Inner`, not `Inner`;
/// and the prefix is the run of `_` and ASCII letters and digits from that
/// `::` to the cursor.
pub proof fn law_constant_namespace_is_whole_path(b: Seq<u8>, p: int)
    requires
        0 <= p <= b.len(),
    ensures
        double_colon_at(b, p) matches Some((os, dc, ps)) ==> {
            &&& 0 <= os <= dc && dc + 2 == ps <= p
            &&& b[dc] == 0x3au8 && b[dc + 1] == 0x3au8
            &&& forall|k: int|
                os <= k < dc ==> (#[trigger] b[k] == 0x3au8 || b[k] == 0x5fu8 || 0x30u8 <= b[k] <= 0x39u8 || 0x41u8
                    <= b[k] <= 0x5au8 || 0x61u8 <= b[k] <= 0x7au8)
            &&& (os == 0 || !(b[os - 1] == 0x3au8 || b[os - 1] == 0x5fu8 || 0x30u8 <= b[os - 1] <= 0x39u8 || 0x41u8
                <= b[os - 1] <= 0x5au8 || 0x61u8 <= b[os - 1] <= 0x7au8))
            &&& forall|k: int|
                ps <= k < p ==> (#[trigger] b[k] == 0x5fu8 || 0x30u8 <= b[k] <= 0x39u8 || 0x41u8 <= b[k] <= 0x5au8
                    || 0x61u8 <= b[k] <= 0x7au8)
        },
{
    let ls = line_start_before(b, p);
    crate::text::lemma_last_index_found(b, 0, p, 0x0au8);
    assert(0 <= ls <= p);
    let ps = run_start(b, ls, p, CharClass::Constant);
    lemma_run_start_bounds(b, ls, p, CharClass::Constant);
    let dc = ps - 2;
    if !(dc < 0 || b[dc] != 0x3a || b[dc + 1] != 0x3a) {
        assert(ls <= dc) by {
            if dc < ls {
                assert(in_class(CharClass::Constant, b[dc + 1]));
            }
        }
        let os = run_start(b, ls, dc, CharClass::ConstantPath);
        lemma_run_start_bounds(b, ls, dc, CharClass::ConstantPath);
        lemma_run_start_stop(b, ls, dc, CharClass::ConstantPath);
        assert forall|k: int| os <= k < dc implies (#[trigger] b[k] == 0x3au8 || b[k] == 0x5fu8 || 0x30u8 <= b[k]
            <= 0x39u8 || 0x41u8 <= b[k] <= 0x5au8 || 0x61u8 <= b[k] <= 0x7au8) by {
            assert(in_class(CharClass::ConstantPath, b[k]));
        }
        assert forall|k: int| ps <= k < p implies (#[trigger] b[k] == 0x5fu8 || 0x30u8 <= b[k] <= 0x39u8 || 0x41u8
            <= b[k] <= 0x5au8 || 0x61u8 <= b[k] <= 0x7au8) by {
            assert(in_class(CharClass::Constant, b[k]));
        }
    }
}

/// Bytes after `k` that are not `x` do not change where `x` last occurs.
proof fn lemma_last_index_skip(b: Seq<u8>, lo: int, k: int, j: int, x: u8)
    requires
        lo <= k <= j,
        forall|q: int| k <= q < j ==> #[trigger] b[q] != x,
    ensures
        last_index_of_byte(b, lo, j, x) == last_index_of_byte(b, lo, k, x),
    decreases j - k,
{
    if j > k {
        lemma_last_index_skip(b, lo, k, j - 1, x);
    }
}

/// Where no newline stands between `k` and `p`, the line of `p` starts at
/// or before `k`.
proof fn lemma_line_start_at_most(b: Seq<u8>, k: int, p: int)
    requires
        0 <= k <= p,
        forall|q: int| k <= q < p ==> #[trigger] b[q] != 0x0au8,
    ensures
        line_start_before(b, p) <= k,
        line_start_before(b, p) >= 0,
{
    lemma_last_index_skip(b, 0, k, p, 0x0au8);
    crate::text::lemma_last_index_found(b, 0, k, 0x0au8);
}

/// A run of class-`c` bytes from `s` to `i` that cannot be extended to the
/// left is the run `run_start` finds.
proof fn lemma_run_start_is(b: Seq<u8>, lo: int, s: int, i: int, c: CharClass)
    requires
        lo <= s <= i,
        forall|k: int| s <= k < i ==> #[trigger] in_class(c, b[k]),
        s == lo || !in_class(c, b[s - 1]),
    ensures
        run_start(b, lo, i, c) == s,
    decreases i - s,
{
    if i > s {
        lemma_run_start_is(b, lo, s, i - 1, c);
    }
}

/// Every byte of a send-style name can be part of a method name.
proof fn lemma_send_name_bytes(s: Seq<u8>)
    requires
        is_send_name(s),
    ensures
        s.len() > 0,
        forall|k: int| 0 <= k < s.len() ==> #[trigger] is_method_char(s[k]),
{
}

/// A byte that can be part of a method name being completed.
pub open spec fn name_byte(x: u8) -> bool {
    x == 0x5fu8 || x == 0x3fu8 || x == 0x21u8 || x == 0x3du8 || 0x30u8 <= x <= 0x39u8 || 0x41u8 <= x <= 0x5au8
        || 0x61u8 <= x <= 0x7au8
}

/// The shape of a send-style call whose first argument the cursor `p` is
/// typing on one line: `NAME ( LIT prefix` with a send-style `NAME` at
/// `ms..me`, the `(` at `open`, the literal's opener at `ps - 1` (any of
/// `:`, `"` and `'`), only spaces or tabs between them, and the method-name
/// prefix `ps..p`.
pub open spec fn send_call_shape(b: Seq<u8>, p: int, ms: int, me: int, open: int, ps: int) -> bool {
    &&& 0 <= ms < me <= open && open + 1 < ps <= p <= b.len()
    &&& is_send_name(b.subrange(ms, me))
    &&& forall|k: int| me <= k < open ==> (#[trigger] b[k] == 0x20u8 || b[k] == 0x09u8)
    &&& b[open] == 0x28u8
    &&& forall|k: int| open < k < ps - 1 ==> (#[trigger] b[k] == 0x20u8 || b[k] == 0x09u8)
    &&& (b[ps - 1] == 0x3au8 || b[ps - 1] == 0x22u8 || b[ps - 1] == 0x27u8)
    &&& forall|k: int| ps <= k < p ==> #[trigger] name_byte(b[k])
    &&& (ms == 0 || !name_byte(b[ms - 1]))
    &&& is_boundary(b, ms) && is_boundary(b, me) && is_boundary(b, ps) && is_boundary(b, p)
}

/// A send-style call shaped as `send_call_shape` describes gives a
/// completion context, whichever of `:`, `"` and `'` opens the literal:
/// without a receiver (`send(:fo`, `send("fo`) it completes at the prefix
/// with the method name's start as the masked call's start; after a
/// receiver's `.` or `&.` that does not open the line (`obj.send("fo`) it
/// masks from that `.` or `&.` and the receiver ends just before it.
pub proof fn law_send_completion_for_every_opener(b: Seq<u8>, p: int, ms: int, me: int, open: int, ps: int)
    requires
        send_call_shape(b, p, ms, me, open, ps),
    ensures
        (ms == 0 || b[ms - 1] != 0x2eu8) ==> send_completion_at(b, p) == Some((ps, ms, None::<(int, int)>)),
        (ms >= 1 && b[ms - 1] == 0x2eu8) ==> {
            let mask = if ms >= 2 && b[ms - 2] == 0x26u8 {
                ms - 2
            } else {
                ms - 1
            };
            (mask >= 1 && b[mask - 1] != 0x0au8 && is_boundary(b, mask)) ==> send_completion_at(b, p) == Some(
                (ps, ms, Some((mask, mask - 1))),
            )
        },
{
    let lit = ps - 1;
    lemma_send_name_bytes(b.subrange(ms, me));
    assert forall|q: int| ms <= q < p implies #[trigger] b[q] != 0x0au8 by {
        if q < me {
            assert(b[q] == b.subrange(ms, me)[q - ms]);
        } else if q >= ps {
            assert(name_byte(b[q]));
        }
    }
    let start = if ms >= 1 && b[ms - 1] == 0x2eu8 {
        ms - 1
    } else {
        ms
    };
    assert forall|q: int| start <= q < p implies #[trigger] b[q] != 0x0au8 by {
        if q >= ms {
            assert(b[q] != 0x0au8);
        }
    }
    lemma_line_start_at_most(b, start, p);
    let ls = line_start_before(b, p);
    assert forall|k: int| ps <= k < p implies #[trigger] in_class(CharClass::Method, b[k]) by {
        assert(name_byte(b[k]));
    }
    lemma_run_start_is(b, ls, ps, p, CharClass::Method);
    assert(run_start(b, ls, p, CharClass::Method) == ps);
    assert forall|q: int| open + 1 <= q < lit implies #[trigger] b[q] != 0x28u8 by {
        assert(b[q] == 0x20u8 || b[q] == 0x09u8);
    }
    lemma_last_index_skip(b, 0, open + 1, lit, 0x28u8);
    assert(last_index_of_byte(b, 0, lit, 0x28u8) == Some(open));
    assert forall|k: int| me <= k < open implies #[trigger] in_class(CharClass::AsciiSpace, b[k]) by {
        assert(b[k] == 0x20u8 || b[k] == 0x09u8);
    }
    assert(is_method_char(b.subrange(ms, me)[me - ms - 1]));
    assert(b[me - 1] == b.subrange(ms, me)[me - ms - 1]);
    lemma_run_start_is(b, ls, me, open, CharClass::AsciiSpace);
    assert forall|k: int| ms <= k < me implies #[trigger] in_class(CharClass::Method, b[k]) by {
        assert(b[k] == b.subrange(ms, me)[k - ms]);
    }
    lemma_run_start_is(b, ls, ms, me, CharClass::Method);
    assert forall|k: int| open + 1 <= k < lit implies #[trigger] in_class(CharClass::AsciiSpace, b[k]) by {
        assert(b[k] == 0x20u8 || b[k] == 0x09u8);
    }
    crate::text::lemma_last_index_found(b, 0, p, 0x0au8);
    assert(ls == 0 || b[ls - 1] == 0x0au8);
    if ms >= 1 && b[ms - 1] == 0x2eu8 {
        let dot = ms - 1;
        let mask = if ms >= 2 && b[ms - 2] == 0x26u8 {
            ms - 2
        } else {
            ms - 1
        };
        if ms >= 2 && b[ms - 2] == 0x26u8 {
            assert(dot > ls);
        }
        if mask >= 1 && b[mask - 1] != 0x0au8 && is_boundary(b, mask) {
            assert(mask != ls);
            assert(send_completion_at(b, p) == Some((ps, ms, Some((mask, mask - 1)))));
        }
    }
}

/// The run that `run_start` finds lies between `lo` and `i` and is all of
/// class `c`.
proof fn lemma_run_start_bounds(b: Seq<u8>, lo: int, i: int, c: CharClass)
    requires
        lo <= i,
    ensures
        lo <= run_start(b, lo, i, c) <= i,
        all_in_class(b, run_start(b, lo, i, c), i, c),
    decreases i - lo,
{
    if i > lo && in_class(c, b[i - 1]) {
        lemma_run_start_bounds(b, lo, i - 1, c);
    }
}

/// The shape of every `send(:prefix` completion: the method name right
/// before the `(` is one of the send-style names, only spaces stand between
/// the `(` and the literal's opener (`:`, `"` or `'`), the prefix being
/// replaced lies on the cursor's line, and the text handed to analysis is the
/// source with the call (from the receiver's `.` or `&.`, or from the method
/// name) up to the cursor blanked: the same length, every byte either the
/// source's or a space.
pub proof fn law_send_completion_masks_in_place(b: Seq<u8>, p: int)
    requires
        0 <= p <= b.len(),
    ensures
        send_completion_at(b, p) matches Some((ps, ms, explicit)) ==> {
            let m = match explicit {
                Some((mask, _)) => mask,
                None => ms,
            };
            &&& 0 <= m <= ms
            &&& 1 <= ps <= p
            &&& (b[ps - 1] == 0x3au8 || b[ps - 1] == 0x22u8 || b[ps - 1] == 0x27u8)
            &&& forall|k: int| ps <= k < p ==> #[trigger] b[k] != 0x0au8
            &&& exists|open: int, me: int|
                ms < me <= open < ps - 1 && b[open] == 0x28u8 && is_send_name(b.subrange(ms, me)) && all_in_class(
                    b,
                    open + 1,
                    ps - 1,
                    CharClass::AsciiSpace,
                ) && all_in_class(b, me, open, CharClass::AsciiSpace)
            &&& masked(b, m, p).len() == b.len()
            &&& forall|k: int|
                0 <= k < b.len() ==> #[trigger] masked(b, m, p)[k] == b[k] || masked(b, m, p)[k] == 0x20u8
        },
{
    let ls = line_start_before(b, p);
    crate::text::lemma_last_index_found(b, 0, p, 0x0au8);
    assert(0 <= ls <= p);
    let ps = run_start(b, ls, p, CharClass::Method);
    lemma_run_start_bounds(b, ls, p, CharClass::Method);
    if let Some((_, ms, _)) = send_completion_at(b, p) {
        let lit = ps - 1;
        crate::text::lemma_last_index_found(b, 0, lit, 0x28u8);
        let open = last_index_of_byte(b, 0, lit, 0x28u8)->0;
        let me = run_start(b, ls, open, CharClass::AsciiSpace);
        if open >= ls {
            lemma_run_start_bounds(b, ls, open, CharClass::AsciiSpace);
            lemma_run_start_bounds(b, ls, me, CharClass::Method);
        }
        assert(b.subrange(ms, me).len() > 0);
        assert(ms < me <= open < ps - 1);
        assert forall|k: int| ps <= k < p implies #[trigger] b[k] != 0x0au8 by {
            assert(in_class(CharClass::Method, b[k]));
        }
    }
}

/// The namespace typed before `::` is kept as typed when it is empty, `::`
/// alone, or (after one leading `::`) a `::`-separated path whose every
/// segment is a constant name; otherwise it is refused (`Outer::`, `outer`).
pub proof fn law_completion_namespace_cases(raw: Seq<u8>)
    ensures
        normalized_namespace(Seq::<u8>::empty()) == Some(Seq::<u8>::empty()),
        normalized_namespace(crate::lexical::dcolon()) == Some(crate::lexical::dcolon()),
        raw.len() > 0 && raw != crate::lexical::dcolon() ==> normalized_namespace(raw) == ({
            let body = if raw.len() >= 2 && raw[0] == 0x3a && raw[1] == 0x3a { raw.skip(2) } else { raw };
            if segments_valid(body) {
                Some(raw)
            } else {
                None
            }
        }),
{
    assert(crate::lexical::dcolon().skip(2) =~= Seq::<u8>::empty());
    if raw.len() == 2 && raw[0] == 0x3a && raw[1] == 0x3a {
        assert(raw =~= crate::lexical::dcolon());
    }
}

} // verus!
