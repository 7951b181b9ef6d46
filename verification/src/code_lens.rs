//! Signature code lenses: where a method's lens is anchored, which lenses are
//! shown, the lens title, and the `#:` comment that the lens command inserts.

use vstd::prelude::*;
use vstd::string::*;
use crate::text::{bytes_of, find_bytes, find_from, index_of, index_of_byte, is_boundary, lemma_str_valid, lemma_trim_start_boundary, push_str, str_slice, trim_start_at, trim_end_at, trim_span, trim_start_idx, last_index_of};
use crate::position::{Position, Range, line_start_before, line_end, spec_line_col_to_offset, spec_offset_to_position, line_col_to_offset, byte_offset_to_lsp_position, byte_is_boundary, NEWLINE};
use crate::source_support::{MethodSig, SourceLocation, def_method_window, name_in_header, source_lines, line_bytes_of, split_source_lines};

verus! {

broadcast use vstd::seq_lib::group_seq_properties;

/// `#: `, the marker of an inline RBS signature comment.
pub open spec fn title_prefix() -> Seq<u8> {
    seq![0x23u8, 0x3au8, 0x20u8]
}

/// The title of a signature code lens: the comment that accepting it inserts.
pub open spec fn lens_title(rbs: Seq<u8>) -> Seq<u8> {
    title_prefix() + rbs
}

/// The marker `#: `.
fn title_prefix_str() -> (r: &'static str)
    ensures
        r.spec_bytes() == title_prefix(),
{
    let r = "#: ";
    proof {
        reveal_strlit("#: ");
        vstd::utf8::is_ascii_chars_encode_utf8(r@);
        assert(r.spec_bytes() =~= title_prefix());
    }
    r
}

/// A newline.
fn newline_str() -> (r: &'static str)
    ensures
        r.spec_bytes() == seq![NEWLINE],
{
    let r = "\n";
    proof {
        reveal_strlit("\n");
        vstd::utf8::is_ascii_chars_encode_utf8(r@);
        assert(r.spec_bytes() =~= seq![NEWLINE]);
    }
    r
}

/// The title of the signature code lens for the RBS text `rbs_text`.
pub fn code_lens_title(rbs_text: &str) -> (r: String)
    ensures
        bytes_of(r) == lens_title(rbs_text.spec_bytes()),
{
    let mut out = String::new();
    proof {
        assert(bytes_of(out) =~= Seq::<u8>::empty());
    }
    push_str(&mut out, title_prefix_str());
    push_str(&mut out, rbs_text);
    out
}

/// The lines `ls`, each followed by a newline.
pub open spec fn joined_lines(ls: Seq<Seq<u8>>) -> Seq<u8>
    decreases ls.len(),
{
    if ls.len() == 0 {
        Seq::empty()
    } else {
        joined_lines(ls.drop_last()) + ls.last() + seq![NEWLINE]
    }
}

/// The leading whitespace of a line.
pub open spec fn indent_of(t: Seq<u8>) -> Seq<u8> {
    t.subrange(0, trim_start_at(t, 0, t.len() as int))
}

/// The text after inserting, before line `line` (0-based), a comment line
/// with that line's indentation and the lens title for `rbs`; every line of
/// the result ends with a newline. `None` when the text has no such line.
pub open spec fn signature_insertion(b: Seq<u8>, line: int, rbs: Seq<u8>) -> Option<Seq<u8>> {
    let ls = source_lines(b);
    if line < 0 || line >= ls.len() {
        None
    } else {
        Some(
            joined_lines(ls.take(line)) + indent_of(ls[line]) + lens_title(rbs) + seq![NEWLINE]
                + joined_lines(ls.skip(line)),
        )
    }
}

/// The comment line for `rbs_text` with the indentation of `def_line`.
pub(crate) fn comment_line(def_line: &str, rbs_text: &str) -> (r: String)
    ensures
        bytes_of(r) == indent_of(def_line.spec_bytes()) + lens_title(rbs_text.spec_bytes()) + seq![
            NEWLINE,
        ],
{
    let db = def_line.as_bytes();
    let k = trim_start_idx(db, 0, db.len());
    proof {
        lemma_str_valid(def_line);
        lemma_trim_start_boundary(db@, 0, db@.len() as int);
    }
    let indent = str_slice(def_line, 0, k);
    let mut out = String::new();
    proof {
        assert(bytes_of(out) =~= Seq::<u8>::empty());
    }
    push_str(&mut out, indent);
    push_str(&mut out, title_prefix_str());
    push_str(&mut out, rbs_text);
    push_str(&mut out, newline_str());
    proof {
        assert(bytes_of(out) =~= indent_of(def_line.spec_bytes()) + lens_title(rbs_text.spec_bytes())
            + seq![NEWLINE]);
    }
    out
}

/// Appends `line` and a newline to `out`.
fn push_line(out: &mut String, line: &str)
    ensures
        bytes_of(*final(out)) == bytes_of(*old(out)) + line.spec_bytes() + seq![NEWLINE],
{
    push_str(out, line);
    push_str(out, newline_str());
}

/// The source with the comment `#: rbs_text`, indented like the line, inserted
/// before line `line` (0-based); `None` when there is no such line.
pub fn insert_signature_comment(source: &str, line: u32, rbs_text: &str) -> (r: Option<String>)
    ensures
        crate::text::opt_bytes(r) == signature_insertion(
            source.spec_bytes(),
            line as int,
            rbs_text.spec_bytes(),
        ),
{
    let target_line = line as usize;
    let lines = split_source_lines(source);
    let ghost ls = source_lines(source.spec_bytes());
    if target_line >= lines.len() {
        return None;
    }
    proof {
        assert(ls[target_line as int] == lines@[target_line as int].spec_bytes());
    }
    let inserted = comment_line(lines[target_line], rbs_text);
    let mut out = String::new();
    proof {
        assert(bytes_of(out) =~= Seq::<u8>::empty());
        assert(ls.take(0) =~= Seq::<Seq<u8>>::empty());
    }
    let mut idx: usize = 0;
    while idx < lines.len()
        invariant
            idx <= lines@.len(),
            target_line < lines@.len(),
            line_bytes_of(lines@) == ls,
            lines@.len() == ls.len(),
            idx <= target_line ==> bytes_of(out) == joined_lines(ls.take(idx as int)),
            idx > target_line ==> bytes_of(out) == joined_lines(ls.take(target_line as int))
                + bytes_of(inserted) + joined_lines(ls.subrange(target_line as int, idx as int)),
        decreases lines@.len() - idx,
    {
        if idx == target_line {
            push_str(&mut out, inserted.as_str());
        }
        let existing = lines[idx];
        proof {
            assert(ls[idx as int] == existing.spec_bytes());
        }
        push_line(&mut out, existing);
        proof {
            if idx < target_line {
                assert(ls.take(idx + 1).drop_last() =~= ls.take(idx as int));
                assert(bytes_of(out) =~= joined_lines(ls.take(idx + 1)));
            } else {
                let sub = ls.subrange(target_line as int, idx + 1);
                assert(sub.drop_last() =~= ls.subrange(target_line as int, idx as int));
                if idx == target_line {
                    assert(joined_lines(ls.subrange(target_line as int, idx as int)) =~= Seq::<
                        u8,
                    >::empty());
                }
                assert(bytes_of(out) =~= joined_lines(ls.take(target_line as int)) + bytes_of(
                    inserted,
                ) + joined_lines(sub));
            }
        }
        idx = idx + 1;
    }
    proof {
        assert(ls.subrange(target_line as int, ls.len() as int) =~= ls.skip(target_line as int));
    }
    Some(out)
}

/// A lens is shown for a method whose types come from inference: not for
/// one read from an `.rbs` file, an inline RBS annotation or a Sorbet `sig`.
pub open spec fn lens_shown(sig: MethodSig) -> bool {
    !sig.rbs_file_source && !sig.rbs_inline_annotated && !sig.sig_annotated
}

/// Whether a method gets a signature code lens.
pub fn should_show_code_lens(sig: &MethodSig) -> (r: bool)
    ensures
        r == lens_shown(*sig),
{
    !sig.rbs_file_source && !sig.rbs_inline_annotated && !sig.sig_annotated
}

/// The empty range at a 1-based source location, as a 0-based LSP range.
pub fn source_location_to_range(loc: SourceLocation) -> (r: Range)
    ensures
        r.start == r.end,
        r.start.line == if loc.line == 0 {
            0
        } else {
            loc.line - 1
        },
        r.start.character == loc.column,
{
    let line = if loc.line == 0 {
        0
    } else {
        loc.line - 1
    };
    let start = Position::new(line, loc.column);
    Range::new(start, start)
}

/// Where the name of a method starts in its `def` line: the first
/// occurrence of the name between the definition location and the end of
/// that line.
pub open spec fn definition_name_offset(b: Seq<u8>, sig: MethodSig) -> Option<int> {
    match sig.loc {
        None => None,
        Some(loc) => match spec_line_col_to_offset(b, loc.line as int, loc.column as int) {
            None => None,
            Some(ds) => {
                let le = line_end(b, ds);
                if !is_boundary(b, ds) || !is_boundary(b, le) {
                    None
                } else {
                    find_from(b, ds, le, bytes_of(sig.name))
                }
            },
        },
    }
}

/// The byte offset of a method's name in the source, found from its
/// definition location.
pub fn method_definition_name_offset(source: &str, method: &MethodSig) -> (r: Option<usize>)
    ensures
        r == crate::text::opt_usize(definition_name_offset(source.spec_bytes(), *method)),
        definition_name_offset(source.spec_bytes(), *method) matches Some(i) ==> 0 <= i
            && i + bytes_of(method.name).len() <= source.spec_bytes().len(),
{
    let loc = match method.loc {
        Some(loc) => loc,
        None => return None,
    };
    let b = source.as_bytes();
    let def_start = match line_col_to_offset(b, loc.line as usize, loc.column as usize) {
        Some(s) => s,
        None => return None,
    };
    proof {
        crate::position::lemma_line_col_range(b@, loc.line as int, loc.column as int);
    }
    let line_end_off = index_of(b, def_start, b.len(), NEWLINE);
    if !byte_is_boundary(b, def_start) || !byte_is_boundary(b, line_end_off) {
        return None;
    }
    let name = method.name.as_str().as_bytes();
    proof {
        crate::text::lemma_find_range(b@, def_start as int, line_end_off as int, name@);
    }
    find_bytes(b, def_start, line_end_off, name)
}

/// The offset of the method name on the `def` line holding `off`: the last
/// occurrence of the name, read after the last `.` of the receiver-and-name,
/// in the header after `def`.
pub open spec fn definition_line_name_offset(b: Seq<u8>, off: int) -> Option<int> {
    let ls = line_start_before(b, off);
    let le = line_end(b, off);
    if !is_boundary(b, ls) || !is_boundary(b, le) {
        None
    } else {
        match def_method_window(b, ls, le) {
            None => None,
            Some((h, rl, rh, ml, mh)) => name_in_header(b, h, le, ml, mh),
        }
    }
}

/// The byte offset of the method name on the `def` line that holds
/// `byte_offset`. The name is searched for from the end of the header, so
/// when a parameter has the method's name (`def foo(foo)`) the offset is the
/// parameter's.
pub fn method_name_offset_for_definition_line(source: &str, byte_offset: usize) -> (r: Option<
    usize,
>)
    requires
        byte_offset <= source.spec_bytes().len(),
    ensures
        r == crate::text::opt_usize(definition_line_name_offset(source.spec_bytes(), byte_offset as int)),
        definition_line_name_offset(source.spec_bytes(), byte_offset as int) matches Some(i) ==> 0 <= i
            <= source.spec_bytes().len(),
{
    let b = source.as_bytes();
    let n = b.len();
    let line_start = match last_index_of(b, 0, byte_offset, NEWLINE) {
        Some(i) => i + 1,
        None => 0,
    };
    let line_end_off = index_of(b, byte_offset, n, NEWLINE);
    proof {
        assert(line_start_before(b@, byte_offset as int) == line_start);
        assert(line_end(b@, byte_offset as int) == line_end_off);
    }
    if !byte_is_boundary(b, line_start) || !byte_is_boundary(b, line_end_off) {
        return None;
    }
    let (h, rl, rh, ml, mh) = match crate::source_support::def_method_window_in(b, line_start, line_end_off) {
        Some(w) => w,
        None => return None,
    };
    let name = vstd::slice::slice_subrange(b, ml, mh);
    crate::text::rfind_bytes(b, h, line_end_off, name)
}

/// The range a method's code lens covers: its name, or an empty range at its
/// definition location when the name cannot be found there.
pub open spec fn lens_range(b: Seq<u8>, sig: MethodSig) -> Option<Range> {
    let start = match definition_name_offset(b, sig) {
        Some(i) => Some(i),
        None => match sig.loc {
            None => None,
            Some(loc) => spec_line_col_to_offset(b, loc.line as int, loc.column as int),
        },
    };
    match start {
        None => None,
        Some(s) => {
            let e = s + bytes_of(sig.name).len();
            let end = if e <= b.len() && is_boundary(b, e) {
                e
            } else {
                s
            };
            Some(Range { start: spec_offset_to_position(b, s), end: spec_offset_to_position(b, end) })
        },
    }
}

/// The range of a method's signature code lens.
pub fn code_lens_range_for_method(source: &str, sig: &MethodSig) -> (r: Option<Range>)
    requires
        source.spec_bytes().len() <= u32::MAX,
    ensures
        r == lens_range(source.spec_bytes(), *sig),
{
    let b = source.as_bytes();
    let start = match method_definition_name_offset(source, sig) {
        Some(s) => s,
        None => match sig.loc {
            None => return None,
            Some(loc) => match line_col_to_offset(b, loc.line as usize, loc.column as usize) {
                Some(s) => s,
                None => return None,
            },
        },
    };
    proof {
        if let Some(loc) = sig.loc {
            crate::position::lemma_line_col_range(b@, loc.line as int, loc.column as int);
        }
    }
    let name_len = sig.name.as_str().as_bytes().len();
    let end = match start.checked_add(name_len) {
        Some(e) => if e <= b.len() && byte_is_boundary(b, e) {
            e
        } else {
            start
        },
        None => start,
    };
    Some(Range::new(byte_offset_to_lsp_position(source, start), byte_offset_to_lsp_position(source, end)))
}

} // verus!

verus! {

/// The indices of the methods defined on 1-based line `line`, in order.
pub open spec fn indices_on_line(sigs: Seq<MethodSig>, line: int) -> Seq<int>
    decreases sigs.len(),
{
    if sigs.len() == 0 {
        Seq::empty()
    } else {
        let rest = indices_on_line(sigs.drop_last(), line);
        match sigs.last().loc {
            Some(l) => if l.line == line {
                rest.push(sigs.len() - 1)
            } else {
                rest
            },
            None => rest,
        }
    }
}

/// The first of the methods `idx` whose name is found at offset `t`.
pub open spec fn first_with_name_at(b: Seq<u8>, sigs: Seq<MethodSig>, idx: Seq<int>, t: int) -> Option<int>
    decreases idx.len(),
{
    if idx.len() == 0 {
        None
    } else if definition_name_offset(b, sigs[idx[0]]) == Some(t) {
        Some(idx[0])
    } else {
        first_with_name_at(b, sigs, idx.drop_first(), t)
    }
}

/// The method defined on the line holding `off`: the only one on that line,
/// or else the first whose name sits where the `def` line names it.
pub open spec fn definition_line_sig(b: Seq<u8>, sigs: Seq<MethodSig>, off: int) -> Option<int> {
    let idx = indices_on_line(sigs, crate::position::spec_offset_to_line_col(b, off).0);
    if idx.len() == 1 {
        Some(idx[0])
    } else {
        match definition_line_name_offset(b, off) {
            None => None,
            Some(t) => first_with_name_at(b, sigs, idx, t),
        }
    }
}

proof fn lemma_indices_on_line(sigs: Seq<MethodSig>, line: int)
    ensures
        forall|k: int|
            0 <= k < indices_on_line(sigs, line).len() ==> 0 <= #[trigger] indices_on_line(
                sigs,
                line,
            )[k] < sigs.len(),
    decreases sigs.len(),
{
    if sigs.len() > 0 {
        lemma_indices_on_line(sigs.drop_last(), line);
        let rest = indices_on_line(sigs.drop_last(), line);
        let all = indices_on_line(sigs, line);
        assert forall|k: int| 0 <= k < all.len() implies 0 <= #[trigger] all[k] < sigs.len() by {
            if k < rest.len() {
                assert(all[k] == rest[k]);
            }
        }
    }
}

/// Among `methods`, the index of the method defined on the line holding
/// `byte_offset`: the only method on that line, or else the first whose
/// name is found where the `def` line names it.
pub fn method_sig_for_definition_line(methods: &[MethodSig], source: &str, byte_offset: usize) -> (r:
    Option<usize>)
    requires
        source.spec_bytes().len() < usize::MAX,
        byte_offset <= source.spec_bytes().len() || indices_on_line(
            methods@,
            crate::position::spec_offset_to_line_col(source.spec_bytes(), byte_offset as int).0,
        ).len() == 1,
    ensures
        r == crate::text::opt_usize(definition_line_sig(source.spec_bytes(), methods@, byte_offset as int)),
{
    let (line, _col) = crate::position::offset_to_line_col(source.as_bytes(), byte_offset);
    let ghost line_i = line as int;
    let mut matches: Vec<usize> = Vec::new();
    let mut i: usize = 0;
    while i < methods.len()
        invariant
            i <= methods@.len(),
            line_i == line as int,
            matches@.len() == indices_on_line(methods@.take(i as int), line_i).len(),
            forall|k: int|
                0 <= k < matches@.len() ==> matches@[k] as int == #[trigger] indices_on_line(
                    methods@.take(i as int),
                    line_i,
                )[k],
        decreases methods@.len() - i,
    {
        proof {
            assert(methods@.take(i + 1).drop_last() =~= methods@.take(i as int));
        }
        match methods[i].loc {
            Some(l) => {
                if l.line as usize == line {
                    matches.push(i);
                }
            },
            None => {},
        }
        i = i + 1;
    }
    proof {
        assert(methods@.take(methods@.len() as int) =~= methods@);
        lemma_indices_on_line(methods@, line_i);
    }
    if matches.len() == 1 {
        return Some(matches[0]);
    }
    let target = match method_name_offset_for_definition_line(source, byte_offset) {
        Some(t) => t,
        None => return None,
    };
    let ghost idx = indices_on_line(methods@, line_i);
    proof {
        assert(definition_line_sig(source.spec_bytes(), methods@, byte_offset as int)
            == first_with_name_at(source.spec_bytes(), methods@, idx, target as int));
    }
    let mut j: usize = 0;
    while j < matches.len()
        invariant
            j <= matches@.len(),
            source.spec_bytes().len() < usize::MAX,
            matches@.len() == idx.len(),
            forall|k: int| 0 <= k < matches@.len() ==> matches@[k] as int == #[trigger] idx[k],
            forall|k: int| 0 <= k < idx.len() ==> 0 <= #[trigger] idx[k] < methods@.len(),
            first_with_name_at(source.spec_bytes(), methods@, idx.skip(j as int), target as int)
                == first_with_name_at(source.spec_bytes(), methods@, idx, target as int),
            definition_line_sig(source.spec_bytes(), methods@, byte_offset as int)
                == first_with_name_at(source.spec_bytes(), methods@, idx, target as int),
        decreases matches@.len() - j,
    {
        let m = matches[j];
        proof {
            assert(idx.skip(j as int)[0] == idx[j as int]);
            assert(idx.skip(j as int).drop_first() =~= idx.skip(j + 1));
        }
        let found = method_definition_name_offset(source, &methods[m]);
        if found == Some(target) {
            proof {
                let d = definition_name_offset(source.spec_bytes(), methods@[m as int]);
                assert(d is Some);
                assert(d == Some(target as int));
                assert(first_with_name_at(source.spec_bytes(), methods@, idx.skip(j as int), target as int) == Some(m as int));
            }
            return Some(m);
        }
        j = j + 1;
    }
    proof {
        assert(idx.skip(j as int).len() == 0);
    }
    None
}

/// The method a signature command targets, and where it was when the lens
/// was computed.
#[derive(Debug)]
pub struct SignatureCommandContext {
    pub class_name: String,
    pub method_name: String,
    pub is_singleton: bool,
    pub original_loc: Option<(u32, u32)>,
}

/// `|a - b|`.
pub open spec fn abs_diff(a: int, b: int) -> int {
    if a >= b {
        a - b
    } else {
        b - a
    }
}

/// The method `m` (class name and signature) is the one the command names.
pub open spec fn targets(m: (String, MethodSig), ctx: SignatureCommandContext) -> bool {
    &&& bytes_of(m.0) == bytes_of(ctx.class_name)
    &&& bytes_of(m.1.name) == bytes_of(ctx.method_name)
    &&& m.1.is_singleton == ctx.is_singleton
}

/// How far a candidate is from the command's target: distance in lines and
/// columns from the original location, then in lines from the fallback line
/// (0-based); an unknown distance counts as `u32::MAX`.
pub open spec fn insertion_key(sig: MethodSig, ctx: SignatureCommandContext, fallback: int) -> (int, int, int) {
    let far = u32::MAX as int;
    let fd = match sig.loc {
        Some(l) => abs_diff(l.line as int, fallback + 1),
        None => far,
    };
    match sig.loc {
        Some(l) => match ctx.original_loc {
            Some((line, col)) => (abs_diff(l.line as int, line as int), abs_diff(l.column as int, col as int), fd),
            None => (far, far, fd),
        },
        None => (far, far, fd),
    }
}

/// Lexicographic order on keys.
pub open spec fn key_lt(a: (int, int, int), b: (int, int, int)) -> bool {
    a.0 < b.0 || (a.0 == b.0 && (a.1 < b.1 || (a.1 == b.1 && a.2 < b.2)))
}

/// `j` is the first targeted method with the least key.
pub open spec fn is_first_best(ms: Seq<(String, MethodSig)>, ctx: SignatureCommandContext, fallback: int, j: int) -> bool {
    &&& 0 <= j < ms.len()
    &&& targets(ms[j], ctx)
    &&& forall|k: int|
        0 <= k < ms.len() && targets(#[trigger] ms[k], ctx) ==> !key_lt(
            insertion_key(ms[k].1, ctx, fallback),
            insertion_key(ms[j].1, ctx, fallback),
        )
    &&& forall|k: int|
        0 <= k < j && targets(#[trigger] ms[k], ctx) ==> key_lt(
            insertion_key(ms[j].1, ctx, fallback),
            insertion_key(ms[k].1, ctx, fallback),
        )
}

/// `|a - b|` on `u32`.
fn u32_abs_diff(a: u32, b: u32) -> (r: u32)
    ensures
        r == abs_diff(a as int, b as int),
{
    if a >= b {
        a - b
    } else {
        b - a
    }
}

/// The key of `insertion_key`, computed.
fn insertion_key_of(sig: &MethodSig, ctx: &SignatureCommandContext, fallback_line: u32) -> (r: (u32, u32, u32))
    requires
        fallback_line < u32::MAX || sig.loc is None,
    ensures
        (r.0 as int, r.1 as int, r.2 as int) == insertion_key(*sig, *ctx, fallback_line as int),
{
    let fd = match sig.loc {
        Some(l) => u32_abs_diff(l.line, fallback_line + 1),
        None => u32::MAX,
    };
    match sig.loc {
        Some(l) => match ctx.original_loc {
            Some((line, col)) => (u32_abs_diff(l.line, line), u32_abs_diff(l.column, col), fd),
            None => (u32::MAX, u32::MAX, fd),
        },
        None => (u32::MAX, u32::MAX, fd),
    }
}

/// Whether `a` is below `b` in the lexicographic order.
fn key_less(a: (u32, u32, u32), b: (u32, u32, u32)) -> (r: bool)
    ensures
        r == key_lt((a.0 as int, a.1 as int, a.2 as int), (b.0 as int, b.1 as int, b.2 as int)),
{
    a.0 < b.0 || (a.0 == b.0 && (a.1 < b.1 || (a.1 == b.1 && a.2 < b.2)))
}

/// Whether method `m` is the one the command names.
fn is_target(m: &(String, MethodSig), ctx: &SignatureCommandContext) -> (r: bool)
    ensures
        r == targets(*m, *ctx),
{
    crate::source_support::equals_bytes(m.0.as_str().as_bytes(), ctx.class_name.as_str().as_bytes())
        && crate::source_support::equals_bytes(
        m.1.name.as_str().as_bytes(),
        ctx.method_name.as_str().as_bytes(),
    ) && m.1.is_singleton == ctx.is_singleton
}

/// A targeted method has a location, so its distance from the line after
/// `fallback_line` is computed.
pub open spec fn targeted_with_location(ms: Seq<(String, MethodSig)>, ctx: SignatureCommandContext) -> bool {
    exists|k: int| 0 <= k < ms.len() && targets(#[trigger] ms[k], ctx) && ms[k].1.loc is Some
}

/// The index of the first targeted method with the least key, if any method
/// is targeted.
pub fn best_insertion_candidate(methods: &[(String, MethodSig)], ctx: &SignatureCommandContext, fallback_line: u32) -> (r: Option<usize>)
    requires
        fallback_line < u32::MAX || !targeted_with_location(methods@, *ctx),
    ensures
        match r {
            Some(j) => is_first_best(methods@, *ctx, fallback_line as int, j as int),
            None => forall|k: int| 0 <= k < methods@.len() ==> !targets(#[trigger] methods@[k], *ctx),
        },
{
    let mut best: Option<usize> = None;
    let mut best_key: (u32, u32, u32) = (0, 0, 0);
    let mut i: usize = 0;
    let ghost fb = fallback_line as int;
    while i < methods.len()
        invariant
            i <= methods@.len(),
            fallback_line < u32::MAX || !targeted_with_location(methods@, *ctx),
            fb == fallback_line as int,
            match best {
                Some(j) => {
                    &&& is_first_best(methods@.take(i as int), *ctx, fb, j as int)
                    &&& (best_key.0 as int, best_key.1 as int, best_key.2 as int) == insertion_key(methods@[j as int].1, *ctx, fb)
                },
                None => forall|k: int| 0 <= k < i ==> !targets(#[trigger] methods@[k], *ctx),
            },
        decreases methods@.len() - i,
    {
        if is_target(&methods[i], ctx) {
            proof {
                if methods@[i as int].1.loc is Some {
                    assert(targeted_with_location(methods@, *ctx));
                }
            }
            let key = insertion_key_of(&methods[i].1, ctx, fallback_line);
            let replace = match best {
                None => true,
                Some(_) => key_less(key, best_key),
            };
            if replace {
                best = Some(i);
                best_key = key;
            }
        }
        proof {
            let t = methods@.take(i + 1);
            assert(t =~= methods@.take(i as int).push(methods@[i as int]));
            match best {
                Some(j) => {
                    assert forall|k: int| 0 <= k < t.len() && targets(#[trigger] t[k], *ctx) implies !key_lt(
                        insertion_key(t[k].1, *ctx, fb),
                        insertion_key(t[j as int].1, *ctx, fb),
                    ) by {
                        if k < i {
                            assert(t[k] == methods@.take(i as int)[k]);
                        }
                    }
                    assert forall|k: int| 0 <= k < j && targets(#[trigger] t[k], *ctx) implies key_lt(
                        insertion_key(t[j as int].1, *ctx, fb),
                        insertion_key(t[k].1, *ctx, fb),
                    ) by {
                        assert(t[k] == methods@.take(i as int)[k]);
                    }
                },
                None => {},
            }
        }
        i = i + 1;
    }
    proof {
        assert(methods@.take(methods@.len() as int) =~= methods@);
    }
    best
}

/// The 0-based line where a signature comment is inserted: the line of the
/// first targeted method with the least key (its 1-based line less one),
/// or `fallback_line` without a context, a targeted method or its location.
pub fn resolve_signature_insertion_line(methods: &[(String, MethodSig)], fallback_line: u32, context: Option<&SignatureCommandContext>) -> (r: u32)
    requires
        context matches Some(ctx) ==> fallback_line < u32::MAX || !targeted_with_location(methods@, *ctx),
    ensures
        match context {
            None => r == fallback_line,
            Some(ctx) => if exists|j: int| is_first_best(methods@, *ctx, fallback_line as int, j) {
                exists|j: int| is_first_best(methods@, *ctx, fallback_line as int, j) && r == match methods@[j].1.loc {
                    Some(l) => if l.line == 0 { 0 } else { (l.line - 1) as u32 },
                    None => fallback_line,
                }
            } else {
                r == fallback_line
            },
        },
{
    let ctx = match context {
        Some(c) => c,
        None => return fallback_line,
    };
    match best_insertion_candidate(methods, ctx, fallback_line) {
        Some(j) => match methods[j].1.loc {
            Some(l) => if l.line == 0 {
                0
            } else {
                l.line - 1
            },
            None => fallback_line,
        },
        None => {
            proof {
                assert forall|j: int| !is_first_best(methods@, *ctx, fallback_line as int, j) by {
                    if 0 <= j < methods@.len() {
                        assert(!targets(methods@[j], *ctx));
                    }
                }
            }
            fallback_line
        },
    }
}

} // verus!

verus! {

/// Joining two lists of lines joins their texts.
proof fn lemma_joined_concat(x: Seq<Seq<u8>>, y: Seq<Seq<u8>>)
    ensures
        joined_lines(x + y) == joined_lines(x) + joined_lines(y),
    decreases y.len(),
{
    if y.len() == 0 {
        assert(x + y =~= x);
        assert(joined_lines(x) + joined_lines(y) =~= joined_lines(x));
    } else {
        lemma_joined_concat(x, y.drop_last());
        assert((x + y).drop_last() =~= x + y.drop_last());
        assert((x + y).last() == y.last());
        assert(joined_lines(x + y) =~= joined_lines(x) + joined_lines(y));
    }
}

/// Where line `k` sits in the joined text.
proof fn lemma_joined_layout(ls: Seq<Seq<u8>>, k: int)
    requires
        0 <= k < ls.len(),
    ensures
        joined_lines(ls) == joined_lines(ls.take(k)) + ls[k] + seq![NEWLINE] + joined_lines(
            ls.skip(k + 1),
        ),
        joined_lines(ls.take(k + 1)).len() == joined_lines(ls.take(k)).len() + ls[k].len() + 1,
{
    let one = seq![ls[k]];
    assert(ls =~= ls.take(k) + one + ls.skip(k + 1));
    lemma_joined_concat(ls.take(k) + one, ls.skip(k + 1));
    lemma_joined_concat(ls.take(k), one);
    assert(one.drop_last() =~= Seq::<Seq<u8>>::empty());
    assert(joined_lines(one) =~= ls[k] + seq![NEWLINE]);
    assert(ls.take(k + 1) =~= ls.take(k) + one);
    assert(joined_lines(ls) =~= joined_lines(ls.take(k)) + ls[k] + seq![NEWLINE] + joined_lines(
        ls.skip(k + 1),
    ));
}

/// A line that neither holds a newline nor ends with a carriage return.
pub open spec fn plain_line(t: Seq<u8>) -> bool {
    &&& forall|m: int| 0 <= m < t.len() ==> t[m] != NEWLINE
    &&& !(t.len() > 0 && t.last() == 0x0du8)
}

/// Offset of line `k` in the joined text.
pub open spec fn joined_offset(ls: Seq<Seq<u8>>, k: int) -> int {
    joined_lines(ls.take(k)).len() as int
}

proof fn lemma_index_of_after_run(b: Seq<u8>, a: int, n: int, hi: int)
    requires
        0 <= a <= a + n < hi <= b.len(),
        forall|m: int| a <= m < a + n ==> b[m] != NEWLINE,
        b[a + n] == NEWLINE,
    ensures
        index_of_byte(b, a, hi, NEWLINE) == a + n,
    decreases n,
{
    if n > 0 {
        lemma_index_of_after_run(b, a + 1, n - 1, hi);
    }
}

/// The lines of joined plain lines, from line `i` on.
proof fn lemma_spans_of_joined(ls: Seq<Seq<u8>>, i: int)
    requires
        0 <= i <= ls.len(),
        forall|k: int| 0 <= k < ls.len() ==> #[trigger] plain_line(ls[k]),
    ensures
        crate::text::line_spans(joined_lines(ls), joined_offset(ls, i)).len() == ls.len() - i,
        forall|m: int|
            0 <= m < ls.len() - i ==> #[trigger] crate::text::line_spans(
                joined_lines(ls),
                joined_offset(ls, i),
            )[m] == (joined_offset(ls, i + m), joined_offset(ls, i + m) + ls[i + m].len()),
    decreases ls.len() - i,
{
    let j = joined_lines(ls);
    if i == ls.len() {
        assert(ls.take(i) =~= ls);
    } else {
        lemma_joined_layout(ls, i);
        let o = joined_offset(ls, i);
        let t = ls[i];
        assert(plain_line(t));
        assert forall|m: int| o <= m < o + t.len() implies j[m] != NEWLINE by {
            assert(j[m] == t[m - o]);
        }
        assert(j[o + t.len()] == NEWLINE);
        lemma_index_of_after_run(j, o, t.len() as int, j.len() as int);
        if t.len() > 0 {
            assert(j[o + t.len() - 1] == t.last());
        }
        lemma_spans_of_joined(ls, i + 1);
        let rest = crate::text::line_spans(j, joined_offset(ls, i + 1));
        assert(crate::text::line_spans(j, o) == seq![(o, o + t.len())] + rest);
        assert forall|m: int| 0 <= m < ls.len() - i implies #[trigger] crate::text::line_spans(
            j,
            o,
        )[m] == (joined_offset(ls, i + m), joined_offset(ls, i + m) + ls[i + m].len()) by {
            if m > 0 {
                assert(crate::text::line_spans(j, o)[m] == rest[m - 1]);
            }
        }
    }
}

/// Plain lines, joined, read back as the same lines.
pub proof fn lemma_lines_of_joined(ls: Seq<Seq<u8>>)
    requires
        forall|k: int| 0 <= k < ls.len() ==> #[trigger] plain_line(ls[k]),
    ensures
        source_lines(joined_lines(ls)) == ls,
{
    let j = joined_lines(ls);
    lemma_spans_of_joined(ls, 0);
    assert(ls.take(0) =~= Seq::<Seq<u8>>::empty());
    assert forall|k: int| 0 <= k < ls.len() implies #[trigger] source_lines(j)[k] == ls[k] by {
        lemma_joined_layout(ls, k);
        let o = joined_offset(ls, k);
        assert(crate::text::line_spans(j, joined_offset(ls, 0))[k] == (o, o + ls[k].len()));
        assert(j.subrange(o, o + ls[k].len()) =~= ls[k]);
    }
    assert(source_lines(j) =~= ls);
}

} // verus!

verus! {

/// The indentation of `t`, followed by text starting with `#`, trims to
/// the same indentation.
proof fn lemma_trim_indent(t: Seq<u8>, c: Seq<u8>, i: int)
    requires
        0 <= i <= trim_start_at(t, 0, t.len() as int),
        trim_start_at(t, i, t.len() as int) == trim_start_at(t, 0, t.len() as int),
        c.len() >= trim_start_at(t, 0, t.len() as int) + 3,
        forall|m: int| 0 <= m < trim_start_at(t, 0, t.len() as int) ==> #[trigger] c[m] == t[m],
        c[trim_start_at(t, 0, t.len() as int)] == 0x23u8,
    ensures
        trim_start_at(c, i, c.len() as int) == trim_start_at(t, 0, t.len() as int),
    decreases trim_start_at(t, 0, t.len() as int) - i,
{
    let k = trim_start_at(t, 0, t.len() as int);
    lemma_trim_start_ge(t, 0, t.len() as int);
    lemma_trim_start_ge(t, i, t.len() as int);
    if i < k {
        let w = crate::text::ws_len_in(t, i, t.len() as int);
        assert(w > 0);
        lemma_trim_start_ge(t, i + w, t.len() as int);
        assert(i + w <= k);
        assert(c[i] == t[i]);
        if i + 1 < k {
            assert(c[i + 1] == t[i + 1]);
        }
        if i + 2 < k {
            assert(c[i + 2] == t[i + 2]);
        }
        assert(crate::text::ws_len_in(c, i, c.len() as int) == w);
        lemma_trim_indent(t, c, i + w);
    } else {
        assert(crate::text::ws_len_in(c, k, c.len() as int) == 0);
    }
}

proof fn lemma_trim_start_ge(b: Seq<u8>, i: int, hi: int)
    requires
        i <= hi,
    ensures
        i <= trim_start_at(b, i, hi) <= hi,
    decreases hi - i,
{
    if i < hi && crate::text::ws_len_in(b, i, hi) > 0 {
        lemma_trim_start_ge(b, i + crate::text::ws_len_in(b, i, hi), hi);
    }
}

proof fn lemma_trim_end_le(b: Seq<u8>, lo: int, e: int)
    ensures
        trim_end_at(b, lo, e) <= e,
    decreases e - lo,
{
    let w = crate::text::ws_suffix_in(b, lo, e);
    if lo < e && w > 0 {
        lemma_trim_end_le(b, lo, e - w);
    }
}

/// Trimming trailing whitespace keeps an ASCII byte that is not whitespace.
proof fn lemma_trim_end_keeps(b: Seq<u8>, lo: int, e: int, j: int)
    requires
        0 <= lo <= j < e <= b.len(),
        b[j] < 0x80,
        !crate::text::is_ascii_ws(b[j]),
    ensures
        trim_end_at(b, lo, e) > j,
    decreases e - lo,
{
    let w = crate::text::ws_suffix_in(b, lo, e);
    if lo < e && w > 0 {
        assert(e - w > j);
        lemma_trim_end_keeps(b, lo, e - w, j);
    }
}

proof fn lemma_index_of_clear(b: Seq<u8>, i: int, hi: int)
    ensures
        forall|j: int| i <= j < index_of_byte(b, i, hi, NEWLINE) ==> b[j] != NEWLINE,
    decreases hi - i,
{
    if i < hi && b[i] != NEWLINE {
        lemma_index_of_clear(b, i + 1, hi);
    }
}

proof fn lemma_spans_no_newline(b: Seq<u8>, s: int, q: int)
    requires
        0 <= s,
        0 <= q < crate::text::line_spans(b, s).len(),
    ensures
        forall|j: int|
            crate::text::line_spans(b, s)[q].0 <= j < crate::text::line_spans(b, s)[q].1 ==> b[j]
                != NEWLINE,
    decreases b.len() + 1 - s,
{
    crate::text::lemma_index_of_range(b, s, b.len() as int, NEWLINE);
    let e = index_of_byte(b, s, b.len() as int, NEWLINE);
    lemma_index_of_clear(b, s, b.len() as int);
    if q > 0 {
        lemma_spans_no_newline(b, e + 1, q - 1);
    }
}

/// No line of a text holds a newline.
proof fn lemma_source_lines_no_newline(b: Seq<u8>, q: int)
    requires
        0 <= q < source_lines(b).len(),
    ensures
        forall|m: int| 0 <= m < source_lines(b)[q].len() ==> source_lines(b)[q][m] != NEWLINE,
{
    lemma_spans_no_newline(b, 0, q);
    crate::source_support::lemma_spans_bounds(b, 0);
    let sp = crate::text::lines_of(b)[q];
    assert forall|m: int| 0 <= m < source_lines(b)[q].len() implies source_lines(b)[q][m] != NEWLINE by {
        assert(source_lines(b)[q][m] == b[sp.0 + m]);
    }
}

/// After accepting a signature lens, the comment line holds the lens title
/// and the `def` line after it carries a direct annotation, so no fallback
/// lens is offered for it again. Stated for texts whose lines read back as
/// written (no line ends with a carriage return) and a one-line signature.
pub proof fn law_inserted_signature_annotates_def_line(b: Seq<u8>, line: int, rbs: Seq<u8>, covered: Set<usize>)
    requires
        0 <= line < source_lines(b).len(),
        forall|k: int| 0 <= k < source_lines(b).len() ==> !(#[trigger] source_lines(b)[k].len() > 0
            && source_lines(b)[k].last() == 0x0du8),
        forall|m: int| 0 <= m < rbs.len() ==> #[trigger] rbs[m] != NEWLINE,
        !(rbs.len() > 0 && rbs.last() == 0x0du8),
    ensures
        ({
            let ls = source_lines(b);
            let comment = indent_of(ls[line]) + lens_title(rbs);
            &&& signature_insertion(b, line, rbs) matches Some(out)
            &&& source_lines(out) == ls.take(line) + seq![comment] + ls.skip(line)
            &&& source_lines(out)[line] == comment
            &&& source_lines(out)[line + 1] == ls[line]
            &&& crate::source_support::direct_annotation(source_lines(out), line + 1)
            &&& crate::source_support::fallback_entry(source_lines(out), covered, line + 1) is None
        }),
{
    let ls = source_lines(b);
    let t = ls[line];
    let k = trim_start_at(t, 0, t.len() as int);
    lemma_trim_start_ge(t, 0, t.len() as int);
    let comment = indent_of(t) + lens_title(rbs);
    let nls = ls.take(line) + seq![comment] + ls.skip(line);
    assert forall|q: int| 0 <= q < ls.len() implies #[trigger] plain_line(ls[q]) by {
        lemma_source_lines_no_newline(b, q);
    }
    assert(plain_line(comment)) by {
        assert(indent_of(t).len() == k);
        assert(plain_line(t));
        assert forall|m: int| 0 <= m < comment.len() implies comment[m] != NEWLINE by {
            if m < k {
                assert(comment[m] == t[m]);
                assert(t[m] != NEWLINE);
            } else if m >= k + 3 {
                assert(comment[m] == rbs[m - k - 3]);
            } else {
                assert(comment[m] == title_prefix()[m - k]);
            }
        }
        if rbs.len() > 0 {
            assert(comment.last() == rbs.last());
        }
    }
    assert forall|q: int| 0 <= q < nls.len() implies #[trigger] plain_line(nls[q]) by {
        if q < line {
            assert(nls[q] == ls[q]);
        } else if q > line {
            assert(nls[q] == ls[q - 1]);
        }
    }
    let out = joined_lines(ls.take(line)) + comment + seq![NEWLINE] + joined_lines(ls.skip(line));
    assert(signature_insertion(b, line, rbs) == Some(out)) by {
        assert(joined_lines(ls.take(line)) + indent_of(t) + lens_title(rbs) + seq![NEWLINE]
            + joined_lines(ls.skip(line)) =~= out);
    }
    assert(out == joined_lines(nls)) by {
        lemma_joined_concat(ls.take(line) + seq![comment], ls.skip(line));
        lemma_joined_concat(ls.take(line), seq![comment]);
        assert(seq![comment].drop_last() =~= Seq::<Seq<u8>>::empty());
        assert(joined_lines(seq![comment]) =~= comment + seq![NEWLINE]);
        assert(joined_lines(nls) =~= out);
    }
    lemma_lines_of_joined(nls);
    assert(nls[line] == comment);
    assert(nls[line + 1] == t);
    assert(trim_start_at(comment, 0, comment.len() as int) == k) by {
        assert forall|m: int| 0 <= m < k implies #[trigger] comment[m] == t[m] by {}
        assert(comment[k] == 0x23u8);
        lemma_trim_indent(t, comment, 0);
    }
    assert(trim_end_at(comment, k, comment.len() as int) > k + 1) by {
        assert(comment[k + 1] == 0x3au8);
        lemma_trim_end_keeps(comment, k, comment.len() as int, k + 1);
    }
    let e = trim_end_at(comment, k, comment.len() as int);
    assert(e <= comment.len()) by {
        lemma_trim_end_le(comment, k, comment.len() as int);
    }
    assert(trim_span(comment) == (k, e));
    let p = crate::source_support::trimmed(comment);
    assert(p == comment.subrange(k, e));
    assert(p[0] == 0x23u8 && p[1] == 0x3au8);
    assert(crate::source_support::has_prefix(p, crate::source_support::pat_hash_colon())) by {
        assert(p[0int + 0int] == crate::source_support::pat_hash_colon()[0]);
        assert(p[0int + 1int] == crate::source_support::pat_hash_colon()[1]);
    }
    assert(crate::source_support::prev_non_empty(nls, line + 1) == Some(line));
}

} // verus!

verus! {

/// Two code-lens methods are the same lens: same class, name, singleton
/// flag and location.
pub open spec fn same_lens(a: (String, MethodSig), b: (String, MethodSig)) -> bool {
    &&& bytes_of(a.0) == bytes_of(b.0)
    &&& bytes_of(a.1.name) == bytes_of(b.1.name)
    &&& a.1.is_singleton == b.1.is_singleton
    &&& a.1.loc == b.1.loc
}

/// Method `c` is the first of its lens with the best rendered signature:
/// no method of the same lens renders better, and every earlier one renders
/// worse.
pub open spec fn best_of_lens(ms: Seq<(String, MethodSig)>, ds: Seq<Seq<u8>>, c: int, n: int) -> bool {
    &&& 0 <= c < n
    &&& forall|j: int|
        0 <= j < n && same_lens(#[trigger] ms[j], ms[c]) ==> !crate::display::better_display(ds[j], ds[c])
    &&& forall|j: int|
        0 <= j < c && same_lens(#[trigger] ms[j], ms[c]) ==> crate::display::better_display(ds[c], ds[j])
}

/// The kept methods `kept` of the first `n` methods: one per lens, each the
/// first with the best rendered signature.
pub open spec fn lens_selection(ms: Seq<(String, MethodSig)>, ds: Seq<Seq<u8>>, kept: Seq<usize>, n: int) -> bool {
    &&& forall|g: int| 0 <= g < kept.len() ==> best_of_lens(ms, ds, #[trigger] kept[g] as int, n)
    &&& forall|g: int, h: int|
        0 <= g < h < kept.len() ==> !same_lens(ms[#[trigger] kept[g] as int], ms[#[trigger] kept[h] as int])
    &&& forall|j: int|
        0 <= j < n ==> exists|g: int| 0 <= g < kept.len() && same_lens(#[trigger] ms[j], ms[kept[g] as int])
}

/// Whether two code-lens methods are the same lens.
fn is_same_lens(a: &(String, MethodSig), b: &(String, MethodSig)) -> (r: bool)
    ensures
        r == same_lens(*a, *b),
{
    let same_loc = match (a.1.loc, b.1.loc) {
        (Some(x), Some(y)) => x.line == y.line && x.column == y.column,
        (None, None) => true,
        _ => false,
    };
    crate::source_support::equals_bytes(a.0.as_str().as_bytes(), b.0.as_str().as_bytes())
        && crate::source_support::equals_bytes(a.1.name.as_str().as_bytes(), b.1.name.as_str().as_bytes())
        && a.1.is_singleton == b.1.is_singleton && same_loc
}

/// Method `i` shares its lens with another method of `ms`.
pub open spec fn shares_lens(ms: Seq<(String, MethodSig)>, i: int) -> bool {
    exists|j: int| 0 <= j < ms.len() && j != i && same_lens(#[trigger] ms[j], ms[i])
}

/// Every method that shares its lens with another has a rendered
/// signature that can be counted (see `all_countable`): those are the
/// renderings the selection compares.
pub open spec fn lens_displays_countable_spec(ms: Seq<(String, MethodSig)>, ds: Seq<String>) -> bool {
    forall|i: int|
        0 <= i < ms.len() && shares_lens(ms, i) ==> crate::display::all_countable(
            source_lines(bytes_of(#[trigger] ds[i])),
        )
}

/// Whether the renderings that the selection compares can all be counted.
pub fn lens_displays_countable(methods: &[(String, MethodSig)], displays: &[String]) -> (r: bool)
    requires
        methods@.len() == displays@.len(),
    ensures
        r == lens_displays_countable_spec(methods@, displays@),
{
    let mut i: usize = 0;
    while i < methods.len()
        invariant
            i <= methods@.len() == displays@.len(),
            forall|k: int|
                0 <= k < i && shares_lens(methods@, k) ==> crate::display::all_countable(
                    source_lines(bytes_of(#[trigger] displays@[k])),
                ),
        decreases methods@.len() - i,
    {
        let mut j: usize = 0;
        let mut shared = false;
        while j < methods.len() && !shared
            invariant
                j <= methods@.len(),
                i < methods@.len(),
                forall|h: int| 0 <= h < j && h != i ==> !same_lens(#[trigger] methods@[h], methods@[i as int]),
                shared ==> j < methods@.len() && j != i && same_lens(methods@[j as int], methods@[i as int]),
            decreases methods@.len() - j + if shared { 0int } else { 1int },
        {
            if j != i && is_same_lens(&methods[j], &methods[i]) {
                shared = true;
            } else {
                j = j + 1;
            }
        }
        proof {
            if shared {
                assert(shares_lens(methods@, i as int));
            } else {
                assert(!shares_lens(methods@, i as int));
            }
        }
        if shared && !crate::display::signature_display_countable(displays[i].as_str()) {
            return false;
        }
        i = i + 1;
    }
    true
}

/// The code-lens methods to show when several analyses report the same
/// lens: for each lens, the first method whose rendered signature
/// (`displays`, one per method) no other method of that lens beats. Returns
/// the indices of the kept methods, one per lens.
#[verifier::rlimit(60)]
#[verifier::spinoff_prover]
pub fn select_code_lens_methods(methods: &[(String, MethodSig)], displays: &[String]) -> (r: Vec<usize>)
    requires
        methods@.len() == displays@.len(),
        lens_displays_countable_spec(methods@, displays@),
    ensures
        lens_selection(methods@, displays@.map_values(|d: String| bytes_of(d)), r@, methods@.len() as int),
{
    let ghost ds = displays@.map_values(|d: String| bytes_of(d));
    let mut kept: Vec<usize> = Vec::new();
    let mut i: usize = 0;
    while i < methods.len()
        invariant
            i <= methods@.len() == displays@.len() == ds.len(),
            ds == displays@.map_values(|d: String| bytes_of(d)),
            lens_displays_countable_spec(methods@, displays@),
            forall|g: int| 0 <= g < kept@.len() ==> #[trigger] kept@[g] < i,
            lens_selection(methods@, ds, kept@, i as int),
        decreases methods@.len() - i,
    {
        let mut g: usize = 0;
        let mut found = false;
        while g < kept.len() && !found
            invariant
                g <= kept@.len(),
                i < methods@.len(),
                forall|h: int| 0 <= h < kept@.len() ==> #[trigger] kept@[h] < i,
                forall|h: int| 0 <= h < g ==> !same_lens(methods@[#[trigger] kept@[h] as int], methods@[i as int]),
                found ==> g < kept@.len() && same_lens(methods@[kept@[g as int] as int], methods@[i as int]),
            decreases kept@.len() - g + if found { 0int } else { 1int },
        {
            if is_same_lens(&methods[kept[g]], &methods[i]) {
                found = true;
            } else {
                g = g + 1;
            }
        }
        let ghost old_kept = kept@;
        let ghost mut replaced = false;
        if found {
            let current = kept[g];
            proof {
                assert(ds[i as int] == bytes_of(displays@[i as int]));
                assert(ds[current as int] == bytes_of(displays@[current as int]));
                assert(same_lens(methods@[current as int], methods@[i as int]));
                assert(shares_lens(methods@, i as int));
                assert(same_lens(methods@[i as int], methods@[current as int]));
                assert(shares_lens(methods@, current as int));
            }
            if crate::display::is_better_signature_display(displays[i].as_str(), displays[current].as_str()) {
                kept.set(g, i);
                proof {
                    replaced = true;
                }
            } else {
                proof {
                    assert(!crate::display::better_display(ds[i as int], ds[current as int]));
                }
            }
        } else {
            kept.push(i);
        }
        proof {
            let n = i + 1;
            assert forall|q: int| 0 <= q < kept@.len() implies best_of_lens(methods@, ds, #[trigger] kept@[q] as int, n) by {
                if q < old_kept.len() && !(found && replaced && q == g) {
                    assert(kept@[q] == old_kept[q]);
                    assert(best_of_lens(methods@, ds, old_kept[q] as int, i as int));
                    if same_lens(methods@[i as int], methods@[kept@[q] as int]) {
                        if !found || q != g {
                            if q < g {
                                assert(!same_lens(methods@[old_kept[q] as int], methods@[i as int]));
                            } else if found {
                                assert(!same_lens(methods@[old_kept[g as int] as int], methods@[old_kept[q] as int]));
                            }
                        }
                        assert(found && q == g && !replaced);
                    }
                } else if found {
                    let c = old_kept[g as int] as int;
                    assert(best_of_lens(methods@, ds, c, i as int));
                    assert(kept@[q] == i);
                    assert forall|j: int| 0 <= j < n && same_lens(#[trigger] methods@[j], methods@[i as int]) implies !crate::display::better_display(ds[j], ds[i as int]) by {
                        if j < i {
                            assert(same_lens(methods@[j], methods@[c]));
                        } else {
                            crate::display::law_better_display_irreflexive(ds[i as int]);
                        }
                    }
                    assert forall|j: int| 0 <= j < i && same_lens(#[trigger] methods@[j], methods@[i as int]) implies crate::display::better_display(ds[i as int], ds[j]) by {
                        assert(same_lens(methods@[j], methods@[c]));
                    }
                } else {
                    assert(kept@[q] == i);
                    assert forall|j: int| 0 <= j < i && same_lens(#[trigger] methods@[j], methods@[i as int]) implies false by {
                        let h = choose|h: int| 0 <= h < old_kept.len() && same_lens(methods@[j], methods@[old_kept[h] as int]);
                        assert(!same_lens(methods@[old_kept[h] as int], methods@[i as int]));
                    }
                    crate::display::law_better_display_irreflexive(ds[i as int]);
                }
            }
            assert forall|p: int, q: int| 0 <= p < q < kept@.len() implies !same_lens(methods@[#[trigger] kept@[p] as int], methods@[#[trigger] kept@[q] as int]) by {
                if found {
                    if p == g || q == g {
                        let o = if p == g { q } else { p };
                        assert(!same_lens(methods@[old_kept[o] as int], methods@[old_kept[g as int] as int]) || !same_lens(methods@[old_kept[g as int] as int], methods@[old_kept[o] as int]));
                    }
                } else if q == old_kept.len() {
                    assert(!same_lens(methods@[old_kept[p] as int], methods@[i as int]));
                }
            }
            assert forall|j: int| 0 <= j < n implies exists|h: int| 0 <= h < kept@.len() && same_lens(#[trigger] methods@[j], methods@[kept@[h] as int]) by {
                if j < i {
                    let h = choose|h: int| 0 <= h < old_kept.len() && same_lens(methods@[j], methods@[old_kept[h] as int]);
                    if found && h == g {
                        assert(same_lens(methods@[j], methods@[kept@[h] as int]));
                    } else {
                        assert(kept@[h] == old_kept[h]);
                    }
                } else if found {
                    assert(same_lens(methods@[j], methods@[kept@[g as int] as int]));
                } else {
                    assert(same_lens(methods@[j], methods@[kept@[old_kept.len() as int] as int]));
                }
            }
        }
        i = i + 1;
    }
    kept
}

} // verus!


verus! {

/// The range of the code lens shown for a method, if one is shown: the
/// method gets a lens, its range resolves, and the line the range starts on
/// is a `def` line that carries no signature annotation yet.
pub open spec fn visible_lens_range(b: Seq<u8>, sig: MethodSig) -> Option<Range> {
    if !lens_shown(sig) {
        None
    } else {
        match lens_range(b, sig) {
            None => None,
            Some(r) => {
                let ls = source_lines(b);
                let line = r.start.line as int;
                if crate::source_support::direct_annotation(ls, line) {
                    None
                } else if !(line < ls.len() && crate::source_support::line_supports_signature(ls[line])) {
                    None
                } else {
                    Some(r)
                }
            },
        }
    }
}

/// The range of the signature code lens for `sig`, when the lens is shown.
pub fn code_lens_visible_range(source: &str, sig: &MethodSig) -> (r: Option<Range>)
    requires
        source.spec_bytes().len() <= u32::MAX,
    ensures
        r == visible_lens_range(source.spec_bytes(), *sig),
{
    if !should_show_code_lens(sig) {
        return None;
    }
    let range = match code_lens_range_for_method(source, sig) {
        Some(r) => r,
        None => return None,
    };
    let lines = split_source_lines(source);
    let line = range.start.line as usize;
    if crate::source_support::source_line_has_direct_annotation(lines.as_slice(), line) {
        return None;
    }
    if !crate::source_support::source_line_supports_signature_comment_from_lines(lines.as_slice(), line) {
        return None;
    }
    Some(range)
}

/// Inserting a signature comment adds one line: with `L` the source's lines
/// (as `str::lines` reads them) and `n` the target line, there is a result
/// exactly when `n` is a line of the source, and then the result ends with a
/// newline and its lines are `L[..n]`, the comment `#: rbs` indented like
/// `L[n]`, and `L[n..]`. Stated for a comment of one line and for lines
/// that do not end with a carriage return, which `str::lines` would drop.
pub proof fn law_signature_comment_adds_one_line(b: Seq<u8>, line: int, rbs: Seq<u8>)
    requires
        plain_line(rbs),
        forall|i: int| 0 <= i < source_lines(b).len() ==> !(#[trigger] source_lines(b)[i].len() > 0
            && source_lines(b)[i].last() == 0x0du8),
    ensures
        signature_insertion(b, line, rbs) is None <==> !(0 <= line < source_lines(b).len()),
        signature_insertion(b, line, rbs) matches Some(out) ==> {
            let ls = source_lines(b);
            &&& out.len() > 0 && out.last() == NEWLINE
            &&& source_lines(out) == ls.take(line) + seq![indent_of(ls[line]) + lens_title(rbs)] + ls.skip(line)
        },
{
    let ls = source_lines(b);
    if 0 <= line < ls.len() {
        let ind = indent_of(ls[line]);
        let c = ind + lens_title(rbs);
        let nl = ls.take(line) + seq![c] + ls.skip(line);
        assert forall|i: int| 0 <= i < ls.len() implies #[trigger] plain_line(ls[i]) by {
            lemma_source_lines_no_newline(b, i);
        }
        lemma_trim_start_ge(ls[line], 0, ls[line].len() as int);
        assert forall|k: int| 0 <= k < c.len() implies c[k] != NEWLINE by {
            if k < ind.len() {
                assert(c[k] == ls[line][k]);
                assert(plain_line(ls[line]));
            } else if k < ind.len() + 3 {
                assert(c[k] == title_prefix()[k - ind.len()]);
            } else {
                assert(c[k] == rbs[k - ind.len() - 3]);
            }
        }
        if rbs.len() > 0 {
            assert(c.last() == rbs.last());
        } else {
            assert(c.last() == title_prefix()[2]);
        }
        assert(plain_line(c));
        assert forall|i: int| 0 <= i < nl.len() implies #[trigger] plain_line(nl[i]) by {
            if i < line {
                assert(nl[i] == ls[i]);
            } else if i == line {
                assert(nl[i] == c);
            } else {
                assert(nl[i] == ls[i - 1]);
            }
        }
        lemma_joined_concat(ls.take(line) + seq![c], ls.skip(line));
        lemma_joined_concat(ls.take(line), seq![c]);
        assert(seq![c].drop_last() =~= Seq::<Seq<u8>>::empty());
        assert(joined_lines(seq![c]) =~= c + seq![NEWLINE]);
        let out = joined_lines(ls.take(line)) + ind + lens_title(rbs) + seq![NEWLINE] + joined_lines(ls.skip(line));
        assert(out =~= joined_lines(nl));
        lemma_lines_of_joined(nl);
        assert(nl.len() > 0);
        assert(joined_lines(nl) == joined_lines(nl.drop_last()) + nl.last() + seq![NEWLINE]);
    }
}

/// Whether a code-lens request gets signature lenses: only while signature
/// lenses are enabled, and for a text whose positions fit LSP's `u32`.
pub fn signature_lenses_enabled(signature_enabled: bool, source: &str) -> (r: bool)
    ensures
        r == (signature_enabled && source.spec_bytes().len() <= u32::MAX),
{
    signature_enabled && crate::text::str_len(source) <= 0xffff_ffffusize
}

/// A signature lens: where it stands, its title, and the command it runs
/// with the lens's line and signature text (the server adds the document
/// and the method's context to the command's arguments).
pub struct SignatureLens {
    pub range: Range,
    pub title: String,
    pub command: String,
    pub line: u32,
    pub rbs_text: String,
}

/// The name of the command a signature lens runs.
fn create_signature_command() -> (r: &'static str)
    ensures
        r@ == "typeprof.createSignature"@,
{
    "typeprof.createSignature"
}

/// The lens for a method whose lens stands on `range`: titled `#: rbs_text`,
/// running `typeprof.createSignature` for the range's first line and
/// `rbs_text`.
pub fn signature_lens(range: Range, rbs_text: &str) -> (r: SignatureLens)
    ensures
        r.range == range,
        bytes_of(r.title) == lens_title(rbs_text.spec_bytes()),
        r.command@ == "typeprof.createSignature"@,
        r.line == range.start.line,
        r.rbs_text@ == rbs_text@,
{
    let command = crate::text::to_string_of(create_signature_command());
    let text = crate::text::to_string_of(rbs_text);
    proof {
        vstd::utf8::encode_utf8_decode_utf8(command@);
        vstd::utf8::encode_utf8_decode_utf8("typeprof.createSignature"@);
        vstd::utf8::encode_utf8_decode_utf8(text@);
        vstd::utf8::encode_utf8_decode_utf8(rbs_text@);
    }
    SignatureLens { range, title: code_lens_title(rbs_text), command, line: range.start.line, rbs_text: text }
}

/// Every signature lens stands where a signature comment can go: its line
/// is a line of the source that supports a comment and carries no
/// annotation yet, and (built by `signature_lens`) it runs
/// `typeprof.createSignature` for that line with title `#: ` and the
/// signature.
pub proof fn law_signature_lenses_stand_on_unannotated_lines(b: Seq<u8>, sig: MethodSig, range: Range, lens: SignatureLens, rbs: Seq<u8>)
    requires
        visible_lens_range(b, sig) == Some(range),
        lens.range == range,
        bytes_of(lens.title) == lens_title(rbs),
        lens.command@ == "typeprof.createSignature"@,
        lens.line == range.start.line,
    ensures
        ({
            let ls = source_lines(b);
            let n = lens.line as int;
            &&& n < ls.len()
            &&& crate::source_support::line_supports_signature(ls[n])
            &&& !crate::source_support::direct_annotation(ls, n)
            &&& bytes_of(lens.title) == title_prefix() + rbs
            &&& lens.command@ == "typeprof.createSignature"@
        }),
{
}

} // verus!
