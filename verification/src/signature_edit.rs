//! The edit that the signature command asks the editor to apply: the
//! `#:` comment line inserted at the start of the method's line.

use vstd::prelude::*;
use vstd::string::*;
use vstd::utf8::valid_utf8;
use crate::code_lens::{comment_line, indent_of, joined_lines, lens_title, signature_insertion};
use crate::position::{
    column_offset, line_end, line_start, line_start_from, spec_apply_change, spec_apply_changes,
    spec_position_to_offset, ContentChange, Position, Range, NEWLINE,
};
use crate::source_support::{source_lines, split_source_lines};
use crate::text::{bytes_of, index_of_byte, is_boundary, lemma_after_ascii, lemma_index_of_range, line_spans, lines_of};

verus! {

broadcast use vstd::seq_lib::group_seq_properties;

/// The text of the comment line inserted before line `line` (0-based) for
/// `rbs`: that line's indentation (none when the text has no such line),
/// `#: `, the RBS text and a newline.
pub open spec fn signature_edit_text(b: Seq<u8>, line: int, rbs: Seq<u8>) -> Seq<u8> {
    let ls = source_lines(b);
    (if 0 <= line < ls.len() {
        indent_of(ls[line])
    } else {
        Seq::empty()
    }) + lens_title(rbs) + seq![NEWLINE]
}

/// The text of the comment line that the signature command inserts at the
/// start of line `target_line` of `source`.
pub fn signature_comment_edit_text(source: &str, target_line: u32, rbs_text: &str) -> (r: String)
    ensures
        bytes_of(r) == signature_edit_text(source.spec_bytes(), target_line as int, rbs_text.spec_bytes()),
{
    let lines = split_source_lines(source);
    let def_line: &str = if (target_line as usize) < lines.len() {
        lines[target_line as usize]
    } else {
        ""
    };
    proof {
        let ls = source_lines(source.spec_bytes());
        if (target_line as int) < ls.len() {
            assert(crate::source_support::line_bytes_of(lines@)[target_line as int]
                == def_line.spec_bytes());
        } else {
            reveal_strlit("");
            assert(def_line.spec_bytes() =~= Seq::<u8>::empty());
            assert(indent_of(def_line.spec_bytes()) =~= Seq::<u8>::empty());
        }
    }
    comment_line(def_line, rbs_text)
}

/// The texts of the windows `sp` of `b`.
pub open spec fn window_texts(b: Seq<u8>, sp: Seq<(int, int)>) -> Seq<Seq<u8>> {
    Seq::new(sp.len(), |i: int| b.subrange(sp[i].0, sp[i].1))
}

/// A text that ends with a newline and has no carriage return: its lines,
/// each with its newline put back, are the text again.
pub open spec fn plain_text(b: Seq<u8>) -> bool {
    &&& b.len() > 0
    &&& b.last() == NEWLINE
    &&& forall|k: int| 0 <= k < b.len() ==> #[trigger] b[k] != 0x0du8
}

/// Joining lines distributes over concatenation.
pub proof fn lemma_joined_concat(a: Seq<Seq<u8>>, c: Seq<Seq<u8>>)
    ensures
        joined_lines(a + c) == joined_lines(a) + joined_lines(c),
    decreases c.len(),
{
    if c.len() == 0 {
        assert(a + c =~= a);
        assert(joined_lines(a) + joined_lines(c) =~= joined_lines(a));
    } else {
        lemma_joined_concat(a, c.drop_last());
        assert((a + c).drop_last() =~= a + c.drop_last());
        assert((a + c).last() == c.last());
        assert(joined_lines(a + c) =~= joined_lines(a) + joined_lines(c));
    }
}

/// The first newline at or after `s` in a text that ends with one.
proof fn lemma_newline_found(b: Seq<u8>, s: int)
    requires
        plain_text(b),
        0 <= s < b.len(),
    ensures
        s <= index_of_byte(b, s, b.len() as int, NEWLINE) < b.len(),
        b[index_of_byte(b, s, b.len() as int, NEWLINE)] == NEWLINE,
    decreases b.len() - s,
{
    if b[s] != NEWLINE {
        lemma_newline_found(b, s + 1);
    }
}

/// One line joined is that line and a newline.
proof fn lemma_joined_single(x: Seq<u8>)
    ensures
        joined_lines(seq![x]) == x + seq![NEWLINE],
{
    assert(seq![x].drop_last() =~= Seq::<Seq<u8>>::empty());
    assert(joined_lines(Seq::<Seq<u8>>::empty()) == Seq::<u8>::empty());
    assert(Seq::<u8>::empty() + x =~= x);
}

/// The spans from a line start `s` that is not the end: the first line
/// runs to the first newline, and the rest start after it.
proof fn lemma_spans_step(b: Seq<u8>, s: int)
    requires
        plain_text(b),
        0 <= s < b.len(),
    ensures
        line_spans(b, s) == seq![(s, index_of_byte(b, s, b.len() as int, NEWLINE))] + line_spans(
            b,
            index_of_byte(b, s, b.len() as int, NEWLINE) + 1,
        ),
        s <= index_of_byte(b, s, b.len() as int, NEWLINE) < b.len(),
        b[index_of_byte(b, s, b.len() as int, NEWLINE)] == NEWLINE,
        line_start_from(b, s, 1) == Some(index_of_byte(b, s, b.len() as int, NEWLINE) + 1),
{
    lemma_newline_found(b, s);
    let e = index_of_byte(b, s, b.len() as int, NEWLINE);
    if e > s {
        assert(b[e - 1] != 0x0du8);
    }
    reveal_with_fuel(line_start_from, 2);
}

/// The texts of a span followed by more spans.
proof fn lemma_window_texts_cons(b: Seq<u8>, p: (int, int), rest: Seq<(int, int)>)
    ensures
        window_texts(b, seq![p] + rest) == seq![b.subrange(p.0, p.1)] + window_texts(b, rest),
{
    assert(window_texts(b, seq![p] + rest) =~= seq![b.subrange(p.0, p.1)] + window_texts(b, rest));
}

/// From a line start `s` of a plain text on, the lines joined with their
/// newlines are the rest of the text.
proof fn lemma_joined_from(b: Seq<u8>, s: int)
    requires
        plain_text(b),
        0 <= s <= b.len(),
    ensures
        joined_lines(window_texts(b, line_spans(b, s))) == b.subrange(s, b.len() as int),
    decreases b.len() - s,
{
    let sp = line_spans(b, s);
    if s < b.len() {
        lemma_spans_step(b, s);
        let e = index_of_byte(b, s, b.len() as int, NEWLINE);
        lemma_joined_from(b, e + 1);
        let rest = line_spans(b, e + 1);
        let x = b.subrange(s, e);
        lemma_window_texts_cons(b, (s, e), rest);
        lemma_joined_concat(seq![x], window_texts(b, rest));
        lemma_joined_single(x);
        assert(b.subrange(s, b.len() as int) =~= x + seq![NEWLINE] + b.subrange(
            e + 1,
            b.len() as int,
        ));
    } else {
        assert(window_texts(b, sp) =~= Seq::<Seq<u8>>::empty());
        assert(b.subrange(s, b.len() as int) =~= Seq::<u8>::empty());
    }
}

/// From a line start `s` of a plain text on, the `k`-th line starts where
/// `line_start_from` says, within the text, and the spans from there are
/// the tail of those from `s`.
proof fn lemma_starts_from(b: Seq<u8>, s: int, k: int)
    requires
        plain_text(b),
        0 <= s <= b.len(),
        0 <= k < line_spans(b, s).len(),
    ensures
        line_start_from(b, s, k as nat) == Some(line_spans(b, s)[k].0),
        s <= line_spans(b, s)[k].0 < b.len(),
        line_spans(b, line_spans(b, s)[k].0) == line_spans(b, s).skip(k),
        k > 0 ==> line_spans(b, s)[k - 1].1 + 1 == line_spans(b, s)[k].0,
    decreases k,
{
    let sp = line_spans(b, s);
    lemma_spans_step(b, s);
    let e = index_of_byte(b, s, b.len() as int, NEWLINE);
    let rest = line_spans(b, e + 1);
    if k == 0 {
        assert(sp.skip(0) =~= sp);
    } else {
        lemma_starts_from(b, e + 1, k - 1);
        assert(sp[k] == rest[k - 1]);
        assert(sp.skip(k) =~= rest.skip(k - 1));
        if k == 1 {
            assert(sp[0] == (s, e));
        } else {
            assert(sp[k - 1] == rest[k - 2]);
        }
    }
}

/// The LSP position at column 0 of a line of a plain text is the line's
/// start, a character boundary.
proof fn lemma_offset_of_line_start(b: Seq<u8>, l: int)
    requires
        valid_utf8(b),
        plain_text(b),
        0 <= l < lines_of(b).len(),
        l <= u32::MAX,
    ensures
        spec_position_to_offset(b, Position { line: l as u32, character: 0 }) == Some(lines_of(b)[l].0),
        is_boundary(b, lines_of(b)[l].0),
{
    let sp = lines_of(b);
    let s = sp[l].0;
    lemma_starts_from(b, 0, l);
    lemma_index_of_range(b, s, b.len() as int, NEWLINE);
    if l > 0 {
        lemma_starts_from(b, 0, l - 1);
        lemma_spans_step(b, sp[l - 1].0);
        lemma_after_ascii(b, s - 1);
    } else {
        assert(b[0] != 0x80u8 && !(0x80 <= b[0] <= 0xbf)) by {
            assert(vstd::utf8::valid_first_scalar(b));
        }
    }
    assert(column_offset(b, s, line_end(b, s), 0) == Some(s));
}

/// Applying the signature command's edit, an insertion of its comment line
/// at the start of the method's line, gives the same text as the server's
/// own insertion, for a text that ends with a newline and has no carriage
/// return.
pub proof fn law_signature_edit_matches_insertion(b: Seq<u8>, line: u32, rbs: Seq<u8>, text: String)
    requires
        valid_utf8(b),
        plain_text(b),
        (line as int) < source_lines(b).len(),
        bytes_of(text) == signature_edit_text(b, line as int, rbs),
    ensures
        spec_apply_changes(
            b,
            seq![
                ContentChange {
                    range: Some(
                        Range {
                            start: Position { line, character: 0 },
                            end: Position { line, character: 0 },
                        },
                    ),
                    text,
                },
            ],
        ) == signature_insertion(b, line as int, rbs),
{
    let l = line as int;
    let sp = lines_of(b);
    let ls = source_lines(b);
    let s = sp[l].0;
    assert(ls =~= window_texts(b, sp));
    lemma_starts_from(b, 0, l);
    assert(line_start(b, line as nat) == Some(s));
    lemma_joined_from(b, 0);
    lemma_joined_from(b, s);
    assert(window_texts(b, line_spans(b, s)) =~= ls.skip(l));
    assert(ls =~= ls.take(l) + ls.skip(l));
    lemma_joined_concat(ls.take(l), ls.skip(l));
    assert(b.subrange(0, b.len() as int) =~= b);
    assert(joined_lines(ls.take(l)) =~= b.subrange(0, s));
    lemma_offset_of_line_start(b, l);
    let c = ContentChange {
        range: Some(Range { start: Position { line, character: 0 }, end: Position { line, character: 0 } }),
        text,
    };
    assert(seq![c].drop_last() =~= Seq::<ContentChange>::empty());
    reveal_with_fuel(spec_apply_changes, 2);
    assert(spec_apply_changes(b, seq![c]) == spec_apply_change(b, c));
    assert(spec_apply_change(b, c) == Some(b.subrange(0, s) + bytes_of(text) + b.subrange(s, b.len() as int)));
    assert(ls[l] == b.subrange(s, sp[l].1));
    assert(b.subrange(0, s) + bytes_of(text) + b.subrange(s, b.len() as int) =~= joined_lines(
        ls.take(l),
    ) + indent_of(ls[l]) + lens_title(rbs) + seq![NEWLINE] + joined_lines(ls.skip(l)));
}

} // verus!
