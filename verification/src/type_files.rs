//! Declarations in RBS type files: where `class Name` or `module Name`
//! starts, for go-to-definition into `.rbs` and `.rbi` files.

use vstd::prelude::*;
use vstd::utf8::*;
use vstd::string::*;
use vstd::std_specs::iter::IteratorSpec;
use crate::text::{lemma_after_ascii, lemma_str_valid, str_slice, str_trim_start, trim_start_at};
use crate::position::{Position, Range};
use crate::source_support::{has_prefix, source_lines, split_source_lines, starts_with_bytes};

verus! {

broadcast use vstd::seq_lib::group_seq_properties;

/// `class `
pub open spec fn pat_class() -> Seq<u8> {
    seq![0x63u8, 0x6cu8, 0x61u8, 0x73u8, 0x73u8, 0x20u8]
}

/// `module `
pub open spec fn pat_module() -> Seq<u8> {
    seq![0x6du8, 0x6fu8, 0x64u8, 0x75u8, 0x6cu8, 0x65u8, 0x20u8]
}

/// The character at index `k` of `cs` ends a declared name: there is none,
/// or it is a space, `<` (a superclass) or `[` (type parameters).
pub open spec fn ends_name_at(cs: Seq<char>, k: int) -> bool {
    k >= cs.len() || cs[k] == ' ' || cs[k] == '<' || cs[k] == '['
}

/// The text `t` starts with `keyword`, then `name`, and the name ends there.
/// As the server does, the end is looked for at the character whose index is
/// the byte length of the name.
pub open spec fn keyword_declares(t: Seq<u8>, keyword: Seq<u8>, name: Seq<u8>) -> bool {
    &&& has_prefix(t, keyword)
    &&& has_prefix(t.skip(keyword.len() as int), name)
    &&& ends_name_at(decode_utf8(t.skip(keyword.len() as int)), name.len() as int)
}

/// The length of the keyword with which `line` declares `name`, if it does.
pub open spec fn declaration_keyword(line: Seq<u8>, name: Seq<u8>) -> Option<int> {
    let t = line.skip(trim_start_at(line, 0, line.len() as int));
    if keyword_declares(t, pat_class(), name) {
        Some(6)
    } else if keyword_declares(t, pat_module(), name) {
        Some(7)
    } else {
        None
    }
}

/// The range that `name` spans on line `i` once a keyword of length `kl`
/// is found there; columns count bytes.
pub open spec fn name_range(line: Seq<u8>, i: int, kl: int, name: Seq<u8>) -> Range {
    let indent = trim_start_at(line, 0, line.len() as int);
    Range {
        start: Position { line: i as u32, character: (indent + kl) as u32 },
        end: Position { line: i as u32, character: (indent + kl + name.len()) as u32 },
    }
}

/// The range of `name` on the first line, from line `i` on, that declares
/// it as a class or module.
pub open spec fn declaration_range_from(ls: Seq<Seq<u8>>, i: int, name: Seq<u8>) -> Option<Range>
    decreases ls.len() - i,
{
    if i < 0 || i >= ls.len() {
        None
    } else {
        match declaration_keyword(ls[i], name) {
            Some(kl) => Some(name_range(ls[i], i, kl, name)),
            None => declaration_range_from(ls, i + 1, name),
        }
    }
}

/// The character at index `k` of `s`, if it has one (`s.chars().nth(k)`).
fn nth_char(s: &str, k: usize) -> (r: Option<char>)
    ensures
        r == if k < s@.len() {
            Some(s@[k as int])
        } else {
            None::<char>
        },
{
    broadcast use {vstd::string::axiom_spec_iter, vstd::string::next_postcondition};

    let mut it = s.chars();
    let mut j: usize = 0;
    while j < k
        invariant
            j <= k,
            j <= s@.len(),
            it.remaining() == s@.skip(j as int),
        decreases k - j,
    {
        match it.next() {
            Some(_) => {},
            None => {
                return None;
            },
        }
        j = j + 1;
    }
    let r = it.next();
    proof {
        if k < s@.len() {
            assert(s@.skip(j as int)[0] == s@[k as int]);
        }
    }
    r
}

/// Whether the indentation-free line text `t` starts with the keyword `kw`
/// and then declares `name`.
fn declares_with(t: &str, kw: &[u8], name: &str) -> (r: bool)
    requires
        kw@.len() > 0,
        kw@.last() == 0x20u8,
    ensures
        r == keyword_declares(t.spec_bytes(), kw@, name.spec_bytes()),
{
    let tb = t.as_bytes();
    if !starts_with_bytes(tb, kw) {
        return false;
    }
    let kl = kw.len();
    proof {
        lemma_str_valid(t);
        assert(tb@[0 + (kl - 1)] == kw@[kl - 1]);
        lemma_after_ascii(tb@, kl - 1);
    }
    let rest = str_slice(t, kl, tb.len());
    if !starts_with_bytes(rest.as_bytes(), name.as_bytes()) {
        return false;
    }
    let next = nth_char(rest, name.as_bytes().len());
    proof {
        encode_utf8_decode_utf8(rest@);
        assert(rest.spec_bytes() =~= tb@.skip(kl as int));
    }
    match next {
        None => true,
        Some(c) => c == ' ' || c == '<' || c == '[',
    }
}

/// The keyword length with which `line` declares `name`, with the line's
/// indentation-free text.
fn declaration_keyword_of(line: &str, name: &str) -> (r: Option<usize>)
    ensures
        r == crate::text::opt_usize(declaration_keyword(line.spec_bytes(), name.spec_bytes())),
{
    let t = str_trim_start(line);
    let class_kw: [u8; 6] = [0x63, 0x6c, 0x61, 0x73, 0x73, 0x20];
    let module_kw: [u8; 7] = [0x6d, 0x6f, 0x64, 0x75, 0x6c, 0x65, 0x20];
    proof {
        assert(class_kw@ =~= pat_class());
        assert(module_kw@ =~= pat_module());
    }
    if declares_with(t, class_kw.as_slice(), name) {
        Some(6)
    } else if declares_with(t, module_kw.as_slice(), name) {
        Some(7)
    } else {
        None
    }
}

/// The range of `class_name` where an RBS type file declares it with
/// `class` or `module`: on the first such line, from the column after the
/// keyword (past the indentation) to the end of the name. `None` when no
/// line declares it.
pub fn find_decl_range_in_type_file(content: &str, class_name: &str) -> (r: Option<Range>)
    ensures
        r == declaration_range_from(source_lines(content.spec_bytes()), 0, class_name.spec_bytes()),
{
    let lines = split_source_lines(content);
    let ghost ls = source_lines(content.spec_bytes());
    let ghost nb = class_name.spec_bytes();
    proof {
        assert forall|k: int| 0 <= k < ls.len() implies #[trigger] ls[k] == lines@[k].spec_bytes() by {
            assert(crate::source_support::line_bytes_of(lines@)[k] == lines@[k].spec_bytes());
        }
    }
    let mut i: usize = 0;
    while i < lines.len()
        invariant
            i <= lines@.len(),
            nb == class_name.spec_bytes(),
            ls == source_lines(content.spec_bytes()),
            lines@.len() == ls.len(),
            forall|k: int| 0 <= k < ls.len() ==> #[trigger] ls[k] == lines@[k].spec_bytes(),
            declaration_range_from(ls, 0, nb) == declaration_range_from(ls, i as int, nb),
        decreases lines@.len() - i,
    {
        let line = lines[i];
        proof {
            assert(ls[i as int] == line.spec_bytes());
        }
        match declaration_keyword_of(line, class_name) {
            Some(kl) => {
                let lb = line.as_bytes();
                let t = str_trim_start(line);
                let indent = lb.len() - t.as_bytes().len();
                proof {
                    let a = trim_start_at(lb@, 0, lb@.len() as int);
                    let tt = lb@.skip(a);
                    assert(t.spec_bytes() =~= tt);
                    assert(has_prefix(tt.skip(kl as int), nb));
                }
                let start = Position { line: i as u32, character: (indent + kl) as u32 };
                let end = Position {
                    line: i as u32,
                    character: (indent + kl + class_name.as_bytes().len()) as u32,
                };
                return Some(Range { start, end });
            },
            None => {},
        }
        i = i + 1;
    }
    None
}

} // verus!
