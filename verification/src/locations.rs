//! Definition locations answered to the editor, without two that start at
//! the same place of the same document.

use vstd::prelude::*;
use vstd::string::*;
use crate::position::Range;
use crate::source_support::equals_bytes;
use crate::text::bytes_of;

verus! {

/// A range in a document, the document named by its URI.
#[derive(Clone, Debug)]
pub struct Location {
    pub uri: String,
    pub range: Range,
}

/// What makes two locations the same answer: the document and the start.
pub open spec fn location_key(l: Location) -> (Seq<u8>, u32, u32) {
    (bytes_of(l.uri), l.range.start.line, l.range.start.character)
}

/// Some location of `ls` has the key `k`.
pub open spec fn has_key(ls: Seq<Location>, k: (Seq<u8>, u32, u32)) -> bool {
    exists|i: int| 0 <= i < ls.len() && #[trigger] location_key(ls[i]) == k
}

/// No two locations of `ls` share a key.
pub open spec fn unique_keys(ls: Seq<Location>) -> bool {
    forall|i: int, j: int|
        0 <= i < j < ls.len() ==> #[trigger] location_key(ls[i]) != #[trigger] location_key(ls[j])
}

/// Appends `location` unless a location with the same document and start
/// is already there.
pub fn push_unique_location(locations: &mut Vec<Location>, location: Location)
    ensures
        has_key(old(locations)@, location_key(location)) ==> final(locations)@ == old(locations)@,
        !has_key(old(locations)@, location_key(location)) ==> final(locations)@ == old(
            locations,
        )@.push(location),
{
    let ghost k = location_key(location);
    let mut i: usize = 0;
    while i < locations.len()
        invariant
            i <= locations@.len(),
            k == location_key(location),
            forall|j: int| 0 <= j < i ==> #[trigger] location_key(locations@[j]) != k,
        decreases locations@.len() - i,
    {
        let l = &locations[i];
        if l.range.start.line == location.range.start.line && l.range.start.character
            == location.range.start.character && equals_bytes(
            l.uri.as_str().as_bytes(),
            location.uri.as_str().as_bytes(),
        ) {
            proof {
                assert(location_key(locations@[i as int]) == k);
            }
            return;
        }
        i = i + 1;
    }
    locations.push(location);
}

/// Pushing a location keeps the keys of a list unique, and afterwards the
/// list holds that key.
pub proof fn law_push_unique_location_keeps_keys_unique(ls: Seq<Location>, l: Location)
    requires
        unique_keys(ls),
    ensures
        unique_keys(if has_key(ls, location_key(l)) {
            ls
        } else {
            ls.push(l)
        }),
        has_key(
            if has_key(ls, location_key(l)) {
                ls
            } else {
                ls.push(l)
            },
            location_key(l),
        ),
{
    if !has_key(ls, location_key(l)) {
        let r = ls.push(l);
        assert(location_key(r[ls.len() as int]) == location_key(l));
        assert forall|i: int, j: int| 0 <= i < j < r.len() implies #[trigger] location_key(r[i])
            != #[trigger] location_key(r[j]) by {
            if j == ls.len() {
                assert(r[i] == ls[i]);
            } else {
                assert(r[i] == ls[i] && r[j] == ls[j]);
            }
        }
    }
}

/// At byte offset `off`: a `.`, or a `:` that is part of a `::`; a
/// definition lookup there is not attempted.
pub open spec fn at_member_separator(b: Seq<u8>, off: int) -> bool {
    0 <= off < b.len() && (b[off] == 0x2eu8 || (b[off] == 0x3au8 && ((off + 1 < b.len() && b[off
        + 1] == 0x3au8) || (off >= 1 && b[off - 1] == 0x3au8))))
}

/// Whether the byte at `byte_offset` is a `.` or belongs to a `::`, where
/// go-to-definition answers nothing.
pub fn definition_blocked_at(source: &str, byte_offset: usize) -> (r: bool)
    ensures
        r == at_member_separator(source.spec_bytes(), byte_offset as int),
{
    let b = source.as_bytes();
    if byte_offset >= b.len() {
        return false;
    }
    let x = b[byte_offset];
    if x == 0x2e {
        return true;
    }
    if x != 0x3a {
        return false;
    }
    (byte_offset + 1 < b.len() && b[byte_offset + 1] == 0x3a) || (byte_offset >= 1 && b[byte_offset
        - 1] == 0x3a)
}

} // verus!
