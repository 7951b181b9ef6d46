//! Reader/writer pairs among code-lens methods: an attribute read by `name`
//! and written by `name=` at the same place may get one combined lens.

use vstd::prelude::*;
use vstd::string::*;
use crate::text::bytes_of;
use crate::source_support::MethodSig;

verus! {

/// A method name with one trailing `=` removed: the attribute an accessor
/// reads or writes.
pub open spec fn accessor_base(name: Seq<u8>) -> Seq<u8> {
    if name.len() > 0 && name.last() == 0x3du8 {
        name.drop_last()
    } else {
        name
    }
}

/// A writer (`name=`) rather than a reader.
pub open spec fn is_writer(m: (String, MethodSig)) -> bool {
    bytes_of(m.1.name).len() > 0 && bytes_of(m.1.name).last() == 0x3du8
}

/// Two located methods read or write the same attribute at the same place:
/// same class, attribute, singleton flag and location.
#[verifier::opaque]
pub open spec fn same_accessor(a: (String, MethodSig), b: (String, MethodSig)) -> bool {
    &&& a.1.loc is Some
    &&& b.1.loc is Some
    &&& bytes_of(a.0) == bytes_of(b.0)
    &&& accessor_base(bytes_of(a.1.name)) == accessor_base(bytes_of(b.1.name))
    &&& a.1.is_singleton == b.1.is_singleton
    &&& a.1.loc == b.1.loc
}

/// `same_accessor` is an equivalence on located methods.
pub proof fn lemma_same_accessor(a: (String, MethodSig), b: (String, MethodSig), c: (String, MethodSig))
    ensures
        same_accessor(a, b) ==> same_accessor(b, a),
        same_accessor(a, b) && same_accessor(b, c) ==> same_accessor(a, c),
        same_accessor(a, b) ==> a.1.loc is Some,
        a.1.loc is Some ==> same_accessor(a, a),
{
    reveal(same_accessor);
}

/// `k` is the last of the first `n` methods in the accessor group of `m`
/// with the given role.
pub open spec fn last_in_role(ms: Seq<(String, MethodSig)>, m: int, k: int, writer: bool, n: int) -> bool {
    &&& 0 <= k < n
    &&& same_accessor(ms[k], ms[m])
    &&& is_writer(ms[k]) == writer
    &&& forall|j: int| k < j < n && same_accessor(#[trigger] ms[j], ms[m]) ==> is_writer(ms[j]) != writer
}

/// No method among the first `n` is in the accessor group of `m` with the
/// given role.
pub open spec fn none_in_role(ms: Seq<(String, MethodSig)>, m: int, writer: bool, n: int) -> bool {
    forall|j: int| 0 <= j < n && same_accessor(#[trigger] ms[j], ms[m]) ==> is_writer(ms[j]) != writer
}

/// The slot of a role in the group of `m`: its last member, or none.
pub open spec fn role_slot(ms: Seq<(String, MethodSig)>, m: int, slot: Option<usize>, writer: bool, n: int) -> bool {
    match slot {
        Some(k) => last_in_role(ms, m, k as int, writer, n),
        None => none_in_role(ms, m, writer, n),
    }
}

/// `pairs` holds, for every accessor group of the first `n` methods that has
/// both a reader and a writer, its last reader and its last writer, once.
pub open spec fn accessor_pairing(ms: Seq<(String, MethodSig)>, pairs: Seq<(usize, usize)>, n: int) -> bool {
    &&& forall|p: int|
        0 <= p < pairs.len() ==> last_in_role(ms, (#[trigger] pairs[p]).0 as int, pairs[p].0 as int, false, n)
            && last_in_role(ms, pairs[p].0 as int, pairs[p].1 as int, true, n)
    &&& forall|p: int, q: int|
        0 <= p < q < pairs.len() ==> !same_accessor(ms[(#[trigger] pairs[p]).0 as int], ms[(#[trigger] pairs[q]).0 as int])
    &&& forall|i: int, j: int|
        0 <= i < n && 0 <= j < n && same_accessor(#[trigger] ms[i], #[trigger] ms[j]) && !is_writer(ms[i]) && is_writer(ms[j])
            ==> exists|p: int| 0 <= p < pairs.len() && same_accessor(ms[(#[trigger] pairs[p]).0 as int], ms[i])
}

/// One accessor group seen among the first `n` methods.
#[verifier::opaque]
pub open spec fn group_ok(ms: Seq<(String, MethodSig)>, g: (usize, Option<usize>, Option<usize>), n: int) -> bool {
    &&& 0 <= g.0 < n
    &&& ms[g.0 as int].1.loc is Some
    &&& role_slot(ms, g.0 as int, g.1, false, n)
    &&& role_slot(ms, g.0 as int, g.2, true, n)
}

/// The accessor groups of the first `n` methods: a representative and the
/// last reader and writer of each, one group per attribute and place, every
/// located method in one.
pub open spec fn accessor_groups(ms: Seq<(String, MethodSig)>, groups: Seq<(usize, Option<usize>, Option<usize>)>, n: int) -> bool {
    &&& forall|e: int| 0 <= e < groups.len() ==> group_ok(ms, #[trigger] groups[e], n)
    &&& forall|e: int, f: int|
        0 <= e < f < groups.len() ==> !same_accessor(ms[(#[trigger] groups[e]).0 as int], ms[(#[trigger] groups[f]).0 as int])
    &&& forall|j: int|
        0 <= j < n && ms[j].1.loc is Some ==> exists|e: int| 0 <= e < groups.len() && same_accessor(#[trigger] ms[j], ms[groups[e].0 as int])
}

/// A role slot after one more method.
proof fn lemma_slot_extend(ms: Seq<(String, MethodSig)>, m: int, slot: Option<usize>, writer: bool, n: int)
    requires
        0 <= n < ms.len(),
        n < usize::MAX,
        0 <= m < ms.len(),
        role_slot(ms, m, slot, writer, n),
    ensures
        role_slot(
            ms,
            m,
            if same_accessor(ms[n], ms[m]) && is_writer(ms[n]) == writer {
                Some(n as usize)
            } else {
                slot
            },
            writer,
            n + 1,
        ),
{
}

/// The groups after a method that belongs to none of them.
proof fn lemma_groups_skip(ms: Seq<(String, MethodSig)>, groups: Seq<(usize, Option<usize>, Option<usize>)>, i: int)
    requires
        0 <= i < ms.len(),
        i < usize::MAX,
        accessor_groups(ms, groups, i),
        forall|h: int| 0 <= h < groups.len() ==> !same_accessor(ms[i], ms[(#[trigger] groups[h]).0 as int]),
        ms[i].1.loc is None,
    ensures
        accessor_groups(ms, groups, i + 1),
{
    assert forall|e: int| 0 <= e < groups.len() implies group_ok(ms, #[trigger] groups[e], i + 1) by {
        lemma_other_group(ms, groups[e], i);
    }
}

/// A group other than the one method `i` joins is unchanged by it.
proof fn lemma_other_group(ms: Seq<(String, MethodSig)>, g: (usize, Option<usize>, Option<usize>), i: int)
    requires
        0 <= i < ms.len(),
        i < usize::MAX,
        group_ok(ms, g, i),
        !same_accessor(ms[i], ms[g.0 as int]),
    ensures
        group_ok(ms, g, i + 1),
{
    reveal(group_ok);
    lemma_slot_extend(ms, g.0 as int, g.1, false, i);
    lemma_slot_extend(ms, g.0 as int, g.2, true, i);
}

/// The group that method `i` joins, with its role slot moved to `i`.
proof fn lemma_joined_group(ms: Seq<(String, MethodSig)>, g: (usize, Option<usize>, Option<usize>), i: int)
    requires
        0 <= i < ms.len(),
        i < usize::MAX,
        group_ok(ms, g, i),
        same_accessor(ms[i], ms[g.0 as int]),
    ensures
        group_ok(
            ms,
            (
                g.0,
                if is_writer(ms[i]) {
                    g.1
                } else {
                    Some(i as usize)
                },
                if is_writer(ms[i]) {
                    Some(i as usize)
                } else {
                    g.2
                },
            ),
            i + 1,
        ),
{
    reveal(group_ok);
    lemma_slot_extend(ms, g.0 as int, g.1, false, i);
    lemma_slot_extend(ms, g.0 as int, g.2, true, i);
}

/// The groups after a method of group `e`.
#[verifier::rlimit(40)]
proof fn lemma_groups_join(
    ms: Seq<(String, MethodSig)>,
    old: Seq<(usize, Option<usize>, Option<usize>)>,
    new: Seq<(usize, Option<usize>, Option<usize>)>,
    i: int,
    e: int,
)
    requires
        0 <= i < ms.len(),
        i < usize::MAX,
        accessor_groups(ms, old, i),
        0 <= e < old.len(),
        same_accessor(ms[old[e].0 as int], ms[i]),
        new == old.update(
            e,
            (
                old[e].0,
                if is_writer(ms[i]) {
                    old[e].1
                } else {
                    Some(i as usize)
                },
                if is_writer(ms[i]) {
                    Some(i as usize)
                } else {
                    old[e].2
                },
            ),
        ),
    ensures
        accessor_groups(ms, new, i + 1),
{
    let re = old[e].0 as int;
    lemma_same_accessor(ms[re], ms[i], ms[re]);
    assert forall|f: int| 0 <= f < new.len() implies group_ok(ms, #[trigger] new[f], i + 1) by {
        assert(group_ok(ms, old[f], i));
        if f != e {
            let rf = old[f].0 as int;
            if f < e {
                assert(!same_accessor(ms[rf], ms[re]));
            } else {
                assert(!same_accessor(ms[re], ms[rf]));
            }
            lemma_same_accessor(ms[re], ms[i], ms[rf]);
            lemma_same_accessor(ms[re], ms[rf], ms[i]);
            lemma_same_accessor(ms[rf], ms[re], ms[i]);
            lemma_same_accessor(ms[i], ms[rf], ms[re]);
            assert(!same_accessor(ms[i], ms[rf]));
            lemma_other_group(ms, old[f], i);
        } else {
            lemma_joined_group(ms, old[e], i);
        }
    }
    assert forall|a: int, b: int| 0 <= a < b < new.len() implies !same_accessor(ms[(#[trigger] new[a]).0 as int], ms[(#[trigger] new[b]).0 as int]) by {
        assert(new[a].0 == old[a].0);
        assert(new[b].0 == old[b].0);
    }
    assert forall|j: int| 0 <= j < i + 1 && ms[j].1.loc is Some implies exists|f: int|
        0 <= f < new.len() && same_accessor(#[trigger] ms[j], ms[new[f].0 as int]) by {
        if j < i {
            let f = choose|f: int| 0 <= f < old.len() && same_accessor(ms[j], ms[old[f].0 as int]);
            assert(new[f].0 == old[f].0);
        } else {
            assert(new[e].0 == old[e].0);
        }
    }
}

/// A group started by method `i`, when no earlier method is of its group.
proof fn lemma_new_group(ms: Seq<(String, MethodSig)>, i: int)
    requires
        0 <= i < ms.len(),
        i < usize::MAX,
        ms[i].1.loc is Some,
        forall|j: int| 0 <= j < i ==> !same_accessor(#[trigger] ms[j], ms[i]),
    ensures
        group_ok(
            ms,
            (
                i as usize,
                if is_writer(ms[i]) {
                    None
                } else {
                    Some(i as usize)
                },
                if is_writer(ms[i]) {
                    Some(i as usize)
                } else {
                    None
                },
            ),
            i + 1,
        ),
{
    reveal(group_ok);
    lemma_same_accessor(ms[i], ms[i], ms[i]);
}

/// The groups after a method that starts a new group.
#[verifier::rlimit(40)]
proof fn lemma_groups_open(
    ms: Seq<(String, MethodSig)>,
    old: Seq<(usize, Option<usize>, Option<usize>)>,
    new: Seq<(usize, Option<usize>, Option<usize>)>,
    i: int,
)
    requires
        0 <= i < ms.len(),
        i < usize::MAX,
        accessor_groups(ms, old, i),
        ms[i].1.loc is Some,
        forall|h: int| 0 <= h < old.len() ==> !same_accessor(ms[(#[trigger] old[h]).0 as int], ms[i]),
        new == old.push(
            (
                i as usize,
                if is_writer(ms[i]) {
                    None
                } else {
                    Some(i as usize)
                },
                if is_writer(ms[i]) {
                    Some(i as usize)
                } else {
                    None
                },
            ),
        ),
    ensures
        accessor_groups(ms, new, i + 1),
{
    lemma_same_accessor(ms[i], ms[i], ms[i]);
    assert forall|j: int| 0 <= j < i implies !same_accessor(#[trigger] ms[j], ms[i]) by {
        if ms[j].1.loc is Some {
            let h = choose|h: int| 0 <= h < old.len() && same_accessor(ms[j], ms[old[h].0 as int]);
            lemma_same_accessor(ms[old[h].0 as int], ms[j], ms[i]);
            lemma_same_accessor(ms[j], ms[old[h].0 as int], ms[i]);
        } else {
            lemma_same_accessor(ms[j], ms[i], ms[i]);
        }
    }
    assert forall|f: int| 0 <= f < new.len() implies group_ok(ms, #[trigger] new[f], i + 1) by {
        if f < old.len() {
            let g = old[f];
            assert(group_ok(ms, g, i));
            lemma_same_accessor(ms[i], ms[g.0 as int], ms[i]);
            lemma_other_group(ms, g, i);
        } else {
            lemma_new_group(ms, i);
        }
    }
    assert forall|e: int, f: int| 0 <= e < f < new.len() implies !same_accessor(ms[(#[trigger] new[e]).0 as int], ms[(#[trigger] new[f]).0 as int]) by {
        if f == old.len() {
            assert(new[e] == old[e]);
        } else {
            assert(new[e] == old[e]);
            assert(new[f] == old[f]);
        }
    }
    assert forall|j: int| 0 <= j < i + 1 && ms[j].1.loc is Some implies exists|f: int|
        0 <= f < new.len() && same_accessor(#[trigger] ms[j], ms[new[f].0 as int]) by {
        if j < i {
            let f = choose|f: int| 0 <= f < old.len() && same_accessor(ms[j], ms[old[f].0 as int]);
            assert(new[f] == old[f]);
        } else {
            assert(new[old.len() as int].0 == i);
        }
    }
}

/// The pairs read off complete groups.
proof fn lemma_pairs_from_groups(
    ms: Seq<(String, MethodSig)>,
    groups: Seq<(usize, Option<usize>, Option<usize>)>,
    pairs: Seq<(usize, usize)>,
    origin: Seq<int>,
)
    requires
        accessor_groups(ms, groups, ms.len() as int),
        pairs.len() == origin.len(),
        forall|p: int|
            0 <= p < origin.len() ==> 0 <= #[trigger] origin[p] < groups.len() && groups[origin[p]].1
                == Some(pairs[p].0) && groups[origin[p]].2 == Some(pairs[p].1),
        forall|p: int, q: int| 0 <= p < q < origin.len() ==> #[trigger] origin[p] < #[trigger] origin[q],
        forall|f: int|
            0 <= f < groups.len() && (#[trigger] groups[f]).1 is Some && groups[f].2 is Some ==> exists|p: int|
                0 <= p < origin.len() && origin[p] == f,
    ensures
        accessor_pairing(ms, pairs, ms.len() as int),
{
    reveal(group_ok);
    let n = ms.len() as int;
    assert forall|p: int| 0 <= p < pairs.len() implies last_in_role(ms, (#[trigger] pairs[p]).0 as int, pairs[p].0 as int, false, n)
        && last_in_role(ms, pairs[p].0 as int, pairs[p].1 as int, true, n) by {
        let rep = groups[origin[p]].0 as int;
        assert(group_ok(ms, groups[origin[p]], n));
        let g = pairs[p].0 as int;
        let s = pairs[p].1 as int;
        lemma_same_accessor(ms[g], ms[rep], ms[s]);
        lemma_same_accessor(ms[s], ms[rep], ms[g]);
        lemma_same_accessor(ms[g], ms[rep], ms[g]);
        assert forall|j: int| g < j < n && same_accessor(#[trigger] ms[j], ms[g]) implies is_writer(ms[j]) != false by {
            lemma_same_accessor(ms[j], ms[g], ms[rep]);
        }
        assert forall|j: int| s < j < n && same_accessor(#[trigger] ms[j], ms[g]) implies is_writer(ms[j]) != true by {
            lemma_same_accessor(ms[j], ms[g], ms[rep]);
        }
        lemma_same_accessor(ms[s], ms[rep], ms[g]);
        lemma_same_accessor(ms[rep], ms[g], ms[g]);
    }
    assert forall|p: int, q: int| 0 <= p < q < pairs.len() implies !same_accessor(ms[(#[trigger] pairs[p]).0 as int], ms[(#[trigger] pairs[q]).0 as int]) by {
        let a = groups[origin[p]].0 as int;
        let b = groups[origin[q]].0 as int;
        assert(origin[p] < origin[q]);
        assert(group_ok(ms, groups[origin[p]], n));
        assert(group_ok(ms, groups[origin[q]], n));
        assert(!same_accessor(ms[a], ms[b]));
        let x = pairs[p].0 as int;
        let y = pairs[q].0 as int;
        lemma_same_accessor(ms[x], ms[y], ms[b]);
        lemma_same_accessor(ms[a], ms[x], ms[b]);
        lemma_same_accessor(ms[x], ms[a], ms[a]);
    }
    assert forall|i: int, j: int|
        0 <= i < n && 0 <= j < n && same_accessor(#[trigger] ms[i], #[trigger] ms[j]) && !is_writer(ms[i]) && is_writer(ms[j])
        implies exists|p: int| 0 <= p < pairs.len() && same_accessor(ms[(#[trigger] pairs[p]).0 as int], ms[i]) by {
        lemma_same_accessor(ms[i], ms[j], ms[i]);
        let f = choose|f: int| 0 <= f < groups.len() && same_accessor(ms[i], ms[groups[f].0 as int]);
        let rep = groups[f].0 as int;
        assert(group_ok(ms, groups[f], n));
        lemma_same_accessor(ms[j], ms[i], ms[rep]);
        assert(groups[f].1 is Some);
        assert(groups[f].2 is Some);
        let p = choose|p: int| 0 <= p < origin.len() && origin[p] == f;
        let x = pairs[p].0 as int;
        lemma_same_accessor(ms[x], ms[rep], ms[i]);
        lemma_same_accessor(ms[i], ms[rep], ms[rep]);
        lemma_same_accessor(ms[rep], ms[i], ms[i]);
        lemma_same_accessor(ms[x], ms[rep], ms[i]);
    }
}

/// Whether two methods are accessors of the same attribute at the same place.
fn is_same_accessor(a: &(String, MethodSig), b: &(String, MethodSig)) -> (r: bool)
    ensures
        r == same_accessor(*a, *b),
{
    reveal(same_accessor);
    let (la, lb) = match (a.1.loc, b.1.loc) {
        (Some(x), Some(y)) => (x, y),
        _ => return false,
    };
    let an = a.1.name.as_str().as_bytes();
    let bn = b.1.name.as_str().as_bytes();
    let a_end = if an.len() > 0 && an[an.len() - 1] == 0x3d {
        an.len() - 1
    } else {
        an.len()
    };
    let b_end = if bn.len() > 0 && bn[bn.len() - 1] == 0x3d {
        bn.len() - 1
    } else {
        bn.len()
    };
    let a_base = vstd::slice::slice_subrange(an, 0, a_end);
    let b_base = vstd::slice::slice_subrange(bn, 0, b_end);
    proof {
        assert(a_base@ =~= accessor_base(an@));
        assert(b_base@ =~= accessor_base(bn@));
    }
    crate::source_support::equals_bytes(a.0.as_str().as_bytes(), b.0.as_str().as_bytes())
        && crate::source_support::equals_bytes(a_base, b_base) && a.1.is_singleton == b.1.is_singleton
        && la.line == lb.line && la.column == lb.column
}

/// Whether a method is a writer (`name=`).
fn is_writer_method(m: &(String, MethodSig)) -> (r: bool)
    ensures
        r == is_writer(*m),
{
    let n = m.1.name.as_str().as_bytes();
    n.len() > 0 && n[n.len() - 1] == 0x3d
}

/// The index of the group that method `i` belongs to, if any.
fn find_group(methods: &[(String, MethodSig)], groups: &Vec<(usize, Option<usize>, Option<usize>)>, i: usize) -> (r: Option<usize>)
    requires
        i < methods@.len(),
        forall|h: int| 0 <= h < groups@.len() ==> (#[trigger] groups@[h]).0 < methods@.len(),
    ensures
        match r {
            Some(e) => e < groups@.len() && same_accessor(methods@[groups@[e as int].0 as int], methods@[i as int]),
            None => forall|h: int| 0 <= h < groups@.len() ==> !same_accessor(methods@[(#[trigger] groups@[h]).0 as int], methods@[i as int]),
        },
{
    let mut e: usize = 0;
    while e < groups.len()
        invariant
            e <= groups@.len(),
            i < methods@.len(),
            forall|h: int| 0 <= h < groups@.len() ==> (#[trigger] groups@[h]).0 < methods@.len(),
            forall|h: int| 0 <= h < e ==> !same_accessor(methods@[(#[trigger] groups@[h]).0 as int], methods@[i as int]),
        decreases groups@.len() - e,
    {
        if is_same_accessor(&methods[groups[e].0], &methods[i]) {
            return Some(e);
        }
        e = e + 1;
    }
    None
}

/// For every accessor group (same class, attribute, singleton flag and
/// location) that has both a reader and a writer, the indices of its last
/// reader and last writer: the pairs a combined `attr_accessor` lens may
/// replace.
pub fn accessor_code_lens_pairs(methods: &[(String, MethodSig)]) -> (r: Vec<(usize, usize)>)
    ensures
        accessor_pairing(methods@, r@, methods@.len() as int),
{
    let ghost ms = methods@;
    let mut groups: Vec<(usize, Option<usize>, Option<usize>)> = Vec::new();
    let mut i: usize = 0;
    while i < methods.len()
        invariant
            i <= methods@.len(),
            ms == methods@,
            accessor_groups(ms, groups@, i as int),
        decreases methods@.len() - i,
    {
        let ghost old = groups@;
        proof {
            assert forall|h: int| 0 <= h < groups@.len() implies (#[trigger] groups@[h]).0 < methods@.len() by {
                assert(group_ok(ms, groups@[h], i as int));
                reveal(group_ok);
            }
        }
        if methods[i].1.loc.is_some() {
            let writer = is_writer_method(&methods[i]);
            match find_group(methods, &groups, i) {
                Some(e) => {
                    let (rep, reader, w) = groups[e];
                    if writer {
                        groups.set(e, (rep, reader, Some(i)));
                    } else {
                        groups.set(e, (rep, Some(i), w));
                    }
                    proof {
                        lemma_groups_join(ms, old, groups@, i as int, e as int);
                    }
                },
                None => {
                    if writer {
                        groups.push((i, None, Some(i)));
                    } else {
                        groups.push((i, Some(i), None));
                    }
                    proof {
                        lemma_groups_open(ms, old, groups@, i as int);
                    }
                },
            }
        } else {
            proof {
                assert forall|h: int| 0 <= h < groups@.len() implies !same_accessor(ms[i as int], ms[(#[trigger] groups@[h]).0 as int]) by {
                    lemma_same_accessor(ms[i as int], ms[groups@[h].0 as int], ms[i as int]);
                }
                lemma_groups_skip(ms, groups@, i as int);
            }
        }
        i = i + 1;
    }
    let mut pairs: Vec<(usize, usize)> = Vec::new();
    let ghost mut origin: Seq<int> = Seq::empty();
    let mut e: usize = 0;
    while e < groups.len()
        invariant
            e <= groups@.len(),
            pairs@.len() == origin.len(),
            forall|p: int|
                0 <= p < origin.len() ==> 0 <= #[trigger] origin[p] < e && groups@[origin[p]].1 == Some(
                    pairs@[p].0,
                ) && groups@[origin[p]].2 == Some(pairs@[p].1),
            forall|p: int, q: int| 0 <= p < q < origin.len() ==> #[trigger] origin[p] < #[trigger] origin[q],
            forall|f: int|
                0 <= f < e && (#[trigger] groups@[f]).1 is Some && groups@[f].2 is Some ==> exists|p: int|
                    0 <= p < origin.len() && origin[p] == f,
        decreases groups@.len() - e,
    {
        let (rep, reader, writer) = groups[e];
        match (reader, writer) {
            (Some(g), Some(s)) => {
                pairs.push((g, s));
                proof {
                    let before = origin;
                    origin = origin.push(e as int);
                    assert forall|f: int| 0 <= f < e + 1 && (#[trigger] groups@[f]).1 is Some && groups@[f].2 is Some implies exists|p: int|
                        0 <= p < origin.len() && origin[p] == f by {
                        if f == e {
                            assert(origin[origin.len() - 1] == f);
                        } else {
                            let p = choose|p: int| 0 <= p < before.len() && before[p] == f;
                            assert(origin[p] == f);
                        }
                    }
                }
            },
            _ => {},
        }
        e = e + 1;
    }
    proof {
        lemma_pairs_from_groups(ms, groups@, pairs@, origin);
    }
    pairs
}

} // verus!
