//! The order of paths as `std::path::Path` orders them: component by
//! component, so `/r/app/m.rb` comes before `/r/app.rb` (the component
//! `app` before `app.rb`), and `/r//a.rb` is the same path as `/r/a.rb`.

use vstd::prelude::*;
use crate::source_support::equals_bytes;
use crate::workspace::{bytes_less, bytes_lt, lemma_bytes_lt_irreflexive, lemma_bytes_lt_total, lemma_bytes_lt_transitive};

verus! {

/// The components `std::path::Path::components` yields for a path, each as
/// the position of its variant in `std::path::Component` (0 a prefix, 1 the
/// root, 2 `.`, 3 `..`, 4 a normal name) and the bytes of its text (empty
/// for the root, `.` and `..`). Which parts are components (repeated
/// separators, `.` inside the path) is the path syntax of the platform the
/// program is built for.
pub uninterp spec fn path_components(p: Seq<char>) -> Seq<(u8, Seq<u8>)>;

/// A list of components as plain values.
pub open spec fn components_view(v: Seq<(u8, Vec<u8>)>) -> Seq<(u8, Seq<u8>)> {
    v.map_values(|c: (u8, Vec<u8>)| (c.0, c.1@))
}

/// `Path::components` of `p`, each component converted to its variant's
/// position and its bytes. The contract names the result and says no more.
#[verifier::external_body]
fn components_of(p: &str) -> (r: Vec<(u8, Vec<u8>)>)
    ensures
        components_view(r@) == path_components(p@),
{
    let mut out = Vec::new();
    for c in std::path::Path::new(p).components() {
        out.push(match c {
            std::path::Component::Prefix(x) => (0u8, x.as_os_str().as_encoded_bytes().to_vec()),
            std::path::Component::RootDir => (1u8, Vec::new()),
            std::path::Component::CurDir => (2u8, Vec::new()),
            std::path::Component::ParentDir => (3u8, Vec::new()),
            std::path::Component::Normal(s) => (4u8, s.as_encoded_bytes().to_vec()),
        });
    }
    out
}

/// The prefix that `std::path::Path::components` reads at the start of a
/// path (a Windows drive or share), as the position of its
/// `std::path::Prefix` variant (0 `Verbatim`, 1 `VerbatimUNC`, 2
/// `VerbatimDisk`, 3 `DeviceNS`, 4 `UNC`, 5 `Disk`); `None` when the path has
/// no prefix, as on Unix.
pub uninterp spec fn path_prefix_variant(p: Seq<char>) -> Option<u8>;

/// The fields of that prefix as bytes: the one or two names, or the drive
/// letter as one byte; an absent field (or an absent prefix) empty.
pub uninterp spec fn path_prefix_fields(p: Seq<char>) -> (Seq<u8>, Seq<u8>);

/// The variant of `PrefixComponent::kind` for the prefix `Path::components`
/// reads first, if any. The contract names the result and says no more.
#[verifier::external_body]
fn prefix_variant_of(p: &str) -> (r: Option<u8>)
    ensures
        r == path_prefix_variant(p@),
{
    match std::path::Path::new(p).components().next() {
        Some(std::path::Component::Prefix(x)) => Some(match x.kind() {
            std::path::Prefix::Verbatim(_) => 0u8,
            std::path::Prefix::VerbatimUNC(..) => 1u8,
            std::path::Prefix::VerbatimDisk(_) => 2u8,
            std::path::Prefix::DeviceNS(_) => 3u8,
            std::path::Prefix::UNC(..) => 4u8,
            std::path::Prefix::Disk(_) => 5u8,
        }),
        _ => None,
    }
}

/// The fields of `PrefixComponent::kind` for the prefix `Path::components`
/// reads first, as bytes. The contract names the result and says no more.
#[verifier::external_body]
fn prefix_fields_of(p: &str) -> (r: (Vec<u8>, Vec<u8>))
    ensures
        (r.0@, r.1@) == path_prefix_fields(p@),
{
    match std::path::Path::new(p).components().next() {
        Some(std::path::Component::Prefix(x)) => match x.kind() {
            std::path::Prefix::Verbatim(a) | std::path::Prefix::DeviceNS(a) => (a.as_encoded_bytes().to_vec(), Vec::new()),
            std::path::Prefix::VerbatimUNC(a, b) | std::path::Prefix::UNC(a, b) => (
                a.as_encoded_bytes().to_vec(),
                b.as_encoded_bytes().to_vec(),
            ),
            std::path::Prefix::VerbatimDisk(d) | std::path::Prefix::Disk(d) => (vec![d], Vec::new()),
        },
        _ => (Vec::new(), Vec::new()),
    }
}

/// What `Path` compares two paths by: a prefix by its parsed kind (its
/// variant, then its fields), as `PrefixComponent` orders itself, then the
/// other components by variant and text. A prefix stands for three entries
/// (variant and two fields), so two prefixes of one variant line up field by
/// field.
pub open spec fn path_key(p: Seq<char>) -> Seq<(u8, Seq<u8>)> {
    let comps = path_components(p);
    let rest = if comps.len() > 0 && comps[0].0 == 0 {
        comps.drop_first()
    } else {
        comps
    };
    match path_prefix_variant(p) {
        Some(k) => seq![(0u8, seq![k]), (0u8, path_prefix_fields(p).0), (0u8, path_prefix_fields(p).1)] + rest,
        None => rest,
    }
}

/// The comparison key of path `p`.
pub(crate) fn path_key_of(p: &str) -> (r: Vec<(u8, Vec<u8>)>)
    ensures
        components_view(r@) == path_key(p@),
{
    let mut comps = components_of(p);
    let ghost all = components_view(comps@);
    if comps.len() > 0 && comps[0].0 == 0 {
        comps.remove(0);
        proof {
            assert(components_view(comps@) =~= all.drop_first());
        }
    }
    let mut out: Vec<(u8, Vec<u8>)> = Vec::new();
    match prefix_variant_of(p) {
        Some(k) => {
            let (f1, f2) = prefix_fields_of(p);
            let kv = vec![k];
            let ghost g1 = f1@;
            let ghost g2 = f2@;
            proof {
                assert(kv@ =~= seq![k]);
            }
            out.push((0u8, kv));
            out.push((0u8, f1));
            out.push((0u8, f2));
            proof {
                assert(out@[0].1@ == seq![k] && out@[1].1@ == g1 && out@[2].1@ == g2);
                assert(components_view(out@) =~= seq![(0u8, seq![k]), (0u8, g1), (0u8, g2)]);
            }
        },
        None => {
            proof {
                assert(components_view(out@) =~= Seq::<(u8, Seq<u8>)>::empty());
            }
        },
    }
    let ghost front = components_view(out@);
    let ghost back = components_view(comps@);
    out.append(&mut comps);
    proof {
        assert(components_view(out@) =~= front + back);
    }
    out
}

/// One component below another: by variant, then by bytes.
pub open spec fn component_lt(a: (u8, Seq<u8>), b: (u8, Seq<u8>)) -> bool {
    if a.0 != b.0 {
        a.0 < b.0
    } else {
        bytes_lt(a.1, b.1)
    }
}

/// One list of components below another, lexicographically; a list before
/// its extensions.
pub open spec fn components_lt(a: Seq<(u8, Seq<u8>)>, b: Seq<(u8, Seq<u8>)>) -> bool
    decreases a.len(),
{
    if a.len() == 0 {
        b.len() > 0
    } else if b.len() == 0 {
        false
    } else if a[0] != b[0] {
        component_lt(a[0], b[0])
    } else {
        components_lt(a.drop_first(), b.drop_first())
    }
}

/// Path `a` comes before path `b`.
pub open spec fn path_lt(a: Seq<char>, b: Seq<char>) -> bool {
    components_lt(path_key(a), path_key(b))
}

/// Component order is a strict total order.
proof fn lemma_component_lt(a: (u8, Seq<u8>), b: (u8, Seq<u8>), c: (u8, Seq<u8>))
    ensures
        !component_lt(a, a),
        a != b ==> component_lt(a, b) || component_lt(b, a),
        component_lt(a, b) && component_lt(b, c) ==> component_lt(a, c),
{
    lemma_bytes_lt_irreflexive(a.1);
    lemma_bytes_lt_total(a.1, b.1);
    if a.0 == b.0 && b.0 == c.0 && bytes_lt(a.1, b.1) && bytes_lt(b.1, c.1) {
        lemma_bytes_lt_transitive(a.1, b.1, c.1);
    }
}

/// The order of component lists is a strict total order.
pub proof fn lemma_components_lt(a: Seq<(u8, Seq<u8>)>, b: Seq<(u8, Seq<u8>)>, c: Seq<(u8, Seq<u8>)>)
    ensures
        !components_lt(a, a),
        a != b ==> components_lt(a, b) || components_lt(b, a),
        components_lt(a, b) && components_lt(b, c) ==> components_lt(a, c),
    decreases a.len(),
{
    if a.len() > 0 {
        lemma_component_lt(a[0], a[0], a[0]);
        if b.len() > 0 {
            lemma_component_lt(a[0], b[0], a[0]);
            if c.len() > 0 {
                lemma_component_lt(a[0], b[0], c[0]);
                lemma_component_lt(b[0], a[0], c[0]);
                lemma_component_lt(a[0], c[0], b[0]);
            }
            lemma_components_lt(a.drop_first(), b.drop_first(), if c.len() > 0 { c.drop_first() } else { c });
            if a[0] == b[0] && a.drop_first() == b.drop_first() {
                assert(a =~= seq![a[0]] + a.drop_first());
                assert(b =~= seq![b[0]] + b.drop_first());
            }
        } else {
            lemma_components_lt(a.drop_first(), b, c);
        }
    } else if b.len() == 0 {
        assert(a =~= b);
    }
}

/// Whether the component list `a` comes before `b`.
pub fn components_less(a: &Vec<(u8, Vec<u8>)>, b: &Vec<(u8, Vec<u8>)>) -> (r: bool)
    ensures
        r == components_lt(components_view(a@), components_view(b@)),
{
    let ghost va = components_view(a@);
    let ghost vb = components_view(b@);
    let mut i: usize = 0;
    proof {
        assert(va.skip(0) =~= va);
        assert(vb.skip(0) =~= vb);
    }
    loop
        invariant
            i <= a@.len(),
            i <= b@.len(),
            va == components_view(a@),
            vb == components_view(b@),
            components_lt(va.skip(i as int), vb.skip(i as int)) == components_lt(va, vb),
        decreases a@.len() - i,
    {
        proof {
            if i < a@.len() && i < b@.len() {
                assert(va.skip(i as int).drop_first() =~= va.skip(i + 1));
                assert(vb.skip(i as int).drop_first() =~= vb.skip(i + 1));
                assert(va.skip(i as int)[0] == va[i as int]);
                assert(vb.skip(i as int)[0] == vb[i as int]);
            }
        }
        if i == a.len() {
            return i < b.len();
        }
        if i == b.len() {
            return false;
        }
        let (ta, ref ba) = a[i];
        let (tb, ref bb) = b[i];
        if ta != tb {
            return ta < tb;
        }
        if !equals_bytes(ba.as_slice(), bb.as_slice()) {
            return bytes_less(ba.as_slice(), bb.as_slice());
        }
        i = i + 1;
    }
}

} // verus!
