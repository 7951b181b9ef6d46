//! Ranking two hover results for the same position: which one tells the
//! user more.
//!
//! A hover result carries a rendered signature (when the hover is on a
//! method) and the hovered type. The ranking reads of the type only whether
//! it is `untyped`, the names of its widened union members and how many
//! literal types it holds; `HoverFacts` carries those as plain values.

use vstd::prelude::*;
use vstd::string::*;
use crate::display::{
    all_countable, better_display, contains_unresolved_marker, hover_untyped_slots,
    is_better_signature_display, mentions_untyped, unresolved_counts,
};
use crate::source_support::{equals_bytes, source_lines};
use crate::text::bytes_of;

verus! {

/// What the ranking reads of one hover result.
pub struct HoverFacts {
    /// The rendered method signature, when the hover shows one.
    pub display_rbs: Option<String>,
    /// The hovered type is `untyped` (or a placeholder still to be typed).
    pub untyped: bool,
    /// The hovered type still has an unresolved hole somewhere inside.
    pub has_type_hole: bool,
    /// The result may improve once the workspace is analysed.
    pub can_enrich_from_workspace: bool,
    /// The names of the hovered type's union members, each widened (a
    /// literal to its class).
    pub widened_parts: Vec<String>,
    /// How many literal types the hovered type holds.
    pub literal_specificity: usize,
}

/// Which of two hover results was chosen.
#[derive(Clone, Copy, Debug, PartialEq, Eq, Structural)]
pub enum HoverPick {
    Primary,
    Fallback,
}

/// The rendered signatures of a hover result can be counted (see
/// `all_countable`).
pub open spec fn hover_countable(h: HoverFacts) -> bool {
    h.display_rbs matches Some(d) ==> all_countable(source_lines(bytes_of(d)))
}

/// The set of widened member names, as bytes.
pub open spec fn parts_set(v: Seq<String>) -> Set<Seq<u8>> {
    Set::new(|x: Seq<u8>| exists|i: int| 0 <= i < v.len() && #[trigger] bytes_of(v[i]) == x)
}

/// How many unresolved slots a hover result shows: those of its rendered
/// signature, or one when it shows only an `untyped` type.
pub open spec fn untyped_count(h: HoverFacts) -> int {
    match h.display_rbs {
        Some(d) => unresolved_counts(source_lines(bytes_of(d))).0 + unresolved_counts(
            source_lines(bytes_of(d)),
        ).1,
        None => if h.untyped {
            1
        } else {
            0
        },
    }
}

/// `a` is a better hover result than `b`; `same_type` says whether their
/// hovered types are equal. In order: a rendered signature beats none;
/// fewer unresolved slots win; then the better signature display; then,
/// between different types, a typed one beats an `untyped` one, a type
/// whose widened members strictly include the other's wins, and with the
/// same widened members, more literal types win.
pub open spec fn better_hover(a: HoverFacts, b: HoverFacts, same_type: bool) -> bool {
    let pa = parts_set(a.widened_parts@);
    let pb = parts_set(b.widened_parts@);
    if a.display_rbs is Some && b.display_rbs is None {
        true
    } else if a.display_rbs is None && b.display_rbs is Some {
        false
    } else if untyped_count(a) != untyped_count(b) {
        untyped_count(a) < untyped_count(b)
    } else if a.display_rbs is Some && b.display_rbs is Some && better_display(
        bytes_of(a.display_rbs->0),
        bytes_of(b.display_rbs->0),
    ) {
        true
    } else if same_type {
        false
    } else if !a.untyped && b.untyped {
        true
    } else if a.untyped && !b.untyped {
        false
    } else if !(pa.subset_of(pb) && pb.subset_of(pa)) {
        pb.subset_of(pa) && !pa.subset_of(pb)
    } else {
        a.literal_specificity > b.literal_specificity
    }
}

/// Whether a hover result should be retried against the whole workspace.
pub open spec fn needs_workspace(h: HoverFacts) -> bool {
    h.can_enrich_from_workspace || h.has_type_hole || (h.display_rbs matches Some(d)
        && mentions_untyped(bytes_of(d)))
}

/// No hover result is better than itself.
pub proof fn law_better_hover_irreflexive(a: HoverFacts, same_type: bool)
    ensures
        !better_hover(a, a, same_type),
{
}

/// The text `x` occurs among `v`.
fn contains_text(v: &Vec<String>, x: &String) -> (r: bool)
    ensures
        r == parts_set(v@).contains(bytes_of(*x)),
{
    let mut i: usize = 0;
    while i < v.len()
        invariant
            i <= v@.len(),
            forall|k: int| 0 <= k < i ==> #[trigger] bytes_of(v@[k]) != bytes_of(*x),
        decreases v@.len() - i,
    {
        if equals_bytes(v[i].as_str().as_bytes(), x.as_str().as_bytes()) {
            proof {
                assert(bytes_of(v@[i as int]) == bytes_of(*x));
            }
            return true;
        }
        i = i + 1;
    }
    false
}

/// Every text of `b` occurs among `a`.
fn includes_all(a: &Vec<String>, b: &Vec<String>) -> (r: bool)
    ensures
        r == parts_set(b@).subset_of(parts_set(a@)),
{
    let mut j: usize = 0;
    while j < b.len()
        invariant
            j <= b@.len(),
            forall|k: int| 0 <= k < j ==> parts_set(a@).contains(#[trigger] bytes_of(b@[k])),
        decreases b@.len() - j,
    {
        if !contains_text(a, &b[j]) {
            proof {
                assert(parts_set(b@).contains(bytes_of(b@[j as int])));
            }
            return false;
        }
        j = j + 1;
    }
    proof {
        assert forall|x: Seq<u8>| parts_set(b@).contains(x) implies parts_set(a@).contains(x) by {
            let k = choose|k: int| 0 <= k < b@.len() && #[trigger] bytes_of(b@[k]) == x;
            assert(parts_set(a@).contains(bytes_of(b@[k])));
        }
    }
    true
}

/// How many unresolved slots a hover result shows.
pub fn hover_untyped_count(hover: &HoverFacts) -> (r: usize)
    requires
        hover_countable(*hover),
    ensures
        r == untyped_count(*hover),
{
    match &hover.display_rbs {
        Some(display) => hover_untyped_slots(display.as_str()),
        None => if hover.untyped {
            1
        } else {
            0
        },
    }
}

/// Whether `candidate` is a better hover result than `current`;
/// `same_type` says whether their hovered types are equal.
pub fn is_better_hover_result(candidate: &HoverFacts, current: &HoverFacts, same_type: bool) -> (r:
    bool)
    requires
        candidate.display_rbs is Some && current.display_rbs is Some ==> hover_countable(*candidate)
            && hover_countable(*current),
    ensures
        r == better_hover(*candidate, *current, same_type),
{
    match (&candidate.display_rbs, &current.display_rbs) {
        (Some(_), None) => return true,
        (None, Some(_)) => return false,
        _ => {},
    }
    let candidate_untyped = hover_untyped_count(candidate);
    let current_untyped = hover_untyped_count(current);
    if candidate_untyped != current_untyped {
        return candidate_untyped < current_untyped;
    }
    match (&candidate.display_rbs, &current.display_rbs) {
        (Some(candidate_display), Some(current_display)) => {
            if is_better_signature_display(candidate_display.as_str(), current_display.as_str()) {
                return true;
            }
        },
        _ => {},
    }
    if same_type {
        return false;
    }
    if !candidate.untyped && current.untyped {
        return true;
    }
    if candidate.untyped && !current.untyped {
        return false;
    }
    let candidate_covers = includes_all(&candidate.widened_parts, &current.widened_parts);
    let current_covers = includes_all(&current.widened_parts, &candidate.widened_parts);
    if !(candidate_covers && current_covers) {
        return candidate_covers && !current_covers;
    }
    candidate.literal_specificity > current.literal_specificity
}

/// Of a primary and a fallback hover result, the one to show: the
/// fallback only when it is better than a primary result, or when there
/// is no primary one. `same_type` says whether their hovered types are
/// equal.
pub fn choose_better_hover_result(
    primary: Option<&HoverFacts>,
    fallback: Option<&HoverFacts>,
    same_type: bool,
) -> (r: Option<HoverPick>)
    requires
        (primary, fallback) matches (Some(p), Some(f)) ==> (p.display_rbs is Some && f.display_rbs is Some
            ==> hover_countable(*p) && hover_countable(*f)),
    ensures
        r == match (primary, fallback) {
            (Some(p), Some(f)) => if better_hover(*f, *p, same_type) {
                Some(HoverPick::Fallback)
            } else {
                Some(HoverPick::Primary)
            },
            (Some(_), None) => Some(HoverPick::Primary),
            (None, Some(_)) => Some(HoverPick::Fallback),
            (None, None) => None,
        },
{
    match (primary, fallback) {
        (Some(p), Some(f)) => {
            if is_better_hover_result(f, p, same_type) {
                Some(HoverPick::Fallback)
            } else {
                Some(HoverPick::Primary)
            }
        },
        (Some(_), None) => Some(HoverPick::Primary),
        (None, Some(_)) => Some(HoverPick::Fallback),
        (None, None) => None,
    }
}

/// Whether a hover result should be retried against the whole workspace:
/// it may improve there, its type has a hole, or its signature shows an
/// `untyped` slot.
pub fn hover_needs_workspace_fallback(hover: &HoverFacts) -> (r: bool)
    ensures
        r == needs_workspace(*hover),
{
    if hover.can_enrich_from_workspace {
        return true;
    }
    if hover.has_type_hole {
        return true;
    }
    match &hover.display_rbs {
        Some(display_rbs) => contains_unresolved_marker(display_rbs.as_str()),
        None => false,
    }
}

/// How a hover at a method definition is completed from the method's
/// signature.
#[derive(Clone, Copy, Debug, PartialEq, Eq, Structural)]
pub enum HoverEnrichment {
    /// The hover stays as it is.
    Keep,
    /// The hover shows the method's callable signature and return type.
    CallableSignature,
    /// The hover shows the type of the parameter it names.
    ParameterType,
}

/// The completion of a hover named `hover_name` (showing `hover_display`,
/// of an `untyped` type when `hover_untyped`) from a signature of method
/// `sig_name` whose callable rendering is `callable_display`;
/// `named_param_typed` says, for the first parameter named like the hover
/// if there is one, whether its type is known. On the method's name the
/// callable signature is shown unless the hover already shows exactly it
/// with a known type; on a parameter's name its known type is shown.
pub open spec fn enrichment(
    hover_name: Seq<u8>,
    hover_display: Option<Seq<u8>>,
    hover_untyped: bool,
    sig_name: Seq<u8>,
    callable_display: Seq<u8>,
    named_param_typed: Option<bool>,
) -> HoverEnrichment {
    if hover_name == sig_name {
        if hover_display != Some(callable_display) || hover_untyped {
            HoverEnrichment::CallableSignature
        } else {
            HoverEnrichment::Keep
        }
    } else if named_param_typed == Some(true) {
        HoverEnrichment::ParameterType
    } else {
        HoverEnrichment::Keep
    }
}

/// How to complete a hover at a method definition from its signature.
pub fn hover_enrichment(
    hover_name: &str,
    hover_display: Option<&str>,
    hover_untyped: bool,
    sig_name: &str,
    callable_display: &str,
    named_param_typed: Option<bool>,
) -> (r: HoverEnrichment)
    ensures
        r == enrichment(
            hover_name.spec_bytes(),
            match hover_display {
                Some(d) => Some(d.spec_bytes()),
                None => None,
            },
            hover_untyped,
            sig_name.spec_bytes(),
            callable_display.spec_bytes(),
            named_param_typed,
        ),
{
    if equals_bytes(hover_name.as_bytes(), sig_name.as_bytes()) {
        let shows_callable = match hover_display {
            Some(d) => equals_bytes(d.as_bytes(), callable_display.as_bytes()),
            None => false,
        };
        if !shows_callable || hover_untyped {
            HoverEnrichment::CallableSignature
        } else {
            HoverEnrichment::Keep
        }
    } else {
        match named_param_typed {
            Some(true) => HoverEnrichment::ParameterType,
            _ => HoverEnrichment::Keep,
        }
    }
}

} // verus!
