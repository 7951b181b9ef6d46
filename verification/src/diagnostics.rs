//! The diagnostics the server publishes: their kinds, codes and severities,
//! their ranges in LSP positions, and which of them are kept.

use vstd::prelude::*;
use vstd::string::*;
use crate::position::{byte_offset_to_lsp_position, spec_offset_to_position, Range};

verus! {

/// What a published diagnostic reports.
#[derive(Clone, Copy, Debug, PartialEq, Eq, Structural)]
pub enum DiagnosticKind {
    /// A call to a method that no known class defines.
    MissingMethod,
    /// An argument whose type does not fit the parameter.
    ArgumentTypeMismatch,
    /// A constant that no known declaration defines.
    UnresolvedConstant,
    /// A diagnostic ignore comment that ignores nothing.
    UnusedIgnore,
}

/// How an editor shows a diagnostic.
#[derive(Clone, Copy, Debug, PartialEq, Eq, Structural)]
pub enum DiagnosticSeverity {
    Error,
    Warning,
    Information,
}

/// A diagnostic as published: its range, severity, kind (shown as its
/// code), and message. Its source is always `Tyda`.
#[derive(Clone, Debug)]
pub struct LspDiagnostic {
    pub range: Range,
    pub severity: DiagnosticSeverity,
    pub kind: DiagnosticKind,
    pub message: String,
}

/// The severity each kind is published with.
pub open spec fn kind_severity(kind: DiagnosticKind) -> DiagnosticSeverity {
    match kind {
        DiagnosticKind::MissingMethod => DiagnosticSeverity::Warning,
        DiagnosticKind::ArgumentTypeMismatch => DiagnosticSeverity::Error,
        DiagnosticKind::UnresolvedConstant => DiagnosticSeverity::Information,
        DiagnosticKind::UnusedIgnore => DiagnosticSeverity::Warning,
    }
}

/// Kinds whose findings rest on knowing the whole workspace: while the
/// workspace is not fully known they are held back.
pub open spec fn needs_whole_workspace(kind: DiagnosticKind) -> bool {
    kind == DiagnosticKind::MissingMethod || kind == DiagnosticKind::UnresolvedConstant
}

/// The code under which a kind is published.
pub fn diagnostic_code(kind: DiagnosticKind) -> (r: &'static str)
    ensures
        r@ == match kind {
            DiagnosticKind::MissingMethod => "tyda.missingMethod"@,
            DiagnosticKind::ArgumentTypeMismatch => "tyda.argumentTypeMismatch"@,
            DiagnosticKind::UnresolvedConstant => "tyda.unresolvedConstant"@,
            DiagnosticKind::UnusedIgnore => "tyda.unusedIgnore"@,
        },
{
    match kind {
        DiagnosticKind::MissingMethod => "tyda.missingMethod",
        DiagnosticKind::ArgumentTypeMismatch => "tyda.argumentTypeMismatch",
        DiagnosticKind::UnresolvedConstant => "tyda.unresolvedConstant",
        DiagnosticKind::UnusedIgnore => "tyda.unusedIgnore",
    }
}

/// The name shown as every diagnostic's source.
pub fn diagnostic_source() -> (r: &'static str)
    ensures
        r@ == "Tyda"@,
{
    "Tyda"
}

/// The severity a kind is published with.
pub fn diagnostic_severity(kind: DiagnosticKind) -> (r: DiagnosticSeverity)
    ensures
        r == kind_severity(kind),
        kind == DiagnosticKind::UnresolvedConstant ==> r == DiagnosticSeverity::Information,
        kind == DiagnosticKind::MissingMethod ==> r == DiagnosticSeverity::Warning,
        kind == DiagnosticKind::UnusedIgnore ==> r == DiagnosticSeverity::Warning,
        kind == DiagnosticKind::ArgumentTypeMismatch ==> r == DiagnosticSeverity::Error,
{
    match kind {
        DiagnosticKind::MissingMethod => DiagnosticSeverity::Warning,
        DiagnosticKind::ArgumentTypeMismatch => DiagnosticSeverity::Error,
        DiagnosticKind::UnresolvedConstant => DiagnosticSeverity::Information,
        DiagnosticKind::UnusedIgnore => DiagnosticSeverity::Warning,
    }
}

/// The diagnostic of a finding between the byte offsets `start` and `end`
/// of `source`: its range in LSP positions (offsets past the end are
/// clamped) and the severity of its kind.
pub fn span_diagnostic(source: &str, start: usize, end: usize, kind: DiagnosticKind, message: String) -> (r:
    LspDiagnostic)
    requires
        source.spec_bytes().len() <= u32::MAX,
    ensures
        r.range == (Range {
            start: spec_offset_to_position(source.spec_bytes(), start as int),
            end: spec_offset_to_position(source.spec_bytes(), end as int),
        }),
        r.severity == kind_severity(kind),
        kind == DiagnosticKind::UnresolvedConstant ==> r.severity == DiagnosticSeverity::Information,
        (r.severity == DiagnosticSeverity::Error) <==> (kind == DiagnosticKind::ArgumentTypeMismatch),
        r.kind == kind,
        r.message == message,
{
    let range = Range {
        start: byte_offset_to_lsp_position(source, start),
        end: byte_offset_to_lsp_position(source, end),
    };
    LspDiagnostic { range, severity: diagnostic_severity(kind), kind, message }
}

/// The severities diagnostics are published with: an unresolved constant
/// is information only, a missing method and an unused ignore comment are
/// warnings, and only an argument type mismatch is an error.
pub proof fn law_diagnostic_severities(kind: DiagnosticKind)
    ensures
        kind == DiagnosticKind::UnresolvedConstant ==> kind_severity(kind) == DiagnosticSeverity::Information,
        kind == DiagnosticKind::MissingMethod ==> kind_severity(kind) == DiagnosticSeverity::Warning,
        kind == DiagnosticKind::UnusedIgnore ==> kind_severity(kind) == DiagnosticSeverity::Warning,
        (kind_severity(kind) == DiagnosticSeverity::Error) <==> (kind == DiagnosticKind::ArgumentTypeMismatch),
{
}

/// The message of an ignore comment that ignores nothing.
pub fn unused_ignore_message() -> (r: &'static str)
    ensures
        r@ == "Diagnostic ignore comment does not match any diagnostic on this line"@,
{
    "Diagnostic ignore comment does not match any diagnostic on this line"
}

/// Whether a diagnostic is published: not suppressed by a comment or a
/// syntax error on its line, and not one that needs the whole workspace
/// while the workspace is not fully known.
pub open spec fn published(
    d: LspDiagnostic,
    suppressed: bool,
    workspace_knowledge_incomplete: bool,
) -> bool {
    !suppressed && !(workspace_knowledge_incomplete && needs_whole_workspace(d.kind))
}

/// The indices, in order, of the diagnostics of `ds` that are published.
pub open spec fn published_indices(
    ds: Seq<LspDiagnostic>,
    suppressed: Seq<bool>,
    workspace_knowledge_incomplete: bool,
) -> Seq<int> {
    Seq::new(ds.len(), |i: int| i).filter(
        |i: int| 0 <= i < ds.len() && published(ds[i], suppressed[i], workspace_knowledge_incomplete),
    )
}

/// Every published diagnostic is one of the given ones, not suppressed,
/// and not held back for want of the whole workspace; and every such
/// diagnostic is published.
pub proof fn law_published_diagnostics(
    ds: Seq<LspDiagnostic>,
    suppressed: Seq<bool>,
    workspace_knowledge_incomplete: bool,
)
    requires
        suppressed.len() == ds.len(),
    ensures
        forall|j: int|
            0 <= j < published_indices(ds, suppressed, workspace_knowledge_incomplete).len() ==> {
                let i = #[trigger] published_indices(ds, suppressed, workspace_knowledge_incomplete)[j];
                &&& 0 <= i < ds.len()
                &&& !suppressed[i]
                &&& !(workspace_knowledge_incomplete && needs_whole_workspace(ds[i].kind))
            },
        forall|i: int|
            0 <= i < ds.len() && published(ds[i], suppressed[i], workspace_knowledge_incomplete)
                ==> #[trigger] published_indices(ds, suppressed, workspace_knowledge_incomplete).contains(i),
{
    let idx = Seq::new(ds.len(), |i: int| i);
    let pred = |i: int| 0 <= i < ds.len() && published(ds[i], suppressed[i], workspace_knowledge_incomplete);
    let p = published_indices(ds, suppressed, workspace_knowledge_incomplete);
    assert forall|j: int| 0 <= j < p.len() implies pred(#[trigger] p[j]) by {
        idx.lemma_filter_pred(pred, j);
    }
    assert forall|i: int|
        0 <= i < ds.len() && published(ds[i], suppressed[i], workspace_knowledge_incomplete)
        implies #[trigger] p.contains(i) by {
        assert(idx[i] == i);
        idx.lemma_filter_contains(pred, i);
    }
}

/// The diagnostics that are published, in order. `suppressed[i]` says
/// whether the `i`-th diagnostic's line or code is suppressed.
pub fn retain_published_diagnostics(
    diagnostics: Vec<LspDiagnostic>,
    suppressed: &Vec<bool>,
    workspace_knowledge_incomplete: bool,
) -> (r: Vec<LspDiagnostic>)
    requires
        suppressed@.len() == diagnostics@.len(),
    ensures
        r@ == published_indices(diagnostics@, suppressed@, workspace_knowledge_incomplete).map_values(
            |i: int| diagnostics@[i],
        ),
{
    let ghost keep = |i: int|
        0 <= i < diagnostics@.len() && published(
            diagnostics@[i],
            suppressed@[i],
            workspace_knowledge_incomplete,
        );
    let ghost idx = Seq::new(diagnostics@.len(), |i: int| i);
    let ghost orig = diagnostics@;
    let n: usize = diagnostics.len();
    let mut rest = diagnostics;
    let mut out: Vec<LspDiagnostic> = Vec::new();
    let mut i: usize = 0;
    proof {
        assert(idx.take(0).filter(keep) =~= Seq::<int>::empty());
    }
    while rest.len() > 0
        invariant
            i + rest@.len() == orig.len(),
            orig.len() == n,
            suppressed@.len() == orig.len(),
            rest@ == orig.skip(i as int),
            idx == Seq::new(orig.len(), |k: int| k),
            keep == (|k: int|
                0 <= k < orig.len() && published(orig[k], suppressed@[k], workspace_knowledge_incomplete)),
            out@ == idx.take(i as int).filter(keep).map_values(|k: int| orig[k]),
        decreases rest@.len(),
    {
        let d = rest.remove(0);
        proof {
            assert(d == orig[i as int]);
            assert(idx.take(i + 1) =~= idx.take(i as int).push(i as int));
            reveal_with_fuel(Seq::filter, 2);
            assert(idx.take(i as int).push(i as int).drop_last() =~= idx.take(i as int));
        }
        let needs_workspace = match d.kind {
            DiagnosticKind::MissingMethod => true,
            DiagnosticKind::UnresolvedConstant => true,
            _ => false,
        };
        if !suppressed[i] && !(workspace_knowledge_incomplete && needs_workspace) {
            out.push(d);
            proof {
                assert(out@ =~= idx.take(i + 1).filter(keep).map_values(|k: int| orig[k]));
            }
        } else {
            proof {
                assert(out@ =~= idx.take(i + 1).filter(keep).map_values(|k: int| orig[k]));
            }
        }
        proof {
            assert(rest@ =~= orig.skip(i + 1));
        }
        i = i + 1;
    }
    proof {
        assert(idx.take(i as int) =~= idx);
    }
    out
}

} // verus!
