//! Generations that debounce work after a change: each change takes the
//! next generation of its document, and delayed work for a document runs
//! only while its generation is still the latest.

use vstd::prelude::*;

verus! {

/// The generation after `previous`: one more, or 1 for a document that has
/// none yet.
pub open spec fn following(previous: Option<u64>) -> int {
    match previous {
        Some(e) => e + 1,
        None => 1,
    }
}

/// The generation a change takes, after the document's latest one.
pub fn next_epoch(previous: Option<u64>) -> (r: u64)
    requires
        previous != Some(u64::MAX),
    ensures
        r == following(previous),
{
    match previous {
        Some(e) => e + 1,
        None => 1,
    }
}

/// Whether delayed work that took generation `epoch` may still run: it is
/// the document's latest generation.
pub fn is_latest_epoch(latest: Option<u64>, epoch: u64) -> (r: bool)
    ensures
        r == (latest == Some(epoch)),
{
    match latest {
        Some(e) => e == epoch,
        None => false,
    }
}

/// Generations only grow: after any number of later changes, the work
/// scheduled for an earlier generation is no longer the latest and does not
/// run, while with no change in between it does.
pub proof fn law_superseded_work_is_dropped(epoch: u64, later: Seq<u64>)
    requires
        later.len() > 0,
        later[0] == following(Some(epoch)),
        forall|i: int| 0 < i < later.len() ==> later[i] == following(Some(#[trigger] later[i - 1])),
    ensures
        later.last() > epoch,
        later.last() != epoch,
    decreases later.len(),
{
    if later.len() > 1 {
        let shorter = later.drop_last();
        assert forall|i: int| 0 < i < shorter.len() implies shorter[i] == following(
            Some(#[trigger] shorter[i - 1]),
        ) by {
            assert(later[i] == following(Some(later[i - 1])));
        }
        law_superseded_work_is_dropped(epoch, shorter);
        assert(later[later.len() - 1] == following(Some(later[later.len() - 2])));
    }
}

} // verus!
