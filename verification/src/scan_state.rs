//! The bookkeeping of the background workspace scan: whether the workspace
//! has been scanned, whether a scan is running, the generation that a reset
//! bumps so that a scan started before the reset cannot commit, and the files
//! marked for the next scan.
//!
//! The scan itself runs elsewhere; these are the decisions around it.

use vstd::prelude::*;
use vstd::string::*;
use vstd::utf8::*;
use crate::source_support::equals_bytes;
use crate::workspace::string_views;

verus! {

broadcast use vstd::seq_lib::group_seq_properties;

/// Whether two paths are the same text.
fn same_path(a: &str, b: &str) -> (r: bool)
    ensures
        r == (a@ == b@),
{
    let r = equals_bytes(a.as_bytes(), b.as_bytes());
    proof {
        encode_utf8_decode_utf8(a@);
        encode_utf8_decode_utf8(b@);
    }
    r
}

/// The files marked for the next scan, each once.
#[derive(Debug)]
pub struct PendingScanFiles {
    files: Vec<String>,
}

impl View for PendingScanFiles {
    type V = Set<Seq<char>>;

    /// The marked paths.
    closed spec fn view(&self) -> Set<Seq<char>> {
        string_views(self.files@).to_set()
    }
}

impl PendingScanFiles {
    /// No path is marked twice.
    #[verifier::type_invariant]
    closed spec fn marked_once(&self) -> bool {
        string_views(self.files@).no_duplicates()
    }

    /// No file marked.
    pub fn new() -> (r: PendingScanFiles)
        ensures
            r@ == Set::<Seq<char>>::empty(),
    {
        let r = PendingScanFiles { files: Vec::new() };
        proof {
            assert(string_views(r.files@).to_set() =~= Set::<Seq<char>>::empty());
        }
        r
    }

    /// Whether `file_path` is marked.
    pub fn contains(&self, file_path: &str) -> (r: bool)
        ensures
            r == self@.contains(file_path@),
    {
        let ghost v = string_views(self.files@);
        let mut i: usize = 0;
        while i < self.files.len()
            invariant
                i <= self.files@.len(),
                v == string_views(self.files@),
                forall|k: int| 0 <= k < i ==> v[k] != file_path@,
            decreases self.files@.len() - i,
        {
            if same_path(self.files[i].as_str(), file_path) {
                proof {
                    assert(v[i as int] == file_path@);
                    assert(v.to_set().contains(file_path@));
                }
                return true;
            }
            i = i + 1;
        }
        proof {
            if v.to_set().contains(file_path@) {
                let k = choose|k: int| 0 <= k < v.len() && v[k] == file_path@;
                assert(v[k] != file_path@);
            }
        }
        false
    }

    /// How many files are marked.
    pub fn len(&self) -> (r: usize)
        ensures
            r == self@.len(),
    {
        proof {
            use_type_invariant(self);
            string_views(self.files@).unique_seq_to_set();
        }
        self.files.len()
    }

    /// The marked paths, each once.
    pub fn paths(&self) -> (r: &[String])
        ensures
            string_views(r@).to_set() == self@,
            string_views(r@).no_duplicates(),
    {
        proof {
            use_type_invariant(self);
        }
        self.files.as_slice()
    }

    /// Marks `file_path` (a second mark changes nothing).
    pub fn mark(&mut self, file_path: String)
        ensures
            final(self)@ == old(self)@.insert(file_path@),
    {
        proof {
            use_type_invariant(&*self);
        }
        if !self.contains(file_path.as_str()) {
            let ghost v = string_views(self.files@);
            let ghost p = file_path@;
            let mut files: Vec<String> = Vec::new();
            std::mem::swap(&mut files, &mut self.files);
            files.push(file_path);
            proof {
                assert(string_views(files@) =~= v.push(p));
            }
            self.files = files;
            proof {
                assert(string_views(self.files@) =~= v.push(p));
                assert(string_views(self.files@).to_set() =~= v.to_set().insert(p));
            }
        } else {
            proof {
                assert(self@.insert(file_path@) =~= self@);
            }
        }
    }

    /// Unmarks `file_path`.
    pub fn remove(&mut self, file_path: &str)
        ensures
            final(self)@ == old(self)@.remove(file_path@),
    {
        proof {
            use_type_invariant(&*self);
        }
        let ghost orig = string_views(self.files@);
        let mut rest: Vec<String> = Vec::new();
        std::mem::swap(&mut rest, &mut self.files);
        let mut kept: Vec<String> = Vec::new();
        proof {
            assert(string_views(rest@) == orig);
        }
        while rest.len() > 0
            invariant
                string_views(rest@).no_duplicates(),
                string_views(kept@).no_duplicates(),
                forall|p: Seq<char>| #[trigger] string_views(rest@).contains(p) ==> orig.contains(p),
                forall|p: Seq<char>|
                    #[trigger] string_views(kept@).contains(p) <==> (orig.contains(p) && !string_views(
                        rest@,
                    ).contains(p) && p != file_path@),
            decreases rest@.len(),
        {
            let ghost r0 = string_views(rest@);
            let ghost k0 = string_views(kept@);
            let s = rest.pop().unwrap();
            let ghost sv = s@;
            proof {
                assert(r0 =~= string_views(rest@).push(sv));
                assert(r0[r0.len() - 1] == sv);
                assert(r0.contains(sv));
                assert(string_views(rest@).no_duplicates()) by {
                    let r1 = string_views(rest@);
                    assert forall|i: int, j: int| 0 <= i < r1.len() && 0 <= j < r1.len() && i != j implies r1[i]
                        != r1[j] by {
                        assert(r1[i] == r0[i] && r1[j] == r0[j]);
                    }
                }
                assert(!string_views(rest@).contains(sv)) by {
                    if string_views(rest@).contains(sv) {
                        let k = choose|k: int| 0 <= k < string_views(rest@).len() && string_views(rest@)[k] == sv;
                        assert(r0[k] == r0[r0.len() - 1]);
                    }
                }
                assert forall|p: Seq<char>| #[trigger] string_views(rest@).contains(p) implies r0.contains(p) && p != sv by {
                    let k = choose|k: int| 0 <= k < string_views(rest@).len() && string_views(rest@)[k] == p;
                    assert(r0[k] == p);
                }
                assert forall|p: Seq<char>| r0.contains(p) && p != sv implies #[trigger] string_views(rest@).contains(p) by {
                    let k = choose|k: int| 0 <= k < r0.len() && r0[k] == p;
                    assert(k != r0.len() - 1);
                    assert(string_views(rest@)[k] == p);
                }
                assert(!k0.contains(sv));
            }
            if !same_path(s.as_str(), file_path) {
                kept.push(s);
                proof {
                    assert(string_views(kept@) =~= k0.push(sv));
                }
            }
        }
        self.files = kept;
        proof {
            assert(string_views(rest@) =~= Seq::<Seq<char>>::empty());
            assert(self@ =~= orig.to_set().remove(file_path@));
        }
    }

    /// Unmarks every file.
    pub fn clear(&mut self)
        ensures
            final(self)@ == Set::<Seq<char>>::empty(),
    {
        self.files = Vec::new();
        proof {
            assert(string_views(self.files@).to_set() =~= Set::<Seq<char>>::empty());
        }
    }
}

/// The workspace scan's flags and pending marks.
#[derive(Debug)]
pub struct ScanState {
    /// A scan finished and its results are the workspace's.
    pub scanned: bool,
    /// A scan is running.
    pub in_progress: bool,
    /// Bumped by every reset; a scan remembers the one it started under.
    pub generation: u64,
    /// A scan of the whole root (not only known files) finished.
    pub fully_discovered: bool,
    /// Files changed on disk since the last scan that the next scan must visit.
    pub pending: PendingScanFiles,
}

impl ScanState {
    /// Nothing scanned, nothing running, nothing pending, generation 0.
    pub fn new() -> (r: ScanState)
        ensures
            !r.scanned && !r.in_progress && r.generation == 0 && !r.fully_discovered,
            r.pending@ == Set::<Seq<char>>::empty(),
    {
        ScanState {
            scanned: false,
            in_progress: false,
            generation: 0,
            fully_discovered: false,
            pending: PendingScanFiles::new(),
        }
    }

    /// Whether a scan started under `scan_generation` may commit: no reset
    /// happened since.
    pub fn should_commit_workspace_scan(&self, scan_generation: u64) -> (r: bool)
        ensures
            r == (self.generation == scan_generation),
    {
        self.generation == scan_generation
    }

    /// Whether the next scan walks the whole root: root-wide discovery has
    /// not finished yet.
    pub fn needs_full_scan(&self) -> (r: bool)
        ensures
            r == !self.fully_discovered,
    {
        !self.fully_discovered
    }

    /// Starts a scan unless the workspace is scanned or a scan is running;
    /// returns the generation the new scan runs under.
    pub fn try_start_scan(&mut self) -> (r: Option<u64>)
        ensures
            (*final(self), r) == started(*old(self)),
    {
        if self.scanned || self.in_progress {
            None
        } else {
            self.in_progress = true;
            Some(self.generation)
        }
    }

    /// Takes in one file's result of the scan started under
    /// `scan_generation`: when no reset happened since, the file is no longer
    /// pending; a result of a stale scan changes nothing. Returns whether it
    /// was taken.
    pub fn record_result(&mut self, scan_generation: u64, file_path: &str) -> (c: bool)
        ensures
            c == (old(self).generation == scan_generation),
            c ==> final(self).pending@ == old(self).pending@.remove(file_path@),
            *final(self) == recorded(*old(self), scan_generation, final(self).pending),
    {
        if self.generation == scan_generation {
            self.pending.remove(file_path);
            true
        } else {
            false
        }
    }

    /// Closes the walk of the scan started under `scan_generation`: when no
    /// reset happened since, no file is pending any more and, after a walk of
    /// the whole root (`force_full`), the root counts as discovered. A scan
    /// superseded partway leaves the marks of the files it never reached.
    /// Returns whether it closed.
    pub fn finish_scan(&mut self, scan_generation: u64, force_full: bool) -> (c: bool)
        ensures
            c == (old(self).generation == scan_generation),
            c ==> final(self).pending@ == Set::<Seq<char>>::empty() && final(self).fully_discovered == (
            old(self).fully_discovered || force_full),
            *final(self) == finished(*old(self), scan_generation, force_full, final(self).pending),
    {
        if self.generation == scan_generation {
            self.pending.clear();
            if force_full {
                self.fully_discovered = true;
            }
            true
        } else {
            false
        }
    }

    /// Ends the scan started under `scan_generation`: when no reset happened
    /// since, the workspace counts as scanned and no scan runs; a stale scan
    /// changes nothing. Returns whether it committed.
    pub fn commit_scan(&mut self, scan_generation: u64) -> (r: bool)
        ensures
            (*final(self), r) == committed(*old(self), scan_generation),
    {
        if self.generation == scan_generation {
            self.scanned = true;
            self.in_progress = false;
            true
        } else {
            false
        }
    }

    /// After the scan started under `scan_generation` failed: it no longer
    /// runs, unless a newer scan has taken over since a reset.
    pub fn abandon_scan(&mut self, scan_generation: u64)
        ensures
            *final(self) == abandoned(*old(self), scan_generation),
    {
        if self.generation == scan_generation {
            self.in_progress = false;
        }
    }

    /// Forgets the scan after the workspace changed: nothing counts as
    /// scanned or running, and the generation moves on so that a running scan
    /// cannot commit. `rediscover` also forgets that the whole root was seen.
    /// The pending marks stay for the next scan.
    pub fn reset_scan(&mut self, rediscover: bool)
        requires
            old(self).generation < u64::MAX,
        ensures
            *final(self) == after_reset(*old(self), rediscover),
    {
        self.scanned = false;
        self.in_progress = false;
        self.generation = self.generation + 1;
        if rediscover {
            self.fully_discovered = false;
        }
    }
}

/// The state after `try_start_scan`, and the generation it started under.
pub open spec fn started(s: ScanState) -> (ScanState, Option<u64>) {
    if s.scanned || s.in_progress {
        (s, None)
    } else {
        (ScanState { in_progress: true, ..s }, Some(s.generation))
    }
}

/// The state after `reset_scan`.
pub open spec fn after_reset(s: ScanState, rediscover: bool) -> ScanState {
    ScanState {
        scanned: false,
        in_progress: false,
        generation: (s.generation + 1) as u64,
        fully_discovered: s.fully_discovered && !rediscover,
        ..s
    }
}

/// The state after `commit_scan`, and whether it committed.
pub open spec fn committed(s: ScanState, g: u64) -> (ScanState, bool) {
    if s.generation == g {
        (ScanState { scanned: true, in_progress: false, ..s }, true)
    } else {
        (s, false)
    }
}

/// The state after `abandon_scan`.
pub open spec fn abandoned(s: ScanState, g: u64) -> ScanState {
    if s.generation == g {
        ScanState { in_progress: false, ..s }
    } else {
        s
    }
}

/// The state after `record_result` of a scan under `g`, with `pending` the
/// marks left (only a current scan's result touches them).
pub open spec fn recorded(s: ScanState, g: u64, pending: PendingScanFiles) -> ScanState {
    if s.generation == g {
        ScanState { pending, ..s }
    } else {
        s
    }
}

/// The state after `finish_scan` of a scan under `g`, with `pending` the
/// marks left (only a current scan's close touches them).
pub open spec fn finished(s: ScanState, g: u64, force_full: bool, pending: PendingScanFiles) -> ScanState {
    if s.generation == g {
        ScanState { pending, fully_discovered: s.fully_discovered || force_full, ..s }
    } else {
        s
    }
}

/// A scan that started before a reset never commits. A scan runs under
/// the generation current when it started; no operation lowers the
/// generation and a reset raises it, so once a reset has happened the
/// scan's generation is below the current one, and committing, recording a
/// result or closing the walk under it changes nothing: the pending marks
/// stay for the next scan.
pub proof fn law_stale_scan_never_commits(
    s: ScanState,
    g: u64,
    rediscover: bool,
    force_full: bool,
    pending: PendingScanFiles,
)
    ensures
        started(s).1 matches Some(sg) ==> sg == s.generation,
        started(s).0.generation == s.generation,
        committed(s, g).0.generation == s.generation,
        abandoned(s, g).generation == s.generation,
        recorded(s, g, pending).generation == s.generation,
        finished(s, g, force_full, pending).generation == s.generation,
        s.generation < u64::MAX ==> after_reset(s, rediscover).generation == s.generation + 1,
        g < s.generation ==> committed(s, g) == (s, false),
        g < s.generation ==> recorded(s, g, pending) == s,
        g < s.generation ==> finished(s, g, force_full, pending) == s,
{
}

/// While a scan runs, no second one starts; once it commits, none starts
/// until a reset.
pub proof fn law_one_scan_at_a_time(s: ScanState)
    ensures
        started(started(s).0).1 is None,
        started(s).1 is Some ==> started(committed(started(s).0, s.generation).0).1 is None,
{
}

} // verus!
