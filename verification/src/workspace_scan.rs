//! The workspace rescan: which files a scan visits, and what it does with
//! each of them.
//!
//! A scan before the whole root has been discovered visits every walked
//! file; later scans visit only the files marked pending and the open
//! documents (or, with neither, every known file again). Per file, a scan
//! skips a closed file whose on-disk stamp is unchanged, refreshes the stamp
//! of one whose content key is unchanged, and analyses the rest.

use vstd::prelude::*;
use vstd::string::*;
use vstd::utf8::*;
use crate::path_order::{components_less, components_view, lemma_components_lt, path_key, path_key_of, path_lt};
use crate::workspace::{has_rb_extension, is_rb_file_path, is_target_ruby_path, string_views, target_ruby_path};

verus! {


/// How many files a scan hands to the analysis workers at once; between two
/// chunks it checks that no reset has superseded it.
pub const LSP_SCAN_CHUNK_SIZE: usize = 2048;

/// The analysis-unit roots as character views.
pub open spec fn roots_view(roots: Option<&[String]>) -> Option<Seq<Seq<char>>> {
    match roots {
        Some(rs) => Some(string_views(rs@)),
        None => None,
    }
}

/// Which of a list's paths a scan takes.
#[derive(Clone, Copy, Debug, PartialEq, Eq, Structural)]
pub enum PathFilter {
    /// Every path.
    All,
    /// Paths with the extension `rb`.
    RubyFiles,
    /// Ruby files the server analyses (inside the analysis-unit roots).
    AnalysisTargets,
}

/// Path `p` passes `filter`.
pub open spec fn admitted(filter: PathFilter, roots: Option<Seq<Seq<char>>>, p: Seq<char>) -> bool {
    match filter {
        PathFilter::All => true,
        PathFilter::RubyFiles => has_rb_extension(p),
        PathFilter::AnalysisTargets => target_ruby_path(roots, p),
    }
}

/// The paths of `paths` that pass `filter`, in their order, as text.
pub open spec fn kept(paths: Seq<String>, filter: PathFilter, roots: Option<Seq<Seq<char>>>) -> Seq<Seq<char>>
    decreases paths.len(),
{
    if paths.len() == 0 {
        seq![]
    } else {
        kept(paths.drop_last(), filter, roots) + if admitted(filter, roots, paths.last()@) {
            seq![paths.last()@]
        } else {
            seq![]
        }
    }
}

/// The paths a scan collects, in the order it collects them: the walked
/// files before the whole root is discovered (`force_full`) or while no file
/// is known, otherwise the known files when nothing is pending and no
/// document is open; then the pending `.rb` files; then the open documents
/// the server analyses.
pub open spec fn scan_candidates(
    walked: Seq<String>,
    known: Seq<String>,
    pending: Seq<String>,
    open_docs: Seq<String>,
    roots: Option<Seq<Seq<char>>>,
    force_full: bool,
) -> Seq<Seq<char>> {
    let full = force_full || known.len() == 0;
    let delta = pending.len() > 0 || open_docs.len() > 0;
    (if full {
        kept(walked, PathFilter::All, roots)
    } else if !delta {
        kept(known, PathFilter::All, roots)
    } else {
        seq![]
    }) + kept(pending, PathFilter::RubyFiles, roots) + kept(open_docs, PathFilter::AnalysisTargets, roots)
}

/// Candidate `m` is the first that names its path (`Path` equality:
/// equal components).
pub open spec fn first_of_its_path(cands: Seq<Seq<char>>, m: int) -> bool {
    forall|k: int| 0 <= k < m ==> path_key(#[trigger] cands[k]) != path_key(cands[m])
}

/// `x` is a candidate, and the first that names its path.
pub open spec fn first_candidate(cands: Seq<Seq<char>>, x: Seq<char>) -> bool {
    exists|m: int| 0 <= m < cands.len() && cands[m] == x && first_of_its_path(cands, m)
}

/// Some path of `out` is the path `c` names.
pub open spec fn names_path_of(out: Seq<Seq<char>>, c: Seq<char>) -> bool {
    exists|i: int| 0 <= i < out.len() && path_key(out[i]) == path_key(c)
}

/// `out` is the set of paths of `cands` as a `BTreeSet<PathBuf>` built by
/// inserting them in order holds it: in strictly increasing `Path` order,
/// each path the first candidate that names it (a later equal path does not
/// replace it), and every candidate's path present.
#[verifier::opaque]
pub open spec fn path_set_of(out: Seq<Seq<char>>, cands: Seq<Seq<char>>) -> bool {
    &&& path_sorted(out)
    &&& forall|i: int| 0 <= i < out.len() ==> #[trigger] first_candidate(cands, out[i])
    &&& forall|m: int| 0 <= m < cands.len() ==> #[trigger] names_path_of(out, cands[m])
}

/// Strictly increasing in `Path` order.
pub open spec fn path_sorted(o: Seq<Seq<char>>) -> bool {
    forall|i: int, j: int| 0 <= i < j < o.len() ==> path_lt(#[trigger] o[i], #[trigger] o[j])
}

/// Each stored path's components are kept beside it.
pub open spec fn keys_match(keys: Seq<Vec<(u8, Vec<u8>)>>, out: Seq<String>) -> bool {
    &&& keys.len() == out.len()
    &&& forall|i: int| 0 <= i < out.len() ==> components_view(#[trigger] keys[i]@) == path_key(out[i]@)
}

/// Whether path `p` passes `filter`.
fn passes(filter: PathFilter, roots: Option<&[String]>, p: &str) -> (r: bool)
    ensures
        r == admitted(filter, roots_view(roots), p@),
{
    match filter {
        PathFilter::All => true,
        PathFilter::RubyFiles => is_rb_file_path(p),
        PathFilter::AnalysisTargets => is_target_ruby_path(roots, p),
    }
}

/// A path set is sorted.
proof fn lemma_path_set_sorted(o: Seq<Seq<char>>, cands: Seq<Seq<char>>)
    requires
        path_set_of(o, cands),
    ensures
        path_sorted(o),
{
    reveal(path_set_of);
}

/// A first candidate stays first when a candidate is added after it.
proof fn lemma_first_candidate_push(cands: Seq<Seq<char>>, x: Seq<char>, p: Seq<char>)
    requires
        first_candidate(cands, x),
    ensures
        first_candidate(cands.push(p), x),
{
    let c2 = cands.push(p);
    let m = choose|m: int| 0 <= m < cands.len() && cands[m] == x && first_of_its_path(cands, m);
    assert(c2[m] == cands[m]);
    assert forall|k: int| 0 <= k < m implies path_key(#[trigger] c2[k]) != path_key(c2[m]) by {
        assert(c2[k] == cands[k]);
    }
}

/// A candidate equal to a path of the set leaves the set as it is.
proof fn lemma_path_set_keep(o: Seq<Seq<char>>, cands: Seq<Seq<char>>, p: Seq<char>, lo: int)
    requires
        path_set_of(o, cands),
        0 <= lo < o.len(),
        path_key(o[lo]) == path_key(p),
    ensures
        path_set_of(o, cands.push(p)),
{
    reveal(path_set_of);
    let c2 = cands.push(p);
    assert forall|i: int| 0 <= i < o.len() implies #[trigger] first_candidate(c2, o[i]) by {
        assert(first_candidate(cands, o[i]));
        lemma_first_candidate_push(cands, o[i], p);
    }
    assert forall|m: int| 0 <= m < c2.len() implies #[trigger] names_path_of(o, c2[m]) by {
        if m < cands.len() {
            assert(c2[m] == cands[m]);
            assert(names_path_of(o, cands[m]));
        } else {
            assert(c2[m] == p);
        }
    }
}

/// A candidate that falls strictly between the paths before `lo` and those
/// from `lo` on is added there.
proof fn lemma_path_set_insert(o: Seq<Seq<char>>, cands: Seq<Seq<char>>, p: Seq<char>, lo: int)
    requires
        path_set_of(o, cands),
        0 <= lo <= o.len(),
        forall|k: int| 0 <= k < lo ==> path_lt(#[trigger] o[k], p),
        forall|k: int| lo <= k < o.len() ==> path_lt(p, #[trigger] o[k]),
    ensures
        path_set_of(o.insert(lo, p), cands.push(p)),
{
    reveal(path_set_of);
    let c2 = cands.push(p);
    let n = o.insert(lo, p);
    assert forall|k: int| 0 <= k < o.len() implies path_key(#[trigger] o[k]) != path_key(p) by {
        lemma_components_lt(path_key(o[k]), path_key(o[k]), path_key(o[k]));
        lemma_components_lt(path_key(p), path_key(p), path_key(p));
    }
    assert forall|i: int, j: int| 0 <= i < j < n.len() implies path_lt(#[trigger] n[i], #[trigger] n[j]) by {
        if j < lo {
            assert(n[i] == o[i] && n[j] == o[j]);
        } else if i < lo && j == lo {
            assert(n[i] == o[i] && n[j] == p);
        } else if i < lo {
            assert(n[i] == o[i] && n[j] == o[j - 1]);
            lemma_components_lt(path_key(o[i]), path_key(p), path_key(o[j - 1]));
        } else if i == lo {
            assert(n[i] == p && n[j] == o[j - 1]);
        } else {
            assert(n[i] == o[i - 1] && n[j] == o[j - 1]);
        }
    }
    assert forall|i: int| 0 <= i < n.len() implies #[trigger] first_candidate(c2, n[i]) by {
        if i == lo {
            let m = cands.len() as int;
            assert(c2[m] == p && n[i] == p);
            assert forall|k: int| 0 <= k < m implies path_key(#[trigger] c2[k]) != path_key(c2[m]) by {
                assert(c2[k] == cands[k]);
                assert(names_path_of(o, cands[k]));
            }
        } else {
            let oi = if i < lo { i } else { i - 1 };
            assert(n[i] == o[oi]);
            assert(first_candidate(cands, o[oi]));
            lemma_first_candidate_push(cands, o[oi], p);
        }
    }
    assert forall|m: int| 0 <= m < c2.len() implies #[trigger] names_path_of(n, c2[m]) by {
        if m < cands.len() {
            assert(c2[m] == cands[m]);
            assert(names_path_of(o, cands[m]));
            let q = choose|q: int| 0 <= q < o.len() && path_key(o[q]) == path_key(cands[m]);
            if q < lo {
                assert(n[q] == o[q]);
            } else {
                assert(n[q + 1] == o[q]);
            }
        } else {
            assert(n[lo] == c2[m]);
        }
    }
}

/// Adds candidate `p` to the path set `out` (with its components in `keys`)
/// unless a path equal to it is there.
fn insert_candidate(
    out: &mut Vec<String>,
    keys: &mut Vec<Vec<(u8, Vec<u8>)>>,
    p: &str,
    Ghost(cands): Ghost<Seq<Seq<char>>>,
)
    requires
        path_set_of(string_views(old(out)@), cands),
        keys_match(old(keys)@, old(out)@),
    ensures
        path_set_of(string_views(final(out)@), cands.push(p@)),
        keys_match(final(keys)@, final(out)@),
{
    let ghost o = string_views(out@);
    proof {
        lemma_path_set_sorted(o, cands);
    }
    let key = path_key_of(p);
    let mut lo: usize = 0;
    let mut hi: usize = out.len();
    while lo < hi
        invariant
            lo <= hi <= out@.len(),
            o == string_views(out@),
            keys_match(keys@, out@),
            components_view(key@) == path_key(p@),
            path_sorted(o),
            forall|k: int| 0 <= k < lo ==> path_lt(#[trigger] o[k], p@),
            forall|k: int| hi <= k < o.len() ==> !path_lt(#[trigger] o[k], p@),
        decreases hi - lo,
    {
        let mid = lo + (hi - lo) / 2;
        let below = components_less(&keys[mid], &key);
        proof {
            assert(components_view(keys@[mid as int]@) == path_key(o[mid as int]));
        }
        if below {
            proof {
                assert forall|k: int| 0 <= k < mid + 1 implies path_lt(#[trigger] o[k], p@) by {
                    if k < mid {
                        lemma_components_lt(path_key(o[k]), path_key(o[mid as int]), path_key(p@));
                    }
                }
            }
            lo = mid + 1;
        } else {
            proof {
                assert forall|k: int| mid <= k < o.len() implies !path_lt(#[trigger] o[k], p@) by {
                    if k > mid && path_lt(o[k], p@) {
                        lemma_components_lt(path_key(o[mid as int]), path_key(o[k]), path_key(p@));
                    }
                }
            }
            hi = mid;
        }
    }
    if lo < out.len() && !components_less(&key, &keys[lo]) {
        proof {
            assert(components_view(keys@[lo as int]@) == path_key(o[lo as int]));
            lemma_components_lt(path_key(o[lo as int]), path_key(p@), path_key(p@));
            lemma_path_set_keep(o, cands, p@, lo as int);
        }
        return;
    }
    let owned = crate::text::to_string_of(p);
    proof {
        encode_utf8_decode_utf8(owned@);
        encode_utf8_decode_utf8(p@);
        assert(owned@ == p@);
        if lo < o.len() {
            assert(components_view(keys@[lo as int]@) == path_key(o[lo as int]));
            lemma_components_lt(path_key(o[lo as int]), path_key(p@), path_key(p@));
        }
        assert forall|k: int| lo <= k < o.len() implies path_lt(p@, #[trigger] o[k]) by {
            lemma_components_lt(path_key(o[k]), path_key(p@), path_key(p@));
            if k > lo {
                lemma_components_lt(path_key(p@), path_key(o[lo as int]), path_key(o[k]));
            }
        }
        lemma_path_set_insert(o, cands, p@, lo as int);
    }
    let ghost old_keys = keys@;
    let ghost old_out = out@;
    out.insert(lo, owned);
    keys.insert(lo, key);
    proof {
        assert(string_views(out@) =~= o.insert(lo as int, p@));
        assert forall|i: int| 0 <= i < out@.len() implies components_view(#[trigger] keys@[i]@) == path_key(out@[i]@) by {
            if i < lo {
                assert(keys@[i] == old_keys[i] && out@[i] == old_out[i]);
            } else if i > lo {
                assert(keys@[i] == old_keys[i - 1] && out@[i] == old_out[i - 1]);
            }
        }
    }
}

/// Adds to the path set the paths of `paths` that pass `filter`, in order.
fn add_candidates(
    out: &mut Vec<String>,
    keys: &mut Vec<Vec<(u8, Vec<u8>)>>,
    paths: &[String],
    filter: PathFilter,
    roots: Option<&[String]>,
    Ghost(cands): Ghost<Seq<Seq<char>>>,
)
    requires
        path_set_of(string_views(old(out)@), cands),
        keys_match(old(keys)@, old(out)@),
    ensures
        path_set_of(string_views(final(out)@), cands + kept(paths@, filter, roots_view(roots))),
        keys_match(final(keys)@, final(out)@),
{
    let ghost rv = roots_view(roots);
    let mut i: usize = 0;
    while i < paths.len()
        invariant
            i <= paths@.len(),
            rv == roots_view(roots),
            path_set_of(string_views(out@), cands + kept(paths@.take(i as int), filter, rv)),
            keys_match(keys@, out@),
        decreases paths@.len() - i,
    {
        let p = &paths[i];
        let ghost before = cands + kept(paths@.take(i as int), filter, rv);
        proof {
            let t1 = paths@.take(i + 1);
            assert(t1.drop_last() =~= paths@.take(i as int));
            assert(t1.last() == paths@[i as int]);
        }
        if passes(filter, roots, p.as_str()) {
            insert_candidate(out, keys, p.as_str(), Ghost(before));
            proof {
                assert(before.push(p@) =~= cands + kept(paths@.take(i + 1), filter, rv));
            }
        } else {
            proof {
                assert(before =~= cands + kept(paths@.take(i + 1), filter, rv));
            }
        }
        i = i + 1;
    }
    proof {
        assert(paths@.take(paths@.len() as int) =~= paths@);
    }
}

/// The scan set, path by path: before the whole root is discovered
/// (`force_full`) or while no file is known, every walked file; otherwise
/// every known file when nothing is pending and no document is open; in both
/// cases the pending `.rb` files and the open documents the server analyses.
pub open spec fn scan_set_contains(
    walked: Seq<String>,
    known: Seq<String>,
    pending: Seq<String>,
    open_docs: Seq<String>,
    roots: Option<Seq<Seq<char>>>,
    force_full: bool,
    p: Seq<char>,
) -> bool {
    let full = force_full || known.len() == 0;
    let delta = pending.len() > 0 || open_docs.len() > 0;
    ||| full && string_views(walked).contains(p)
    ||| !full && !delta && string_views(known).contains(p)
    ||| string_views(pending).contains(p) && has_rb_extension(p)
    ||| string_views(open_docs).contains(p) && target_ruby_path(roots, p)
}

/// A list's kept paths are its paths that pass the filter.
proof fn lemma_kept_contains(paths: Seq<String>, filter: PathFilter, roots: Option<Seq<Seq<char>>>, p: Seq<char>)
    ensures
        kept(paths, filter, roots).contains(p) <==> (string_views(paths).contains(p) && admitted(filter, roots, p)),
    decreases paths.len(),
{
    broadcast use vstd::seq_lib::group_seq_properties;

    if paths.len() > 0 {
        let dl = paths.drop_last();
        lemma_kept_contains(dl, filter, roots, p);
        assert(string_views(paths) =~= string_views(dl).push(paths.last()@));
        let tail = if admitted(filter, roots, paths.last()@) { seq![paths.last()@] } else { Seq::<Seq<char>>::empty() };
        assert(kept(paths, filter, roots) == kept(dl, filter, roots) + tail);
        if kept(paths, filter, roots).contains(p) {
            let k = choose|k: int| 0 <= k < kept(paths, filter, roots).len() && kept(paths, filter, roots)[k] == p;
            if k >= kept(dl, filter, roots).len() {
                assert(tail[k - kept(dl, filter, roots).len()] == p);
            } else {
                assert(kept(dl, filter, roots)[k] == p);
            }
        }
        if string_views(paths).contains(p) && admitted(filter, roots, p) {
            if string_views(dl).contains(p) {
                let k = choose|k: int| 0 <= k < kept(dl, filter, roots).len() && kept(dl, filter, roots)[k] == p;
                assert(kept(paths, filter, roots)[k] == p);
            } else {
                assert(string_views(paths)[paths.len() - 1] == paths.last()@);
                assert(kept(paths, filter, roots)[kept(dl, filter, roots).len() as int] == p);
            }
        }
    }
}

/// The files a workspace scan visits, as the `BTreeSet<PathBuf>` of the
/// collected candidates holds them: in `Path` order (component by
/// component), each path once (paths with equal components are one; the
/// first collected is kept). The candidates are the walked files before the
/// whole root is discovered (`force_full`) or while no file is known,
/// otherwise the known files when no file is pending and no document is
/// open; then the pending `.rb` files; then the open documents the server
/// analyses.
pub fn workspace_scan_files(
    walked: &[String],
    known: &[String],
    pending: &[String],
    open_docs: &[String],
    roots: Option<&[String]>,
    force_full: bool,
) -> (r: Vec<String>)
    ensures
        path_set_of(
            string_views(r@),
            scan_candidates(walked@, known@, pending@, open_docs@, roots_view(roots), force_full),
        ),
        forall|p: Seq<char>|
            string_views(r@).contains(p) ==> scan_set_contains(
                walked@,
                known@,
                pending@,
                open_docs@,
                roots_view(roots),
                force_full,
                p,
            ),
        forall|p: Seq<char>|
            scan_set_contains(walked@, known@, pending@, open_docs@, roots_view(roots), force_full, p) ==> exists|i: int|
                0 <= i < r@.len() && path_key(#[trigger] r@[i]@) == path_key(p),
{
    let ghost rv = roots_view(roots);
    let mut out: Vec<String> = Vec::new();
    let mut keys: Vec<Vec<(u8, Vec<u8>)>> = Vec::new();
    proof {
        reveal(path_set_of);
        assert(string_views(out@) =~= Seq::<Seq<char>>::empty());
    }
    let full = force_full || known.len() == 0;
    let delta = pending.len() > 0 || open_docs.len() > 0;
    let ghost base: Seq<Seq<char>> = if full {
        kept(walked@, PathFilter::All, rv)
    } else if !delta {
        kept(known@, PathFilter::All, rv)
    } else {
        seq![]
    };
    if full {
        add_candidates(&mut out, &mut keys, walked, PathFilter::All, roots, Ghost(Seq::empty()));
    } else if !delta {
        add_candidates(&mut out, &mut keys, known, PathFilter::All, roots, Ghost(Seq::empty()));
    }
    proof {
        assert(Seq::<Seq<char>>::empty() + kept(walked@, PathFilter::All, rv) =~= kept(walked@, PathFilter::All, rv));
        assert(Seq::<Seq<char>>::empty() + kept(known@, PathFilter::All, rv) =~= kept(known@, PathFilter::All, rv));
    }
    add_candidates(&mut out, &mut keys, pending, PathFilter::RubyFiles, roots, Ghost(base));
    let ghost mid = base + kept(pending@, PathFilter::RubyFiles, rv);
    add_candidates(&mut out, &mut keys, open_docs, PathFilter::AnalysisTargets, roots, Ghost(mid));
    let ghost cands = scan_candidates(walked@, known@, pending@, open_docs@, rv, force_full);
    proof {
        assert(cands =~= mid + kept(open_docs@, PathFilter::AnalysisTargets, rv));
        reveal(path_set_of);
        let o = string_views(out@);
        assert forall|p: Seq<char>| #[trigger] cands.contains(p) <==> scan_set_contains(
            walked@,
            known@,
            pending@,
            open_docs@,
            rv,
            force_full,
            p,
        ) by {
            broadcast use vstd::seq_lib::group_seq_properties;

            lemma_kept_contains(walked@, PathFilter::All, rv, p);
            lemma_kept_contains(known@, PathFilter::All, rv, p);
            lemma_kept_contains(pending@, PathFilter::RubyFiles, rv, p);
            lemma_kept_contains(open_docs@, PathFilter::AnalysisTargets, rv, p);
        }
        assert forall|p: Seq<char>| o.contains(p) implies scan_set_contains(
            walked@,
            known@,
            pending@,
            open_docs@,
            rv,
            force_full,
            p,
        ) by {
            let i = choose|i: int| 0 <= i < o.len() && o[i] == p;
            assert(first_candidate(cands, o[i]));
            let m = choose|m: int| 0 <= m < cands.len() && cands[m] == o[i] && first_of_its_path(cands, m);
            assert(cands.contains(p));
        }
        assert forall|p: Seq<char>| scan_set_contains(walked@, known@, pending@, open_docs@, rv, force_full, p) implies exists|i: int|
            0 <= i < out@.len() && path_key(#[trigger] out@[i]@) == path_key(p) by {
            assert(cands.contains(p));
            let m = choose|m: int| 0 <= m < cands.len() && cands[m] == p;
            assert(names_path_of(o, cands[m]));
            let i = choose|i: int| 0 <= i < o.len() && path_key(o[i]) == path_key(cands[m]);
            assert(out@[i]@ == o[i]);
        }
    }
    out
}

/// The chunk after the first `done` of `total` files: none when all are
/// handled or the scan is superseded, otherwise the next
/// `LSP_SCAN_CHUNK_SIZE` files, fewer at the end.
pub open spec fn chunk_after(done: int, total: int, superseded: bool) -> Option<(int, int)> {
    if done >= total || superseded {
        None
    } else if total - done <= LSP_SCAN_CHUNK_SIZE {
        Some((done, total))
    } else {
        Some((done, done + LSP_SCAN_CHUNK_SIZE))
    }
}

/// The next chunk of a scan over `total` files of which the first `done`
/// are handled: none when all are handled or a reset has superseded the
/// scan (checked once per chunk, not per file), otherwise the next
/// `LSP_SCAN_CHUNK_SIZE` files, fewer at the end.
pub fn next_scan_chunk(done: usize, total: usize, superseded: bool) -> (r: Option<(usize, usize)>)
    requires
        done <= total,
    ensures
        match chunk_after(done as int, total as int, superseded) {
            Some((lo, hi)) => r == Some((lo as usize, hi as usize)),
            None => r is None,
        },
{
    if done == total || superseded {
        None
    } else if total - done <= LSP_SCAN_CHUNK_SIZE {
        Some((done, total))
    } else {
        Some((done, done + LSP_SCAN_CHUNK_SIZE))
    }
}

/// Whether a scan walks the roots: before the whole root is discovered
/// (`force_full`) or while no file is known. Otherwise the walked list is
/// not part of the scan set (see `workspace_scan_files`).
pub fn scan_walks_roots(known_files: usize, force_full: bool) -> (r: bool)
    ensures
        r == (force_full || known_files == 0),
{
    force_full || known_files == 0
}

/// A scan starts cold when nothing is cached and no document is open.
pub fn is_cold_scan(cached_entries: usize, open_docs: usize) -> (r: bool)
    ensures
        r == (cached_entries == 0 && open_docs == 0),
{
    cached_entries == 0 && open_docs == 0
}

/// What a scan does with one file before reading it.
#[derive(Clone, Copy, Debug, PartialEq, Eq, Structural)]
pub enum ScanStep {
    /// The closed file is unchanged on disk since it was cached: skip it.
    Skip,
    /// Take the open document's text.
    ReadOpenDocument,
    /// Read the file from disk.
    ReadFromDisk,
}

/// Whether a cached entry exists and its on-disk stamp equals `current`.
pub open spec fn stamp_unchanged(cached_stamp: Option<Option<(u64, u64)>>, current: Option<(u64, u64)>) -> bool {
    cached_stamp == Some(current)
}

/// The step for one file. A cold scan reads every file from disk; otherwise
/// an open document is taken as it stands, a closed file whose cached entry
/// (`cached_stamp`: the entry, if any, and the on-disk stamp it recorded)
/// holds the current on-disk stamp is skipped, and any other file is read
/// from disk. A stamp is the file's modification time and length.
pub fn scan_step(
    cold: bool,
    is_open: bool,
    cached_stamp: Option<Option<(u64, u64)>>,
    current_stamp: Option<(u64, u64)>,
) -> (r: ScanStep)
    ensures
        cold ==> r == ScanStep::ReadFromDisk,
        !cold && is_open ==> r == ScanStep::ReadOpenDocument,
        !cold && !is_open && stamp_unchanged(cached_stamp, current_stamp) ==> r == ScanStep::Skip,
        !cold && !is_open && !stamp_unchanged(cached_stamp, current_stamp) ==> r == ScanStep::ReadFromDisk,
{
    if cold {
        return ScanStep::ReadFromDisk;
    }
    if is_open {
        return ScanStep::ReadOpenDocument;
    }
    let unchanged = match (cached_stamp, current_stamp) {
        (Some(Some((m0, l0))), Some((m1, l1))) => m0 == m1 && l0 == l1,
        (Some(None), None) => true,
        _ => false,
    };
    if unchanged {
        ScanStep::Skip
    } else {
        ScanStep::ReadFromDisk
    }
}

/// The key `rustc_hash::FxHasher` (which takes no seed) gives an on-disk
/// stamp. The hasher mixes in `usize` words, so the value is fixed for the
/// platform the program is built for (it differs between 32-bit and 64-bit
/// targets); nothing else about it is stated.
pub uninterp spec fn stamp_key(stamp: Option<(u64, u64)>) -> u64;

/// `rustc_hash::FxHasher` over an on-disk stamp: `Hash::hash` of the stamp,
/// then `finish`. The contract names the result and says no more.
#[verifier::external_body]
fn closed_file_scan_key(stamp: Option<(u64, u64)>) -> (r: u64)
    ensures
        r == stamp_key(stamp),
{
    let mut hasher = rustc_hash::FxHasher::default();
    std::hash::Hash::hash(&stamp, &mut hasher);
    std::hash::Hasher::finish(&hasher)
}

/// The content key of a file a scan has read, when the stamp decides it: in
/// a cold scan, and for any file read with an on-disk stamp, the key is the
/// stamp's hash, so a file whose stamp changed gets a new key unless the
/// hashes collide; `None` means the key is the hash of the text (an open
/// document, or a file whose stamp could not be read).
pub fn scan_content_key(cold: bool, on_disk_stamp: Option<(u64, u64)>) -> (r: Option<u64>)
    ensures
        r == (if cold || on_disk_stamp is Some {
            Some(stamp_key(on_disk_stamp))
        } else {
            None
        }),
{
    if cold || on_disk_stamp.is_some() {
        Some(closed_file_scan_key(on_disk_stamp))
    } else {
        None
    }
}

/// What a scan does with a file it has read.
#[derive(Clone, Copy, Debug, PartialEq, Eq, Structural)]
pub enum ScanOutcome {
    /// The content key is the cached one: only the stamp is refreshed.
    RefreshStamp,
    /// The file is analysed and its result recorded.
    Analyze,
}

/// The outcome for a file read with content key `content_hash`: outside a
/// cold scan, a cached entry with the same key only gets its stamp
/// refreshed; everything else is analysed.
pub fn scan_outcome(cold: bool, cached_hash: Option<u64>, content_hash: u64) -> (r: ScanOutcome)
    ensures
        r == (if !cold && cached_hash == Some(content_hash) {
            ScanOutcome::RefreshStamp
        } else {
            ScanOutcome::Analyze
        }),
{
    if !cold && cached_hash == Some(content_hash) {
        ScanOutcome::RefreshStamp
    } else {
        ScanOutcome::Analyze
    }
}

/// No change is lost: whatever the walk found and whatever is known, a scan
/// visits every pending `.rb` file and every open document the server
/// analyses; until the whole root is discovered it visits every walked
/// file; and it visits nothing that is neither walked, known, pending nor
/// open.
pub proof fn law_scan_visits_every_change(
    walked: Seq<String>,
    known: Seq<String>,
    pending: Seq<String>,
    open_docs: Seq<String>,
    roots: Option<Seq<Seq<char>>>,
    force_full: bool,
    p: Seq<char>,
)
    ensures
        string_views(pending).contains(p) && has_rb_extension(p) ==> scan_set_contains(
            walked,
            known,
            pending,
            open_docs,
            roots,
            force_full,
            p,
        ),
        string_views(open_docs).contains(p) && target_ruby_path(roots, p) ==> scan_set_contains(
            walked,
            known,
            pending,
            open_docs,
            roots,
            force_full,
            p,
        ),
        force_full && string_views(walked).contains(p) ==> scan_set_contains(
            walked,
            known,
            pending,
            open_docs,
            roots,
            force_full,
            p,
        ),
        scan_set_contains(walked, known, pending, open_docs, roots, force_full, p) ==> string_views(
            walked,
        ).contains(p) || string_views(known).contains(p) || string_views(pending).contains(p) || string_views(
            open_docs,
        ).contains(p),
{
}

/// Two strictly sorted lists with the same elements are the same list.
proof fn lemma_sorted_same_elements(a: Seq<Seq<char>>, b: Seq<Seq<char>>)
    requires
        path_sorted(a),
        path_sorted(b),
        forall|i: int| 0 <= i < a.len() ==> b.contains(#[trigger] a[i]),
        forall|j: int| 0 <= j < b.len() ==> a.contains(#[trigger] b[j]),
    ensures
        a == b,
    decreases a.len() + b.len(),
{
    if a.len() == 0 {
        if b.len() > 0 {
            assert(a.contains(b[0]));
        }
        assert(a =~= b);
    } else if b.len() == 0 {
        assert(b.contains(a[0]));
    } else {
        assert(b.contains(a[0]));
        assert(a.contains(b[0]));
        let j = choose|j: int| 0 <= j < b.len() && b[j] == a[0];
        let k = choose|k: int| 0 <= k < a.len() && a[k] == b[0];
        lemma_components_lt(path_key(a[0]), path_key(b[0]), path_key(a[0]));
        if j > 0 {
            assert(path_lt(b[0], b[j]));
            if k > 0 {
                assert(path_lt(a[0], a[k]));
            }
        }
        assert(a[0] == b[0]);
        let a1 = a.drop_first();
        let b1 = b.drop_first();
        assert forall|i: int| 0 <= i < a1.len() implies b1.contains(#[trigger] a1[i]) by {
            assert(a1[i] == a[i + 1]);
            assert(path_lt(a[0], a[i + 1]));
            lemma_components_lt(path_key(a[0]), path_key(a[0]), path_key(a[0]));
            assert(b.contains(a[i + 1]));
            let q = choose|q: int| 0 <= q < b.len() && b[q] == a[i + 1];
            assert(q != 0);
            assert(b1[q - 1] == a1[i]);
        }
        assert forall|i: int| 0 <= i < b1.len() implies a1.contains(#[trigger] b1[i]) by {
            assert(b1[i] == b[i + 1]);
            assert(path_lt(b[0], b[i + 1]));
            lemma_components_lt(path_key(b[0]), path_key(b[0]), path_key(b[0]));
            assert(a.contains(b[i + 1]));
            let q = choose|q: int| 0 <= q < a.len() && a[q] == b[i + 1];
            assert(q != 0);
            assert(a1[q - 1] == b1[i]);
        }
        assert forall|i: int, j2: int| 0 <= i < j2 < a1.len() implies path_lt(#[trigger] a1[i], #[trigger] a1[j2]) by {
            assert(a1[i] == a[i + 1] && a1[j2] == a[j2 + 1]);
        }
        assert forall|i: int, j2: int| 0 <= i < j2 < b1.len() implies path_lt(#[trigger] b1[i], #[trigger] b1[j2]) by {
            assert(b1[i] == b[i + 1] && b1[j2] == b[j2 + 1]);
        }
        lemma_sorted_same_elements(a1, b1);
        assert(a =~= seq![a[0]] + a1);
        assert(b =~= seq![b[0]] + b1);
    }
}

/// The first candidates of two equal paths are the same text.
proof fn lemma_first_candidate_unique(cands: Seq<Seq<char>>, x: Seq<char>, y: Seq<char>)
    requires
        first_candidate(cands, x),
        first_candidate(cands, y),
        path_key(x) == path_key(y),
    ensures
        x == y,
{
    let m1 = choose|m: int| 0 <= m < cands.len() && cands[m] == x && first_of_its_path(cands, m);
    let m2 = choose|m: int| 0 <= m < cands.len() && cands[m] == y && first_of_its_path(cands, m);
    if m1 < m2 {
        assert(path_key(cands[m1]) != path_key(cands[m2]));
    } else if m2 < m1 {
        assert(path_key(cands[m2]) != path_key(cands[m1]));
    }
}

/// The path set of a list of candidates is determined by it: any two lists
/// that each hold the candidates' paths in `Path` order, each the first
/// candidate that names it, are the same list. So the contract of
/// `workspace_scan_files` fixes its result.
pub proof fn law_path_set_is_determined(a: Seq<Seq<char>>, b: Seq<Seq<char>>, cands: Seq<Seq<char>>)
    requires
        path_set_of(a, cands),
        path_set_of(b, cands),
    ensures
        a == b,
{
    reveal(path_set_of);
    assert forall|i: int| 0 <= i < a.len() implies b.contains(#[trigger] a[i]) by {
        assert(first_candidate(cands, a[i]));
        let m = choose|m: int| 0 <= m < cands.len() && cands[m] == a[i] && first_of_its_path(cands, m);
        assert(names_path_of(b, cands[m]));
        let j = choose|j: int| 0 <= j < b.len() && path_key(b[j]) == path_key(cands[m]);
        assert(first_candidate(cands, b[j]));
        lemma_first_candidate_unique(cands, a[i], b[j]);
    }
    assert forall|j: int| 0 <= j < b.len() implies a.contains(#[trigger] b[j]) by {
        assert(first_candidate(cands, b[j]));
        let m = choose|m: int| 0 <= m < cands.len() && cands[m] == b[j] && first_of_its_path(cands, m);
        assert(names_path_of(a, cands[m]));
        let i = choose|i: int| 0 <= i < a.len() && path_key(a[i]) == path_key(cands[m]);
        assert(first_candidate(cands, a[i]));
        lemma_first_candidate_unique(cands, a[i], b[j]);
    }
    lemma_sorted_same_elements(a, b);
}

/// The chunks a whole scan hands to the workers when the check before each
/// chunk answers in turn as `answers` says (`true`: superseded): chunk after
/// chunk from `done` on, until every file is handled, the check answers
/// `true`, or the answers run out.
pub open spec fn scan_run(done: int, total: int, answers: Seq<bool>) -> Seq<(int, int)>
    decreases answers.len(),
{
    if answers.len() == 0 {
        seq![]
    } else {
        match chunk_after(done, total, answers[0]) {
            None => seq![],
            Some((lo, hi)) => seq![(lo, hi)] + scan_run(hi, total, answers.drop_first()),
        }
    }
}

/// A whole scan hands on the scan list in order, each file at most once,
/// and stops at the first superseded check: its chunks follow each other
/// from the first unhandled file on, each of at most `LSP_SCAN_CHUNK_SIZE`
/// files and within the list, so the files handed on are a stretch of the
/// list in its order; every check before a chunk answered `false`; and when
/// the run stops before the end of the list with an answer left, that answer
/// was `true`, and no chunk comes after it.
pub proof fn law_scan_run_hands_on_the_list_in_order(done: int, total: int, answers: Seq<bool>)
    requires
        0 <= done <= total,
    ensures
        ({
            let run = scan_run(done, total, answers);
            &&& run.len() <= answers.len()
            &&& forall|i: int| 0 <= i < run.len() ==> !answers[i]
            &&& forall|i: int|
                0 <= i < run.len() ==> done <= (#[trigger] run[i]).0 < run[i].1 <= total && run[i].1 - run[i].0
                    <= LSP_SCAN_CHUNK_SIZE
            &&& run.len() > 0 ==> run[0].0 == done
            &&& forall|i: int| 0 <= i < run.len() - 1 ==> (#[trigger] run[i]).1 == run[i + 1].0
            &&& (run.len() < answers.len() && (if run.len() == 0 { done } else { run[run.len() - 1].1 }) < total)
                ==> answers[run.len() as int]
        }),
    decreases answers.len(),
{
    if answers.len() > 0 {
        if let Some((lo, hi)) = chunk_after(done, total, answers[0]) {
            law_scan_run_hands_on_the_list_in_order(hi, total, answers.drop_first());
            let rest = scan_run(hi, total, answers.drop_first());
            let run = scan_run(done, total, answers);
            assert(run == seq![(lo, hi)] + rest);
            assert forall|i: int| 0 <= i < run.len() implies !answers[i] by {
                if i > 0 {
                    assert(answers.drop_first()[i - 1] == answers[i]);
                }
            }
            assert forall|i: int|
                0 <= i < run.len() implies done <= (#[trigger] run[i]).0 < run[i].1 <= total && run[i].1 - run[i].0
                    <= LSP_SCAN_CHUNK_SIZE by {
                if i > 0 {
                    assert(run[i] == rest[i - 1]);
                }
            }
            assert forall|i: int| 0 <= i < run.len() - 1 implies (#[trigger] run[i]).1 == run[i + 1].0 by {
                assert(run[i + 1] == rest[i]);
                if i > 0 {
                    assert(run[i] == rest[i - 1]);
                }
            }
            if run.len() < answers.len() && run[run.len() - 1].1 < total {
                if rest.len() > 0 {
                    assert(run[run.len() - 1] == rest[rest.len() - 1]);
                }
                assert(answers.drop_first()[rest.len() as int] == answers[run.len() as int]);
            }
        }
    }
}


/// The files of positions `lo` to `hi` of the scan list that a chunk hands
/// on, in order: those whose step (`steps`, one per file) is not a skip.
pub open spec fn chunk_files(lo: int, hi: int, steps: Seq<ScanStep>) -> Seq<int>
    decreases hi - lo,
{
    if lo >= hi {
        seq![]
    } else if steps[lo] == ScanStep::Skip {
        chunk_files(lo + 1, hi, steps)
    } else {
        seq![lo] + chunk_files(lo + 1, hi, steps)
    }
}

/// The positions of the scan list a whole scan hands on, in the order it
/// hands them on, with `answers` and `steps` as in `scan_run`.
pub open spec fn run_files(done: int, total: int, answers: Seq<bool>, steps: Seq<ScanStep>) -> Seq<int>
    decreases answers.len(),
{
    if answers.len() == 0 {
        seq![]
    } else {
        match chunk_after(done, total, answers[0]) {
            None => seq![],
            Some((lo, hi)) => chunk_files(lo, hi, steps) + run_files(hi, total, answers.drop_first(), steps),
        }
    }
}

/// Where a whole scan stops: the end of its last chunk, or where it started
/// when it hands on no chunk.
pub open spec fn run_end(done: int, total: int, answers: Seq<bool>) -> int
    decreases answers.len(),
{
    if answers.len() == 0 {
        done
    } else {
        match chunk_after(done, total, answers[0]) {
            None => done,
            Some((lo, hi)) => run_end(hi, total, answers.drop_first()),
        }
    }
}

/// A chunk hands on exactly its files that are not skipped, in order.
proof fn lemma_chunk_files(lo: int, hi: int, steps: Seq<ScanStep>)
    ensures
        forall|i: int, j: int|
            0 <= i < j < chunk_files(lo, hi, steps).len() ==> (#[trigger] chunk_files(lo, hi, steps)[i])
                < (#[trigger] chunk_files(lo, hi, steps)[j]),
        forall|i: int|
            0 <= i < chunk_files(lo, hi, steps).len() ==> lo <= (#[trigger] chunk_files(lo, hi, steps)[i]) < hi
                && steps[chunk_files(lo, hi, steps)[i]] != ScanStep::Skip,
        forall|k: int| lo <= k < hi && steps[k] != ScanStep::Skip ==> (#[trigger] chunk_files(lo, hi, steps).contains(k)),
    decreases hi - lo,
{
    if lo < hi {
        lemma_chunk_files(lo + 1, hi, steps);
        let rest = chunk_files(lo + 1, hi, steps);
        let f = chunk_files(lo, hi, steps);
        if steps[lo] != ScanStep::Skip {
            assert(f == seq![lo] + rest);
            assert forall|i: int, j: int| 0 <= i < j < f.len() implies (#[trigger] f[i]) < (#[trigger] f[j]) by {
                assert(f[j] == rest[j - 1]);
                if i > 0 {
                    assert(f[i] == rest[i - 1]);
                }
            }
            assert forall|i: int| 0 <= i < f.len() implies lo <= (#[trigger] f[i]) < hi && steps[f[i]] != ScanStep::Skip by {
                if i > 0 {
                    assert(f[i] == rest[i - 1]);
                }
            }
            assert forall|k: int| lo <= k < hi && steps[k] != ScanStep::Skip implies (#[trigger] f.contains(k)) by {
                if k == lo {
                    assert(f[0] == lo);
                } else {
                    assert(rest.contains(k));
                    let m = choose|m: int| 0 <= m < rest.len() && rest[m] == k;
                    assert(f[m + 1] == k);
                }
            }
        }
    }
}

/// A whole scan hands on the files of the scan list that are not skipped,
/// each once and in the list's order: the positions it hands on increase
/// strictly, lie between where it started and where it stopped, and are
/// exactly the positions there whose step is not a skip. (Where it stops is
/// the end of the list unless a check answered `true`; see
/// `law_scan_run_hands_on_the_list_in_order`.)
pub proof fn law_scan_run_hands_on_files_once(done: int, total: int, answers: Seq<bool>, steps: Seq<ScanStep>)
    requires
        0 <= done <= total,
    ensures
        ({
            let f = run_files(done, total, answers, steps);
            let e = run_end(done, total, answers);
            &&& done <= e <= total
            &&& forall|i: int, j: int| 0 <= i < j < f.len() ==> (#[trigger] f[i]) < (#[trigger] f[j])
            &&& forall|i: int| 0 <= i < f.len() ==> done <= (#[trigger] f[i]) < e && steps[f[i]] != ScanStep::Skip
            &&& forall|k: int| done <= k < e && steps[k] != ScanStep::Skip ==> (#[trigger] f.contains(k))
        }),
    decreases answers.len(),
{
    if answers.len() > 0 {
        if let Some((lo, hi)) = chunk_after(done, total, answers[0]) {
            law_scan_run_hands_on_files_once(hi, total, answers.drop_first(), steps);
            lemma_chunk_files(lo, hi, steps);
            let c = chunk_files(lo, hi, steps);
            let rest = run_files(hi, total, answers.drop_first(), steps);
            let f = run_files(done, total, answers, steps);
            let e = run_end(done, total, answers);
            assert(f == c + rest);
            assert(lo == done);
            assert forall|i: int, j: int| 0 <= i < j < f.len() implies (#[trigger] f[i]) < (#[trigger] f[j]) by {
                if j < c.len() {
                    assert(f[i] == c[i] && f[j] == c[j]);
                } else if i < c.len() {
                    assert(f[i] == c[i] && f[j] == rest[j - c.len()]);
                } else {
                    assert(f[i] == rest[i - c.len()] && f[j] == rest[j - c.len()]);
                }
            }
            assert forall|i: int| 0 <= i < f.len() implies done <= (#[trigger] f[i]) < e && steps[f[i]] != ScanStep::Skip by {
                if i < c.len() {
                    assert(f[i] == c[i]);
                } else {
                    assert(f[i] == rest[i - c.len()]);
                }
            }
            assert forall|k: int| done <= k < e && steps[k] != ScanStep::Skip implies (#[trigger] f.contains(k)) by {
                if k < hi {
                    assert(c.contains(k));
                    let m = choose|m: int| 0 <= m < c.len() && c[m] == k;
                    assert(f[m] == k);
                } else {
                    assert(rest.contains(k));
                    let m = choose|m: int| 0 <= m < rest.len() && rest[m] == k;
                    assert(f[c.len() + m] == k);
                }
            }
        }
    }
}

} // verus!
