//! Workspace-level decisions: which files are analysed, which file a scan
//! benchmark targets, and how many workers and how large chunks the analysis
//! uses.

use vstd::prelude::*;
use vstd::string::*;
use vstd::utf8::*;
use crate::text::{bytes_of, find_from, find_bytes, matches_at, to_string_of};
use crate::source_support::equals_bytes;

verus! {

broadcast use vstd::seq_lib::group_seq_properties;

/// The extension of the file named by a path, as `std::path::Path::extension`
/// reads it with the path syntax of the platform the program is built for.
pub uninterp spec fn path_extension(p: Seq<char>) -> Option<Seq<char>>;

/// Whether a path starts with a base path, compared component by component
/// as `std::path::Path::starts_with` does on the platform the program is
/// built for.
pub uninterp spec fn path_starts_with(p: Seq<char>, base: Seq<char>) -> bool;

/// `Path::extension` of `p`, as text. The contract names the result and
/// says no more: which part of a path is its extension is std's path syntax.
#[verifier::external_body]
fn path_extension_of(p: &str) -> (r: Option<String>)
    ensures
        match r {
            Some(e) => path_extension(p@) == Some(e@),
            None => path_extension(p@) is None,
        },
{
    std::path::Path::new(p).extension().map(|e| e.to_string_lossy().into_owned())
}

/// `Path::starts_with` of `p` and `base`. The contract names the result and
/// says no more: how paths split into components is std's path syntax.
#[verifier::external_body]
fn path_has_base(p: &str, base: &str) -> (r: bool)
    ensures
        r == path_starts_with(p@, base@),
{
    std::path::Path::new(p).starts_with(base)
}

/// The character views of a list of strings.
pub open spec fn string_views(rs: Seq<String>) -> Seq<Seq<char>> {
    rs.map_values(|s: String| s@)
}

/// The path names a `.rb` file.
pub open spec fn has_rb_extension(file_path: Seq<char>) -> bool {
    match path_extension(file_path) {
        Some(e) => encode_utf8(e) == "rb".spec_bytes(),
        None => false,
    }
}

/// The path lies under one of the roots.
pub open spec fn under_some_root(roots: Seq<Seq<char>>, file_path: Seq<char>) -> bool {
    exists|k: int| 0 <= k < roots.len() && path_starts_with(file_path, #[trigger] roots[k])
}

/// A file the language server analyses: a `.rb` file, inside one of the
/// analysis-unit roots when the workspace configures them.
pub open spec fn target_ruby_path(roots: Option<Seq<Seq<char>>>, file_path: Seq<char>) -> bool {
    has_rb_extension(file_path) && match roots {
        None => true,
        Some(rs) => under_some_root(rs, file_path),
    }
}

/// Whether the path names a `.rb` file.
pub fn is_rb_file_path(file_path: &str) -> (r: bool)
    ensures
        r == has_rb_extension(file_path@),
{
    match path_extension_of(file_path) {
        Some(ext) => equals_bytes(ext.as_str().as_bytes(), "rb".as_bytes()),
        None => false,
    }
}

/// Whether `file_path` is a Ruby file that the server analyses, given the
/// configured analysis-unit roots.
pub fn is_target_ruby_path(analysis_unit_roots: Option<&[String]>, file_path: &str) -> (r: bool)
    ensures
        r == target_ruby_path(
            match analysis_unit_roots {
                Some(rs) => Some(string_views(rs@)),
                None => None,
            },
            file_path@,
        ),
{
    if !is_rb_file_path(file_path) {
        return false;
    }
    let roots = match analysis_unit_roots {
        Some(roots) => roots,
        None => return true,
    };
    let ghost views = string_views(roots@);
    let mut i: usize = 0;
    while i < roots.len()
        invariant
            i <= roots@.len(),
            views == string_views(roots@),
            analysis_unit_roots == Some(roots),
            forall|k: int| 0 <= k < i ==> !path_starts_with(file_path@, #[trigger] views[k]),
            has_rb_extension(file_path@),
        decreases roots@.len() - i,
    {
        if path_has_base(file_path, roots[i].as_str()) {
            proof {
                assert(views[i as int] == roots@[i as int]@);
                assert(path_starts_with(file_path@, views[i as int]));
                assert(views.len() == roots@.len());
                assert(under_some_root(views, file_path@));
            }
            return true;
        }
        proof {
            assert(views[i as int] == roots@[i as int]@);
        }
        i = i + 1;
    }
    false
}

} // verus!

verus! {

/// Byte-wise lexicographic order (the order of `String`).
pub open spec fn bytes_lt(a: Seq<u8>, b: Seq<u8>) -> bool
    decreases a.len(),
{
    if a.len() == 0 {
        b.len() > 0
    } else if b.len() == 0 {
        false
    } else if a[0] != b[0] {
        a[0] < b[0]
    } else {
        bytes_lt(a.drop_first(), b.drop_first())
    }
}

/// `bytes_lt` is transitive.
pub proof fn lemma_bytes_lt_transitive(a: Seq<u8>, b: Seq<u8>, c: Seq<u8>)
    requires
        bytes_lt(a, b),
        bytes_lt(b, c),
    ensures
        bytes_lt(a, c),
    decreases a.len(),
{
    if a.len() > 0 && b.len() > 0 && c.len() > 0 && a[0] == b[0] && b[0] == c[0] {
        lemma_bytes_lt_transitive(a.drop_first(), b.drop_first(), c.drop_first());
    }
}

/// Of two different byte strings, one is below the other.
pub proof fn lemma_bytes_lt_total(a: Seq<u8>, b: Seq<u8>)
    ensures
        a == b || bytes_lt(a, b) || bytes_lt(b, a),
    decreases a.len(),
{
    if a.len() > 0 && b.len() > 0 && a[0] == b[0] {
        lemma_bytes_lt_total(a.drop_first(), b.drop_first());
        if a.drop_first() == b.drop_first() {
            assert(a =~= seq![a[0]] + a.drop_first());
            assert(b =~= seq![b[0]] + b.drop_first());
        }
    } else if a.len() == 0 && b.len() == 0 {
        assert(a =~= b);
    }
}

/// No byte string is below itself.
pub proof fn lemma_bytes_lt_irreflexive(a: Seq<u8>)
    ensures
        !bytes_lt(a, a),
    decreases a.len(),
{
    if a.len() > 0 {
        lemma_bytes_lt_irreflexive(a.drop_first());
    }
}

/// Whether `a` is below `b` in byte-wise lexicographic order.
pub fn bytes_less(a: &[u8], b: &[u8]) -> (r: bool)
    ensures
        r == bytes_lt(a@, b@),
{
    let mut i: usize = 0;
    loop
        invariant
            i <= a@.len(),
            i <= b@.len(),
            bytes_lt(a@.skip(i as int), b@.skip(i as int)) == bytes_lt(a@, b@),
        decreases a@.len() - i,
    {
        proof {
            if i < a@.len() && i < b@.len() {
                assert(a@.skip(i as int).drop_first() =~= a@.skip(i + 1));
                assert(b@.skip(i as int).drop_first() =~= b@.skip(i + 1));
            }
        }
        if i == a.len() {
            return i < b.len();
        }
        if i == b.len() {
            return false;
        }
        if a[i] != b[i] {
            return a[i] < b[i];
        }
        i = i + 1;
    }
}

/// How much a file is preferred as the target of a scan benchmark: an
/// `app/models/account.rb` first, then other models under `app/models`,
/// then any `models` directory, then controllers, then the rest.
pub open spec fn bench_priority(t: Seq<u8>) -> int {
    let in_app_models = find_from(t, 0, t.len() as int, "/app/models/".spec_bytes()) is Some;
    let suffix_ok = |p: Seq<u8>| t.len() >= p.len() && matches_at(t, t.len() - p.len(), t.len() as int, p);
    if in_app_models && (suffix_ok("/account.rb".spec_bytes()) || suffix_ok("\\account.rb".spec_bytes())) {
        0
    } else if in_app_models {
        1
    } else if find_from(t, 0, t.len() as int, "/models/".spec_bytes()) is Some {
        2
    } else if find_from(t, 0, t.len() as int, "/app/controllers/".spec_bytes()) is Some {
        3
    } else {
        4
    }
}

/// The benchmark preference of `a` is strictly better than that of `b`:
/// lower priority, then shorter path, then lexicographically smaller.
pub open spec fn bench_better(a: Seq<u8>, b: Seq<u8>) -> bool {
    let pa = bench_priority(a);
    let pb = bench_priority(b);
    pa < pb || (pa == pb && (a.len() < b.len() || (a.len() == b.len() && bytes_lt(a, b))))
}

/// `j` is the first file with the best preference.
pub open spec fn is_bench_choice(files: Seq<String>, j: int) -> bool {
    &&& 0 <= j < files.len()
    &&& forall|k: int| 0 <= k < files.len() ==> !bench_better(bytes_of(#[trigger] files[k]), bytes_of(files[j]))
    &&& forall|k: int| 0 <= k < j ==> bench_better(bytes_of(files[j]), bytes_of(#[trigger] files[k]))
}

/// Whether `t` ends with `p`.
fn ends_with_bytes(t: &[u8], p: &[u8]) -> (r: bool)
    ensures
        r == (t@.len() >= p@.len() && matches_at(t@, t@.len() - p@.len(), t@.len() as int, p@)),
{
    if t.len() < p.len() {
        return false;
    }
    crate::text::bytes_match_at(t, t.len() - p.len(), t.len(), p)
}

/// The benchmark priority of a path.
fn bench_priority_of(t: &[u8]) -> (r: u8)
    ensures
        r as int == bench_priority(t@),
{
    let app_models = "/app/models/".as_bytes();
    let in_app_models = find_bytes(t, 0, t.len(), app_models).is_some();
    if in_app_models && (ends_with_bytes(t, "/account.rb".as_bytes()) || ends_with_bytes(t, "\\account.rb".as_bytes())) {
        0
    } else if in_app_models {
        1
    } else if find_bytes(t, 0, t.len(), "/models/".as_bytes()).is_some() {
        2
    } else if find_bytes(t, 0, t.len(), "/app/controllers/".as_bytes()).is_some() {
        3
    } else {
        4
    }
}

/// Whether path `a` is a strictly better benchmark target than `b`.
fn bench_better_than(a: &[u8], b: &[u8]) -> (r: bool)
    ensures
        r == bench_better(a@, b@),
{
    let pa = bench_priority_of(a);
    let pb = bench_priority_of(b);
    pa < pb || (pa == pb && (a.len() < b.len() || (a.len() == b.len() && bytes_less(a, b))))
}

/// The preference order is strict and total up to equal paths.
proof fn lemma_bench_order(a: Seq<u8>, b: Seq<u8>, c: Seq<u8>)
    ensures
        !bench_better(a, a),
        bench_better(a, b) && bench_better(b, c) ==> bench_better(a, c),
        bench_better(a, b) && !bench_better(c, b) ==> bench_better(a, c),
{
    lemma_bytes_lt_irreflexive(a);
    if bench_better(a, b) && bench_better(b, c) && bytes_lt(a, b) && bytes_lt(b, c) {
        lemma_bytes_lt_transitive(a, b, c);
    }
    lemma_bytes_lt_total(b, c);
    if bytes_lt(a, b) && bytes_lt(b, c) {
        lemma_bytes_lt_transitive(a, b, c);
    }
}

/// The file a scan benchmark targets: the first with the best preference.
pub fn choose_scan_benchmark_target(rb_files: &[String]) -> (r: Option<String>)
    ensures
        rb_files@.len() == 0 ==> r is None,
        rb_files@.len() > 0 ==> exists|j: int| is_bench_choice(rb_files@, j) && (r matches Some(s)
            && s@ == rb_files@[j]@),
{
    if rb_files.len() == 0 {
        return None;
    }
    let mut best: usize = 0;
    let mut i: usize = 1;
    proof {
        let b0 = bytes_of(rb_files@[0]);
        lemma_bench_order(b0, b0, b0);
        assert(rb_files@.take(1)[0] == rb_files@[0]);
    }
    while i < rb_files.len()
        invariant
            1 <= i <= rb_files@.len(),
            best < i,
            is_bench_choice(rb_files@.take(i as int), best as int),
        decreases rb_files@.len() - i,
    {
        let candidate = rb_files[i].as_str().as_bytes();
        let current = rb_files[best].as_str().as_bytes();
        let ghost t = rb_files@.take(i + 1);
        let ghost old_best = best;
        if bench_better_than(candidate, current) {
            best = i;
        }
        proof {
            assert(t =~= rb_files@.take(i as int).push(rb_files@[i as int]));
            let ci = bytes_of(rb_files@[i as int]);
            let cb = bytes_of(rb_files@[old_best as int]);
            assert forall|k: int| 0 <= k < t.len() implies !bench_better(
                bytes_of(#[trigger] t[k]),
                bytes_of(t[best as int]),
            ) by {
                let ck = bytes_of(t[k]);
                lemma_bench_order(ck, cb, ci);
                lemma_bench_order(ci, cb, ck);
                lemma_bench_order(ck, ci, cb);
                if k < i {
                    assert(t[k] == rb_files@.take(i as int)[k]);
                }
            }
            assert forall|k: int| 0 <= k < best implies bench_better(
                bytes_of(t[best as int]),
                bytes_of(#[trigger] t[k]),
            ) by {
                let ck = bytes_of(t[k]);
                assert(t[k] == rb_files@.take(i as int)[k]);
                lemma_bench_order(ci, cb, ck);
            }
        }
        i = i + 1;
    }
    proof {
        assert(rb_files@.take(rb_files@.len() as int) =~= rb_files@);
    }
    Some(rb_files[best].clone())
}

} // verus!

verus! {

/// The value of a sequence of ASCII digits.
pub open spec fn digits_value(d: Seq<u8>) -> int
    decreases d.len(),
{
    if d.len() == 0 {
        0
    } else {
        digits_value(d.drop_last()) * 10 + (d.last() - 0x30)
    }
}

proof fn lemma_digits_value_nonneg(d: Seq<u8>)
    requires
        forall|i: int| 0 <= i < d.len() ==> 0x30 <= #[trigger] d[i] <= 0x39,
    ensures
        0 <= digits_value(d),
    decreases d.len(),
{
    if d.len() > 0 {
        assert(0x30 <= d[d.len() - 1]);
        lemma_digits_value_nonneg(d.drop_last());
    }
}

/// What `usize::from_str` reads from a text: an optional `+` followed by one
/// or more ASCII digits whose value fits in `usize`.
pub open spec fn usize_text_value(s: Seq<u8>) -> Option<int> {
    let d = unsigned_digits(s);
    if d.len() > 0 && all_ascii_digits(d) && digits_value(d) <= usize::MAX {
        Some(digits_value(d))
    } else {
        None
    }
}

/// The text after an optional leading `+`.
pub open spec fn unsigned_digits(s: Seq<u8>) -> Seq<u8> {
    if s.len() > 0 && s[0] == 0x2b {
        s.skip(1)
    } else {
        s
    }
}

/// Every byte is an ASCII digit.
pub open spec fn all_ascii_digits(d: Seq<u8>) -> bool {
    forall|i: int| 0 <= i < d.len() ==> 0x30 <= #[trigger] d[i] <= 0x39
}

/// A prefix of a digit string has no larger value.
proof fn lemma_digits_value_prefix(d: Seq<u8>, k: int)
    requires
        all_ascii_digits(d),
        0 <= k <= d.len(),
    ensures
        digits_value(d.take(k)) <= digits_value(d),
    decreases d.len(),
{
    if k < d.len() {
        let dl = d.drop_last();
        assert(dl.take(k) =~= d.take(k));
        lemma_digits_value_prefix(dl, k);
        lemma_digits_value_nonneg(dl);
    } else {
        assert(d.take(k) =~= d);
    }
}

/// `usize::from_str` (what `str::parse::<usize>` calls): an optional `+`
/// followed by one or more ASCII digits whose value fits, and that value.
fn parse_usize(s: &str) -> (r: Option<usize>)
    ensures
        match usize_text_value(s.spec_bytes()) {
            Some(v) => r == Some(v as usize),
            None => r is None,
        },
{
    let b = s.as_bytes();
    let start: usize = if b.len() > 0 && b[0] == 0x2b { 1 } else { 0 };
    let ghost d = unsigned_digits(b@);
    proof {
        assert(b@ == s.spec_bytes());
        if start == 1 {
            assert(d == b@.skip(1));
        } else {
            assert(d == b@);
            assert(b@.skip(0) =~= b@);
        }
    }
    if start == b.len() {
        return None;
    }
    let mut acc: usize = 0;
    let mut i: usize = start;
    proof {
        assert(d.take(0) =~= Seq::<u8>::empty());
    }
    while i < b.len()
        invariant
            start <= i <= b@.len(),
            start < b@.len(),
            b@ == s.spec_bytes(),
            d == unsigned_digits(b@),
            d == b@.skip(start as int),
            all_ascii_digits(d.take(i - start)),
            acc == digits_value(d.take(i - start)),
        decreases b@.len() - i,
    {
        let x = b[i];
        let k: usize = i - start;
        proof {
            assert(d[k as int] == x);
        }
        if x < 0x30 || x > 0x39 {
            proof {
                assert(!all_ascii_digits(d));
                assert(usize_text_value(s.spec_bytes()) is None);
            }
            return None;
        }
        let digit = (x - 0x30) as usize;
        proof {
            assert(d.take(k + 1).drop_last() =~= d.take(k as int));
            assert(d.take(k + 1).last() == x);
            assert(digits_value(d.take(k + 1)) == acc * 10 + digit);
            assert(all_ascii_digits(d.take(k + 1)));
        }
        if acc > (usize::MAX - digit) / 10 {
            proof {
                assert(acc * 10 + digit > usize::MAX) by (nonlinear_arith)
                    requires
                        acc > (usize::MAX - digit) / 10,
                        digit <= 9,
                ;
                if all_ascii_digits(d) {
                    lemma_digits_value_prefix(d, k + 1);
                }
                assert(usize_text_value(s.spec_bytes()) is None);
            }
            return None;
        }
        proof {
            assert(acc * 10 + digit <= usize::MAX) by (nonlinear_arith)
                requires
                    acc <= (usize::MAX - digit) / 10,
                    digit <= 9,
            ;
        }
        acc = acc * 10 + digit;
        i = i + 1;
    }
    proof {
        assert(d.take(i - start) =~= d);
    }
    Some(acc)
}

/// The number of analysis workers: a positive override wins; otherwise the
/// performance cores less one when they are known, else the logical cores
/// (4 when unknown, at least 1) less two, and never fewer than 2.
pub open spec fn thread_count(available: Option<usize>, performance_cores: Option<usize>, override_value: Option<int>) -> int {
    let logical: int = match available {
        Some(n) => if n >= 1 {
            n as int
        } else {
            1
        },
        None => 4,
    };
    let base: int = match performance_cores {
        Some(p) => if p >= 1 {
            p - 1
        } else {
            0
        },
        None => if logical >= 2 {
            logical - 2
        } else {
            0
        },
    };
    let auto: int = if base >= 2 {
        base
    } else {
        2
    };
    match override_value {
        Some(v) => if v > 0 {
            v
        } else {
            auto
        },
        None => auto,
    }
}

/// The worker count of the analysis pool, from the available parallelism,
/// the performance-core count and the text of an override setting.
pub fn analysis_thread_count(available: Option<usize>, performance_cores: Option<usize>, override_text: Option<&str>) -> (r: usize)
    ensures
        r as int == thread_count(
            available,
            performance_cores,
            match override_text {
                Some(t) => usize_text_value(t.spec_bytes()),
                None => None,
            },
        ),
{
    let logical = match available {
        Some(n) => if n >= 1 {
            n
        } else {
            1
        },
        None => 4,
    };
    let base = match performance_cores {
        Some(p) => p.saturating_sub(1),
        None => logical.saturating_sub(2),
    };
    let auto = if base >= 2 {
        base
    } else {
        2
    };
    if let Some(text) = override_text {
        proof {
            let d = unsigned_digits(text.spec_bytes());
            if all_ascii_digits(d) {
                lemma_digits_value_nonneg(d);
            }
        }
        if let Some(v) = parse_usize(text) {
            if v > 0 {
                return v;
            }
        }
    }
    auto
}

/// Files per chunk of the skeleton scan: sixteen per worker, between 64 and
/// 256.
pub fn skeleton_scan_chunk_size(analysis_threads: usize) -> (r: usize)
    ensures
        r as int == if analysis_threads * 16 < 64 {
            64
        } else if analysis_threads * 16 > 256 {
            256
        } else {
            analysis_threads * 16
        },
{
    let per_thread = if analysis_threads > usize::MAX / 16 {
        usize::MAX
    } else {
        analysis_threads * 16
    };
    if per_thread < 64 {
        64
    } else if per_thread > 256 {
        256
    } else {
        per_thread
    }
}

/// What a watched file that changed on disk is.
#[derive(Clone, Copy, Debug, PartialEq, Eq, Structural)]
pub enum WatchedFileKind {
    /// An RBS or RBI type file, reloaded into the type environment.
    TypeFile,
    /// A Ruby source file, rescanned.
    RubySource,
    /// Anything else, ignored.
    Other,
}

/// `b` ends with `suffix`.
pub open spec fn has_suffix(b: Seq<u8>, suffix: Seq<u8>) -> bool {
    b.len() >= suffix.len() && matches_at(b, b.len() - suffix.len(), b.len() as int, suffix)
}

/// `.rbs`
pub open spec fn sfx_rbs() -> Seq<u8> {
    seq![0x2eu8, 0x72u8, 0x62u8, 0x73u8]
}

/// `.rbi`
pub open spec fn sfx_rbi() -> Seq<u8> {
    seq![0x2eu8, 0x72u8, 0x62u8, 0x69u8]
}

/// `.rb`
pub open spec fn sfx_rb() -> Seq<u8> {
    seq![0x2eu8, 0x72u8, 0x62u8]
}

/// The kind of a watched file by the suffix of its URI path: `.rbs` and
/// `.rbi` are type files, `.rb` is Ruby source.
pub open spec fn watched_kind(path: Seq<u8>) -> WatchedFileKind {
    if has_suffix(path, sfx_rbs()) || has_suffix(path, sfx_rbi()) {
        WatchedFileKind::TypeFile
    } else if has_suffix(path, sfx_rb()) {
        WatchedFileKind::RubySource
    } else {
        WatchedFileKind::Other
    }
}

/// What a watched file whose URI path is `uri_path` is.
pub fn watched_file_kind(uri_path: &str) -> (r: WatchedFileKind)
    ensures
        r == watched_kind(uri_path.spec_bytes()),
{
    let b = uri_path.as_bytes();
    let rbs: [u8; 4] = [0x2e, 0x72, 0x62, 0x73];
    let rbi: [u8; 4] = [0x2e, 0x72, 0x62, 0x69];
    let rb: [u8; 3] = [0x2e, 0x72, 0x62];
    proof {
        assert(rbs@ =~= sfx_rbs());
        assert(rbi@ =~= sfx_rbi());
        assert(rb@ =~= sfx_rb());
    }
    if ends_with_bytes(b, rbs.as_slice()) || ends_with_bytes(b, rbi.as_slice()) {
        WatchedFileKind::TypeFile
    } else if ends_with_bytes(b, rb.as_slice()) {
        WatchedFileKind::RubySource
    } else {
        WatchedFileKind::Other
    }
}

/// File `k` may be probed for display timing: a model under `app/models`
/// whose display needs the workspace (`needs_workspace[k]`).
pub open spec fn probe_candidate(paths: Seq<String>, needs_workspace: Seq<bool>, k: int) -> bool {
    &&& 0 <= k < paths.len()
    &&& find_from(bytes_of(paths[k]), 0, bytes_of(paths[k]).len() as int, "/app/models/".spec_bytes()) is Some
    &&& needs_workspace[k]
}

/// `a` is at most `b` in byte-wise order.
pub open spec fn bytes_le(a: Seq<u8>, b: Seq<u8>) -> bool {
    a == b || bytes_lt(a, b)
}

/// Files `i` and `j` are the first two of the candidates among the first
/// `n` files in sorted order: `i` is a smallest, `j` a smallest of the rest.
pub open spec fn probe_pair(paths: Seq<String>, needs_workspace: Seq<bool>, i: int, j: int, n: int) -> bool {
    &&& i != j
    &&& i < n && j < n
    &&& probe_candidate(paths, needs_workspace, i)
    &&& probe_candidate(paths, needs_workspace, j)
    &&& forall|k: int|
        0 <= k < n && k != i && #[trigger] probe_candidate(paths, needs_workspace, k) ==> bytes_le(
            bytes_of(paths[i]),
            bytes_of(paths[k]),
        )
    &&& forall|k: int|
        0 <= k < n && k != i && k != j && #[trigger] probe_candidate(paths, needs_workspace, k)
            ==> bytes_le(bytes_of(paths[j]), bytes_of(paths[k]))
}

/// Two files to probe display timing on: the first two, in sorted order,
/// of the models under `app/models` whose display needs the workspace;
/// `None` when there are fewer than two.
pub fn choose_display_probe_files(rb_files: &[String], needs_workspace: &[bool]) -> (r: Option<(String, String)>)
    requires
        needs_workspace@.len() == rb_files@.len(),
    ensures
        r is None <==> !(exists|i: int, j: int|
            i != j && probe_candidate(rb_files@, needs_workspace@, i) && probe_candidate(
                rb_files@,
                needs_workspace@,
                j,
            )),
        r matches Some((a, b)) ==> exists|i: int, j: int|
            probe_pair(rb_files@, needs_workspace@, i, j, rb_files@.len() as int) && bytes_of(a)
                == bytes_of(rb_files@[i]) && bytes_of(b) == bytes_of(rb_files@[j]),
{
    let ghost ps = rb_files@;
    let ghost nw = needs_workspace@;
    let app_models = "/app/models/".as_bytes();
    let mut first: Option<usize> = None;
    let mut second: Option<usize> = None;
    let mut i: usize = 0;
    while i < rb_files.len()
        invariant
            ps == rb_files@,
            nw == needs_workspace@,
            nw.len() == ps.len(),
            app_models@ == "/app/models/".spec_bytes(),
            i <= ps.len(),
            first is None ==> second is None && forall|k: int|
                0 <= k < i ==> !#[trigger] probe_candidate(ps, nw, k),
            first matches Some(f) ==> f < i && probe_candidate(ps, nw, f as int),
            first matches Some(f) ==> (second is None ==> forall|k: int|
                0 <= k < i && #[trigger] probe_candidate(ps, nw, k) ==> k == f),
            (first, second) matches (Some(f), Some(g)) ==> probe_pair(ps, nw, f as int, g as int, i as int),
        decreases ps.len() - i,
    {
        let t = rb_files[i].as_str().as_bytes();
        let is_candidate = find_bytes(t, 0, t.len(), app_models).is_some() && needs_workspace[i];
        proof {
            assert(t@ == bytes_of(ps[i as int]));
            assert(is_candidate == probe_candidate(ps, nw, i as int));
        }
        if is_candidate {
            match (first, second) {
                (None, _) => {
                    first = Some(i);
                },
                (Some(f), None) => {
                    let tf = rb_files[f].as_str().as_bytes();
                    proof {
                        lemma_bytes_lt_total(t@, tf@);
                    }
                    if bytes_less(t, tf) {
                        first = Some(i);
                        second = Some(f);
                    } else {
                        second = Some(i);
                    }
                },
                (Some(f), Some(g)) => {
                    let tf = rb_files[f].as_str().as_bytes();
                    let tg = rb_files[g].as_str().as_bytes();
                    proof {
                        lemma_bytes_lt_total(t@, tf@);
                        lemma_bytes_lt_total(t@, tg@);
                        lemma_bytes_lt_total(tf@, tg@);
                        assert forall|k: int|
                            0 <= k < i && #[trigger] probe_candidate(ps, nw, k) implies (k == f || bytes_le(
                                tf@,
                                bytes_of(ps[k]),
                            )) && (k == f || k == g || bytes_le(tg@, bytes_of(ps[k]))) by {}
                        assert forall|k: int|
                            0 <= k < i && #[trigger] probe_candidate(ps, nw, k) && k != f && k != g
                                implies bytes_le(tf@, bytes_of(ps[k])) by {
                            if bytes_lt(tg@, bytes_of(ps[k])) && bytes_lt(tf@, tg@) {
                                lemma_bytes_lt_transitive(tf@, tg@, bytes_of(ps[k]));
                            }
                        }
                    }
                    if bytes_less(t, tf) {
                        proof {
                            assert forall|k: int|
                                0 <= k < i + 1 && k != i && #[trigger] probe_candidate(ps, nw, k)
                                    implies bytes_le(t@, bytes_of(ps[k])) by {
                                if k != f && bytes_lt(tf@, bytes_of(ps[k])) {
                                    lemma_bytes_lt_transitive(t@, tf@, bytes_of(ps[k]));
                                }
                            }
                        }
                        first = Some(i);
                        second = Some(f);
                    } else if bytes_less(t, tg) {
                        proof {
                            assert forall|k: int|
                                0 <= k < i + 1 && k != f && k != i && #[trigger] probe_candidate(ps, nw, k)
                                    implies bytes_le(t@, bytes_of(ps[k])) by {
                                if k != g && bytes_lt(tg@, bytes_of(ps[k])) {
                                    lemma_bytes_lt_transitive(t@, tg@, bytes_of(ps[k]));
                                }
                            }
                        }
                        second = Some(i);
                    }
                },
            }
        }
        i = i + 1;
    }
    match (first, second) {
        (Some(f), Some(g)) => {
            proof {
                assert(probe_pair(ps, nw, f as int, g as int, ps.len() as int));
            }
            Some((to_string_of(rb_files[f].as_str()), to_string_of(rb_files[g].as_str())))
        },
        _ => None,
    }
}

} // verus!
