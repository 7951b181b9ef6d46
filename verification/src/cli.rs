//! Decisions of the command-line run: whether a progress line is drawn, and
//! the order in which a file's diagnostics are written as JSON Lines.

use vstd::prelude::*;
use vstd::string::*;
use crate::text::bytes_of;
use crate::workspace::{
    bytes_less, bytes_lt, lemma_bytes_lt_irreflexive, lemma_bytes_lt_total, lemma_bytes_lt_transitive,
};

verus! {

/// Whether the run draws a progress line: only on a terminal, with files to
/// analyse, and when neither debug nor verbose output already writes per
/// file.
pub fn should_show_progress(is_tty: bool, total_files: usize, debug: bool, verbose: bool) -> (r: bool)
    ensures
        r == (is_tty && total_files > 0 && !debug && !verbose),
{
    is_tty && total_files > 0 && !debug && !verbose
}

/// The width of the progress bar, in cells.
pub const PROGRESS_BAR_WIDTH: usize = 50;

/// The progress line for `done` of `total` files: the percentage and the
/// filled and empty cells of the bar (an empty run counts as one file).
pub fn progress_bar(done: usize, total: usize) -> (r: (usize, usize, usize))
    requires
        done <= total,
        total * 100 <= usize::MAX,
    ensures
        ({
            let t = if total == 0 { 1 } else { total as int };
            &&& r.0 == done * 100 / t
            &&& r.1 == done * PROGRESS_BAR_WIDTH / t
            &&& r.1 + r.2 == PROGRESS_BAR_WIDTH
        }),
{
    let t = if total == 0 { 1 } else { total };
    proof {
        assert(done * 100 <= total * 100) by (nonlinear_arith)
            requires
                done <= total,
        ;
        assert(done * PROGRESS_BAR_WIDTH <= t * PROGRESS_BAR_WIDTH) by (nonlinear_arith)
            requires
                done <= t,
        ;
        assert((done * PROGRESS_BAR_WIDTH) / (t as int) <= PROGRESS_BAR_WIDTH) by (nonlinear_arith)
            requires
                done * PROGRESS_BAR_WIDTH <= t * PROGRESS_BAR_WIDTH,
                t > 0,
        ;
    }
    let pct = done * 100 / t;
    let filled = done * PROGRESS_BAR_WIDTH / t;
    (pct, filled, PROGRESS_BAR_WIDTH - filled)
}

/// How many files the diagnostics run hands to the workers at once.
pub const DIAGNOSTIC_CHUNK_SIZE: usize = 16;

/// How many files apart the diagnostics run logs a heartbeat line.
pub const DIAGNOSTIC_HEARTBEAT_EVERY: usize = 256;

/// Whether the diagnostics run logs a heartbeat after `done` of `total`
/// files: only when stderr is no terminal (`log_heartbeat`), after the last
/// file, and after the chunk that crosses each multiple of
/// `DIAGNOSTIC_HEARTBEAT_EVERY`.
pub fn diagnostics_heartbeat_due(log_heartbeat: bool, done: usize, total: usize) -> (r: bool)
    ensures
        r == (log_heartbeat && (done == total || done % DIAGNOSTIC_HEARTBEAT_EVERY < DIAGNOSTIC_CHUNK_SIZE)),
{
    log_heartbeat && (done == total || done % DIAGNOSTIC_HEARTBEAT_EVERY < DIAGNOSTIC_CHUNK_SIZE)
}

/// What orders a diagnostic in the JSON Lines output: its start and end
/// position, then its code and message.
pub struct DiagnosticSortKey<'a> {
    pub line: u64,
    pub column: u64,
    pub end_line: u64,
    pub end_column: u64,
    pub code: &'a str,
    pub message: &'a str,
}

/// Lexicographic order on (line, column, end line, end column, code,
/// message), the texts compared byte by byte as `str` orders them.
pub open spec fn precedes(a: DiagnosticSortKey, b: DiagnosticSortKey) -> bool {
    if a.line != b.line {
        a.line < b.line
    } else if a.column != b.column {
        a.column < b.column
    } else if a.end_line != b.end_line {
        a.end_line < b.end_line
    } else if a.end_column != b.end_column {
        a.end_column < b.end_column
    } else if a.code@ != b.code@ {
        bytes_lt(a.code.spec_bytes(), b.code.spec_bytes())
    } else {
        bytes_lt(a.message.spec_bytes(), b.message.spec_bytes())
    }
}

/// Whether diagnostic `a` is written before diagnostic `b`: position order
/// (not grouped by category) keeps the output comparable between runs.
pub fn diagnostic_precedes(a: &DiagnosticSortKey, b: &DiagnosticSortKey) -> (r: bool)
    ensures
        r == precedes(*a, *b),
{
    if a.line != b.line {
        a.line < b.line
    } else if a.column != b.column {
        a.column < b.column
    } else if a.end_line != b.end_line {
        a.end_line < b.end_line
    } else if a.end_column != b.end_column {
        a.end_column < b.end_column
    } else {
        let code_a = a.code.as_bytes();
        let code_b = b.code.as_bytes();
        let same_code = crate::source_support::equals_bytes(code_a, code_b);
        proof {
            vstd::utf8::encode_utf8_decode_utf8(a.code@);
            vstd::utf8::encode_utf8_decode_utf8(b.code@);
        }
        if !same_code {
            bytes_less(code_a, code_b)
        } else {
            bytes_less(a.message.as_bytes(), b.message.as_bytes())
        }
    }
}

/// The same keys: equal positions and the same code and message text.
pub open spec fn same_key(a: DiagnosticSortKey, b: DiagnosticSortKey) -> bool {
    a.line == b.line && a.column == b.column && a.end_line == b.end_line && a.end_column == b.end_column
        && a.code@ == b.code@ && a.message@ == b.message@
}

/// The diagnostic order is a strict total order on keys, so sorting by it
/// writes every file's diagnostics in one order, whatever order the
/// analysis found them in: no key precedes itself, of two keys at most one
/// precedes the other, precedence chains, and of two different keys one
/// precedes the other.
pub proof fn law_diagnostic_order_is_total(a: DiagnosticSortKey, b: DiagnosticSortKey, c: DiagnosticSortKey)
    ensures
        !precedes(a, a),
        precedes(a, b) ==> !precedes(b, a),
        precedes(a, b) && precedes(b, c) ==> precedes(a, c),
        !same_key(a, b) ==> precedes(a, b) || precedes(b, a),
{
    lemma_bytes_lt_irreflexive(a.code.spec_bytes());
    lemma_bytes_lt_irreflexive(a.message.spec_bytes());
    lemma_bytes_lt_total(a.code.spec_bytes(), b.code.spec_bytes());
    lemma_bytes_lt_total(a.message.spec_bytes(), b.message.spec_bytes());
    vstd::utf8::encode_utf8_decode_utf8(a.code@);
    vstd::utf8::encode_utf8_decode_utf8(b.code@);
    vstd::utf8::encode_utf8_decode_utf8(a.message@);
    vstd::utf8::encode_utf8_decode_utf8(b.message@);
    if bytes_lt(a.code.spec_bytes(), b.code.spec_bytes()) && bytes_lt(b.code.spec_bytes(), a.code.spec_bytes()) {
        lemma_bytes_lt_transitive(a.code.spec_bytes(), b.code.spec_bytes(), a.code.spec_bytes());
    }
    if bytes_lt(a.message.spec_bytes(), b.message.spec_bytes()) && bytes_lt(
        b.message.spec_bytes(),
        a.message.spec_bytes(),
    ) {
        lemma_bytes_lt_transitive(a.message.spec_bytes(), b.message.spec_bytes(), a.message.spec_bytes());
    }
    if precedes(a, b) && precedes(b, c) {
        if bytes_lt(a.code.spec_bytes(), b.code.spec_bytes()) && bytes_lt(
            b.code.spec_bytes(),
            c.code.spec_bytes(),
        ) {
            lemma_bytes_lt_transitive(a.code.spec_bytes(), b.code.spec_bytes(), c.code.spec_bytes());
        }
        if bytes_lt(a.message.spec_bytes(), b.message.spec_bytes()) && bytes_lt(
            b.message.spec_bytes(),
            c.message.spec_bytes(),
        ) {
            lemma_bytes_lt_transitive(a.message.spec_bytes(), b.message.spec_bytes(), c.message.spec_bytes());
        }
        vstd::utf8::encode_utf8_decode_utf8(c.code@);
    }
}

/// Entry `i` ranks ahead of entry `j`: a higher count, then the smaller
/// name in byte order, then (for equal entries) the earlier position.
pub open spec fn ranks_ahead(entries: Seq<(String, usize)>, i: int, j: int) -> bool {
    if entries[i].1 != entries[j].1 {
        entries[i].1 > entries[j].1
    } else if entries[i].0@ != entries[j].0@ {
        bytes_lt(bytes_of(entries[i].0), bytes_of(entries[j].0))
    } else {
        i < j
    }
}

/// `ranks_ahead` orders the positions of a list strictly and totally.
proof fn lemma_ranks_ahead_order(entries: Seq<(String, usize)>, i: int, j: int, k: int)
    ensures
        !ranks_ahead(entries, i, i),
        ranks_ahead(entries, i, j) ==> !ranks_ahead(entries, j, i),
        i != j ==> ranks_ahead(entries, i, j) || ranks_ahead(entries, j, i),
        ranks_ahead(entries, i, j) && ranks_ahead(entries, j, k) ==> ranks_ahead(entries, i, k),
{
    let (bi, bj, bk) = (bytes_of(entries[i].0), bytes_of(entries[j].0), bytes_of(entries[k].0));
    vstd::utf8::encode_utf8_decode_utf8(entries[i].0@);
    vstd::utf8::encode_utf8_decode_utf8(entries[j].0@);
    vstd::utf8::encode_utf8_decode_utf8(entries[k].0@);
    lemma_bytes_lt_irreflexive(bi);
    lemma_bytes_lt_total(bi, bj);
    if bytes_lt(bi, bj) && bytes_lt(bj, bi) {
        lemma_bytes_lt_transitive(bi, bj, bi);
    }
    if bytes_lt(bi, bj) && bytes_lt(bj, bk) {
        lemma_bytes_lt_transitive(bi, bj, bk);
    }
    if bytes_lt(bi, bj) && bytes_lt(bj, bi) {
        lemma_bytes_lt_transitive(bi, bj, bi);
    }
    if bytes_lt(bj, bk) && bytes_lt(bk, bi) {
        lemma_bytes_lt_transitive(bj, bk, bi);
    }
}

/// The positions of the `limit` entries that rank highest (higher counts
/// first, names in byte order among equal counts), in rank order: the hole
/// heat map and the unresolved-target ranking of the debug report.
pub fn rank_by_count(entries: &[(String, usize)], limit: usize) -> (r: Vec<usize>)
    ensures
        r@.len() == if limit < entries@.len() { limit as int } else { entries@.len() as int },
        forall|i: int| 0 <= i < r@.len() ==> #[trigger] r@[i] < entries@.len(),
        forall|i: int, j: int| 0 <= i < j < r@.len() ==> ranks_ahead(entries@, #[trigger] r@[i] as int, #[trigger] r@[j] as int),
        forall|k: int, i: int|
            0 <= k < entries@.len() && 0 <= i < r@.len() && !r@.contains(k as usize) ==> #[trigger] ranks_ahead(
                entries@,
                r@[i] as int,
                k,
            ),
{
    let n = entries.len();
    let want = if limit < n { limit } else { n };
    let mut remaining: Vec<usize> = Vec::new();
    let mut t: usize = 0;
    while t < n
        invariant
            t <= n == entries@.len(),
            remaining@ == Seq::new(t as nat, |q: int| q as usize),
        decreases n - t,
    {
        remaining.push(t);
        proof {
            assert(remaining@ =~= Seq::new((t + 1) as nat, |q: int| q as usize));
        }
        t = t + 1;
    }
    let mut r: Vec<usize> = Vec::new();
    proof {
        assert forall|q: usize| q < n implies #[trigger] remaining@.contains(q) by {
            assert(remaining@[q as int] == q);
        }
    }
    while r.len() < want
        invariant
            want <= n == entries@.len(),
            remaining@.len() + r@.len() == n,
            r@.len() <= want,
            forall|i: int, j: int| 0 <= i < j < remaining@.len() ==> #[trigger] remaining@[i] != #[trigger] remaining@[j],
            forall|i: int| 0 <= i < remaining@.len() ==> #[trigger] remaining@[i] < n,
            forall|i: int| 0 <= i < r@.len() ==> #[trigger] r@[i] < n,
            forall|q: usize| q < n ==> #[trigger] remaining@.contains(q) || #[trigger] r@.contains(q),
            forall|i: int, j: int| 0 <= i < j < r@.len() ==> ranks_ahead(entries@, #[trigger] r@[i] as int, #[trigger] r@[j] as int),
            forall|i: int, p: int|
                0 <= i < r@.len() && 0 <= p < remaining@.len() ==> #[trigger] ranks_ahead(
                    entries@,
                    r@[i] as int,
                    remaining@[p] as int,
                ),
        decreases want - r@.len(),
    {
        let mut best_pos: usize = 0;
        let mut p: usize = 1;
        while p < remaining.len()
            invariant
                1 <= p <= remaining@.len(),
                best_pos < p,
                n == entries@.len(),
                forall|i: int| 0 <= i < remaining@.len() ==> #[trigger] remaining@[i] < n,
                forall|i: int, j: int| 0 <= i < j < remaining@.len() ==> #[trigger] remaining@[i] != #[trigger] remaining@[j],
                forall|q: int|
                    0 <= q < p && q != best_pos ==> #[trigger] ranks_ahead(
                        entries@,
                        remaining@[best_pos as int] as int,
                        remaining@[q] as int,
                    ),
            decreases remaining@.len() - p,
        {
            let k = remaining[p];
            let b = remaining[best_pos];
            let (ref name_k, count_k) = entries[k];
            let (ref name_b, count_b) = entries[b];
            let ahead = if count_k != count_b {
                count_k > count_b
            } else {
                let same = crate::source_support::equals_bytes(name_k.as_str().as_bytes(), name_b.as_str().as_bytes());
                proof {
                    vstd::utf8::encode_utf8_decode_utf8(entries@[k as int].0@);
                    vstd::utf8::encode_utf8_decode_utf8(entries@[b as int].0@);
                }
                if !same {
                    bytes_less(name_k.as_str().as_bytes(), name_b.as_str().as_bytes())
                } else {
                    k < b
                }
            };
            proof {
                assert(ahead == ranks_ahead(entries@, k as int, b as int));
                assert(k != b);
                lemma_ranks_ahead_order(entries@, k as int, b as int, b as int);
                if ahead {
                    assert forall|q: int| 0 <= q < p + 1 && q != p implies #[trigger] ranks_ahead(
                        entries@,
                        remaining@[p as int] as int,
                        remaining@[q] as int,
                    ) by {
                        if q != best_pos {
                            lemma_ranks_ahead_order(entries@, k as int, b as int, remaining@[q] as int);
                        }
                    }
                }
            }
            if ahead {
                best_pos = p;
            }
            p = p + 1;
        }
        let ghost old_rem = remaining@;
        let ghost old_r = r@;
        let best = remaining.remove(best_pos);
        r.push(best);
        proof {
            assert(remaining@ == old_rem.remove(best_pos as int));
            assert forall|i: int| 0 <= i < remaining@.len() implies #[trigger] remaining@[i] == if i < best_pos {
                old_rem[i]
            } else {
                old_rem[i + 1]
            } by {}
            assert forall|q: usize| q < n implies #[trigger] remaining@.contains(q) || #[trigger] r@.contains(q) by {
                if old_rem.contains(q) {
                    let m = choose|m: int| 0 <= m < old_rem.len() && old_rem[m] == q;
                    if m < best_pos {
                        assert(remaining@[m] == q);
                    } else if m > best_pos {
                        assert(remaining@[m - 1] == q);
                    } else {
                        assert(r@[r@.len() - 1] == q);
                    }
                } else {
                    assert(old_r.contains(q));
                    let m = choose|m: int| 0 <= m < old_r.len() && old_r[m] == q;
                    assert(r@[m] == q);
                }
            }
            assert forall|i: int, j: int| 0 <= i < j < r@.len() implies ranks_ahead(entries@, #[trigger] r@[i] as int, #[trigger] r@[j] as int) by {
                assert(r@[i] == old_r[i]);
                if j < old_r.len() {
                    assert(r@[j] == old_r[j]);
                } else {
                    assert(ranks_ahead(entries@, old_r[i] as int, old_rem[best_pos as int] as int));
                }
            }
            assert forall|i: int, q: int|
                0 <= i < r@.len() && 0 <= q < remaining@.len() implies #[trigger] ranks_ahead(
                    entries@,
                    r@[i] as int,
                    remaining@[q] as int,
                ) by {
                let oq = if q < best_pos { q } else { q + 1 };
                assert(remaining@[q] == old_rem[oq]);
                if i < old_r.len() {
                    assert(r@[i] == old_r[i]);
                } else {
                    assert(oq != best_pos);
                }
            }
        }
    }
    proof {
        assert forall|q: int, i: int|
            0 <= q < entries@.len() && 0 <= i < r@.len() && !r@.contains(q as usize) implies #[trigger] ranks_ahead(
                entries@,
                r@[i] as int,
                q,
            ) by {
            assert(remaining@.contains(q as usize) || r@.contains(q as usize));
            let m = choose|m: int| 0 <= m < remaining@.len() && remaining@[m] == q as usize;
            assert(ranks_ahead(entries@, r@[i] as int, remaining@[m] as int));
        }
    }
    r
}

/// Diagnostic `i` is written before diagnostic `j`: it precedes it, or the
/// two have the same key and `i` came first (a stable sort).
pub open spec fn diag_ahead(keys: Seq<DiagnosticSortKey>, i: int, j: int) -> bool {
    precedes(keys[i], keys[j]) || (!precedes(keys[j], keys[i]) && i < j)
}

/// `diag_ahead` orders the positions of a list strictly and totally.
proof fn lemma_diag_ahead_order(keys: Seq<DiagnosticSortKey>, i: int, j: int, k: int)
    ensures
        !diag_ahead(keys, i, i),
        diag_ahead(keys, i, j) ==> !diag_ahead(keys, j, i),
        i != j ==> diag_ahead(keys, i, j) || diag_ahead(keys, j, i),
        diag_ahead(keys, i, j) && diag_ahead(keys, j, k) ==> diag_ahead(keys, i, k),
{
    law_diagnostic_order_is_total(keys[i], keys[j], keys[k]);
    law_diagnostic_order_is_total(keys[j], keys[k], keys[i]);
    law_diagnostic_order_is_total(keys[k], keys[i], keys[j]);
    law_diagnostic_order_is_total(keys[i], keys[k], keys[j]);
    law_diagnostic_order_is_total(keys[j], keys[i], keys[k]);
    law_diagnostic_order_is_total(keys[k], keys[j], keys[i]);
}

/// The order in which a file's diagnostics are written as JSON Lines: a
/// permutation of their positions, sorted by `diagnostic_precedes` (line,
/// column, end line, end column, code, message), diagnostics with equal keys
/// in the order they came.
pub fn diagnostic_order(keys: &[DiagnosticSortKey]) -> (r: Vec<usize>)
    ensures
        r@.len() == keys@.len(),
        forall|i: int| 0 <= i < r@.len() ==> #[trigger] r@[i] < keys@.len(),
        forall|q: usize| q < keys@.len() ==> #[trigger] r@.contains(q),
        forall|i: int, j: int| 0 <= i < j < r@.len() ==> diag_ahead(keys@, #[trigger] r@[i] as int, #[trigger] r@[j] as int),
        forall|i: int, j: int|
            0 <= i < j < r@.len() ==> !precedes(keys@[#[trigger] r@[j] as int], keys@[#[trigger] r@[i] as int]),
{
    let n = keys.len();
    let want = n;
    let mut remaining: Vec<usize> = Vec::new();
    let mut t: usize = 0;
    while t < n
        invariant
            t <= n == keys@.len(),
            remaining@ == Seq::new(t as nat, |q: int| q as usize),
        decreases n - t,
    {
        remaining.push(t);
        proof {
            assert(remaining@ =~= Seq::new((t + 1) as nat, |q: int| q as usize));
        }
        t = t + 1;
    }
    let mut r: Vec<usize> = Vec::new();
    proof {
        assert forall|q: usize| q < n implies #[trigger] remaining@.contains(q) by {
            assert(remaining@[q as int] == q);
        }
    }
    while r.len() < want
        invariant
            want <= n == keys@.len(),
            remaining@.len() + r@.len() == n,
            r@.len() <= want,
            forall|i: int, j: int| 0 <= i < j < remaining@.len() ==> #[trigger] remaining@[i] != #[trigger] remaining@[j],
            forall|i: int| 0 <= i < remaining@.len() ==> #[trigger] remaining@[i] < n,
            forall|i: int| 0 <= i < r@.len() ==> #[trigger] r@[i] < n,
            forall|q: usize| q < n ==> #[trigger] remaining@.contains(q) || #[trigger] r@.contains(q),
            forall|i: int, j: int| 0 <= i < j < r@.len() ==> diag_ahead(keys@, #[trigger] r@[i] as int, #[trigger] r@[j] as int),
            forall|i: int, p: int|
                0 <= i < r@.len() && 0 <= p < remaining@.len() ==> #[trigger] diag_ahead(
                    keys@,
                    r@[i] as int,
                    remaining@[p] as int,
                ),
        decreases want - r@.len(),
    {
        let mut best_pos: usize = 0;
        let mut p: usize = 1;
        while p < remaining.len()
            invariant
                1 <= p <= remaining@.len(),
                best_pos < p,
                n == keys@.len(),
                forall|i: int| 0 <= i < remaining@.len() ==> #[trigger] remaining@[i] < n,
                forall|i: int, j: int| 0 <= i < j < remaining@.len() ==> #[trigger] remaining@[i] != #[trigger] remaining@[j],
                forall|q: int|
                    0 <= q < p && q != best_pos ==> #[trigger] diag_ahead(
                        keys@,
                        remaining@[best_pos as int] as int,
                        remaining@[q] as int,
                    ),
            decreases remaining@.len() - p,
        {
            let k = remaining[p];
            let b = remaining[best_pos];
            let ahead = diagnostic_precedes(&keys[k], &keys[b]) || (!diagnostic_precedes(&keys[b], &keys[k]) && k < b);
            proof {
                assert(ahead == diag_ahead(keys@, k as int, b as int));
                assert(k != b);
                lemma_diag_ahead_order(keys@, k as int, b as int, b as int);
                if ahead {
                    assert forall|q: int| 0 <= q < p + 1 && q != p implies #[trigger] diag_ahead(
                        keys@,
                        remaining@[p as int] as int,
                        remaining@[q] as int,
                    ) by {
                        if q != best_pos {
                            lemma_diag_ahead_order(keys@, k as int, b as int, remaining@[q] as int);
                        }
                    }
                }
            }
            if ahead {
                best_pos = p;
            }
            p = p + 1;
        }
        let ghost old_rem = remaining@;
        let ghost old_r = r@;
        let best = remaining.remove(best_pos);
        r.push(best);
        proof {
            assert(remaining@ == old_rem.remove(best_pos as int));
            assert forall|i: int| 0 <= i < remaining@.len() implies #[trigger] remaining@[i] == if i < best_pos {
                old_rem[i]
            } else {
                old_rem[i + 1]
            } by {}
            assert forall|q: usize| q < n implies #[trigger] remaining@.contains(q) || #[trigger] r@.contains(q) by {
                if old_rem.contains(q) {
                    let m = choose|m: int| 0 <= m < old_rem.len() && old_rem[m] == q;
                    if m < best_pos {
                        assert(remaining@[m] == q);
                    } else if m > best_pos {
                        assert(remaining@[m - 1] == q);
                    } else {
                        assert(r@[r@.len() - 1] == q);
                    }
                } else {
                    assert(old_r.contains(q));
                    let m = choose|m: int| 0 <= m < old_r.len() && old_r[m] == q;
                    assert(r@[m] == q);
                }
            }
            assert forall|i: int, j: int| 0 <= i < j < r@.len() implies diag_ahead(keys@, #[trigger] r@[i] as int, #[trigger] r@[j] as int) by {
                assert(r@[i] == old_r[i]);
                if j < old_r.len() {
                    assert(r@[j] == old_r[j]);
                } else {
                    assert(diag_ahead(keys@, old_r[i] as int, old_rem[best_pos as int] as int));
                }
            }
            assert forall|i: int, q: int|
                0 <= i < r@.len() && 0 <= q < remaining@.len() implies #[trigger] diag_ahead(
                    keys@,
                    r@[i] as int,
                    remaining@[q] as int,
                ) by {
                let oq = if q < best_pos { q } else { q + 1 };
                assert(remaining@[q] == old_rem[oq]);
                if i < old_r.len() {
                    assert(r@[i] == old_r[i]);
                } else {
                    assert(oq != best_pos);
                }
            }
        }
    }
    proof {
        assert(remaining@.len() == 0);
        assert forall|q: usize| q < keys@.len() implies #[trigger] r@.contains(q) by {
            assert(remaining@.contains(q) || r@.contains(q));
            if remaining@.contains(q) {
                let m = choose|m: int| 0 <= m < remaining@.len() && remaining@[m] == q;
            }
        }
        assert forall|i: int, j: int| 0 <= i < j < r@.len() implies !precedes(keys@[#[trigger] r@[j] as int], keys@[#[trigger] r@[i] as int]) by {
            lemma_diag_ahead_order(keys@, r@[i] as int, r@[j] as int, r@[j] as int);
            law_diagnostic_order_is_total(keys@[r@[i] as int], keys@[r@[j] as int], keys@[r@[j] as int]);
        }
    }
    r
}


/// How many of `names` read `x`.
pub open spec fn occurrences(names: Seq<String>, x: Seq<char>) -> nat
    decreases names.len(),
{
    if names.len() == 0 {
        0
    } else {
        occurrences(names.drop_last(), x) + if names.last()@ == x {
            1nat
        } else {
            0nat
        }
    }
}

/// A name that occurs nowhere in a list occurs there no times.
proof fn lemma_occurrences_absent(names: Seq<String>, x: Seq<char>)
    requires
        forall|k: int| 0 <= k < names.len() ==> (#[trigger] names[k])@ != x,
    ensures
        occurrences(names, x) == 0,
    decreases names.len(),
{
    if names.len() > 0 {
        lemma_occurrences_absent(names.drop_last(), x);
    }
}

/// Whether `x` is one of the names of `tally`.
pub open spec fn listed(tally: Seq<(String, usize)>, x: Seq<char>) -> bool {
    exists|i: int| 0 <= i < tally.len() && (#[trigger] tally[i]).0@ == x
}

/// Each name of `names` once, in the order of first occurrence, with the
/// number of its occurrences: the tally behind the unresolved-target
/// ranking of the debug report.
pub fn tally_names(names: &[String]) -> (r: Vec<(String, usize)>)
    ensures
        forall|i: int, j: int| 0 <= i < j < r@.len() ==> (#[trigger] r@[i]).0@ != (#[trigger] r@[j]).0@,
        forall|i: int| 0 <= i < r@.len() ==> (#[trigger] r@[i]).1 == occurrences(names@, r@[i].0@),
        forall|k: int| 0 <= k < names@.len() ==> listed(r@, (#[trigger] names@[k])@),
{
    let mut r: Vec<(String, usize)> = Vec::new();
    let n = names.len();
    let mut k: usize = 0;
    while k < n
        invariant
            k <= n == names@.len(),
            forall|i: int, j: int| 0 <= i < j < r@.len() ==> (#[trigger] r@[i]).0@ != (#[trigger] r@[j]).0@,
            forall|i: int| 0 <= i < r@.len() ==> (#[trigger] r@[i]).1 == occurrences(names@.take(k as int), r@[i].0@),
            forall|q: int| 0 <= q < k ==> listed(r@, (#[trigger] names@[q])@),
            forall|i: int| 0 <= i < r@.len() ==> (#[trigger] r@[i]).1 <= k,
        decreases n - k,
    {
        let name = &names[k];
        let ghost before = r@;
        let ghost taken = names@.take(k as int);
        let ghost next = names@.take(k + 1);
        proof {
            assert(next.drop_last() =~= taken);
            assert(next.last() == names@[k as int]);
        }
        let mut found: usize = r.len();
        let mut i: usize = 0;
        while i < r.len()
            invariant_except_break
                found == r@.len(),
            invariant
                i <= r@.len(),
                r@ == before,
                forall|j: int| 0 <= j < i ==> (#[trigger] r@[j]).0@ != name@,
            ensures
                found < r@.len() ==> r@[found as int].0@ == name@,
                found == r@.len() ==> forall|j: int| 0 <= j < r@.len() ==> (#[trigger] r@[j]).0@ != name@,
                found <= r@.len(),
            decreases r@.len() - i,
        {
            if r[i].0 == *name {
                found = i;
                break;
            }
            i += 1;
        }
        if found < r.len() {
            let c = r[found].1;
            let entry = (r[found].0.clone(), c + 1);
            r.set(found, entry);
            proof {
                assert forall|j: int| 0 <= j < r@.len() implies (#[trigger] r@[j]).1 == occurrences(next, r@[j].0@) by {
                    if j != found {
                        assert(r@[j] == before[j]);
                    }
                }
                assert forall|q: int| 0 <= q < k + 1 implies listed(r@, (#[trigger] names@[q])@) by {
                    if q < k {
                        let j = choose|j: int| 0 <= j < before.len() && (#[trigger] before[j]).0@ == names@[q]@;
                        assert(r@[j].0@ == names@[q]@);
                    } else {
                        assert(r@[found as int].0@ == names@[q]@);
                    }
                }
            }
        } else {
            proof {
                assert forall|q: int| 0 <= q < taken.len() implies (#[trigger] taken[q])@ != name@ by {
                    assert(taken[q] == names@[q]);
                    let j = choose|j: int| 0 <= j < before.len() && (#[trigger] before[j]).0@ == (#[trigger] names@[q])@;
                    assert(r@[j].0@ != name@);
                }
                lemma_occurrences_absent(taken, name@);
            }
            r.push((name.clone(), 1));
            proof {
                assert forall|j: int| 0 <= j < r@.len() implies (#[trigger] r@[j]).1 == occurrences(next, r@[j].0@) by {
                    if j < before.len() {
                        assert(r@[j] == before[j]);
                        assert(before[j].0@ != name@);
                    } else {
                        assert(r@[j].0@ == name@);
                    }
                }
                assert forall|q: int| 0 <= q < k + 1 implies listed(r@, (#[trigger] names@[q])@) by {
                    if q < k {
                        let j = choose|j: int| 0 <= j < before.len() && (#[trigger] before[j]).0@ == names@[q]@;
                        assert(r@[j] == before[j]);
                    } else {
                        assert(r@[before.len() as int].0@ == names@[q]@);
                    }
                }
            }
        }
        k += 1;
    }
    proof {
        assert(names@.take(n as int) =~= names@);
        assert forall|q: int| 0 <= q < names@.len() implies listed(r@, (#[trigger] names@[q])@) by {
            assert(0 <= q < k);
        }
    }
    r
}

} // verus!
