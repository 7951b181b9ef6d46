use tyda_lsp::workspace_scan::scan_walks_roots;
use tyda_lsp::scan_state::{PendingScanFiles, ScanState};
use tyda_lsp::workspace_scan::{
    is_cold_scan, next_scan_chunk, scan_content_key, scan_outcome, scan_step, workspace_scan_files,
    ScanOutcome, ScanStep, LSP_SCAN_CHUNK_SIZE,
};

fn paths(items: &[&str]) -> Vec<String> {
    items.iter().map(|p| p.to_string()).collect()
}

#[test]
fn collect_workspace_scan_files_skips_known_files_on_incremental_rescan() {
    let walked = paths(&[
        "/tmp/w/app/known.rb",
        "/tmp/w/app/open_only.rb",
        "/tmp/w/app/pending.rb",
        "/tmp/w/extra/ignored.rb",
    ]);
    let known = paths(&["/tmp/w/app/known.rb"]);
    let pending = paths(&["/tmp/w/app/pending.rb"]);
    let open_docs = paths(&["/tmp/w/app/open_only.rb"]);
    let roots = paths(&["/tmp/w/app"]);
    let files = workspace_scan_files(&walked, &known, &pending, &open_docs, Some(&roots), false);
    assert_eq!(files, paths(&["/tmp/w/app/open_only.rb", "/tmp/w/app/pending.rb"]));
}

#[test]
fn collect_workspace_scan_files_force_full_ignores_known_files() {
    let walked = paths(&["/tmp/w/app/known.rb", "/tmp/w/app/other.rb"]);
    let known = paths(&["/tmp/w/app/known.rb"]);
    let open_docs = paths(&["/tmp/w/app/known.rb"]);
    let files = workspace_scan_files(&walked, &known, &[], &open_docs, None, true);
    assert_eq!(files, paths(&["/tmp/w/app/known.rb", "/tmp/w/app/other.rb"]));
}

#[test]
fn collect_workspace_scan_files_falls_back_to_known_when_delta_empty() {
    let walked = paths(&["/tmp/w/app/known.rb", "/tmp/w/app/new.rb"]);
    let known = paths(&["/tmp/w/app/known.rb"]);
    let roots = paths(&["/tmp/w/app"]);
    let files = workspace_scan_files(&walked, &known, &[], &[], Some(&roots), false);
    assert_eq!(files, paths(&["/tmp/w/app/known.rb"]));
}

#[test]
fn scan_files_walk_everything_while_nothing_is_known() {
    let walked = paths(&["/w/b.rb", "/w/a.rb"]);
    let pending = paths(&["/w/c.rb", "/w/notes.txt", "/w/a.rb"]);
    let files = workspace_scan_files(&walked, &[], &pending, &[], None, false);
    assert_eq!(files, paths(&["/w/a.rb", "/w/b.rb", "/w/c.rb"]));
}

#[test]
fn open_documents_outside_the_roots_are_not_scanned() {
    let known = paths(&["/w/app/a.rb"]);
    let open_docs = paths(&["/w/lib/x.rb", "/w/app/y.rb"]);
    let roots = paths(&["/w/app"]);
    let files = workspace_scan_files(&[], &known, &[], &open_docs, Some(&roots), false);
    assert_eq!(files, paths(&["/w/app/y.rb"]));
}

#[test]
fn scan_workspace_for_deps_shared_discards_result_when_generation_is_stale() {
    let mut state = ScanState::new();
    state.generation = 3;
    state.pending.mark("stale-pending.rb".to_string());
    assert!(!state.should_commit_workspace_scan(1), "a stale scan must not walk the workspace at all");
    assert!(!state.record_result(1, "stale-pending.rb"));
    assert!(!state.finish_scan(1, state.needs_full_scan()));
    assert!(!state.fully_discovered, "a stale scan must not claim full discovery finished");
    assert_eq!(state.pending.len(), 1, "a stale scan must not clear pending marks it never processed");
}

#[test]
fn scan_workspace_for_deps_shared_commits_when_generation_is_current() {
    let mut state = ScanState::new();
    state.generation = 7;
    state.pending.mark("/w/alpha.rb".to_string());
    state.pending.mark("/w/beta.rb".to_string());
    let force_full = state.needs_full_scan();
    assert!(force_full);
    assert!(state.record_result(7, "/w/alpha.rb"));
    assert!(!state.pending.contains("/w/alpha.rb"));
    assert!(state.pending.contains("/w/beta.rb"));
    assert!(state.finish_scan(7, force_full));
    assert!(state.fully_discovered);
    assert_eq!(state.pending.len(), 0);
    assert!(!state.needs_full_scan());
}

#[test]
fn pending_marks_are_kept_once() {
    let mut pending = PendingScanFiles::new();
    pending.mark("/w/a.rb".to_string());
    pending.mark("/w/b.rb".to_string());
    pending.mark("/w/a.rb".to_string());
    assert_eq!(pending.len(), 2);
    assert_eq!(pending.paths().len(), 2);
    pending.remove("/w/a.rb");
    assert!(!pending.contains("/w/a.rb"));
    assert_eq!(pending.paths(), &["/w/b.rb".to_string()][..]);
    pending.clear();
    assert_eq!(pending.len(), 0);
}

#[test]
fn scan_steps_follow_the_cache_and_the_stamp() {
    assert!(is_cold_scan(0, 0));
    assert!(!is_cold_scan(1, 0));
    assert!(!is_cold_scan(0, 1));
    let stamp = Some((1_700_000_000u64, 42u64));
    assert_eq!(scan_step(true, false, Some(stamp), stamp), ScanStep::ReadFromDisk);
    assert_eq!(scan_step(false, true, Some(stamp), None), ScanStep::ReadOpenDocument);
    assert_eq!(scan_step(false, false, Some(stamp), stamp), ScanStep::Skip);
    assert_eq!(scan_step(false, false, Some(None), None), ScanStep::Skip);
    assert_eq!(scan_step(false, false, Some(stamp), Some((1_700_000_001, 42))), ScanStep::ReadFromDisk);
    assert_eq!(scan_step(false, false, None, stamp), ScanStep::ReadFromDisk);
}

#[test]
fn scan_outcomes_refresh_only_unchanged_keys() {
    assert_eq!(scan_outcome(false, Some(9), 9), ScanOutcome::RefreshStamp);
    assert_eq!(scan_outcome(false, Some(9), 8), ScanOutcome::Analyze);
    assert_eq!(scan_outcome(false, None, 9), ScanOutcome::Analyze);
    assert_eq!(scan_outcome(true, Some(9), 9), ScanOutcome::Analyze);
}

#[test]
fn content_keys_come_from_the_stamp_when_there_is_one() {
    let a = scan_content_key(false, Some((10, 20))).unwrap();
    let b = scan_content_key(false, Some((10, 21))).unwrap();
    assert_ne!(a, b);
    assert_eq!(scan_content_key(false, Some((10, 20))), Some(a));
    assert!(scan_content_key(true, None).is_some());
    assert_eq!(scan_content_key(false, None), None);
}

#[test]
fn scans_proceed_chunk_by_chunk_until_superseded() {
    let total = 2 * LSP_SCAN_CHUNK_SIZE + 5;
    assert_eq!(next_scan_chunk(0, total, false), Some((0, LSP_SCAN_CHUNK_SIZE)));
    assert_eq!(
        next_scan_chunk(2 * LSP_SCAN_CHUNK_SIZE, total, false),
        Some((2 * LSP_SCAN_CHUNK_SIZE, total))
    );
    assert_eq!(next_scan_chunk(total, total, false), None);
    assert_eq!(next_scan_chunk(0, total, true), None);
    assert_eq!(LSP_SCAN_CHUNK_SIZE, 2048);
}

#[test]
fn only_a_full_scan_walks_the_roots() {
    assert!(scan_walks_roots(0, false));
    assert!(scan_walks_roots(3, true));
    assert!(!scan_walks_roots(3, false));
}

#[test]
fn workspace_scan_walks_full_roots_when_state_has_preloaded_files() {
    let mut state = ScanState::new();
    let generation = state.try_start_scan().unwrap();
    let force_full = state.needs_full_scan();
    let walked = paths(&["/w/alpha.rb", "/w/beta.rb"]);
    let known = paths(&["/w/alpha.rb"]);
    let files = workspace_scan_files(&walked, &known, &[], &[], None, force_full);
    assert!(files.contains(&"/w/beta.rb".to_string()), "cold scan must cover files that were never opened");
    assert!(state.finish_scan(generation, force_full));
    assert!(state.fully_discovered);
}

#[test]
fn scan_files_follow_path_order_component_by_component() {
    let walked = paths(&["/r/app.rb", "/r/app/m.rb"]);
    let files = workspace_scan_files(&walked, &[], &[], &[], None, true);
    assert_eq!(files, paths(&["/r/app/m.rb", "/r/app.rb"]));
}

#[test]
fn scan_files_treat_equal_paths_as_one_and_keep_the_first() {
    let walked = paths(&["/r/a.rb", "/r/b.rb"]);
    let pending = paths(&["/r//a.rb", "/r/./b.rb"]);
    let files = workspace_scan_files(&walked, &[], &pending, &[], None, true);
    assert_eq!(files, paths(&["/r/a.rb", "/r/b.rb"]));
    let files = workspace_scan_files(&[], &paths(&["/r/k.rb"]), &pending, &[], None, false);
    assert_eq!(files, paths(&["/r//a.rb", "/r/./b.rb"]));
}

#[test]
fn the_content_key_is_the_stamps_key() {
    let stamp = Some((77u64, 5u64));
    assert_eq!(scan_content_key(false, stamp), scan_content_key(true, stamp));
    assert_ne!(scan_content_key(true, None), scan_content_key(true, stamp));
}

#[test]
fn a_whole_scan_hands_on_unskipped_files_once_in_order() {
    let total = 2 * LSP_SCAN_CHUNK_SIZE + 7;
    let stamp = Some((5u64, 6u64));
    let steps: Vec<ScanStep> = (0..total)
        .map(|k| if k % 3 == 0 { scan_step(false, false, Some(stamp), stamp) } else { scan_step(false, false, None, stamp) })
        .collect();
    let run = |answers: &[bool]| {
        let mut handed = Vec::new();
        let mut done = 0;
        for &superseded in answers {
            let Some((lo, hi)) = next_scan_chunk(done, total, superseded) else {
                break;
            };
            handed.extend((lo..hi).filter(|&k| steps[k] != ScanStep::Skip));
            done = hi;
        }
        (handed, done)
    };
    let (handed, end) = run(&[false, false, false, false]);
    assert_eq!(end, total);
    assert_eq!(handed, (0..total).filter(|k| k % 3 != 0).collect::<Vec<_>>());
    let (handed, end) = run(&[false, true, false]);
    assert_eq!(end, LSP_SCAN_CHUNK_SIZE);
    assert_eq!(handed, (0..LSP_SCAN_CHUNK_SIZE).filter(|k| k % 3 != 0).collect::<Vec<_>>());
}
