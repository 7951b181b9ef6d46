use tyda_lsp::cli::tally_names;
use tyda_lsp::document_cache::{document_cache_commit, document_cache_update_needed, open_document_to_cache, DocumentCacheCommit};
use tyda_lsp::cli::diagnostic_order;
use tyda_lsp::code_lens::{signature_lens, signature_lenses_enabled};
use tyda_lsp::position::Range;
use tyda_lsp::workspace::analysis_thread_count;
use tyda_lsp::completion_context::normalize_constant_completion_namespace;
use tyda_lsp::rbs_comment::normalize_rbs_type_name_token;
use tyda_lsp::rbs_comment::constant_path_token_span;
use tyda_lsp::position::offset_to_line_col;
use tyda_lsp::code_lens::insert_signature_comment;
use tyda_lsp::source_support::source_line_has_direct_annotation;
use tyda_lsp::code_lens::method_name_offset_for_definition_line;
use tyda_lsp::cli::{diagnostics_heartbeat_due, progress_bar, PROGRESS_BAR_WIDTH};
use tyda_lsp::cli::rank_by_count;
use std::collections::HashSet;
use tyda_lsp::cli::{diagnostic_precedes, should_show_progress, DiagnosticSortKey};
use tyda_lsp::completion_context::send_method_name_completion_context;
use tyda_lsp::jsonc::strip_jsonc_comments;
use tyda_lsp::position::Position;
use tyda_lsp::source_support::fallback_code_lens_methods_from_source;

#[test]
fn stripping_comments_twice_changes_nothing_and_keeps_lines() {
    let inputs = [
        "{\n  // comment\n  \"a\": \"x//y\", // tail\n  \"b\": 1\n}\n",
        "a / / b // c",
        "\"open // string\n// not a comment\"",
        "//x\n//y",
        "a/\"b\"//c\nd",
        "\u{e9} // \u{fc}\n\"\u{df}//\u{1f600}\"",
    ];
    for input in inputs {
        let once = strip_jsonc_comments(input);
        assert_eq!(strip_jsonc_comments(&once), once);
        assert_eq!(once.matches('\n').count(), input.matches('\n').count());
        let mut rest = input.chars();
        assert!(once.chars().all(|c| rest.any(|d| d == c)));
    }
    assert_eq!(strip_jsonc_comments("//x\n//y"), "\n");
    assert_eq!(strip_jsonc_comments("\u{e9} // \u{fc}\n\u{df}"), "\u{e9} \n\u{df}");
}

#[test]
fn fallback_lenses_leave_out_covered_lines_only() {
    let source = "class A\n  def one\n  end\n  def two\n  end\n  def three\n  end\nend\n";
    let all = fallback_code_lens_methods_from_source(source, &HashSet::new());
    let names: Vec<&str> = all.iter().map(|(_, sig)| sig.name.as_str()).collect();
    assert_eq!(names, vec!["one", "two", "three"]);
    let lines: Vec<u32> = all.iter().map(|(_, sig)| sig.loc.unwrap().line).collect();
    assert_eq!(lines, vec![2, 4, 6]);
    let covered: HashSet<usize> = [3usize].into_iter().collect();
    let some = fallback_code_lens_methods_from_source(source, &covered);
    let expected: Vec<_> = all
        .iter()
        .filter(|(_, sig)| !covered.contains(&(sig.loc.unwrap().line as usize - 1)))
        .map(|(_, sig)| sig.name.clone())
        .collect();
    let got: Vec<_> = some.iter().map(|(_, sig)| sig.name.clone()).collect();
    assert_eq!(got, expected);
    assert_eq!(got, vec!["one".to_string(), "three".to_string()]);
}

#[test]
fn send_completion_masks_the_call_in_place() {
    let source = "class Foo\n  bar.public_send( 'pre\nend\n";
    let ctx = send_method_name_completion_context(source, Position::new(1, 23)).expect("context");
    assert_eq!(ctx.source.len(), source.len());
    for (masked, original) in ctx.source.bytes().zip(source.bytes()) {
        assert!(masked == original || masked == b' ');
    }
    assert_eq!(ctx.replace_range.start.line, ctx.replace_range.end.line);
}

#[test]
fn progress_is_drawn_only_on_a_quiet_terminal_run() {
    assert!(should_show_progress(true, 3, false, false));
    assert!(!should_show_progress(false, 3, false, false));
    assert!(!should_show_progress(true, 0, false, false));
    assert!(!should_show_progress(true, 3, true, false));
    assert!(!should_show_progress(true, 3, false, true));
}

fn key<'a>(line: u64, column: u64, code: &'a str, message: &'a str) -> DiagnosticSortKey<'a> {
    DiagnosticSortKey { line, column, end_line: line, end_column: column + 1, code, message }
}

#[test]
fn diagnostics_are_written_in_position_order() {
    assert!(diagnostic_precedes(&key(1, 5, "z", "z"), &key(2, 0, "a", "a")));
    assert!(diagnostic_precedes(&key(2, 0, "z", "z"), &key(2, 1, "a", "a")));
    assert!(diagnostic_precedes(&key(2, 1, "tyda.a", "z"), &key(2, 1, "tyda.b", "a")));
    assert!(diagnostic_precedes(&key(2, 1, "tyda.a", "m1"), &key(2, 1, "tyda.a", "m2")));
    assert!(!diagnostic_precedes(&key(2, 1, "tyda.a", "m"), &key(2, 1, "tyda.a", "m")));
    assert!(!diagnostic_precedes(&key(3, 0, "a", "a"), &key(2, 9, "a", "a")));
    let mut keys = vec![key(3, 0, "b", "x"), key(1, 2, "a", "y"), key(1, 2, "a", "x"), key(1, 0, "c", "z")];
    keys.sort_by(|a, b| {
        if diagnostic_precedes(a, b) {
            std::cmp::Ordering::Less
        } else if diagnostic_precedes(b, a) {
            std::cmp::Ordering::Greater
        } else {
            std::cmp::Ordering::Equal
        }
    });
    let order: Vec<(u64, u64, &str)> = keys.iter().map(|k| (k.line, k.column, k.message)).collect();
    assert_eq!(order, vec![(1, 0, "z"), (1, 2, "x"), (1, 2, "y"), (3, 0, "x")]);
}

#[test]
fn rankings_list_the_highest_counts_first() {
    let entries: Vec<(String, usize)> = vec![
        ("b.rb".to_string(), 3),
        ("a.rb".to_string(), 3),
        ("c.rb".to_string(), 7),
        ("d.rb".to_string(), 1),
    ];
    assert_eq!(rank_by_count(&entries, 10), vec![2, 1, 0, 3]);
    assert_eq!(rank_by_count(&entries, 2), vec![2, 1]);
    assert_eq!(rank_by_count(&entries, 0), Vec::<usize>::new());
    let ties: Vec<(String, usize)> = vec![("x".to_string(), 2), ("x".to_string(), 2)];
    assert_eq!(rank_by_count(&ties, 5), vec![0, 1]);
}

#[test]
fn the_progress_bar_fills_with_the_files_done() {
    assert_eq!(progress_bar(0, 10), (0, 0, PROGRESS_BAR_WIDTH));
    assert_eq!(progress_bar(5, 10), (50, 25, 25));
    assert_eq!(progress_bar(10, 10), (100, 50, 0));
    assert_eq!(progress_bar(1, 3), (33, 16, 34));
    assert_eq!(progress_bar(0, 0), (0, 0, 50));
}

#[test]
fn heartbeats_come_every_few_hundred_files_and_at_the_end() {
    assert!(diagnostics_heartbeat_due(true, 1000, 1000));
    assert!(diagnostics_heartbeat_due(true, 256, 1000));
    assert!(diagnostics_heartbeat_due(true, 271, 1000));
    assert!(!diagnostics_heartbeat_due(true, 272, 1000));
    assert!(!diagnostics_heartbeat_due(false, 1000, 1000));
}

#[test]
fn thread_overrides_parse_like_usize_from_str() {
    assert_eq!(analysis_thread_count(Some(8), None, Some("3")), 3);
    assert_eq!(analysis_thread_count(Some(8), None, Some("+5")), 5);
    assert_eq!(analysis_thread_count(Some(8), None, Some("+")), 6);
    assert_eq!(analysis_thread_count(Some(8), None, Some("")), 6);
    assert_eq!(analysis_thread_count(Some(8), None, Some("-2")), 6);
    assert_eq!(analysis_thread_count(Some(8), None, Some("0")), 6);
    assert_eq!(analysis_thread_count(Some(8), None, Some("4x")), 6);
    assert_eq!(analysis_thread_count(Some(8), None, Some("99999999999999999999999999")), 6);
    assert_eq!(analysis_thread_count(Some(8), None, Some("007")), 7);
}

#[test]
fn type_name_tokens_and_namespaces_are_constant_paths() {
    assert_eq!(normalize_rbs_type_name_token("Foo::Bar"), Some("Foo::Bar".to_string()));
    assert_eq!(normalize_rbs_type_name_token("::Foo"), Some("::Foo".to_string()));
    for bad in ["Foo::", ":::Foo", "item:", "", "foo", "Foo::bar"] {
        assert_eq!(normalize_rbs_type_name_token(bad), None, "{bad}");
    }
    assert_eq!(normalize_constant_completion_namespace(""), Some(String::new()));
    assert_eq!(normalize_constant_completion_namespace("::"), Some("::".to_string()));
    assert_eq!(normalize_constant_completion_namespace("Outer"), Some("Outer".to_string()));
    assert_eq!(normalize_constant_completion_namespace("::A::B"), Some("::A::B".to_string()));
    assert_eq!(normalize_constant_completion_namespace("Outer::"), None);
    assert_eq!(normalize_constant_completion_namespace("outer"), None);
}

#[test]
fn constant_path_spans_are_maximal_runs_at_the_cursor() {
    let text = b"#: (Foo::Bar) -> x";
    assert_eq!(constant_path_token_span(text, 6), Some((4, 12)));
    assert_eq!(constant_path_token_span(text, 12), Some((4, 12)));
    assert_eq!(constant_path_token_span(text, 3), None);
    assert_eq!(constant_path_token_span(text, 99), Some((17, 18)));
}

#[test]
fn line_and_column_count_newlines() {
    assert_eq!(offset_to_line_col(b"class A\n  def foo(x)\n", 14), (2, 6));
    assert_eq!(offset_to_line_col(b"ab", 99), (1, 2));
    assert_eq!(offset_to_line_col(b"\n\n", 2), (3, 0));
}

#[test]
fn a_signature_comment_adds_exactly_one_line() {
    let source = "class A\n  def foo(x)\n  end\nend";
    let out = insert_signature_comment(source, 1, "(Integer) -> void").unwrap();
    assert!(out.ends_with('\n'));
    let lines: Vec<&str> = out.lines().collect();
    assert_eq!(lines, vec!["class A", "  #: (Integer) -> void", "  def foo(x)", "  end", "end"]);
    assert_eq!(insert_signature_comment(source, 4, "x"), None);
}

#[test]
fn annotation_is_read_from_the_previous_non_empty_line() {
    assert!(source_line_has_direct_annotation(&["# @rbs x: Integer", "", "def f(x)"], 2));
    assert!(source_line_has_direct_annotation(&["sig { void }", "def f"], 1));
    assert!(source_line_has_direct_annotation(&["def f #: void"], 0));
    assert!(!source_line_has_direct_annotation(&["class Sample", "  def foo(x)"], 1));
    assert!(!source_line_has_direct_annotation(&["end", "def f"], 1));
    assert!(!source_line_has_direct_annotation(&["def f"], 0));
    assert!(!source_line_has_direct_annotation(&["def f"], 3));
}

#[test]
fn a_parameter_named_like_the_method_is_found_last() {
    assert_eq!(method_name_offset_for_definition_line("def foo(foo)", 0), Some(8));
    assert_eq!(method_name_offset_for_definition_line("def foo(x)", 0), Some(4));
}

#[test]
fn a_files_diagnostics_are_written_sorted_and_each_once() {
    let keys = vec![key(3, 0, "b", "x"), key(1, 2, "a", "y"), key(1, 2, "a", "x"), key(1, 0, "c", "z"), key(1, 2, "a", "y")];
    assert_eq!(diagnostic_order(&keys), vec![3, 2, 1, 4, 0]);
    assert_eq!(diagnostic_order(&[]), Vec::<usize>::new());
}

#[test]
fn signature_lenses_run_the_create_signature_command() {
    let range = Range::new(Position::new(4, 2), Position::new(4, 9));
    let lens = signature_lens(range, "(Integer) -> String");
    assert_eq!(lens.title, "#: (Integer) -> String");
    assert_eq!(lens.command, "typeprof.createSignature");
    assert_eq!(lens.line, 4);
    assert_eq!(lens.rbs_text, "(Integer) -> String");
    assert_eq!(lens.range, range);
    assert!(signature_lenses_enabled(true, "def f; end"));
    assert!(!signature_lenses_enabled(false, "def f; end"));
}

#[test]
fn document_cache_updates_start_once_and_store_only_current_text() {
    assert!(document_cache_update_needed(None, None, 7));
    assert!(document_cache_update_needed(Some(3), Some(4), 7));
    assert!(!document_cache_update_needed(None, Some(7), 7));
    assert!(!document_cache_update_needed(Some(7), None, 7));
    assert!(open_document_to_cache(false, true, Some(1), None, 2));
    assert!(!open_document_to_cache(true, true, None, None, 2));
    assert!(!open_document_to_cache(false, false, None, None, 2));
    assert!(!open_document_to_cache(false, true, None, Some(2), 2));
    assert_eq!(document_cache_commit(None, None, 5), DocumentCacheCommit::Dropped);
    assert_eq!(document_cache_commit(Some(6), Some(5), 5), DocumentCacheCommit::Dropped);
    assert_eq!(document_cache_commit(Some(5), Some(6), 5), DocumentCacheCommit::Superseded);
    assert_eq!(document_cache_commit(Some(5), Some(5), 5), DocumentCacheCommit::Store);
    assert_eq!(document_cache_commit(Some(5), None, 5), DocumentCacheCommit::Store);
}

#[test]
fn tally_counts_each_name_once_in_first_order() {
    let names: Vec<String> = ["A#x:y", "B#z:w", "A#x:y", "C#q:r", "A#x:y"].iter().map(|n| n.to_string()).collect();
    let tally = tally_names(&names);
    assert_eq!(
        tally,
        vec![("A#x:y".to_string(), 3), ("B#z:w".to_string(), 1), ("C#q:r".to_string(), 1)]
    );
    assert!(tally_names(&[]).is_empty());
    let ranked = rank_by_count(&tally, 2);
    assert_eq!(ranked, vec![0, 1]);
}
