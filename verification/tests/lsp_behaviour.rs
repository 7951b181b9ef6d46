use tyda_lsp::code_lens::should_show_code_lens;
use tyda_lsp::hover::{choose_better_hover_result, hover_needs_workspace_fallback, HoverFacts, HoverPick};
use tyda_lsp::scan_state::ScanState;
use std::collections::HashSet;

use tyda_lsp::code_lens::{code_lens_range_for_method, code_lens_title, insert_signature_comment};
use tyda_lsp::jsonc::strip_jsonc_comments;
use tyda_lsp::position::{apply_content_changes, ContentChange, Position, Range};
use tyda_lsp::source_support::{
    fallback_code_lens_methods_from_source, source_line_supports_signature_comment, MethodSig,
    SourceLocation,
};
use tyda_lsp::workspace::{choose_scan_benchmark_target, is_target_ruby_path};

fn sig(name: &str, loc: Option<SourceLocation>) -> MethodSig {
    MethodSig {
        name: name.to_string(),
        is_singleton: false,
        loc,
        rbs_annotated: false,
        rbs_inline_annotated: false,
        sig_annotated: false,
        rbs_file_source: false,
        synthetic_dsl_source: false,
        is_private: false,
    }
}

#[test]
fn code_lens_title_matches_inserted_signature() {
    assert_eq!(code_lens_title("-> [1, 2]"), "#: -> [1, 2]");
    assert_eq!(code_lens_title("-> [ ]"), "#: -> [ ]");
}

#[test]
fn apply_content_changes_supports_incremental_insert_and_delete() {
    let source = "class A\n  def foo\n    1\n  end\nend\n";
    let inserted = apply_content_changes(
        source,
        &[ContentChange {
            range: Some(Range::new(Position::new(0, 0), Position::new(0, 0))),
            text: "\n".to_string(),
        }],
    )
    .expect("inserted source");
    assert_eq!(inserted, "\nclass A\n  def foo\n    1\n  end\nend\n");

    let deleted = apply_content_changes(
        &inserted,
        &[ContentChange {
            range: Some(Range::new(Position::new(0, 0), Position::new(1, 0))),
            text: String::new(),
        }],
    )
    .expect("deleted source");
    assert_eq!(deleted, source);
}

#[test]
fn code_lens_range_for_method_anchors_to_method_name() {
    let source = "class A\n  def foo(x)\n    x\n  end\nend\n";
    let method = sig("foo", Some(SourceLocation { line: 2, column: 2 }));
    let range = code_lens_range_for_method(source, &method).expect("code lens range");
    assert_eq!(range.start, Position::new(1, 6));
    assert_eq!(range.end, Position::new(1, 9));
}

#[test]
fn insert_signature_comment_preserves_indent() {
    let source = "class Sample\n  def foo\n    1\n  end\nend\n";
    let updated = insert_signature_comment(source, 1, "-> Integer").expect("updated");
    assert_eq!(
        updated,
        "class Sample\n  #: -> Integer\n  def foo\n    1\n  end\nend\n"
    );
}

#[test]
fn attr_reader_line_does_not_support_signature_comment() {
    let source = "class Sample\n  attr_reader :name\nend\n";
    assert!(!source_line_supports_signature_comment(source, 1));
}

#[test]
fn def_line_supports_signature_comment() {
    let source = "class Sample\n  def foo\n    1\n  end\nend\n";
    assert!(source_line_supports_signature_comment(source, 1));
}

#[test]
fn wrapped_def_line_supports_signature_comment() {
    let source = "class Sample\n  memoize def foo\n    1\n  end\nend\n";
    assert!(source_line_supports_signature_comment(source, 1));
}

#[test]
fn fallback_code_lens_methods_include_unannotated_def_lines() {
    let source = "class Sample\n  def foo(x)\n";
    let methods = fallback_code_lens_methods_from_source(source, &HashSet::new());
    assert_eq!(methods.len(), 1);
    assert_eq!(methods[0].1.name, "foo");
    assert_eq!(methods[0].1.loc, Some(SourceLocation { line: 2, column: 6 }));
}

#[test]
fn fallback_code_lens_methods_include_wrapped_def_lines() {
    let source = "class Sample\n  public def foo(x)\n";
    let methods = fallback_code_lens_methods_from_source(source, &HashSet::new());
    assert_eq!(methods.len(), 1);
    assert_eq!(methods[0].1.name, "foo");
    assert_eq!(
        methods[0].1.loc,
        Some(SourceLocation {
            line: 2,
            column: 13
        })
    );
}

#[test]
fn fallback_code_lens_methods_skip_rbs_annotated_def_lines() {
    let source = "class Sample\n  #: -> Integer\n  def foo\n";
    let methods = fallback_code_lens_methods_from_source(source, &HashSet::new());
    assert!(methods.is_empty());
}

#[test]
fn fallback_code_lens_methods_skip_atrbs_annotated_def_lines() {
    let source = "class Sample\n  # @rbs value: String\n  def foo(value)\n";
    let methods = fallback_code_lens_methods_from_source(source, &HashSet::new());
    assert!(methods.is_empty());
}

#[test]
fn fallback_code_lens_methods_skip_trailing_rbs_return_annotation() {
    let source = "class Sample\n  def foo #: String\n";
    let methods = fallback_code_lens_methods_from_source(source, &HashSet::new());
    assert!(methods.is_empty());
}

#[test]
fn target_ruby_path_defaults_to_all_ruby_files() {
    assert!(is_target_ruby_path(None, "/tmp/sample.rb"));
    assert!(!is_target_ruby_path(None, "/tmp/sample.rbs"));
}

#[test]
fn target_ruby_path_respects_analysis_unit_roots() {
    let roots = vec![std::path::PathBuf::from("/workspace/app")
        .to_string_lossy()
        .into_owned()];
    assert!(is_target_ruby_path(Some(&roots), "/workspace/app/foo.rb"));
    assert!(!is_target_ruby_path(
        Some(&roots),
        "/workspace/other/user.rb"
    ));
}

#[test]
fn strip_jsonc_comments_preserves_strings() {
    let input = r#"{
  // comment
  "analysis_unit_dirs": ["app"],
  "url": "https://example.test//keep"
}"#;
    let stripped = strip_jsonc_comments(input);
    assert!(stripped.contains("\"analysis_unit_dirs\": [\"app\"]"));
    assert!(stripped.contains("\"https://example.test//keep\""));
    assert!(!stripped.contains("// comment"));
}

fn path_texts(paths: &[&str]) -> Vec<String> {
    paths
        .iter()
        .map(|p| std::path::PathBuf::from(p).to_string_lossy().into_owned())
        .collect()
}

#[test]
fn select_bench_target_file_prefers_model_like_paths() {
    let files = path_texts(&[
        "/tmp/project/app/controllers/projects_controller.rb",
        "/tmp/project/app/models/project.rb",
        "/tmp/project/lib/project_helper.rb",
    ]);

    let selected = choose_scan_benchmark_target(&files).expect("selected target");
    assert_eq!(
        std::path::PathBuf::from(selected),
        std::path::PathBuf::from("/tmp/project/app/models/project.rb")
    );
}

#[test]
fn select_bench_target_file_prefers_account_model_when_present() {
    let files = path_texts(&[
        "/tmp/project/app/models/user.rb",
        "/tmp/project/app/models/account.rb",
        "/tmp/project/app/models/project.rb",
    ]);

    let selected = choose_scan_benchmark_target(&files).expect("selected target");
    assert_eq!(
        std::path::PathBuf::from(selected),
        std::path::PathBuf::from("/tmp/project/app/models/account.rb")
    );
}

use tyda_lsp::settings::{output_parameter_names_from_initialize_options, InitializeFlags};

#[test]
fn output_parameter_names_defaults_to_false() {
    assert!(!output_parameter_names_from_initialize_options(None));
    let empty = InitializeFlags {
        output_parameter_names: None,
        typeprof_output_parameter_names: None,
    };
    assert!(!output_parameter_names_from_initialize_options(Some(&empty)));
}

#[test]
fn output_parameter_names_reads_top_level_flag() {
    let flags = InitializeFlags {
        output_parameter_names: Some(true),
        typeprof_output_parameter_names: None,
    };
    assert!(output_parameter_names_from_initialize_options(Some(&flags)));
}

#[test]
fn output_parameter_names_reads_nested_typeprof_flag() {
    let flags = InitializeFlags {
        output_parameter_names: None,
        typeprof_output_parameter_names: Some(true),
    };
    assert!(output_parameter_names_from_initialize_options(Some(&flags)));
}

#[test]
fn should_commit_workspace_scan_matches_current_generation_only() {
    let mut state = ScanState::new();
    state.generation = 5;
    assert!(state.should_commit_workspace_scan(5));
    assert!(!state.should_commit_workspace_scan(4));
}

#[test]
fn annotated_methods_do_not_show_code_lens() {
    let mut method = sig("foo", None);
    method.rbs_annotated = true;
    method.rbs_inline_annotated = true;
    assert!(!should_show_code_lens(&method));
}

/// The ranking facts of a hover result: its rendered signature and, for its
/// type, whether it is `untyped`, its widened members and its literals.
fn hover(display: Option<&str>, untyped: bool, parts: &[&str], has_type_hole: bool) -> HoverFacts {
    HoverFacts {
        display_rbs: display.map(|d| d.to_string()),
        untyped,
        has_type_hole,
        can_enrich_from_workspace: false,
        widened_parts: parts.iter().map(|p| p.to_string()).collect(),
        literal_specificity: 0,
    }
}

fn chosen_display<'a>(primary: &'a HoverFacts, fallback: &'a HoverFacts, same_type: bool) -> Option<&'a str> {
    match choose_better_hover_result(Some(primary), Some(fallback), same_type) {
        Some(HoverPick::Primary) => primary.display_rbs.as_deref(),
        Some(HoverPick::Fallback) => fallback.display_rbs.as_deref(),
        None => None,
    }
}

#[test]
fn hover_without_type_holes_does_not_need_workspace_fallback() {
    let each = hover(
        Some("each: () -> Enumerator[Integer, Array[Integer]]\n    | () { (Integer item) -> void } -> Array[Integer]"),
        false,
        &["Array[Integer]"],
        false,
    );
    assert!(!hover_needs_workspace_fallback(&each));
}

#[test]
fn hover_with_todo_still_needs_workspace_fallback() {
    let value = hover(None, true, &["untyped"], true);
    assert!(hover_needs_workspace_fallback(&value));
}

#[test]
fn choose_better_hover_result_prefers_fewer_untyped_params() {
    let primary = hover(Some("(untyped x, ?y: untyped, ?z: bool) -> untyped"), true, &["untyped"], true);
    let fallback = hover(Some("(String x, ?y: untyped, ?z: bool) -> untyped"), true, &["untyped"], true);
    assert_eq!(
        chosen_display(&primary, &fallback, true),
        Some("(String x, ?y: untyped, ?z: bool) -> untyped")
    );
}

#[test]
fn choose_better_hover_result_counts_untyped_by_signature_slots() {
    let primary = hover(Some("(untyped x, ?y: untyped, ?z: bool) -> untyped"), true, &["untyped"], true);
    let fallback =
        hover(Some("(String x, ?y: (untyped | untyped), ?z: bool) -> untyped"), true, &["untyped"], true);
    assert_eq!(
        chosen_display(&primary, &fallback, true),
        Some("(String x, ?y: (untyped | untyped), ?z: bool) -> untyped")
    );
}

#[test]
fn choose_better_hover_result_prefers_signature_over_plain_untyped() {
    let primary = hover(None, true, &["untyped"], true);
    let fallback = hover(Some("(String x, ?y: untyped, ?z: bool) -> untyped"), true, &["untyped"], true);
    assert_eq!(
        chosen_display(&primary, &fallback, true),
        Some("(String x, ?y: untyped, ?z: bool) -> untyped")
    );
}

#[test]
fn choose_better_hover_result_prefers_richer_value_union() {
    let primary = hover(None, false, &["Integer"], false);
    let fallback = hover(None, false, &["Integer", "String"], false);
    let chosen = choose_better_hover_result(Some(&primary), Some(&fallback), false);
    assert_eq!(chosen, Some(HoverPick::Fallback));
    assert_eq!(fallback.widened_parts.join(" | "), "Integer | String");
}

#[test]
fn choose_better_hover_result_prefers_richer_signature_union() {
    let primary = hover(Some("(?Integer x, ?y: ActiveSupport::Duration, ?z: bool) -> untyped"), true, &["untyped"], true);
    let fallback = hover(
        Some("(?(Integer | String) x, ?y: ActiveSupport::Duration, ?z: bool) -> untyped"),
        true,
        &["untyped"],
        true,
    );
    assert_eq!(
        chosen_display(&primary, &fallback, true),
        Some("(?(Integer | String) x, ?y: ActiveSupport::Duration, ?z: bool) -> untyped")
    );
}
