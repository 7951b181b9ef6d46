use tyda_lsp::workspace::choose_display_probe_files;
use tyda_lsp::hover::{hover_enrichment, HoverEnrichment};
use tyda_lsp::display::{code_lens_text_with_hover, hover_display_candidate};
use tyda_lsp::workspace::{watched_file_kind, WatchedFileKind};
use tyda_lsp::locations::definition_blocked_at;
use tyda_lsp::epochs::{is_latest_epoch, next_epoch};
use tyda_lsp::scan_state::ScanState;
use tyda_lsp::display::signature_display_countable;
use tyda_lsp::signature_edit::signature_comment_edit_text;
use tyda_lsp::diagnostics::{
    diagnostic_code, diagnostic_source, retain_published_diagnostics, span_diagnostic,
    unused_ignore_message, DiagnosticKind, DiagnosticSeverity,
};
use tyda_lsp::display_cache::{DisplayCache, DISPLAY_RESULT_CACHE_LIMIT};
use tyda_lsp::hover::{
    choose_better_hover_result, hover_needs_workspace_fallback, hover_untyped_count,
    is_better_hover_result, HoverFacts, HoverPick,
};
use tyda_lsp::locations::{push_unique_location, Location};
use tyda_lsp::type_files::find_decl_range_in_type_file;
use tyda_lsp::accessors::accessor_code_lens_pairs;
use tyda_lsp::code_lens::{
    lens_displays_countable,
    code_lens_visible_range,
    select_code_lens_methods,
    method_definition_name_offset, method_name_offset_for_definition_line,
    method_sig_for_definition_line, resolve_signature_insertion_line, should_show_code_lens,
    source_location_to_range, code_lens_range_for_method, insert_signature_comment,
    SignatureCommandContext,
};
use tyda_lsp::completion_context::{
    double_colon_constant_completion_context, dot_method_completion_context,
    is_valid_ruby_constant_name, normalize_constant_completion_namespace,
    send_method_name_completion_context, SendMethodNameReceiver,
};
use tyda_lsp::display::{
    hover_signature_unresolved_counts, hover_untyped_slots, is_better_signature_display,
    signature_union_count, split_top_level_segments, contains_unresolved_marker,
};
use tyda_lsp::jsonc::strip_jsonc_comments;
use tyda_lsp::lexical::{
    constant_path_name_from_node, lexical_class_context_at, qualify_lexical_constant_name,
    ConstPathNode,
};
use tyda_lsp::messages::{
    completion_sort_text, constant_completion_detail, method_completion_detail,
    missing_method_diagnostic_message, ConstantCompletionKind,
};
use tyda_lsp::position::{
    apply_content_changes, byte_offset_to_lsp_position, line_col_to_offset,
    lsp_position_to_byte_offset, offset_to_line_col, ContentChange, Position, Range,
};
use tyda_lsp::rbs_comment::{
    constant_path_token_span, normalize_rbs_type_name_token, rbs_comment_body_start,
    rbs_comment_type_definition_context,
};
use tyda_lsp::source_support::{
    def_header_from_line, previous_non_empty_line, source_line_has_direct_annotation,
    source_method_identity_from_line, split_source_lines, MethodSig, SourceLocation,
};
use tyda_lsp::workspace::{analysis_thread_count, skeleton_scan_chunk_size};

fn method(name: &str, line: u32, column: u32) -> MethodSig {
    MethodSig {
        name: name.to_string(),
        is_singleton: false,
        loc: Some(SourceLocation { line, column }),
        rbs_annotated: false,
        rbs_inline_annotated: false,
        sig_annotated: false,
        rbs_file_source: false,
        synthetic_dsl_source: false,
        is_private: false,
    }
}

#[test]
fn lsp_position_counts_utf16_units() {
    let source = "a\u{e9}\u{1F600}b\nx";
    assert_eq!(lsp_position_to_byte_offset(source, Position::new(0, 4)), Some(7));
    assert_eq!(lsp_position_to_byte_offset(source, Position::new(0, 3)), None);
    assert_eq!(lsp_position_to_byte_offset(source, Position::new(1, 1)), Some(10));
    assert_eq!(lsp_position_to_byte_offset(source, Position::new(0, 9)), Some(8));
    assert_eq!(lsp_position_to_byte_offset(source, Position::new(1, 2)), None);
    assert_eq!(lsp_position_to_byte_offset(source, Position::new(2, 0)), None);
    assert_eq!(byte_offset_to_lsp_position(source, 7), Position::new(0, 4));
    assert_eq!(byte_offset_to_lsp_position(source, 10), Position::new(1, 1));
    assert_eq!(byte_offset_to_lsp_position(source, 100), Position::new(1, 1));
}

#[test]
fn lsp_position_round_trips_at_char_boundaries() {
    let source = "a\u{e9}\u{1F600}b\nx\r\n\u{4E2D}";
    for offset in 0..=source.len() {
        if source.is_char_boundary(offset) {
            let pos = byte_offset_to_lsp_position(source, offset);
            assert_eq!(lsp_position_to_byte_offset(source, pos), Some(offset));
        }
    }
}

#[test]
fn line_col_conversions() {
    let source = b"ab\ncd";
    assert_eq!(offset_to_line_col(source, 4), (2, 1));
    assert_eq!(offset_to_line_col(source, 99), (2, 2));
    assert_eq!(line_col_to_offset(source, 2, 1), Some(4));
    assert_eq!(line_col_to_offset(source, 1, 5), Some(2));
    assert_eq!(line_col_to_offset(source, 3, 0), None);
    assert_eq!(line_col_to_offset(source, 2, 3), None);
    assert_eq!(line_col_to_offset(source, 2, 2), Some(5));
    assert_eq!(line_col_to_offset(source, 0, 0), None);
    for offset in 0..=source.len() {
        let (line, col) = offset_to_line_col(source, offset);
        assert_eq!(line_col_to_offset(source, line, col), Some(offset));
    }
}

#[test]
fn apply_content_changes_replaces_and_rejects() {
    let whole = apply_content_changes(
        "old",
        &[ContentChange { range: None, text: "new text".to_string() }],
    );
    assert_eq!(whole.as_deref(), Some("new text"));
    let out_of_range = apply_content_changes(
        "ab",
        &[ContentChange {
            range: Some(Range::new(Position::new(5, 0), Position::new(5, 0))),
            text: "x".to_string(),
        }],
    );
    assert_eq!(out_of_range, None);
    let reversed = apply_content_changes(
        "abc",
        &[ContentChange {
            range: Some(Range::new(Position::new(0, 2), Position::new(0, 1))),
            text: "x".to_string(),
        }],
    );
    assert_eq!(reversed, None);
    let sequence = apply_content_changes(
        "abc",
        &[
            ContentChange {
                range: Some(Range::new(Position::new(0, 1), Position::new(0, 2))),
                text: "XY".to_string(),
            },
            ContentChange {
                range: Some(Range::new(Position::new(0, 0), Position::new(0, 1))),
                text: String::new(),
            },
        ],
    );
    assert_eq!(sequence.as_deref(), Some("XYc"));
}

#[test]
fn dot_completion_masks_the_typed_prefix() {
    let ctx = dot_method_completion_context("foo.ba", Position::new(0, 6)).expect("context");
    assert_eq!(ctx.source, "foo   ");
    assert_eq!(ctx.receiver_offset, 2);
    assert_eq!(ctx.replace_range, Range::new(Position::new(0, 4), Position::new(0, 6)));
    assert!(dot_method_completion_context("1..x", Position::new(0, 4)).is_none());
    assert!(dot_method_completion_context("foo", Position::new(0, 3)).is_none());
    assert!(dot_method_completion_context("foo", Position::new(3, 0)).is_none());
}

#[test]
fn send_completion_with_explicit_receiver() {
    let ctx = send_method_name_completion_context("obj.send(:fo", Position::new(0, 12))
        .expect("context");
    assert_eq!(ctx.source, "obj         ");
    assert!(matches!(
        ctx.receiver,
        SendMethodNameReceiver::Explicit { receiver_offset: 2 }
    ));
    assert_eq!(ctx.replace_range, Range::new(Position::new(0, 10), Position::new(0, 12)));

    let safe = send_method_name_completion_context("obj&.try(:x", Position::new(0, 11))
        .expect("context");
    assert_eq!(safe.source, "obj        ");
    assert!(matches!(
        safe.receiver,
        SendMethodNameReceiver::Explicit { receiver_offset: 2 }
    ));
    assert!(send_method_name_completion_context("obj.foo(:x", Position::new(0, 10)).is_none());
}

#[test]
fn send_completion_with_implicit_receiver_reads_the_class() {
    let source = "class Foo\n  send(:ba\nend\n";
    let ctx = send_method_name_completion_context(source, Position::new(1, 10)).expect("context");
    assert_eq!(ctx.source, "class Foo\n          \nend\n");
    match ctx.receiver {
        SendMethodNameReceiver::Implicit { class_context } => assert_eq!(class_context, "Foo"),
        SendMethodNameReceiver::Explicit { .. } => panic!("expected an implicit receiver"),
    }
    assert_eq!(ctx.replace_range, Range::new(Position::new(1, 8), Position::new(1, 10)));
}

#[test]
fn double_colon_completion_reads_namespace_and_prefix() {
    let ctx = double_colon_constant_completion_context("Foo::Ba", Position::new(0, 7))
        .expect("context");
    assert_eq!(ctx.namespace, "Foo");
    assert_eq!(ctx.prefix, "Ba");
    assert_eq!(ctx.source, "Foo    ");
    assert_eq!(ctx.class_context, "");
    assert_eq!(ctx.replace_range, Range::new(Position::new(0, 5), Position::new(0, 7)));

    let top = double_colon_constant_completion_context("::Ba", Position::new(0, 4))
        .expect("context");
    assert_eq!(top.namespace, "");
    assert!(double_colon_constant_completion_context("foo::Ba", Position::new(0, 7)).is_none());
    assert!(double_colon_constant_completion_context("Foo.Ba", Position::new(0, 6)).is_none());
}

#[test]
fn constant_names_and_namespaces() {
    assert!(is_valid_ruby_constant_name("Foo1_"));
    assert!(!is_valid_ruby_constant_name("foo"));
    assert!(!is_valid_ruby_constant_name(""));
    assert!(!is_valid_ruby_constant_name("F-"));
    assert_eq!(normalize_constant_completion_namespace("").as_deref(), Some(""));
    assert_eq!(normalize_constant_completion_namespace("::").as_deref(), Some("::"));
    assert_eq!(
        normalize_constant_completion_namespace("::Foo::Bar").as_deref(),
        Some("::Foo::Bar")
    );
    assert_eq!(normalize_constant_completion_namespace("Foo::bar"), None);
    assert_eq!(normalize_constant_completion_namespace("Foo::"), None);
}

#[test]
fn rbs_comment_bodies_and_tokens() {
    assert_eq!(rbs_comment_body_start("  #: -> Foo"), Some(4));
    assert_eq!(rbs_comment_body_start("# @rbs x: Foo"), Some(6));
    assert_eq!(rbs_comment_body_start("x = 1 #| Foo"), Some(8));
    assert_eq!(rbs_comment_body_start("# plain"), None);
    assert_eq!(rbs_comment_body_start("x = 1"), None);
    assert_eq!(constant_path_token_span(b"-> Foo::Bar", 5), Some((3, 11)));
    assert_eq!(constant_path_token_span(b"Foo ", 3), Some((0, 3)));
    assert_eq!(constant_path_token_span(b"a b", 1), Some((0, 1)));
    assert_eq!(constant_path_token_span(b" - ", 1), None);
    assert_eq!(normalize_rbs_type_name_token("::Foo::Bar").as_deref(), Some("::Foo::Bar"));
    assert_eq!(normalize_rbs_type_name_token(":::Foo"), None);
    assert_eq!(normalize_rbs_type_name_token("Foo::"), None);
    assert_eq!(normalize_rbs_type_name_token("foo"), None);
}

#[test]
fn rbs_comment_type_reference_with_class_context() {
    let source = "class A\n  #: () -> Foo::Bar\n  def x; end\nend\n";
    let ctx = rbs_comment_type_definition_context(source, 24).expect("context");
    assert_eq!(ctx.referenced_type, "Foo::Bar");
    assert_eq!(ctx.class_context, "A");
    assert!(rbs_comment_type_definition_context(source, 2).is_none());
    assert!(rbs_comment_type_definition_context(source, 500).is_none());
}

#[test]
fn lexical_context_and_constant_paths() {
    let source = "module M\n  class C\n    x\n  end\nend\n";
    assert_eq!(lexical_class_context_at(source, 24).as_deref(), Some("M::C"));
    assert_eq!(lexical_class_context_at("x = 1\n", 2), None);
    assert_eq!(
        qualify_lexical_constant_name(Some(&"A".to_string()), "B"),
        "A::B"
    );
    assert_eq!(qualify_lexical_constant_name(None, "::X::Y"), "X::Y");
    assert_eq!(qualify_lexical_constant_name(Some(&String::new()), "B"), "B");
    let path = ConstPathNode::Path {
        parent: Some(Box::new(ConstPathNode::Read("A".to_string()))),
        name: Some("B".to_string()),
    };
    assert_eq!(constant_path_name_from_node(&path).as_deref(), Some("A::B"));
    let anchored = ConstPathNode::Path { parent: None, name: Some("B".to_string()) };
    assert_eq!(constant_path_name_from_node(&anchored).as_deref(), Some("::B"));
    assert_eq!(constant_path_name_from_node(&ConstPathNode::Other), None);
}

#[test]
fn def_lines_and_annotations() {
    assert_eq!(def_header_from_line("def foo"), Some((4, "foo")));
    assert_eq!(def_header_from_line("private def foo"), Some((12, "foo")));
    assert_eq!(def_header_from_line("attr_reader :x"), None);
    assert_eq!(
        source_method_identity_from_line("  def self.bar(x)"),
        Some(("bar".to_string(), true, 11))
    );
    assert_eq!(source_method_identity_from_line("  def "), None);
    let lines = ["a", "  ", "b"];
    assert_eq!(previous_non_empty_line(&lines, 2), Some("a"));
    assert_eq!(previous_non_empty_line(&lines, 0), None);
    assert!(source_line_has_direct_annotation(&["#: -> x", "def f"], 1));
    assert!(source_line_has_direct_annotation(&["sig { void }", "", "def f"], 2));
    assert!(!source_line_has_direct_annotation(&["sig do", "end", "def f"], 2));
    assert!(!source_line_has_direct_annotation(&["x = 1", "def f"], 1));
    assert_eq!(split_source_lines("a\r\nb\n\nc"), vec!["a", "b", "", "c"]);
}

#[test]
fn definition_name_offsets() {
    let source = "class A\n  def foo(x)\n  def self.bar\nend\n";
    assert_eq!(method_definition_name_offset(source, &method("foo", 2, 2)), Some(14));
    assert_eq!(method_definition_name_offset(source, &method("zzz", 2, 2)), None);
    assert_eq!(method_name_offset_for_definition_line(source, 10), Some(14));
    assert_eq!(method_name_offset_for_definition_line(source, 25), Some(32));
    assert_eq!(method_name_offset_for_definition_line(source, 2), None);
    let fallback = code_lens_range_for_method(source, &method("zzz", 2, 2)).expect("range");
    assert_eq!(fallback, Range::new(Position::new(1, 2), Position::new(1, 5)));
    assert!(code_lens_range_for_method(source, &method("foo", 9, 0)).is_none());
}

#[test]
fn definition_line_method_selection() {
    let source = "class A\n  def foo; end; def bar; end\nend\n";
    let methods = vec![method("bar", 2, 16), method("foo", 2, 2)];
    assert_eq!(method_sig_for_definition_line(&methods, source, 10), Some(1));
    let single = vec![method("x", 1, 0), method("foo", 2, 2)];
    assert_eq!(method_sig_for_definition_line(&single, source, 10), Some(1));
    let none = vec![method("x", 3, 0)];
    assert_eq!(method_sig_for_definition_line(&none, source, 10), None);
}

#[test]
fn signature_insertion_line_prefers_the_original_location() {
    let methods = vec![
        ("A".to_string(), method("foo", 5, 2)),
        ("A".to_string(), method("foo", 10, 2)),
        ("B".to_string(), method("foo", 3, 2)),
    ];
    let ctx = SignatureCommandContext {
        class_name: "A".to_string(),
        method_name: "foo".to_string(),
        is_singleton: false,
        original_loc: Some((10, 2)),
    };
    assert_eq!(resolve_signature_insertion_line(&methods, 0, Some(&ctx)), 9);
    let near_fallback = SignatureCommandContext { original_loc: None, ..ctx };
    assert_eq!(resolve_signature_insertion_line(&methods, 5, Some(&near_fallback)), 4);
    let missing = SignatureCommandContext {
        class_name: "C".to_string(),
        method_name: "foo".to_string(),
        is_singleton: false,
        original_loc: None,
    };
    assert_eq!(resolve_signature_insertion_line(&methods, 7, Some(&missing)), 7);
    assert_eq!(resolve_signature_insertion_line(&methods, 7, None), 7);
}

#[test]
fn code_lens_visibility_and_ranges() {
    let mut m = method("foo", 1, 0);
    assert!(should_show_code_lens(&m));
    m.sig_annotated = true;
    assert!(!should_show_code_lens(&m));
    let range = source_location_to_range(SourceLocation { line: 0, column: 3 });
    assert_eq!(range, Range::new(Position::new(0, 3), Position::new(0, 3)));
    let range = source_location_to_range(SourceLocation { line: 4, column: 1 });
    assert_eq!(range.start, Position::new(3, 1));
    assert_eq!(insert_signature_comment("def a\n", 3, "-> nil"), None);
    assert_eq!(
        insert_signature_comment("def a\r\n  def b", 1, "-> nil").as_deref(),
        Some("def a\n  #: -> nil\n  def b\n")
    );
}

#[test]
fn top_level_segments_respect_brackets() {
    assert_eq!(
        split_top_level_segments("a, (b, c), [d, e] , {f,g}", ','),
        vec!["a", "(b, c)", "[d, e]", "{f,g}"]
    );
    assert_eq!(split_top_level_segments("a\u{2192}b \u{2192}c", '\u{2192}'), vec!["a", "b", "c"]);
    assert_eq!(split_top_level_segments("", ','), vec![""]);
    assert_eq!(split_top_level_segments("a) , b", ','), vec!["a)", "b"]);
}

#[test]
fn unresolved_slots_of_signatures() {
    assert!(contains_unresolved_marker("Array[untyped]"));
    assert!(!contains_unresolved_marker("Integer"));
    assert_eq!(hover_signature_unresolved_counts("(untyped x, Integer y) -> untyped"), (1, 1));
    assert_eq!(
        hover_signature_unresolved_counts("() -> String\n(untyped) -> untyped"),
        (1, 1)
    );
    assert_eq!(hover_signature_unresolved_counts("untyped"), (0, 1));
    assert_eq!(hover_signature_unresolved_counts("x: untyped -> Integer"), (1, 0));
    assert_eq!(hover_signature_unresolved_counts("  \n"), (0, 0));
    assert_eq!(hover_untyped_slots("(untyped, Hash[untyped, untyped]) -> untyped"), 3);
    assert_eq!(signature_union_count("(Integer | String) -> nil | bool"), 2);
    assert_eq!(signature_union_count(" | | "), 1);
}

#[test]
fn better_signature_display_ranking() {
    assert!(is_better_signature_display("(Integer) -> untyped", "(untyped) -> Integer"));
    assert!(!is_better_signature_display("(untyped) -> Integer", "(Integer) -> untyped"));
    assert!(is_better_signature_display("() -> Integer", "() -> untyped"));
    assert!(is_better_signature_display("() -> Integer | String", "() -> Integer"));
    let same = "(Integer) -> String";
    assert!(!is_better_signature_display(same, same));
}

#[test]
fn jsonc_comment_edge_cases() {
    assert_eq!(strip_jsonc_comments("a // c\nb"), "a \nb");
    assert_eq!(strip_jsonc_comments("x // y"), "x ");
    assert_eq!(
        strip_jsonc_comments("\"a\\\"//b\" // c\n"),
        "\"a\\\"//b\" \n"
    );
    assert_eq!(strip_jsonc_comments("a / b"), "a / b");
}

#[test]
fn user_facing_texts() {
    assert_eq!(
        missing_method_diagnostic_message("foo", "Bar#foo"),
        "Method `foo` not found for `Bar`"
    );
    assert_eq!(
        missing_method_diagnostic_message("foo", "foo"),
        "Method `foo` not found"
    );
    assert_eq!(
        missing_method_diagnostic_message("c", "A#B#c"),
        "Method `c` not found for `A#B`"
    );
    assert_eq!(
        method_completion_detail("Foo", "bar", true, "-> Integer"),
        "Foo.bar : -> Integer"
    );
    assert_eq!(
        method_completion_detail("Foo", "bar", false, "() -> nil"),
        "Foo#bar : () -> nil"
    );
    assert_eq!(completion_sort_text(7, "x"), "0007_x");
    assert_eq!(completion_sort_text(12345, "y"), "12345_y");
    assert_eq!(
        constant_completion_detail(ConstantCompletionKind::Class, "A::B", None),
        "class A::B"
    );
    assert_eq!(
        constant_completion_detail(ConstantCompletionKind::Module, "M", None),
        "module M"
    );
    assert_eq!(
        constant_completion_detail(ConstantCompletionKind::Constant, "A::B", Some("Integer")),
        "A::B : Integer"
    );
    assert_eq!(
        constant_completion_detail(ConstantCompletionKind::Constant, "A::B", None),
        "A::B"
    );
}

#[test]
fn analysis_workers_and_chunks() {
    assert_eq!(analysis_thread_count(Some(8), None, None), 6);
    assert_eq!(analysis_thread_count(Some(2), None, None), 2);
    assert_eq!(analysis_thread_count(Some(16), Some(6), None), 5);
    assert_eq!(analysis_thread_count(None, None, None), 2);
    assert_eq!(analysis_thread_count(Some(8), None, Some("12")), 12);
    assert_eq!(analysis_thread_count(Some(8), None, Some("+3")), 3);
    assert_eq!(analysis_thread_count(Some(8), None, Some("0")), 6);
    assert_eq!(analysis_thread_count(Some(8), None, Some("x")), 6);
    assert_eq!(analysis_thread_count(Some(8), None, Some(" 3")), 6);
    assert_eq!(skeleton_scan_chunk_size(1), 64);
    assert_eq!(skeleton_scan_chunk_size(8), 128);
    assert_eq!(skeleton_scan_chunk_size(100), 256);
    assert_eq!(skeleton_scan_chunk_size(usize::MAX), 256);
}

#[test]
fn code_lens_methods_keep_the_best_rendering_per_lens() {
    let methods = vec![
        ("A".to_string(), method("foo", 2, 2)),
        ("A".to_string(), method("bar", 5, 2)),
        ("A".to_string(), method("foo", 2, 2)),
        ("B".to_string(), method("foo", 2, 2)),
        ("A".to_string(), method("foo", 2, 2)),
    ];
    let displays = vec![
        "(untyped) -> untyped".to_string(),
        "() -> nil".to_string(),
        "(Integer) -> untyped".to_string(),
        "(untyped) -> untyped".to_string(),
        "(Integer) -> untyped".to_string(),
    ];
    let mut kept = select_code_lens_methods(&methods, &displays);
    kept.sort();
    assert_eq!(kept, vec![1, 2, 3]);
}

#[test]
fn accessor_pairs_take_the_last_reader_and_writer() {
    let methods = vec![
        ("A".to_string(), method("name", 3, 2)),
        ("A".to_string(), method("name=", 3, 2)),
        ("A".to_string(), method("age", 4, 2)),
        ("B".to_string(), method("name=", 3, 2)),
        ("A".to_string(), method("name", 3, 2)),
        ("A".to_string(), MethodSig { loc: None, ..method("name=", 0, 0) }),
    ];
    assert_eq!(accessor_code_lens_pairs(&methods), vec![(4, 1)]);
}

#[test]
fn visible_code_lens_ranges() {
    let source = "class A\n  def foo(x)\n  end\n  #: -> nil\n  def bar\n  end\nend\n";
    let foo = method("foo", 2, 2);
    assert_eq!(
        code_lens_visible_range(source, &foo),
        Some(Range::new(Position::new(1, 6), Position::new(1, 9)))
    );
    let bar = method("bar", 5, 2);
    assert_eq!(code_lens_visible_range(source, &bar), None);
    let mut annotated = method("foo", 2, 2);
    annotated.rbs_inline_annotated = true;
    assert_eq!(code_lens_visible_range(source, &annotated), None);
    let not_def = method("end", 3, 2);
    assert_eq!(code_lens_visible_range(source, &not_def), None);
}

#[test]
fn type_file_declarations_are_found_after_the_keyword() {
    let content = "# comment\nmodule Foo\n  class Bar < Base\n    def x: () -> void\n  end\nend\n";
    assert_eq!(
        find_decl_range_in_type_file(content, "Bar"),
        Some(Range { start: Position { line: 2, character: 8 }, end: Position { line: 2, character: 11 } })
    );
    assert_eq!(
        find_decl_range_in_type_file(content, "Foo"),
        Some(Range { start: Position { line: 1, character: 7 }, end: Position { line: 1, character: 10 } })
    );
}

#[test]
fn type_file_declarations_need_the_whole_name() {
    let content = "class Barn\nend\nclass Bar[T]\nend\n";
    assert_eq!(
        find_decl_range_in_type_file(content, "Bar"),
        Some(Range { start: Position { line: 2, character: 6 }, end: Position { line: 2, character: 9 } })
    );
    assert_eq!(find_decl_range_in_type_file("class Other\n", "Bar"), None);
    assert_eq!(find_decl_range_in_type_file("Bar\nclassBar\n", "Bar"), None);
}

#[test]
fn display_cache_keeps_the_newest_entry_per_file() {
    let mut cache: DisplayCache<u64, &str> = DisplayCache::new();
    assert!(cache.is_empty());
    cache.insert("a.rb".to_string(), 1, "first");
    cache.insert("b.rb".to_string(), 1, "second");
    cache.insert("a.rb".to_string(), 2, "third");
    assert_eq!(cache.len(), 2);
    assert_eq!(cache.most_recent(), Some(&"third"));
    assert_eq!(cache.get_for_file("a.rb"), Some(&"third"));
    assert_eq!(cache.get("a.rb", &2), Some(&"third"));
    assert_eq!(cache.get("a.rb", &1), None);
    assert_eq!(cache.get("b.rb", &1), Some(&"second"));
    assert_eq!(cache.get_for_file("c.rb"), None);
}

#[test]
fn display_cache_drops_the_oldest_beyond_its_limit() {
    let mut cache: DisplayCache<u64, usize> = DisplayCache::new();
    for i in 0..6usize {
        cache.insert(format!("f{i}.rb"), 0, i);
    }
    assert_eq!(cache.len(), DISPLAY_RESULT_CACHE_LIMIT);
    assert_eq!(cache.get_for_file("f0.rb"), None);
    assert_eq!(cache.get_for_file("f1.rb"), None);
    assert_eq!(cache.get_for_file("f2.rb"), Some(&2));
    assert_eq!(cache.most_recent(), Some(&5));
    cache.clear();
    assert!(cache.is_empty());
    assert_eq!(cache.most_recent(), None);
}

fn hover_facts(display: Option<&str>, untyped: bool, parts: &[&str], literals: usize) -> HoverFacts {
    HoverFacts {
        display_rbs: display.map(|d| d.to_string()),
        untyped,
        has_type_hole: false,
        can_enrich_from_workspace: false,
        widened_parts: parts.iter().map(|p| p.to_string()).collect(),
        literal_specificity: literals,
    }
}

#[test]
fn hover_results_with_a_signature_or_fewer_untyped_slots_win() {
    let with_sig = hover_facts(Some("(Integer) -> String"), false, &[], 0);
    let without = hover_facts(None, false, &["String"], 0);
    assert!(is_better_hover_result(&with_sig, &without, false));
    assert!(!is_better_hover_result(&without, &with_sig, false));
    let untyped_sig = hover_facts(Some("(untyped) -> untyped"), false, &[], 0);
    assert_eq!(hover_untyped_count(&untyped_sig), 2);
    assert_eq!(hover_untyped_count(&hover_facts(None, true, &[], 0)), 1);
    assert!(is_better_hover_result(&with_sig, &untyped_sig, false));
    assert!(!is_better_hover_result(&with_sig, &with_sig, true));
}

#[test]
fn hover_types_rank_by_typedness_members_and_literals() {
    let typed = hover_facts(None, false, &["Integer"], 0);
    let untyped = hover_facts(None, true, &["untyped"], 0);
    assert!(is_better_hover_result(&typed, &untyped, false));
    let wider = hover_facts(None, false, &["Integer", "String"], 0);
    assert!(is_better_hover_result(&wider, &typed, false));
    assert!(!is_better_hover_result(&typed, &wider, false));
    let literal = hover_facts(None, false, &["Integer"], 1);
    assert!(is_better_hover_result(&literal, &typed, false));
    assert!(!is_better_hover_result(&literal, &typed, true));
    let other = hover_facts(None, false, &["Symbol"], 0);
    assert!(!is_better_hover_result(&other, &typed, false));
}

#[test]
fn hover_fallback_is_chosen_only_when_better() {
    let primary = hover_facts(None, true, &["untyped"], 0);
    let fallback = hover_facts(Some("() -> Integer"), false, &[], 0);
    assert_eq!(choose_better_hover_result(Some(&primary), Some(&fallback), false), Some(HoverPick::Fallback));
    assert_eq!(choose_better_hover_result(Some(&fallback), Some(&primary), false), Some(HoverPick::Primary));
    assert_eq!(choose_better_hover_result(None, Some(&primary), false), Some(HoverPick::Fallback));
    assert_eq!(choose_better_hover_result(None, None, false), None);
    assert!(!hover_needs_workspace_fallback(&fallback));
    assert!(hover_needs_workspace_fallback(&hover_facts(Some("(untyped) -> void"), false, &[], 0)));
    let mut enrich = hover_facts(None, false, &[], 0);
    enrich.can_enrich_from_workspace = true;
    assert!(hover_needs_workspace_fallback(&enrich));
}

#[test]
fn definition_locations_are_unique_by_document_and_start() {
    let at = |uri: &str, line: u32, ch: u32, end: u32| Location {
        uri: uri.to_string(),
        range: Range { start: Position { line, character: ch }, end: Position { line, character: end } },
    };
    let mut locations = Vec::new();
    push_unique_location(&mut locations, at("file:///a.rb", 1, 2, 5));
    push_unique_location(&mut locations, at("file:///a.rb", 1, 2, 9));
    push_unique_location(&mut locations, at("file:///b.rb", 1, 2, 5));
    push_unique_location(&mut locations, at("file:///a.rb", 1, 3, 5));
    assert_eq!(locations.len(), 3);
    assert_eq!(locations[0].range.end.character, 5);
    assert_eq!(locations[1].uri, "file:///b.rb");
}

#[test]
fn diagnostics_carry_their_kind_range_and_severity() {
    let d = span_diagnostic("a\nbc", 2, 4, DiagnosticKind::MissingMethod, "m".to_string());
    assert_eq!(d.range, Range { start: Position { line: 1, character: 0 }, end: Position { line: 1, character: 2 } });
    assert_eq!(d.severity, DiagnosticSeverity::Warning);
    assert_eq!(diagnostic_code(d.kind), "tyda.missingMethod");
    assert_eq!(diagnostic_code(DiagnosticKind::ArgumentTypeMismatch), "tyda.argumentTypeMismatch");
    assert_eq!(diagnostic_code(DiagnosticKind::UnresolvedConstant), "tyda.unresolvedConstant");
    assert_eq!(diagnostic_code(DiagnosticKind::UnusedIgnore), "tyda.unusedIgnore");
    assert_eq!(diagnostic_source(), "Tyda");
    let e = span_diagnostic("x", 0, 99, DiagnosticKind::ArgumentTypeMismatch, "e".to_string());
    assert_eq!(e.severity, DiagnosticSeverity::Error);
    assert_eq!(e.range.end, Position { line: 0, character: 1 });
    assert_eq!(unused_ignore_message(), "Diagnostic ignore comment does not match any diagnostic on this line");
}

#[test]
fn diagnostics_drop_suppressed_and_workspace_dependent_ones() {
    let source = "a\nb\nc\n";
    let ds = vec![
        span_diagnostic(source, 0, 1, DiagnosticKind::MissingMethod, "one".to_string()),
        span_diagnostic(source, 2, 3, DiagnosticKind::ArgumentTypeMismatch, "two".to_string()),
        span_diagnostic(source, 4, 5, DiagnosticKind::UnresolvedConstant, "three".to_string()),
    ];
    let kept = retain_published_diagnostics(ds.clone(), &vec![false, false, false], true);
    assert_eq!(kept.len(), 1);
    assert_eq!(kept[0].message, "two");
    let kept = retain_published_diagnostics(ds, &vec![false, true, false], false);
    let messages: Vec<&str> = kept.iter().map(|d| d.message.as_str()).collect();
    assert_eq!(messages, vec!["one", "three"]);
}

#[test]
fn signature_edit_reproduces_the_inserted_comment() {
    let source = "class A\n  def foo\n  end\nend\n";
    let text = signature_comment_edit_text(source, 1, "() -> void");
    assert_eq!(text, "  #: () -> void\n");
    let edited = apply_content_changes(
        source,
        &[ContentChange {
            range: Some(Range::new(Position::new(1, 0), Position::new(1, 0))),
            text: text.clone(),
        }],
    );
    assert_eq!(edited, insert_signature_comment(source, 1, "() -> void"));
    assert_eq!(signature_comment_edit_text(source, 9, "x"), "#: x\n");
}

#[test]
fn signature_displays_with_reversed_parentheses_are_not_countable() {

    assert!(signature_display_countable("(Integer) -> String\n() -> untyped"));
    assert!(signature_display_countable("untyped"));
    assert!(!signature_display_countable(") x (-> y"));
}

#[test]
fn a_scan_started_before_a_reset_does_not_commit() {
    let mut state = ScanState::new();
    let generation = state.try_start_scan().unwrap();
    assert_eq!(state.try_start_scan(), None);
    state.reset_scan(true);
    assert!(!state.commit_scan(generation));
    assert!(!state.finish_scan(generation, true));
    assert!(!state.scanned);
    assert!(!state.fully_discovered);
    let current = state.try_start_scan().unwrap();
    assert_eq!(current, generation + 1);
    assert!(state.finish_scan(current, true));
    assert!(state.commit_scan(current));
    assert!(state.scanned && !state.in_progress && state.fully_discovered);
    assert_eq!(state.try_start_scan(), None);
    let mut failed = ScanState::new();
    let g = failed.try_start_scan().unwrap();
    failed.abandon_scan(g);
    assert!(!failed.in_progress);
    assert_eq!(failed.try_start_scan(), Some(g));
}

#[test]
fn later_changes_supersede_delayed_work() {
    use_epochs();
}

fn use_epochs() {
    let first = next_epoch(None);
    assert_eq!(first, 1);
    assert!(is_latest_epoch(Some(first), first));
    let second = next_epoch(Some(first));
    assert_eq!(second, 2);
    assert!(!is_latest_epoch(Some(second), first));
    assert!(!is_latest_epoch(None, first));
}

#[test]
fn watched_files_are_classified_by_suffix() {
    assert_eq!(watched_file_kind("/w/sig/a.rbs"), WatchedFileKind::TypeFile);
    assert_eq!(watched_file_kind("/w/sorbet/a.rbi"), WatchedFileKind::TypeFile);
    assert_eq!(watched_file_kind("/w/app/a.rb"), WatchedFileKind::RubySource);
    assert_eq!(watched_file_kind("/w/README.md"), WatchedFileKind::Other);
    assert_eq!(watched_file_kind("rb"), WatchedFileKind::Other);
}

#[test]
fn definition_lookup_skips_member_separators() {
    let source = "a.b A::B";
    assert!(definition_blocked_at(source, 1));
    assert!(!definition_blocked_at(source, 0));
    assert!(definition_blocked_at(source, 5));
    assert!(definition_blocked_at(source, 6));
    assert!(!definition_blocked_at(source, 7));
    assert!(!definition_blocked_at(source, 99));
}

#[test]
fn lens_text_takes_the_hover_signature_only_when_better() {
    assert_eq!(hover_display_candidate("foo", "foo: (String x) -> String"), "(String x) -> String");
    assert_eq!(hover_display_candidate("foo", "(String x) -> String"), "(String x) -> String");
    assert_eq!(hover_display_candidate("foo", "food: -> untyped"), "food: -> untyped");
    assert_eq!(hover_display_candidate("foo", "foo:"), "foo:");
    assert_eq!(
        code_lens_text_with_hover("foo", "(untyped x) -> untyped", Some("foo: (String x) -> String")),
        "(String x) -> String"
    );
    assert_eq!(
        code_lens_text_with_hover("foo", "(String x) -> untyped", Some("foo: (untyped x) -> untyped")),
        "(String x) -> untyped"
    );
    assert_eq!(code_lens_text_with_hover("foo", "() -> untyped", None), "() -> untyped");
}

#[test]
fn definition_hovers_show_the_callable_signature_or_the_parameter_type() {
    let callable = "(String x) -> String";
    assert_eq!(hover_enrichment("foo", Some("untyped"), true, "foo", callable, None), HoverEnrichment::CallableSignature);
    assert_eq!(hover_enrichment("foo", Some(callable), false, "foo", callable, None), HoverEnrichment::Keep);
    assert_eq!(hover_enrichment("foo", Some(callable), true, "foo", callable, None), HoverEnrichment::CallableSignature);
    assert_eq!(hover_enrichment("x", None, true, "foo", callable, Some(true)), HoverEnrichment::ParameterType);
    assert_eq!(hover_enrichment("x", None, true, "foo", callable, Some(false)), HoverEnrichment::Keep);
    assert_eq!(hover_enrichment("y", None, true, "foo", callable, None), HoverEnrichment::Keep);
}

#[test]
fn display_probes_take_the_first_two_models_needing_the_workspace() {
    let files: Vec<String> = vec![
        "/w/app/models/zeta.rb".to_string(),
        "/w/lib/alpha.rb".to_string(),
        "/w/app/models/beta.rb".to_string(),
        "/w/app/models/alpha.rb".to_string(),
        "/w/app/models/gamma.rb".to_string(),
    ];
    let needs = vec![true, true, true, false, true];
    assert_eq!(
        choose_display_probe_files(&files, &needs),
        Some(("/w/app/models/beta.rb".to_string(), "/w/app/models/gamma.rb".to_string()))
    );
    assert_eq!(choose_display_probe_files(&files[..1], &needs[..1]), None);
    assert_eq!(choose_display_probe_files(&files, &[false, true, false, false, true]), None);
}

#[test]
fn only_renderings_that_get_compared_must_be_countable() {
    let alone = ("A".to_string(), method("solo", 2, 2));
    let twin = ("A".to_string(), method("pair", 3, 2));
    let methods = vec![alone.clone(), twin.clone(), twin.clone()];
    let broken = ") x (-> y".to_string();
    let fine = "() -> untyped".to_string();
    assert!(lens_displays_countable(&methods, &[broken.clone(), fine.clone(), fine.clone()]));
    assert!(!lens_displays_countable(&methods, &[fine.clone(), broken.clone(), fine.clone()]));
}
