use cargo_wrap_comments::{
    can_combine, hierarchical_marker_width, parse_comment_line, process_content, resolve_width, effective_quiet,
    starts_with_hierarchical_marker, tokenize_preserving_backticks, wrap_text, CommentLine,
};

#[test]
fn test_parse_double_slash() {
    let c = parse_comment_line("    // hello world").unwrap();
    assert_eq!(c.indent, "    ");
    assert_eq!(c.marker, "//");
    assert_eq!(c.text, "hello world");
}

#[test]
fn test_parse_triple_slash() {
    let c = parse_comment_line("/// doc comment").unwrap();
    assert_eq!(c.indent, "");
    assert_eq!(c.marker, "///");
    assert_eq!(c.text, "doc comment");
}

#[test]
fn test_parse_bang() {
    let c = parse_comment_line("//! module doc").unwrap();
    assert_eq!(c.marker, "//!");
    assert_eq!(c.text, "module doc");
}

#[test]
fn test_parse_not_comment() {
    assert!(parse_comment_line("let x = 5;").is_none());
}

#[test]
fn test_blank_comment() {
    let c = parse_comment_line("//").unwrap();
    assert_eq!(c.text, "");
}

#[test]
fn test_hierarchical_markers() {
    assert!(starts_with_hierarchical_marker("# heading"));
    assert!(starts_with_hierarchical_marker("* bullet"));
    assert!(starts_with_hierarchical_marker("- dash"));
    assert!(starts_with_hierarchical_marker("1. numbered"));
    assert!(starts_with_hierarchical_marker("A. lettered"));
    assert!(starts_with_hierarchical_marker("a. lower"));
    assert!(starts_with_hierarchical_marker("```code"));
    assert!(!starts_with_hierarchical_marker("normal text"));
}

#[test]
fn test_combine_basic() {
    let a = CommentLine {
        indent: "".into(),
        marker: "//".into(),
        text: "hello".into(),
    };
    let b = CommentLine {
        indent: "".into(),
        marker: "//".into(),
        text: "world".into(),
    };
    assert!(can_combine(&a, &b));
}

#[test]
fn test_no_combine_different_markers() {
    let a = CommentLine {
        indent: "".into(),
        marker: "//".into(),
        text: "hello".into(),
    };
    let b = CommentLine {
        indent: "".into(),
        marker: "///".into(),
        text: "world".into(),
    };
    assert!(!can_combine(&a, &b));
}

#[test]
fn test_no_combine_blank() {
    let a = CommentLine {
        indent: "".into(),
        marker: "//".into(),
        text: "hello".into(),
    };
    let b = CommentLine {
        indent: "".into(),
        marker: "//".into(),
        text: "".into(),
    };
    assert!(!can_combine(&a, &b));
}

#[test]
fn test_no_combine_hierarchical() {
    let a = CommentLine {
        indent: "".into(),
        marker: "//".into(),
        text: "hello".into(),
    };
    let b = CommentLine {
        indent: "".into(),
        marker: "//".into(),
        text: "- bullet".into(),
    };
    assert!(!can_combine(&a, &b));
}

#[test]
fn test_wrap_text() {
    let result = wrap_text("hello world foo bar baz", "// ", "// ", 15);
    assert_eq!(result, vec!["// hello world", "// foo bar baz"]);
}

#[test]
fn test_wrap_long_word() {
    let result = wrap_text("superlongword", "// ", "// ", 10);
    assert_eq!(result, vec!["// superlongword"]);
}

#[test]
fn test_combines_and_wraps() {
    let input = "// This is a long comment that\n// should be combined\n";
    let (output, changes) = process_content(input, 40);
    assert_eq!(
        output,
        "// This is a long comment that should be\n// combined\n"
    );
    assert!(!changes.is_empty());
}

#[test]
fn test_preserves_blank_comment() {
    let input = "// line one\n//\n// line two\n";
    let (output, _) = process_content(input, 132);
    assert_eq!(output, input);
}

#[test]
fn test_preserves_non_comments() {
    let input = "let x = 5;\nlet y = 10;\n";
    let (output, changes) = process_content(input, 132);
    assert_eq!(output, input);
    assert!(changes.is_empty());
}

#[test]
fn test_different_indentation_not_combined() {
    let input = "    // indented\n// not indented\n";
    let (output, _) = process_content(input, 132);
    assert_eq!(output, input);
}

#[test]
fn test_no_combine_code_block() {
    let input = "// some text\n// ```rust\n// code here\n// ```\n";
    let (output, _) = process_content(input, 132);
    assert_eq!(output, input);
}

#[test]
fn test_no_wrap_inside_code_block() {
    let input = "// ```\n// this is a very long line inside a code block that should not be wrapped even though it exceeds the width limit\n// ```\n";
    let (output, changes) = process_content(input, 40);
    assert_eq!(output, input);
    assert!(changes.is_empty());
}

#[test]
fn test_no_combine_inside_code_block() {
    let input = "// ```\n// line one\n// line two\n// ```\n";
    let (output, changes) = process_content(input, 132);
    assert_eq!(output, input);
    assert!(changes.is_empty());
}

#[test]
fn test_resumes_after_code_block() {
    let input = "// ```\n// code\n// ```\n// hello\n// world\n";
    let (output, _) = process_content(input, 132);
    assert_eq!(output, "// ```\n// code\n// ```\n// hello world\n");
}

#[test]
fn test_hierarchical_marker_width() {
    assert_eq!(hierarchical_marker_width("- item"), 2);
    assert_eq!(hierarchical_marker_width("* item"), 2);
    assert_eq!(hierarchical_marker_width("1. item"), 3);
    assert_eq!(hierarchical_marker_width("A. item"), 3);
    assert_eq!(hierarchical_marker_width("# heading"), 2);
    assert_eq!(hierarchical_marker_width("## heading"), 3);
    assert_eq!(hierarchical_marker_width("### heading"), 4);
    assert_eq!(hierarchical_marker_width("normal text"), 0);
    assert_eq!(hierarchical_marker_width("```code"), 0);
    assert_eq!(hierarchical_marker_width("10. item"), 4);
    assert_eq!(hierarchical_marker_width("100. item"), 5);
}

#[test]
fn test_multi_digit_hierarchical_marker() {
    assert!(starts_with_hierarchical_marker("10. tenth item"));
    assert!(starts_with_hierarchical_marker("100. hundredth"));
    assert!(!starts_with_hierarchical_marker("10x not a marker"));
}

#[test]
fn test_no_combine_multi_digit_numbered() {
    let input = "// first line\n// 10. tenth item\n";
    let (output, _) = process_content(input, 132);
    assert_eq!(output, input);
}

#[test]
fn test_process_content_wraps_multi_digit_numbered_with_indent() {
    let input =
        "// 10. This is a very long numbered item that should wrap with proper indentation\n";
    let (output, _) = process_content(input, 40);
    assert_eq!(
        output,
        "// 10. This is a very long numbered item\n//     that should wrap with proper\n//     indentation\n"
    );
}

#[test]
fn test_combine_strips_hanging_indent() {
    let input = "// - bullet point\n//   continuation text\n";
    let (output, _) = process_content(input, 132);
    assert_eq!(output, "// - bullet point continuation text\n");
}

#[test]
fn test_combine_strips_hanging_indent_numbered() {
    let input = "// 1. first item\n//    more text here\n";
    let (output, _) = process_content(input, 132);
    assert_eq!(output, "// 1. first item more text here\n");
}

#[test]
fn test_wrap_hierarchical_marker_indent() {
    let result = wrap_text("- this is a long bullet point text", "// ", "//   ", 30);
    assert_eq!(
        result,
        vec!["// - this is a long bullet", "//   point text"]
    );
}

#[test]
fn test_wrap_numbered_list_indent() {
    let result = wrap_text("1. this is a long numbered item text", "// ", "//    ", 30);
    assert_eq!(
        result,
        vec!["// 1. this is a long numbered", "//    item text"]
    );
}

#[test]
fn test_process_content_wraps_bullet_with_indent() {
    let input =
        "// - This is a very long bullet point that should wrap with proper indentation\n";
    let (output, changes) = process_content(input, 40);
    assert_eq!(
        output,
        "// - This is a very long bullet point\n//   that should wrap with proper\n//   indentation\n"
    );
    assert!(!changes.is_empty());
}

#[test]
fn test_process_content_wraps_numbered_with_indent() {
    let input =
        "// 1. This is a very long numbered item that should wrap with proper indentation\n";
    let (output, _) = process_content(input, 40);
    assert_eq!(
        output,
        "// 1. This is a very long numbered item\n//    that should wrap with proper\n//    indentation\n"
    );
}

#[test]
fn test_no_trailing_spaces_blank_comment() {
    let input = "//\n";
    let (output, _) = process_content(input, 80);
    for line in output.lines() {
        assert_eq!(line, line.trim_end(), "trailing spaces in: {:?}", line);
    }
}

#[test]
fn test_no_trailing_spaces_after_wrap() {
    let input =
        "// This is a long comment that needs to be wrapped because it exceeds the width\n";
    let (output, _) = process_content(input, 40);
    for line in output.lines() {
        assert_eq!(line, line.trim_end(), "trailing spaces in: {:?}", line);
    }
}

#[test]
fn test_no_trailing_spaces_doc_comment() {
    let input =
        "///\n/// Some doc text that is long enough to wrap around to the next line easily\n";
    let (output, _) = process_content(input, 40);
    for line in output.lines() {
        assert_eq!(line, line.trim_end(), "trailing spaces in: {:?}", line);
    }
}

#[test]
fn test_no_trailing_spaces_hierarchical_wrap() {
    let input = "// - A bullet point that is long enough to be wrapped across multiple lines\n";
    let (output, _) = process_content(input, 40);
    for line in output.lines() {
        assert_eq!(line, line.trim_end(), "trailing spaces in: {:?}", line);
    }
}

#[test]
fn test_tokenize_preserving_backticks() {
    assert_eq!(
        tokenize_preserving_backticks("use `foo bar` here"),
        vec!["use", "`foo bar`", "here"]
    );
    assert_eq!(
        tokenize_preserving_backticks("use ``foo bar`` here"),
        vec!["use", "``foo bar``", "here"]
    );
    assert_eq!(
        tokenize_preserving_backticks("no backticks here"),
        vec!["no", "backticks", "here"]
    );
    assert_eq!(
        tokenize_preserving_backticks("`start` and `end`"),
        vec!["`start`", "and", "`end`"]
    );
}

#[test]
fn test_wrap_preserves_backtick_span() {
    // Width 18: available = 15, "use `foo bar`" = 13 fits, "for" = 13+1+3=17 > 15 → wraps
    let result = wrap_text("use `foo bar` for things", "// ", "// ", 18);
    assert_eq!(result, vec!["// use `foo bar`", "// for things"]);
}

#[test]
fn test_wrap_preserves_double_backtick_span() {
    // Width 20: available = 17, "use ``foo bar``" = 15 fits, "for" = 15+1+3=19 > 17 → wraps
    let result = wrap_text("use ``foo bar`` for things", "// ", "// ", 20);
    assert_eq!(result, vec!["// use ``foo bar``", "// for things"]);
}

#[test]
fn test_no_break_inside_backticks_in_comment() {
    let input = "// This uses `long code span` and should not break inside backticks\n";
    let (output, _) = process_content(input, 35);
    for line in output.lines() {
        let text = line.trim_start_matches("//").trim();
        let backtick_count = text.chars().filter(|&c| c == '`').count();
        assert_eq!(backtick_count % 2, 0, "unmatched backtick in: {line:?}");
    }
}

#[test]
fn test_tokenize_single_backtick_not_closed_by_double() {
    // ` `` ` is a single-backtick span containing `` (space-double-backtick-space)
    assert_eq!(
        tokenize_preserving_backticks("` `` ` rest"),
        vec!["` `` `", "rest"]
    );
}

#[test]
fn test_tokenize_mixed_backtick_delimiters() {
    // `` ` `` is a double-backtick span containing a single backtick ` `` ` is a
    // single-backtick span containing double backticks
    assert_eq!(
        tokenize_preserving_backticks("`` ` `` or ` `` ` end"),
        vec!["`` ` ``", "or", "` `` `", "end"]
    );
}

#[test]
fn test_wrap_does_not_split_mixed_backtick_spans() {
    // `` ` `` and ` `` ` are complete backtick spans; wrapping must not split them
    let input = "/// keeps (`` ` `` or ` `` `) as single tokens even if they contain spaces.\n";
    let (output, _) = process_content(input, 60);
    let lines: Vec<&str> = output.lines().collect();
    // The wrap must not split inside the ` `` ` span
    assert!(
        !lines
            .iter()
            .any(|l| l.ends_with("` ``") || l.ends_with("`` `")),
        "backtick span was split across lines: {lines:?}"
    );
}

#[test]
fn test_resolve_width_cli_overrides() {
    assert_eq!(resolve_width(Some(80), None), 80);
}

#[test]
fn test_resolve_width_default() {
    assert!(resolve_width(None, None) > 0);
}

#[test]
fn test_verbose_overrides_quiet() {
    // When both verbose and quiet are set, verbose wins (quiet becomes false).
    let verbose = true;
    let quiet_flag = true;
    let effective_quiet = effective_quiet(quiet_flag, verbose);
    assert!(!effective_quiet);
}
