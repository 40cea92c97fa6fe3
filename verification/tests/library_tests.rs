use cargo_wrap_comments::{
    can_combine, config_max_width, config_width_from_entry, effective_quiet,
    hierarchical_marker_width, parse_comment_line, process_content, render_changes,
    resolve_width, run_stdin, search_step, starts_with_hierarchical_marker,
    tokenize_preserving_backticks, width_origin, wrap_text, CommentLine, ConfigFile, SearchStep,
    WidthOrigin, DEFAULT_WIDTH, locate_config, DirProbe,
};

fn comment(indent: &str, marker: &str, text: &str) -> CommentLine {
    CommentLine { indent: indent.into(), marker: marker.into(), text: text.into() }
}

// --- configuration (toml) ---

#[test]
fn config_reads_integer_max_width() {
    assert_eq!(config_max_width("max_width = 77\n"), Some(77));
    assert_eq!(config_max_width("edition = \"2021\"\nmax_width = 88\n"), Some(88));
}

#[test]
fn config_without_max_width_gives_none() {
    assert_eq!(config_max_width("edition = \"2021\"\n"), None);
    assert_eq!(config_max_width(""), None);
}

#[test]
fn config_non_integer_max_width_gives_none() {
    assert_eq!(config_max_width("max_width = \"wide\"\n"), None);
    assert_eq!(config_max_width("max_width = 80.5\n"), None);
}

#[test]
fn config_invalid_toml_gives_none() {
    assert_eq!(config_max_width("max_width = \n"), None);
    assert_eq!(config_max_width("[[[\n"), None);
}

#[test]
fn config_nested_max_width_is_not_top_level() {
    assert_eq!(config_max_width("[section]\nmax_width = 60\n"), None);
}

#[test]
fn config_negative_width_converts_like_as() {
    assert_eq!(config_max_width("max_width = -1\n"), Some(-1i64 as usize));
    assert_eq!(config_width_from_entry(Some(-1)), Some(-1i64 as usize));
}

#[test]
fn config_entry_conversion() {
    assert_eq!(config_width_from_entry(Some(40)), Some(40));
    assert_eq!(config_width_from_entry(None), None);
}

#[test]
fn search_prefers_dotted_file() {
    assert!(matches!(search_step(true, true, false, true), SearchStep::Read(ConfigFile::Dotted)));
    assert!(matches!(search_step(true, false, true, false), SearchStep::Read(ConfigFile::Dotted)));
    assert!(matches!(search_step(false, true, true, true), SearchStep::Read(ConfigFile::Plain)));
}

#[test]
fn search_stops_at_home_and_root() {
    assert!(matches!(search_step(false, false, true, true), SearchStep::Stop));
    assert!(matches!(search_step(false, false, false, false), SearchStep::Stop));
    assert!(matches!(search_step(false, false, false, true), SearchStep::Ascend));
}

#[test]
fn config_file_names() {
    assert_eq!(ConfigFile::Dotted.file_name(), ".rustfmt.toml");
    assert_eq!(ConfigFile::Plain.file_name(), "rustfmt.toml");
}

#[test]
fn width_precedence() {
    assert_eq!(resolve_width(Some(90), Some(77)), 90);
    assert_eq!(resolve_width(None, Some(77)), 77);
    assert_eq!(resolve_width(None, None), 100);
    assert_eq!(DEFAULT_WIDTH, 100);
    assert!(matches!(width_origin(Some(90), Some(77)), WidthOrigin::CommandLine));
    assert!(matches!(width_origin(None, Some(77)), WidthOrigin::ConfigFile));
    assert!(matches!(width_origin(None, None), WidthOrigin::Default));
}

#[test]
fn quiet_only_without_verbose() {
    assert!(effective_quiet(true, false));
    assert!(!effective_quiet(true, true));
    assert!(!effective_quiet(false, false));
    assert!(!effective_quiet(false, true));
}

// --- parsing and markers ---

#[test]
fn parse_strips_only_one_space() {
    let c = parse_comment_line("//   two spaces").unwrap();
    assert_eq!(c.text, "  two spaces");
    let c = parse_comment_line("//no space").unwrap();
    assert_eq!(c.text, "no space");
}

#[test]
fn parse_unicode_whitespace_indent() {
    let c = parse_comment_line("\u{3000}\t// wide").unwrap();
    assert_eq!(c.indent, "\u{3000}\t");
    assert_eq!(c.marker, "//");
    assert_eq!(c.text, "wide");
}

#[test]
fn parse_longest_marker_first() {
    let c = parse_comment_line("//// four").unwrap();
    assert_eq!(c.marker, "///");
    assert_eq!(c.text, "/ four");
    assert!(parse_comment_line("/ x").is_none());
    assert!(parse_comment_line("   ").is_none());
}

#[test]
fn marker_edge_cases() {
    assert!(!starts_with_hierarchical_marker(""));
    assert!(!starts_with_hierarchical_marker("A"));
    assert!(!starts_with_hierarchical_marker("12"));
    assert!(starts_with_hierarchical_marker("12."));
    assert!(!starts_with_hierarchical_marker("ab. x"));
    assert!(!starts_with_hierarchical_marker("``not fence"));
    assert_eq!(hierarchical_marker_width("#nospace"), 0);
    assert_eq!(hierarchical_marker_width("-x"), 0);
    assert_eq!(hierarchical_marker_width("1."), 0);
    assert_eq!(hierarchical_marker_width("a. x"), 3);
    assert_eq!(hierarchical_marker_width(""), 0);
}

#[test]
fn marker_width_implies_marker_on_examples() {
    for t in ["- a", "* b", "# c", "### d", "A. e", "7. f", "123. g", "x", "", "#", "9.x"] {
        if hierarchical_marker_width(t) > 0 {
            assert!(starts_with_hierarchical_marker(t), "{t:?}");
        }
        assert!(hierarchical_marker_width(t) <= t.len());
    }
}

#[test]
fn combine_requires_same_indent() {
    assert!(!can_combine(&comment("  ", "//", "a"), &comment("", "//", "b")));
}

#[test]
fn combine_refuses_fence_in_either_line() {
    assert!(!can_combine(&comment("", "//", "see ```x```"), &comment("", "//", "more")));
    assert!(!can_combine(&comment("", "//", "text"), &comment("", "//", "see ```x```")));
}

#[test]
fn blank_current_line_never_combines() {
    assert!(!can_combine(&comment("", "//", ""), &comment("", "//", "word")));
}

// --- tokenizing and wrapping ---

#[test]
fn tokenize_splits_on_ascii_whitespace_only() {
    assert_eq!(tokenize_preserving_backticks("a\tb\r\nc  d"), vec!["a", "b", "c", "d"]);
    assert_eq!(tokenize_preserving_backticks("a\u{a0}b"), vec!["a\u{a0}b"]);
    assert!(tokenize_preserving_backticks("   ").is_empty());
}

#[test]
fn tokenize_unclosed_span_runs_to_end() {
    assert_eq!(tokenize_preserving_backticks("a `b c d"), vec!["a", "`b c d"]);
}

#[test]
fn tokenize_plain_text_rejoins() {
    let text = "one two  three\tfour";
    let tokens = tokenize_preserving_backticks(text);
    let joined: String = tokens.concat();
    let expected: String = text.chars().filter(|c| !c.is_ascii_whitespace()).collect();
    assert_eq!(joined, expected);
    assert!(tokens.iter().all(|t| !t.is_empty()));
}

#[test]
fn wrap_empty_text_gives_trimmed_prefix() {
    assert_eq!(wrap_text("   ", "// ", "// ", 10), vec!["//"]);
}

#[test]
fn wrap_counts_bytes_not_chars() {
    // "é é" is 5 bytes wide, more than the 4 bytes available behind "// ".
    assert_eq!(wrap_text("é é", "// ", "// ", 7), vec!["// é", "// é"]);
    assert_eq!(wrap_text("e e", "// ", "// ", 7), vec!["// e e"]);
}

#[test]
fn wrap_tiny_width_puts_each_word_alone() {
    assert_eq!(wrap_text("a b c", "// ", "// ", 1), vec!["// a", "// b", "// c"]);
}

#[test]
fn wrap_multiword_lines_fit() {
    let text = "the quick brown fox jumps over the lazy dog again and again";
    for width in [12usize, 20, 25, 33] {
        let lines = wrap_text(text, "// ", "//   ", width);
        let mut words = Vec::new();
        for (i, line) in lines.iter().enumerate() {
            let body = if i == 0 { &line[3..] } else { &line[5..] };
            let n = body.split(' ').count();
            if n > 1 {
                assert!(line.len() <= width, "{line:?} wider than {width}");
            }
            assert_eq!(line.as_str(), line.trim_end());
            words.extend(body.split(' ').map(|w| w.to_string()));
        }
        let expected: Vec<String> = text.split(' ').map(|w| w.to_string()).collect();
        assert_eq!(words, expected);
    }
}

#[test]
fn wrap_is_greedy() {
    // "aa bb" fits in 5; "cc" would not fit after it.
    assert_eq!(wrap_text("aa bb cc dd", "", "", 5), vec!["aa bb", "cc dd"]);
}

// --- whole content ---

#[test]
fn process_empty_content() {
    let (out, changes) = process_content("", 80);
    assert_eq!(out, "");
    assert!(changes.is_empty());
}

#[test]
fn process_crlf_becomes_lf() {
    let (out, changes) = process_content("let a = 1;\r\nlet b = 2;\r\n", 80);
    assert_eq!(out, "let a = 1;\nlet b = 2;\n");
    assert!(changes.is_empty());
}

#[test]
fn process_blank_comment_trailing_spaces_removed() {
    let (out, changes) = process_content("//   \n", 80);
    assert_eq!(out, "//\n");
    assert_eq!(changes.len(), 1);
    assert_eq!(changes[0].0, 1);
    assert_eq!(changes[0].1, vec!["//   "]);
    assert_eq!(changes[0].2, vec!["//"]);
}

#[test]
fn process_reports_change_line_numbers() {
    let input = "fn a() {}\n// one\n// two\nfn b() {}\n// three\n// four\n";
    let (out, changes) = process_content(input, 80);
    assert_eq!(out, "fn a() {}\n// one two\nfn b() {}\n// three four\n");
    assert_eq!(changes.len(), 2);
    assert_eq!(changes[0], (2, vec!["// one".to_string(), "// two".to_string()], vec!["// one two".to_string()]));
    assert_eq!(changes[1].0, 5);
}

#[test]
fn process_combines_hanging_indent_text() {
    let (out, _) = process_content("/// first\n///    second\n", 80);
    assert_eq!(out, "/// first second\n");
}

#[test]
fn process_wraps_heading_with_indent() {
    let input = "// ## This is a very long heading that should wrap with proper indentation\n";
    let (out, _) = process_content(input, 40);
    assert_eq!(
        out,
        "// ## This is a very long heading that\n//    should wrap with proper\n//    indentation\n"
    );
}

#[test]
fn process_fence_inside_text_stops_combining() {
    let input = "// before\n// see ```x``` here\n";
    let (out, changes) = process_content(input, 80);
    assert_eq!(out, input);
    assert!(changes.is_empty());
}

#[test]
fn process_long_single_word_is_kept() {
    let input = "// aaaaaaaaaaaaaaaaaaaaaaaaaaaaaaaaaaaaaaaaaaaaaaaa\n";
    let (out, changes) = process_content(input, 20);
    assert_eq!(out, input);
    assert!(changes.is_empty());
}

// --- reports ---

#[test]
fn render_changes_lists_lines() {
    let (_, changes) = process_content("// hello\n// world\n", 80);
    let lines = render_changes(&changes, Some("Would modify: x.rs"));
    assert_eq!(
        lines,
        vec![
            "Would modify: x.rs",
            "  Line 1:",
            "    - // hello",
            "    - // world",
            "    + // hello world",
        ]
    );
    let lines = render_changes(&changes, None);
    assert_eq!(lines[0], "  Line 1:");
}

#[test]
fn render_changes_multi_digit_line_number() {
    let mut input = String::new();
    for _ in 0..123 {
        input.push_str("let x = 1;\n");
    }
    input.push_str("// a\n// b\n");
    let (_, changes) = process_content(&input, 80);
    let lines = render_changes(&changes, None);
    assert_eq!(lines[0], "  Line 124:");
}

#[test]
fn stdin_outcome_modes() {
    let out = run_stdin("// hello\n// world\n", 80, false);
    assert_eq!(out.stdout, "// hello world\n");
    assert!(!out.failed);
    let out = run_stdin("// hello\n// world\n", 80, true);
    assert_eq!(out.stdout, "  Line 1:\n    - // hello\n    - // world\n    + // hello world\n");
    assert!(out.failed);
    let out = run_stdin("// hello world\n", 80, true);
    assert_eq!(out.stdout, "");
    assert!(!out.failed);
}

// --- upward configuration search ---

fn probe(dotted: bool, plain: bool, home: bool, parent: bool) -> DirProbe {
    DirProbe { dotted_exists: dotted, plain_exists: plain, at_home: home, has_parent: parent }
}

#[test]
fn locate_finds_nearest_file_above() {
    let probes = vec![probe(false, false, false, true), probe(false, true, false, true), probe(true, false, false, false)];
    assert!(matches!(locate_config(&probes), Some((1, ConfigFile::Plain))));
}

#[test]
fn locate_prefers_dotted_in_same_directory() {
    let probes = vec![probe(true, true, false, true)];
    assert!(matches!(locate_config(&probes), Some((0, ConfigFile::Dotted))));
}

#[test]
fn locate_stops_at_home() {
    let probes = vec![probe(false, false, false, true), probe(false, false, true, true), probe(true, false, false, false)];
    assert!(locate_config(&probes).is_none());
}

#[test]
fn locate_stops_at_root() {
    let probes = vec![probe(false, false, false, false), probe(true, false, false, false)];
    assert!(locate_config(&probes).is_none());
    assert!(locate_config(&Vec::new()).is_none());
}

#[test]
fn locate_reads_file_in_home() {
    let probes = vec![probe(false, false, false, true), probe(false, true, true, true)];
    assert!(matches!(locate_config(&probes), Some((1, ConfigFile::Plain))));
}

// --- laws on concrete values ---

#[test]
fn rejoined_words_tokenize_back_example() {
    for text in ["a `b  c` d", "  x\ty  ", "``a ` b`` c", "open `span never closed", "héllo `wörld x` ñ"] {
        let words = tokenize_preserving_backticks(text);
        assert_eq!(tokenize_preserving_backticks(&words.join(" ")), words);
    }
}

#[test]
fn plain_text_matches_split_ascii_whitespace() {
    let text = " one\ttwo  three\nfour ";
    let expected: Vec<String> = text.split_ascii_whitespace().map(String::from).collect();
    assert_eq!(tokenize_preserving_backticks(text), expected);
}

#[test]
fn output_lines_fit_width_example() {
    let input = "fn f() {}\n// a bb ccc dddd eeeee ffffff ggggggg hhhhhhhh\n// averyveryveryverylongword x\n";
    let width = 16;
    let (out, _) = process_content(input, width);
    for line in out.lines() {
        if let Some(c) = parse_comment_line(line) {
            assert!(line.len() <= width || tokenize_preserving_backticks(&c.text).len() <= 1, "{line}");
        }
    }
}

fn visible(lines: &[String]) -> String {
    lines
        .iter()
        .map(|l| parse_comment_line(l).map(|c| c.text).unwrap_or_default())
        .collect::<String>()
        .chars()
        .filter(|c| !c.is_whitespace())
        .collect()
}

#[test]
fn changes_keep_visible_text_example() {
    let input = "// `a\n// b` and some words that will need wrapping here\n//\n/// x  y\n///   z\n";
    let (_, changes) = process_content(input, 20);
    assert!(!changes.is_empty());
    for (_, old, new) in &changes {
        assert_eq!(visible(old), visible(new));
    }
}

#[test]
fn output_text_lines_keep_code_lines() {
    let input = "fn a() {}\n// one\n// two\n    let x = 1; // not a comment line\n";
    let (out, _) = process_content(input, 80);
    let code = |s: &str| -> Vec<String> {
        s.lines().filter(|l| parse_comment_line(l).is_none()).map(String::from).collect()
    };
    assert_eq!(code(&out), code(input));
    assert_eq!(out.ends_with('\n'), input.ends_with('\n'));
    let (out2, _) = process_content("x\n// a\n// b", 80);
    assert_eq!(out2, "x\n// a b");
}

#[test]
fn output_text_lines_keep_code_lines_with_carriage_returns() {
    let code = |s: &str| -> Vec<String> {
        s.lines().filter(|l| parse_comment_line(l).is_none()).map(String::from).collect()
    };
    for input in ["x\ry\n// a\n// b\n", "let a = 1;\r\n// a\r\n// b\r\nfn f() {}\r\n", "// a\n// b\nx\r"] {
        let (out, _) = process_content(input, 80);
        assert_eq!(code(&out), code(input), "{input:?}");
        assert_eq!(out.ends_with('\n'), input.ends_with('\n'));
    }
}

fn words_of(lines: &[String]) -> Vec<String> {
    lines
        .iter()
        .flat_map(|l| {
            let text = parse_comment_line(l).map(|c| c.text).unwrap_or_default();
            text.split_ascii_whitespace().map(String::from).collect::<Vec<_>>()
        })
        .collect()
}

#[test]
fn changes_keep_words_example() {
    let input = "// one two\n//   three four five six seven eight nine ten\n/// - item with a long line that wraps\n//\n// x\ty\n";
    let (_, changes) = process_content(input, 24);
    assert!(changes.len() >= 2);
    for (_, old, new) in &changes {
        assert_eq!(words_of(old), words_of(new));
    }
}
