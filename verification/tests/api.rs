use query_parser::ast::{Fuzzy, Node, QueryStats, Span};
use query_parser::diagnostics::{Diagnostic, DiagnosticList, DiagnosticSeverity, Position, Range};
use query_parser::lint::{LintOptions, is_searchable, lint};
use query_parser::parser::{ImplicitOp, parse};
use query_parser::tinql::{TinqlOptions, analyze, needs_quoting};
use query_parser::{get_stats, is_valid, to_tinql, validate};

fn pos(line: u32, column: u32, offset: u32) -> Position {
    Position {
        line,
        column,
        offset,
    }
}

#[test]
fn span_to_covers_both() {
    let a = Span::new(4, 9);
    let b = Span::new(1, 6);
    assert_eq!(a.to(b), Span::new(1, 9));
    assert_eq!(b.to(a), Span::new(1, 9));
    assert_eq!(a.to(a), a);
}

#[test]
fn positions_count_lines_and_utf16_columns() {
    let source = "ab\n日😀x";
    assert_eq!(Position::from_offset(source, 0), pos(0, 0, 0));
    assert_eq!(Position::from_offset(source, 3), pos(1, 0, 3));
    // 日 is 3 bytes and 1 UTF-16 unit, 😀 is 4 bytes and 2 units
    assert_eq!(Position::from_offset(source, 6), pos(1, 1, 6));
    assert_eq!(Position::from_offset(source, 10), pos(1, 3, 10));
    // inside a character: moved back to its start
    assert_eq!(Position::from_offset(source, 8), pos(1, 1, 6));
    // past the end: clamped
    assert_eq!(Position::from_offset(source, 100), pos(1, 4, 11));
}

#[test]
fn ranges_from_offsets_and_spans() {
    let source = "apple pie";
    let r = Range::from_offsets(source, 6, 9);
    assert_eq!(r.start, pos(0, 6, 6));
    assert_eq!(r.end, pos(0, 9, 9));
    assert_eq!(Range::from_span(source, Span::new(6, 9)), r);
    // an end before the start is taken as the start
    let back = Range::from_offsets(source, 6, 2);
    assert_eq!(back.end, back.start);
    let whole = Range::whole(source);
    assert_eq!(whole.start.offset, 0);
    assert_eq!(whole.end.offset, 9);
}

#[test]
fn severity_ranks_follow_the_protocol() {
    assert_eq!(DiagnosticSeverity::Hint.rank(), 1);
    assert_eq!(DiagnosticSeverity::Info.rank(), 2);
    assert_eq!(DiagnosticSeverity::Warning.rank(), 4);
    assert_eq!(DiagnosticSeverity::Error.rank(), 8);
}

#[test]
fn diagnostic_builders_fill_each_field() {
    let range = Range::whole("abc");
    let d = Diagnostic::warning("careful".to_string(), range)
        .with_code("some-code")
        .with_related_info("more")
        .with_fix("Do it".to_string(), range, "x".to_string());
    assert_eq!(d.message, "careful");
    assert_eq!(d.severity, DiagnosticSeverity::Warning);
    assert_eq!(d.code.as_deref(), Some("some-code"));
    assert_eq!(d.source.as_deref(), Some("alidade-query-parser"));
    assert_eq!(d.related_info.as_deref(), Some("more"));
    let fix = d.fix.unwrap();
    assert_eq!(fix.title, "Do it");
    assert_eq!(fix.replacement, "x");
    assert_eq!(Diagnostic::info("i".to_string(), range).severity, DiagnosticSeverity::Info);
    assert_eq!(Diagnostic::hint("h".to_string(), range).severity, DiagnosticSeverity::Hint);
    assert!(Diagnostic::error("e".to_string(), range).code.is_none());
}

fn at(source: &str, start: usize, end: usize, severity: DiagnosticSeverity, code: &str) -> Diagnostic {
    let range = Range::from_offsets(source, start, end);
    let d = match severity {
        DiagnosticSeverity::Error => Diagnostic::error(code.to_string(), range),
        DiagnosticSeverity::Warning => Diagnostic::warning(code.to_string(), range),
        DiagnosticSeverity::Info => Diagnostic::info(code.to_string(), range),
        DiagnosticSeverity::Hint => Diagnostic::hint(code.to_string(), range),
    };
    d.with_code(code)
}

#[test]
fn diagnostic_list_filters_and_sorts() {
    let source = "0123456789";
    let mut list = DiagnosticList::new();
    assert!(list.is_empty());
    assert!(!list.has_errors());
    list.push(at(source, 5, 6, DiagnosticSeverity::Warning, "w1"));
    list.extend(vec![
        at(source, 1, 4, DiagnosticSeverity::Hint, "h"),
        at(source, 1, 4, DiagnosticSeverity::Error, "e"),
        at(source, 1, 2, DiagnosticSeverity::Warning, "w2"),
        at(source, 5, 6, DiagnosticSeverity::Warning, "w3"),
    ]);
    assert!(!list.is_empty());
    assert!(list.has_errors());
    assert_eq!(list.codes(), vec!["w1", "h", "e", "w2", "w3"]);
    let errors: Vec<_> = list.errors().into_iter().filter_map(|d| d.code.clone()).collect();
    assert_eq!(errors, vec!["e"]);
    let warnings: Vec<_> = list.warnings().into_iter().filter_map(|d| d.code.clone()).collect();
    assert_eq!(warnings, vec!["w1", "w2", "w3"]);
    list.sort();
    // start, then end, then the more severe first; equal keys keep their order
    assert_eq!(list.codes(), vec!["w2", "e", "h", "w1", "w3"]);
}

#[test]
fn searchable_and_quoting() {
    assert!(is_searchable("apple"));
    assert!(is_searchable("..a.."));
    assert!(is_searchable("😀"));
    assert!(is_searchable("日本"));
    assert!(!is_searchable("..."));
    assert!(!is_searchable(""));
    assert!(!is_searchable("-*?"));
    assert!(needs_quoting("a b"));
    assert!(needs_quoting("foo(bar"));
    assert!(needs_quoting("a\\b"));
    assert!(needs_quoting(":colon"));
    assert!(!needs_quoting("file\\*name"));
    assert!(!needs_quoting("c++"));
    assert!(!needs_quoting("a:b"));
}

#[test]
fn lint_defaults_and_direct_use() {
    let options = LintOptions::default();
    assert_eq!(options.max_slop, 20);
    assert_eq!(options.max_fuzzy_distance, 2);
    let source = "apple~3 AND \"pie\"~2";
    let ast = parse(source, ImplicitOp::And).ast.unwrap();
    let list = lint(source, &ast, &options);
    assert_eq!(list.codes(), vec!["fuzzy-too-large", "slop-no-effect"]);
    assert_eq!(
        list.items[0].message,
        "Fuzzy distance ~3 exceeds the maximum of 2"
    );
    let wide = LintOptions {
        max_slop: 20,
        max_fuzzy_distance: 3,
    };
    assert_eq!(lint(source, &ast, &wide).codes(), vec!["slop-no-effect"]);
}

#[test]
fn lint_messages_name_the_term() {
    let out = query_parser::tinql::to_tinql("apple AND ...", &TinqlOptions::default());
    let error = out.diagnostics.errors().into_iter().next().unwrap();
    assert_eq!(
        error.message,
        "\"...\" contains no letters or digits, so it can never match a post"
    );
    let out = query_parser::tinql::to_tinql("rock and roll", &TinqlOptions::default());
    let hint = out
        .diagnostics
        .items
        .iter()
        .find(|d| d.code.as_deref() == Some("lowercase-operator"))
        .unwrap();
    assert_eq!(
        hint.message,
        "and is searched as a word; write AND to use it as an operator"
    );
    assert_eq!(hint.fix.as_ref().unwrap().title, "Change to AND");
}

#[test]
fn stats_count_terms_and_features() {
    let stats = get_stats(
        "\"a b\"~2 AND (c* OR NOT d~1) AND e NEAR/2 f^3".to_string(),
        None,
    )
    .unwrap();
    assert_eq!(stats.term_count, 5);
    assert_eq!(stats.max_depth, 5);
    assert!(stats.has_phrase);
    assert!(stats.has_wildcard);
    assert!(stats.has_negation);
    assert!(stats.has_fuzzy);
    assert!(stats.has_proximity);
    assert!(stats.has_boost);
    assert!(!stats.has_match_all);
    assert_eq!(get_stats("".to_string(), None), None);
    let single = get_stats("apple".to_string(), None).unwrap();
    assert_eq!(single.max_depth, 1);
    assert_eq!(single.term_count, 1);
    assert_eq!(QueryStats::default().term_count, 0);
}

#[test]
fn stats_from_a_built_tree() {
    let node = Node::And {
        children: vec![
            Node::Term {
                value: "a".to_string(),
                wildcard: false,
                fuzzy: Some(Fuzzy {
                    distance: 1,
                    prefix: None,
                }),
                span: Span::new(0, 3),
            },
            Node::All {
                span: Span::new(4, 5),
            },
        ],
        span: Span::new(0, 5),
    };
    let stats = QueryStats::from_node(&node);
    assert_eq!(stats.term_count, 1);
    assert_eq!(stats.max_depth, 2);
    assert!(stats.has_fuzzy);
    assert!(stats.has_match_all);
}

#[test]
fn validate_and_transpile_agree() {
    for query in [
        "apple AND banana",
        "apple banana",
        "apple AND",
        "",
        "   ",
        "(apple",
        "apple OR banana AND cherry",
        "NOT apple",
        "*",
        "rock and roll",
    ] {
        let valid = is_valid(query.to_string(), None);
        let out = to_tinql(query.to_string(), None);
        assert_eq!(valid, out.ok, "{query:?}");
        assert_eq!(valid, out.tinql.is_some(), "{query:?}");
        assert_eq!(valid, query_parser::format(query.to_string(), None).is_some(), "{query:?}");
        assert_eq!(valid, !validate(query.to_string(), None).has_errors(), "{query:?}");
    }
}

#[test]
fn format_rewrites_in_canonical_form() {
    assert_eq!(
        query_parser::format("apple -banana".to_string(), None).as_deref(),
        Some("apple AND NOT banana")
    );
    assert_eq!(
        query_parser::format("\"say \\\"hi\\\"\"~2 apple~0:1".to_string(), None).as_deref(),
        Some("\"say \\\"hi\\\"\"~2 AND apple~0:1")
    );
    assert_eq!(query_parser::format("apple AND".to_string(), None), None);
}

#[test]
fn options_change_the_pipeline() {
    let out = to_tinql(
        "apple banana".to_string(),
        Some(TinqlOptions {
            conjunction_mode: Some(false),
            max_slop: None,
            max_fuzzy_distance: None,
        }),
    );
    assert_eq!(out.tinql.as_deref(), Some("apple OR banana"));
    let strict = Some(TinqlOptions {
        conjunction_mode: None,
        max_slop: Some(1),
        max_fuzzy_distance: Some(0),
    });
    assert!(!is_valid("\"a b\"~2".to_string(), strict));
    assert!(!is_valid("apple~1".to_string(), strict));
    assert!(is_valid("apple~1".to_string(), None));
}

#[test]
fn empty_query_error_spans_the_source() {
    let analysis = analyze("   ", &TinqlOptions::default());
    assert!(analysis.ast.is_none());
    assert!(analysis.stats.is_none());
    assert!(analysis.tinql.is_none());
    assert!(!analysis.is_ok());
    let d = &analysis.diagnostics.items[0];
    assert_eq!(d.code.as_deref(), Some("empty-query"));
    assert_eq!(d.message, "Query has no search terms");
    assert_eq!(d.range.start.offset, 0);
    assert_eq!(d.range.end.offset, 3);
}

#[test]
fn diagnostics_of_a_parsed_query_are_ordered() {
    let out = to_tinql("apple~5 banana^2 ... \"x\"~3".to_string(), None);
    let items = &out.diagnostics.items;
    assert!(items.len() >= 3, "{items:?}");
    for pair in items.windows(2) {
        let (a, b) = (&pair[0], &pair[1]);
        assert!(
            a.range.start.offset < b.range.start.offset
                || (a.range.start.offset == b.range.start.offset
                    && a.range.end.offset <= b.range.end.offset),
            "{items:?}"
        );
    }
}

#[test]
fn emitted_terms_are_escaped() {
    let out = to_tinql("TO AND foo\\*bar\\(x".to_string(), None);
    assert_eq!(out.tinql.as_deref(), Some("\"TO\" AND \"foo*bar(x\""));
    let out = to_tinql("\"a_b [c]\" OR \"d\\\\e\"".to_string(), None);
    assert_eq!(out.tinql.as_deref(), Some("\"a\\_b \\[c\\]\" OR \"d\\\\e\""));
}

#[test]
fn no_terms_error_is_ordered_with_the_parser_errors() {
    let list = validate("  )".to_string(), None);
    assert_eq!(list.codes(), vec!["empty-query", "unbalanced-paren"]);
    assert_eq!(list.items[0].range.start.offset, 0);
    assert_eq!(list.items[1].range.start.offset, 2);
}

#[test]
fn cloned_trees_are_equal() {
    let parsed = query_parser::parse_query("a AND (b OR NOT c^2) NEAR/1 \"d\"", ImplicitOp::And);
    let ast = parsed.ast.unwrap();
    let copy = ast.clone();
    assert_eq!(ast, copy);
    assert_eq!(query_parser::format_node(&copy), query_parser::format_node(&ast));
}

fn error_codes(query: &str) -> Vec<String> {
    validate(query.to_string(), None)
        .errors()
        .into_iter()
        .filter_map(|d| d.code.clone())
        .collect()
}

#[test]
fn malformed_wildcards_and_fuzzy_prefixes() {
    assert_eq!(error_codes("ab\\(*"), vec!["invalid-wildcard"]);
    assert_eq!(error_codes("apple~1:"), vec!["invalid-fuzzy"]);
    assert_eq!(error_codes("apple~1:2"), Vec::<String>::new());
    assert_eq!(error_codes("apple~2:3"), vec!["fuzzy-too-large"]);
}

fn spans_within(node: &Node, len: usize) {
    let span = node.span();
    assert!(span.start <= span.end && span.end <= len, "{node:?}");
    for child in node.children() {
        spans_within(child, len);
    }
}

#[test]
fn node_spans_lie_inside_the_query() {
    for query in [
        "a AND (b OR NOT c^2) NEAR/1 \"d\"",
        "(apple OR banana",
        "[x y] apple) -pie",
        "héllo wörld~1 \"日本\"~2",
    ] {
        let ast = query_parser::parse_query(query, ImplicitOp::And).ast.unwrap();
        spans_within(&ast, query.len());
    }
}

#[test]
fn format_is_a_fixed_point() {
    assert_eq!(
        query_parser::format("foo\\(bar\\)".to_string(), None).as_deref(),
        Some("foo\\(bar\\)")
    );
    for query in [
        "foo\\(bar\\)",
        "a\\ b OR c\\~d",
        "file\\*name AND x\\\\*",
        "path\\\\to AND q\\^2",
        "c++ AND covid-19 AND 3.14",
        "\"say \\\"hi\\\"\"~2 apple~0:1",
        "apple^2.0 AND pie",
        "NOT (a OR b) NEAR/2 c",
        "apple -banana",
        "(a NEAR/3 b) THEN/1 c",
        "rock and roll",
        "'single quoted' OR o'brien",
        "日本 AND 😀x",
    ] {
        let once = query_parser::format(query.to_string(), None).expect(query);
        let twice = query_parser::format(once.clone(), None);
        assert_eq!(twice.as_deref(), Some(once.as_str()), "{query:?}");
    }
}

#[test]
fn larger_limits_keep_a_valid_query_valid() {
    let wide = Some(TinqlOptions {
        conjunction_mode: None,
        max_slop: Some(30),
        max_fuzzy_distance: Some(5),
    });
    for query in ["apple~2 AND \"a b\"~20", "apple banana", "NOT a"] {
        let narrow = to_tinql(query.to_string(), None);
        assert!(narrow.ok, "{query:?}");
        let widened = to_tinql(query.to_string(), wide);
        assert!(widened.ok, "{query:?}");
        assert_eq!(widened.tinql, narrow.tinql, "{query:?}");
    }
    assert!(!is_valid("\"health care\"~21".to_string(), None));
    assert!(is_valid("\"health care\"~21".to_string(), wide));
}

#[test]
fn ranges_are_ordered_and_inside_the_source() {
    let source = "日本 x";
    for (start, end) in [(0, 100), (2, 1), (5, 5), (1, 4), (100, 0)] {
        let r = Range::from_offsets(source, start, end);
        assert!(r.start.offset <= r.end.offset);
        assert!(r.end.offset as usize <= source.len());
        assert!(source.is_char_boundary(r.start.offset as usize));
        assert!(source.is_char_boundary(r.end.offset as usize));
    }
}

#[test]
fn values_that_would_read_as_something_else_keep_a_field_prefix() {
    for (query, formatted) in [
        ("content:content:apple", "content:content:apple"),
        ("content:-x", "content:-x"),
        ("content:AND", "content:AND"),
        ("content:NEAR/3 OR b", "content:NEAR/3 OR b"),
        ("content:'x a'b", "content:'x AND a'b"),
        ("content:+x", "content:+x"),
    ] {
        let once = query_parser::format(query.to_string(), None);
        assert_eq!(once.as_deref(), Some(formatted), "{query:?}");
        let twice = query_parser::format(formatted.to_string(), None);
        assert_eq!(twice.as_deref(), Some(formatted), "{query:?}");
    }
}

#[test]
fn lexer_diagnostic_ranges_lie_inside_the_query() {
    for query in ["apple~ \"x~", "^ ~3 a NEAR b", "content: x^", "é~1:", "'a"] {
        let lexed = query_parser::lexer::lex(query);
        for d in &lexed.diagnostics.items {
            assert!(d.range.start.offset <= d.range.end.offset, "{query:?}");
            assert!(d.range.end.offset as usize <= query.len(), "{query:?}");
            if let Some(fix) = &d.fix {
                assert!(fix.range.start.offset <= fix.range.end.offset);
                assert!(fix.range.end.offset as usize <= query.len());
            }
        }
    }
}
