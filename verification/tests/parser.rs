use query_parser::ast::Node;
use query_parser::format::format_node;
use query_parser::parser::{ImplicitOp, Parsed, parse};

fn p(source: &str) -> Parsed {
    parse(source, ImplicitOp::And)
}

fn shape(source: &str) -> String {
    let parsed = p(source);
    assert!(
        !parsed.diagnostics.has_errors(),
        "{source:?}: {:?}",
        parsed.diagnostics.items
    );
    format_node(&parsed.ast.expect("ast"))
}

fn codes(source: &str) -> Vec<String> {
    p(source)
        .diagnostics
        .codes()
        .into_iter()
        .map(String::from)
        .collect()
}

#[test]
fn precedence_and_binds_tighter_than_or() {
    assert_eq!(shape("a AND b OR c"), "a AND b OR c");
    let ast = p("a AND b OR c").ast.unwrap();
    assert!(
        matches!(ast, Node::Or { ref children, .. } if matches!(children[0], Node::And { .. }))
    );
}

#[test]
fn same_operator_chains_flatten() {
    let ast = p("a AND b AND c").ast.unwrap();
    assert!(matches!(ast, Node::And { ref children, .. } if children.len() == 3));
    let ast = p("a OR b OR c").ast.unwrap();
    assert!(matches!(ast, Node::Or { ref children, .. } if children.len() == 3));
}

#[test]
fn groups_keep_parentheses() {
    assert_eq!(shape("(a OR b) AND c"), "(a OR b) AND c");
    assert_eq!(shape("NOT (a OR b)"), "NOT (a OR b)");
}

#[test]
fn not_forms() {
    assert_eq!(shape("a NOT b"), "a AND NOT b");
    assert_eq!(shape("a AND NOT b"), "a AND NOT b");
    assert_eq!(shape("a -b"), "a AND NOT b");
    assert_eq!(shape("+a +b"), "a AND b");
    assert_eq!(shape("NOT a"), "NOT a");
    assert_eq!(shape("NOT a OR b"), "NOT a OR b");
}

#[test]
fn implicit_adjacency_warns_once_per_gap() {
    let parsed = p("alpha beta gamma");
    let warnings: Vec<_> = parsed
        .diagnostics
        .items
        .iter()
        .filter(|d| d.code.as_deref() == Some("implicit-operator"))
        .collect();
    assert_eq!(warnings.len(), 2);
    assert_eq!(warnings[0].range.start.offset, 0);
    assert_eq!(warnings[0].range.end.offset, 10);
    assert_eq!(warnings[1].range.start.offset, 6);
    assert_eq!(warnings[1].range.end.offset, 16);
}

#[test]
fn marked_operands_do_not_warn() {
    for query in [
        "apple NOT banana",
        "apple -banana",
        "+apple +banana",
        "apple AND banana",
    ] {
        assert!(codes(query).is_empty(), "{query:?}: {:?}", codes(query));
    }
    assert_eq!(codes("+apple banana"), vec!["implicit-operator"]);
}

#[test]
fn implicit_or_mode() {
    let parsed = parse("apple banana", ImplicitOp::Or);
    assert!(matches!(parsed.ast, Some(Node::Or { .. })));
    let parsed = parse("apple banana AND cherry", ImplicitOp::Or);
    assert_eq!(
        format_node(&parsed.ast.unwrap()),
        "apple OR banana AND cherry"
    );
}

#[test]
fn bare_operators_are_localized_errors() {
    for (query, start, end) in [
        ("apple AND", 6, 9),
        ("apple AND OR banana", 10, 12),
        ("(apple OR) AND banana", 7, 9),
        ("OR banana", 0, 2),
        ("apple NOT", 6, 9),
        ("apple NEAR/2", 6, 12),
    ] {
        let parsed = p(query);
        let errors: Vec<_> = parsed
            .diagnostics
            .items
            .iter()
            .filter(|d| d.code.as_deref() == Some("bare-operator"))
            .collect();
        assert_eq!(errors.len(), 1, "{query:?}: {:?}", parsed.diagnostics.items);
        assert_eq!(errors[0].range.start.offset, start, "{query:?}");
        assert_eq!(errors[0].range.end.offset, end, "{query:?}");
    }
}

#[test]
fn recovery_keeps_the_rest_of_the_query() {
    let parsed = p("apple AND OR banana");
    assert_eq!(format_node(&parsed.ast.unwrap()), "apple AND banana");
}

#[test]
fn unbalanced_parentheses() {
    assert_eq!(codes("(apple OR banana"), vec!["unbalanced-paren"]);
    assert_eq!(codes("apple OR banana)"), vec!["unbalanced-paren"]);
    assert_eq!(codes("()"), vec!["empty-group"]);
    let parsed = p("(apple OR banana");
    assert_eq!(parsed.diagnostics.items[0].range.start.offset, 0);
    assert_eq!(parsed.diagnostics.items[0].range.end.offset, 1);
}

#[test]
fn brackets_are_unsupported() {
    assert_eq!(codes("apple AND [a b c]"), vec!["unsupported-syntax"]);
    let parsed = p("apple AND [a b c]");
    assert_eq!(parsed.diagnostics.items[0].range.start.offset, 10);
    assert_eq!(parsed.diagnostics.items[0].range.end.offset, 17);
}

#[test]
fn proximity_chains_left_to_right() {
    assert_eq!(shape("a NEAR/3 b THEN/0 c"), "(a NEAR/3 b) THEN/0 c");
    assert_eq!(shape("a NEAR/3 b AND c"), "a NEAR/3 b AND c");
    assert_eq!(shape("NOT a NEAR/3 b"), "NOT (a NEAR/3 b)");
    assert_eq!(shape("(a OR b) NEAR/5 \"c d\""), "(a OR b) NEAR/5 \"c d\"");
}

#[test]
fn boost_is_parsed_and_warned() {
    assert_eq!(codes("apple^2 AND pie"), vec!["boost-ignored"]);
    assert_eq!(shape("apple^2 AND pie"), "apple^2 AND pie");
}

#[test]
fn empty_and_whitespace_queries_have_no_ast() {
    assert!(p("").ast.is_none());
    assert!(p("   \n ").ast.is_none());
    assert!(p("").diagnostics.is_empty());
}

#[test]
fn quoted_operator_words_are_phrases() {
    assert_eq!(
        shape("\"AND\" OR \"apple AND banana\""),
        "\"AND\" OR \"apple AND banana\""
    );
}

#[test]
fn lowercase_operators_are_terms() {
    let parsed = p("rock and roll");
    assert_eq!(format_node(&parsed.ast.unwrap()), "rock AND and AND roll");
}

#[test]
fn parser_diagnostics_are_sorted_by_position() {
    let parsed = p("apple AND OR banana cherry)");
    let items = &parsed.diagnostics.items;
    assert!(items.len() >= 2, "{items:?}");
    for pair in items.windows(2) {
        assert!(pair[0].range.start.offset <= pair[1].range.start.offset, "{items:?}");
    }
}
