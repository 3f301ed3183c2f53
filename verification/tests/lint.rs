use query_parser::diagnostics::DiagnosticSeverity;
use query_parser::tinql::{TinqlOptions, to_tinql};
#[derive(Clone, Copy)]
enum Expect {
    Clean,
    Warn(&'static str),
    Hint(&'static str),
    Info(&'static str),
    Error(&'static str),
}

const CASES: &[(&str, Expect, &str)] = &[
    // syntax
    ("apple AND banana", Expect::Clean, "explicit and"),
    (
        "(apple OR banana) NOT cherry",
        Expect::Clean,
        "group with not",
    ),
    ("apple AND", Expect::Error("bare-operator"), "trailing and"),
    ("OR apple", Expect::Error("bare-operator"), "leading or"),
    ("apple NOT", Expect::Error("bare-operator"), "trailing not"),
    (
        "(apple",
        Expect::Error("unbalanced-paren"),
        "missing close paren",
    ),
    (
        "apple)",
        Expect::Error("unbalanced-paren"),
        "stray close paren",
    ),
    ("()", Expect::Error("empty-group"), "empty group"),
    (
        "\"apple",
        Expect::Error("unterminated-phrase"),
        "unterminated phrase",
    ),
    ("\"\"", Expect::Error("empty-phrase"), "empty phrase"),
    ("", Expect::Error("empty-query"), "empty query"),
    (
        "[apple banana]",
        Expect::Error("unsupported-syntax"),
        "brackets",
    ),
    (
        "apple ~2",
        Expect::Error("dangling-modifier"),
        "detached tilde",
    ),
    ("apple ^2", Expect::Warn("boost-ignored"), "detached caret"),
    (
        "^2 apple",
        Expect::Error("dangling-modifier"),
        "leading caret",
    ),
    (
        "apple^",
        Expect::Error("invalid-boost"),
        "caret without number",
    ),
    (
        "\"a b\"~",
        Expect::Error("invalid-slop"),
        "tilde without number",
    ),
    (
        "apple~",
        Expect::Error("invalid-fuzzy"),
        "fuzzy without number",
    ),
    (
        "apple NEAR banana",
        Expect::Error("invalid-proximity"),
        "near without gap",
    ),
    // precedence and adjacency
    (
        "apple AND banana OR cherry",
        Expect::Error("mixed-and-or"),
        "and under or",
    ),
    (
        "apple banana OR cherry",
        Expect::Error("mixed-and-or"),
        "implicit and under or",
    ),
    (
        "apple banana",
        Expect::Warn("implicit-operator"),
        "implicit and",
    ),
    ("apple -banana", Expect::Clean, "minus needs no operator"),
    (
        "apple and banana",
        Expect::Hint("lowercase-operator"),
        "lowercase and",
    ),
    (
        "apple Or banana",
        Expect::Hint("lowercase-operator"),
        "mixed-case or",
    ),
    (
        "apple near/2 banana",
        Expect::Hint("lowercase-operator"),
        "lowercase near",
    ),
    ("\"AND\"", Expect::Clean, "quoted operator"),
    // terms and modifiers
    ("*", Expect::Error("match-all"), "bare star"),
    ("-", Expect::Error("unsearchable-term"), "lone minus"),
    (
        "...",
        Expect::Error("unsearchable-term"),
        "punctuation only",
    ),
    ("@*", Expect::Error("unsearchable-term"), "symbol wildcard"),
    (
        "**",
        Expect::Error("empty-wildcard"),
        "wildcard without literal",
    ),
    (
        "*house",
        Expect::Warn("leading-wildcard"),
        "leading wildcard",
    ),
    ("a*", Expect::Warn("short-wildcard"), "one char stem"),
    ("ab*", Expect::Clean, "two char stem"),
    ("p?ach", Expect::Clean, "single char wildcard"),
    ("foo\\(bar", Expect::Clean, "escaped paren in term"),
    (
        "apple~3",
        Expect::Error("fuzzy-too-large"),
        "fuzzy over max",
    ),
    (
        "appl*~1",
        Expect::Error("invalid-fuzzy"),
        "fuzzy on wildcard",
    ),
    (
        "\"a b\"~21",
        Expect::Error("slop-too-large"),
        "slop over max",
    ),
    (
        "\"apple\"~2",
        Expect::Warn("slop-no-effect"),
        "slop on one word",
    ),
    (
        "\"appl*\"",
        Expect::Warn("wildcard-in-phrase"),
        "wildcard in quotes",
    ),
    ("apple^2", Expect::Warn("boost-ignored"), "boost"),
    (
        "content:apple",
        Expect::Warn("field-ignored"),
        "field prefix",
    ),
    (
        "a NEAR/2 NOT b",
        Expect::Error("negation-in-proximity"),
        "not inside near",
    ),
    (
        "TO",
        Expect::Info("literal-keyword"),
        "reserved word searched literally",
    ),
    // unicode, urls and social handles
    ("日本語 AND 😀", Expect::Clean, "cjk and emoji"),
    ("Jalapeño", Expect::Clean, "accented latin"),
    ("नमस्ते", Expect::Clean, "devanagari"),
    ("https://example.com/path", Expect::Clean, "url"),
    ("user@example.com", Expect::Clean, "email"),
    ("@POTUS AND #vote", Expect::Clean, "handle and hashtag"),
    (
        "c++ AND covid-19 AND 3.14 AND 47,000",
        Expect::Clean,
        "punctuation inside terms",
    ),
    (
        "o'brien AND 'quoted phrase'",
        Expect::Clean,
        "apostrophe and single quotes",
    ),
    ("$100 AND 50%", Expect::Clean, "currency and percent"),
];

#[test]
fn every_rule_fires_where_expected() {
    for (query, expect, label) in CASES {
        let out = to_tinql(query, &TinqlOptions::default());
        let with = |severity: DiagnosticSeverity, code: &str| {
            out.diagnostics
                .items
                .iter()
                .any(|d| d.severity == severity && d.code.as_deref() == Some(code))
        };
        let items = &out.diagnostics.items;
        match expect {
            Expect::Clean => assert!(items.is_empty(), "{label}: {items:?}"),
            Expect::Warn(code) => {
                assert!(out.ok, "{label}: {items:?}");
                assert!(
                    with(DiagnosticSeverity::Warning, code),
                    "{label}: {items:?}"
                );
            }
            Expect::Hint(code) => {
                assert!(out.ok, "{label}: {items:?}");
                assert!(with(DiagnosticSeverity::Hint, code), "{label}: {items:?}");
            }
            Expect::Info(code) => {
                assert!(out.ok, "{label}: {items:?}");
                assert!(with(DiagnosticSeverity::Info, code), "{label}: {items:?}");
            }
            Expect::Error(code) => {
                assert!(!out.ok, "{label}: {items:?}");
                assert!(with(DiagnosticSeverity::Error, code), "{label}: {items:?}");
            }
        }
    }
}
