use query_parser::ast::{Fuzzy, Span};
use query_parser::lexer::{TokenKind, lex};

fn kinds(source: &str) -> Vec<TokenKind> {
    lex(source).tokens.into_iter().map(|t| t.kind).collect()
}

fn word(text: &str) -> TokenKind {
    TokenKind::Word {
        text: text.into(),
        wildcard: false,
        fuzzy: None,
    }
}

#[test]
fn words_and_keywords() {
    assert_eq!(
        kinds("apple AND banana OR NOT cherry"),
        vec![
            word("apple"),
            TokenKind::And,
            word("banana"),
            TokenKind::Or,
            TokenKind::Not,
            word("cherry")
        ]
    );
}

#[test]
fn lowercase_keywords_are_words() {
    assert_eq!(
        kinds("rock and roll"),
        vec![word("rock"), word("and"), word("roll")]
    );
}

#[test]
fn newline_and_tab_are_separators() {
    assert_eq!(
        kinds("apple AND\n(banana\tOR\r\ncherry)"),
        vec![
            word("apple"),
            TokenKind::And,
            TokenKind::LParen,
            word("banana"),
            TokenKind::Or,
            word("cherry"),
            TokenKind::RParen
        ]
    );
}

#[test]
fn keyword_followed_by_paren_is_keyword() {
    assert_eq!(
        kinds("a AND(b)"),
        vec![
            word("a"),
            TokenKind::And,
            TokenKind::LParen,
            word("b"),
            TokenKind::RParen
        ]
    );
}

#[test]
fn phrases_with_slop_and_escapes() {
    assert_eq!(
        kinds(r#""health care"~3 'single quoted' "say \"hi\"""#),
        vec![
            TokenKind::Phrase {
                text: "health care".into(),
                slop: Some(3)
            },
            TokenKind::Phrase {
                text: "single quoted".into(),
                slop: None
            },
            TokenKind::Phrase {
                text: "say \"hi\"".into(),
                slop: None
            },
        ]
    );
}

#[test]
fn apostrophes_inside_words_stay() {
    assert_eq!(
        kinds("o'brien rock'n'roll"),
        vec![word("o'brien"), word("rock'n'roll")]
    );
}

#[test]
fn unterminated_phrase_is_reported() {
    let lexed = lex("apple \"banana cherry");
    assert_eq!(lexed.diagnostics.codes(), vec!["unterminated-phrase"]);
    assert_eq!(lexed.diagnostics.items[0].range.start.offset, 6);
    assert_eq!(lexed.tokens.len(), 2);
}

#[test]
fn signs_only_before_operands() {
    assert_eq!(
        kinds("-apple +\"pie\" -(a) c++ covid-19 - x"),
        vec![
            TokenKind::Minus,
            word("apple"),
            TokenKind::Plus,
            TokenKind::Phrase {
                text: "pie".into(),
                slop: None
            },
            TokenKind::Minus,
            TokenKind::LParen,
            word("a"),
            TokenKind::RParen,
            word("c++"),
            word("covid-19"),
            word("-"),
            word("x"),
        ]
    );
}

#[test]
fn wildcards_fuzzy_and_escapes() {
    assert_eq!(
        kinds(r"appl* p?ach file\*name apple~2 apple~0:2"),
        vec![
            TokenKind::Word {
                text: "appl*".into(),
                wildcard: true,
                fuzzy: None
            },
            TokenKind::Word {
                text: "p?ach".into(),
                wildcard: true,
                fuzzy: None
            },
            TokenKind::Word {
                text: r"file\*name".into(),
                wildcard: false,
                fuzzy: None
            },
            TokenKind::Word {
                text: "apple".into(),
                wildcard: false,
                fuzzy: Some(Fuzzy {
                    distance: 2,
                    prefix: None
                })
            },
            TokenKind::Word {
                text: "apple".into(),
                wildcard: false,
                fuzzy: Some(Fuzzy {
                    distance: 2,
                    prefix: Some(0)
                })
            },
        ]
    );
}

#[test]
fn match_all_and_proximity_keywords() {
    assert_eq!(
        kinds("* a NEAR/3 b THEN/0 c"),
        vec![
            TokenKind::All,
            word("a"),
            TokenKind::Near(Some(3)),
            word("b"),
            TokenKind::Then(Some(0)),
            word("c")
        ]
    );
}

#[test]
fn proximity_without_distance_is_an_error() {
    let lexed = lex("a NEAR b");
    assert_eq!(lexed.diagnostics.codes(), vec!["invalid-proximity"]);
    assert_eq!(lexed.tokens[1].kind, TokenKind::Near(None));
}

#[test]
fn field_prefix_is_stripped_with_warning() {
    let lexed = lex("content_exact:apple content:\"x\" user@host:port");
    assert_eq!(
        lexed.diagnostics.codes(),
        vec!["field-ignored", "field-ignored"]
    );
    assert_eq!(lexed.tokens[0].kind, word("apple"));
    assert_eq!(
        lexed.tokens[1].kind,
        TokenKind::Phrase {
            text: "x".into(),
            slop: None
        }
    );
    assert_eq!(lexed.tokens[2].kind, word("user@host:port"));
}

#[test]
fn detached_field_prefix_attaches_to_what_follows() {
    assert_eq!(
        kinds("content:(apple OR pie) content: cherry"),
        vec![
            TokenKind::LParen,
            word("apple"),
            TokenKind::Or,
            word("pie"),
            TokenKind::RParen,
            word("cherry")
        ]
    );
    let lexed = lex("content:");
    assert!(lexed.tokens.is_empty());
    assert_eq!(lexed.diagnostics.codes(), vec!["field-ignored"]);
}

#[test]
fn boost_and_dangling_modifiers() {
    let lexed = lex("apple^2 ~3 pie^");
    assert_eq!(lexed.tokens[1].kind, TokenKind::Boost("2".into()));
    assert_eq!(
        lexed.diagnostics.codes(),
        vec!["dangling-modifier", "invalid-boost"]
    );
}

#[test]
fn spans_are_byte_offsets() {
    let lexed = lex("héllo \"wörld\"~1");
    assert_eq!(lexed.tokens[0].span, Span::new(0, 6));
    assert_eq!(lexed.tokens[1].span, Span::new(7, 17));
}

#[test]
fn describe_names_each_token() {
    assert_eq!(TokenKind::Near(Some(3)).describe(), "NEAR/3");
    assert_eq!(TokenKind::Then(None).describe(), "THEN");
    assert_eq!(word("apple").describe(), "apple");
    assert_eq!(
        TokenKind::Phrase {
            text: "a b".into(),
            slop: None
        }
        .describe(),
        "phrase"
    );
    assert_eq!(TokenKind::Boost("2".into()).describe(), "^");
}
