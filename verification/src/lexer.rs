//! Tokenizer: splits a query into words, phrases, operators and punctuation.
use vstd::prelude::*;

use crate::ast::{Fuzzy, Span};
use crate::diagnostics::{
    Diagnostic, DiagnosticList, DiagnosticSeverity, DiagnosticV, coded, diags_view, range_in, range_spec,
    with_fix,
};
use crate::text::{
    SourceText, all_digits, boff, byte_len, chars_eq_str, decimal, is_ascii_digit, is_digit, is_white_space, is_whitespace,
    digits_in, lemma_boff_bound, lemma_boff_step, parse_digits, push_char, saturating_u32, string_of,
};

verus! {

#[derive(Debug, Clone, PartialEq)]
pub enum TokenKind {
    Word { text: String, wildcard: bool, fuzzy: Option<Fuzzy> },
    Phrase { text: String, slop: Option<u32> },
    All,
    And,
    Or,
    Not,
    Near(Option<u32>),
    Then(Option<u32>),
    Plus,
    Minus,
    LParen,
    RParen,
    LBracket,
    RBracket,
    /// `^N`, with the number as written.
    Boost(String),
}

/// A token kind as values.
pub enum TokenKindV {
    Word { text: Seq<char>, wildcard: bool, fuzzy: Option<Fuzzy> },
    Phrase { text: Seq<char>, slop: Option<u32> },
    All,
    And,
    Or,
    Not,
    Near(Option<u32>),
    Then(Option<u32>),
    Plus,
    Minus,
    LParen,
    RParen,
    LBracket,
    RBracket,
    Boost(Seq<char>),
}

impl View for TokenKind {
    type V = TokenKindV;

    open spec fn view(&self) -> TokenKindV {
        match self {
            TokenKind::Word { text, wildcard, fuzzy } => TokenKindV::Word {
                text: text@,
                wildcard: *wildcard,
                fuzzy: *fuzzy,
            },
            TokenKind::Phrase { text, slop } => TokenKindV::Phrase { text: text@, slop: *slop },
            TokenKind::All => TokenKindV::All,
            TokenKind::And => TokenKindV::And,
            TokenKind::Or => TokenKindV::Or,
            TokenKind::Not => TokenKindV::Not,
            TokenKind::Near(g) => TokenKindV::Near(*g),
            TokenKind::Then(g) => TokenKindV::Then(*g),
            TokenKind::Plus => TokenKindV::Plus,
            TokenKind::Minus => TokenKindV::Minus,
            TokenKind::LParen => TokenKindV::LParen,
            TokenKind::RParen => TokenKindV::RParen,
            TokenKind::LBracket => TokenKindV::LBracket,
            TokenKind::RBracket => TokenKindV::RBracket,
            TokenKind::Boost(f) => TokenKindV::Boost(f@),
        }
    }
}

/// How a token reads in messages.
pub open spec fn describe_spec(k: TokenKindV) -> Seq<char> {
    match k {
        TokenKindV::Word { text, .. } => text,
        TokenKindV::Phrase { .. } => "phrase"@,
        TokenKindV::All => "*"@,
        TokenKindV::And => "AND"@,
        TokenKindV::Or => "OR"@,
        TokenKindV::Not => "NOT"@,
        TokenKindV::Near(Some(n)) => "NEAR/"@ + crate::text::decimal(n as nat),
        TokenKindV::Near(None) => "NEAR"@,
        TokenKindV::Then(Some(n)) => "THEN/"@ + crate::text::decimal(n as nat),
        TokenKindV::Then(None) => "THEN"@,
        TokenKindV::Plus => "+"@,
        TokenKindV::Minus => "-"@,
        TokenKindV::LParen => "("@,
        TokenKindV::RParen => ")"@,
        TokenKindV::LBracket => "["@,
        TokenKindV::RBracket => "]"@,
        TokenKindV::Boost(_) => "^"@,
    }
}

impl TokenKind {
    pub fn describe(&self) -> (s: String)
        ensures
            s@ == describe_spec(self@),
    {
        match self {
            TokenKind::Word { text, .. } => text.clone(),
            TokenKind::Phrase { .. } => String::from_str("phrase"),
            TokenKind::All => String::from_str("*"),
            TokenKind::And => String::from_str("AND"),
            TokenKind::Or => String::from_str("OR"),
            TokenKind::Not => String::from_str("NOT"),
            TokenKind::Near(Some(n)) => {
                let mut s = String::from_str("NEAR/");
                let d = crate::text::u32_to_string(*n);
                crate::text::append_string(&mut s, &d);
                s
            },
            TokenKind::Near(None) => String::from_str("NEAR"),
            TokenKind::Then(Some(n)) => {
                let mut s = String::from_str("THEN/");
                let d = crate::text::u32_to_string(*n);
                crate::text::append_string(&mut s, &d);
                s
            },
            TokenKind::Then(None) => String::from_str("THEN"),
            TokenKind::Plus => String::from_str("+"),
            TokenKind::Minus => String::from_str("-"),
            TokenKind::LParen => String::from_str("("),
            TokenKind::RParen => String::from_str(")"),
            TokenKind::LBracket => String::from_str("["),
            TokenKind::RBracket => String::from_str("]"),
            TokenKind::Boost(_) => String::from_str("^"),
        }
    }
}

#[derive(Debug, Clone, PartialEq)]
pub struct Token {
    pub kind: TokenKind,
    pub span: Span,
}

/// A token as values.
pub struct TokenV {
    pub kind: TokenKindV,
    pub span: Span,
}

impl View for Token {
    type V = TokenV;

    open spec fn view(&self) -> TokenV {
        TokenV { kind: self.kind@, span: self.span }
    }
}

pub open spec fn tokens_view(ts: Seq<Token>) -> Seq<TokenV> {
    ts.map_values(|t: Token| t@)
}

pub struct Lexed {
    pub tokens: Vec<Token>,
    pub diagnostics: DiagnosticList,
}

// ---------------------------------------------------------------------------
// The token grammar, as functions of the query's characters.
// ---------------------------------------------------------------------------

pub open spec fn is_boundary(c: char) -> bool {
    is_white_space(c) || c == '(' || c == ')' || c == '[' || c == ']' || c == '"' || c == '~' || c
        == '^'
}

/// Characters a backslash escapes inside a bare term. `*` and `?` keep their
/// backslash so the emitter can tell literal from wildcard.
pub open spec fn is_term_escapable(c: char) -> bool {
    c == '*' || c == '?' || c == '(' || c == ')' || c == '[' || c == ']' || c == '"' || c == '~'
        || c == '^' || c == '\\' || c == ' '
}

/// One token or diagnostic-producing step of the lexer.
pub struct Step {
    pub next: int,
    pub token: Option<TokenV>,
    pub diags: Seq<DiagnosticV>,
}

pub open spec fn opt_seq<A>(o: Option<A>) -> Seq<A> {
    match o {
        Some(a) => seq![a],
        None => Seq::empty(),
    }
}

pub open spec fn span_of(cs: Seq<char>, i: int, j: int) -> Span {
    Span { start: boff(cs, i) as usize, end: boff(cs, j) as usize }
}

pub open spec fn error_at(cs: Seq<char>, code: Seq<char>, msg: Seq<char>, i: int, j: int) -> DiagnosticV {
    coded(DiagnosticSeverity::Error, code, msg, range_spec(cs, boff(cs, i) as int, boff(cs, j) as int))
}

/// End of the run of ASCII digits starting at `i`.
pub open spec fn digits_end(cs: Seq<char>, i: int) -> int
    decreases cs.len() - i,
{
    if 0 <= i < cs.len() && is_digit(cs[i]) {
        digits_end(cs, i + 1)
    } else {
        i
    }
}

/// End of the run of ASCII digits and dots starting at `i`.
pub open spec fn number_end(cs: Seq<char>, i: int) -> int
    decreases cs.len() - i,
{
    if 0 <= i < cs.len() && (is_digit(cs[i]) || cs[i] == '.') {
        number_end(cs, i + 1)
    } else {
        i
    }
}

/// Whether a run of digits and dots is a number `f64::from_str` accepts:
/// at least one digit and at most one dot.
pub open spec fn is_decimal_number(s: Seq<char>) -> bool {
    &&& exists|k: int| 0 <= k < s.len() && is_digit(#[trigger] s[k])
    &&& crate::text::count_char(s, '.') <= 1
}

/// A result of scanning a bare word.
pub struct WordScan {
    pub end: int,
    pub text: Seq<char>,
    pub wildcard: bool,
    pub escaped: bool,
}

/// Scans a bare word from `k`: backslash escapes, wildcards, stops at a boundary.
pub open spec fn scan_word(cs: Seq<char>, k: int) -> WordScan
    decreases cs.len() - k,
{
    if k < 0 || k >= cs.len() || is_boundary(cs[k]) {
        WordScan { end: k, text: Seq::empty(), wildcard: false, escaped: false }
    } else if cs[k] == '\\' {
        if k + 1 < cs.len() && is_term_escapable(cs[k + 1]) {
            let r = scan_word(cs, k + 2);
            let next = cs[k + 1];
            WordScan {
                end: r.end,
                text: (if next == '*' || next == '?' {
                    seq!['\\', next]
                } else {
                    seq![next]
                }) + r.text,
                wildcard: r.wildcard,
                escaped: true,
            }
        } else {
            let r = scan_word(cs, k + 1);
            WordScan { text: seq!['\\'] + r.text, ..r }
        }
    } else if cs[k] == '*' || cs[k] == '?' {
        let r = scan_word(cs, k + 1);
        WordScan { text: seq![cs[k]] + r.text, wildcard: true, ..r }
    } else {
        let r = scan_word(cs, k + 1);
        WordScan { text: seq![cs[k]] + r.text, ..r }
    }
}

/// A result of scanning a phrase body.
pub struct PhraseScan {
    pub end: int,
    pub text: Seq<char>,
    pub terminated: bool,
}

/// Scans a phrase body from `k` up to and including the closing `quote`.
pub open spec fn scan_phrase(cs: Seq<char>, k: int, quote: char) -> PhraseScan
    decreases cs.len() - k,
{
    if k < 0 || k >= cs.len() {
        PhraseScan { end: cs.len() as int, text: Seq::empty(), terminated: false }
    } else if cs[k] == quote {
        PhraseScan { end: k + 1, text: Seq::empty(), terminated: true }
    } else if cs[k] == '\\' {
        if k + 1 < cs.len() {
            let r = scan_phrase(cs, k + 2, quote);
            PhraseScan { text: seq![cs[k + 1]] + r.text, ..r }
        } else {
            PhraseScan { end: cs.len() as int, text: Seq::empty(), terminated: false }
        }
    } else {
        let r = scan_phrase(cs, k + 1, quote);
        PhraseScan { text: seq![cs[k]] + r.text, ..r }
    }
}

/// First index of `c` in `cs[k..e]`, or `e`.
pub open spec fn find_char(cs: Seq<char>, c: char, k: int, e: int) -> int
    decreases e - k,
{
    if k >= e {
        e
    } else if cs[k] == c {
        k
    } else {
        find_char(cs, c, k + 1, e)
    }
}

pub open spec fn punct_step(cs: Seq<char>, i: int, kind: TokenKindV) -> Step {
    Step { next: i + 1, token: Some(TokenV { kind, span: span_of(cs, i, i + 1) }), diags: Seq::empty() }
}

pub open spec fn tilde_step(cs: Seq<char>, i: int) -> Step {
    let e = digits_end(cs, i + 1);
    Step {
        next: e,
        token: None,
        diags: seq![
            error_at(
                cs,
                "dangling-modifier"@,
                "~ must directly follow a term (fuzzy) or a closing quote (proximity)"@,
                i,
                e,
            ),
        ],
    }
}

pub open spec fn phrase_step(cs: Seq<char>, i: int, quote: char) -> Step {
    let p = scan_phrase(cs, i + 1, quote);
    let d1 = if p.terminated {
        Seq::empty()
    } else {
        seq![
            error_at(
                cs,
                "unterminated-phrase"@,
                "Missing closing "@ + seq![quote] + " for this phrase"@,
                i,
                p.end,
            ),
        ]
    };
    if p.terminated && p.end < cs.len() && cs[p.end] == '~' {
        let e = digits_end(cs, p.end + 1);
        let slop = if e > p.end + 1 {
            Some(saturating_u32(cs.subrange(p.end + 1, e)))
        } else {
            None
        };
        let d2 = if e > p.end + 1 {
            Seq::empty()
        } else {
            seq![
                error_at(
                    cs,
                    "invalid-slop"@,
                    "Proximity needs a number after ~, for example \"health care\"~3"@,
                    p.end,
                    e,
                ),
            ]
        };
        Step {
            next: e,
            token: Some(TokenV { kind: TokenKindV::Phrase { text: p.text, slop }, span: span_of(cs, i, e) }),
            diags: d1 + d2,
        }
    } else {
        Step {
            next: p.end,
            token: Some(
                TokenV { kind: TokenKindV::Phrase { text: p.text, slop: None }, span: span_of(cs, i, p.end) },
            ),
            diags: d1,
        }
    }
}

pub open spec fn boost_step(cs: Seq<char>, i: int) -> Step {
    let e = number_end(cs, i + 1);
    let num = cs.subrange(i + 1, e);
    if is_decimal_number(num) {
        Step {
            next: e,
            token: Some(TokenV { kind: TokenKindV::Boost(num), span: span_of(cs, i, e) }),
            diags: Seq::empty(),
        }
    } else {
        Step {
            next: e,
            token: None,
            diags: seq![
                error_at(
                    cs,
                    "invalid-boost"@,
                    "Boost needs a number after ^, for example term^2"@,
                    i,
                    e,
                ),
            ],
        }
    }
}

/// A single quote opens a phrase only when another single quote follows somewhere.
pub open spec fn single_quote_opens(cs: Seq<char>, i: int) -> bool {
    exists|k: int| i + 1 <= k < cs.len() && cs[k] == '\''
}

/// `+`/`-` is an operator only when an operand directly follows it.
pub open spec fn sign_starts_operand(cs: Seq<char>, i: int) -> bool {
    i + 1 < cs.len() && !is_white_space(cs[i + 1]) && cs[i + 1] != ')' && cs[i + 1] != ']'
        && cs[i + 1] != '~' && cs[i + 1] != '^' && cs[i + 1] != '['
}

/// The fuzzy suffix `~N` / `~P:N` after a word ending at `p`: end, modifier, diagnostics.
pub open spec fn fuzzy_suffix(cs: Seq<char>, p: int) -> (int, Option<Fuzzy>, Seq<DiagnosticV>) {
    if p < cs.len() && cs[p] == '~' {
        let e1 = digits_end(cs, p + 1);
        if e1 > p + 1 {
            let first = saturating_u32(cs.subrange(p + 1, e1));
            if e1 < cs.len() && cs[e1] == ':' {
                let e2 = digits_end(cs, e1 + 1);
                if e2 > e1 + 1 {
                    (
                        e2,
                        Some(Fuzzy { distance: saturating_u32(cs.subrange(e1 + 1, e2)), prefix: Some(first) }),
                        Seq::empty(),
                    )
                } else {
                    (
                        e2,
                        None,
                        seq![
                            error_at(
                                cs,
                                "invalid-fuzzy"@,
                                "Fuzzy prefix form is term~PREFIX:DISTANCE, for example apple~1:2"@,
                                p,
                                e2,
                            ),
                        ],
                    )
                }
            } else {
                (e1, Some(Fuzzy { distance: first, prefix: None }), Seq::empty())
            }
        } else {
            (
                e1,
                None,
                seq![
                    error_at(
                        cs,
                        "invalid-fuzzy"@,
                        "Fuzzy match needs a number after ~, for example apple~1"@,
                        p,
                        e1,
                    ),
                ],
            )
        }
    } else {
        (p, None, Seq::empty())
    }
}

/// `NEAR` / `THEN` with an optional `/N` gap, when `raw` is one.
pub open spec fn proximity_word(cs: Seq<char>, i: int, e: int, keyword: Seq<char>) -> bool {
    let raw = cs.subrange(i, e);
    raw == keyword || (raw.len() >= 5 && raw.take(5) == keyword + seq!['/'])
}

pub open spec fn proximity_gap(cs: Seq<char>, i: int, e: int) -> Option<u32> {
    let g = cs.subrange(i + 5, e);
    if e > i + 5 && all_digits(g) {
        Some(saturating_u32(g))
    } else {
        None
    }
}

pub open spec fn proximity_step(cs: Seq<char>, i: int, e: int, keyword: Seq<char>, ordered: bool) -> Step {
    let gap = proximity_gap(cs, i, e);
    Step {
        next: e,
        token: Some(
            TokenV {
                kind: if ordered {
                    TokenKindV::Then(gap)
                } else {
                    TokenKindV::Near(gap)
                },
                span: span_of(cs, i, e),
            },
        ),
        diags: if gap is Some {
            Seq::empty()
        } else {
            seq![
                error_at(
                    cs,
                    "invalid-proximity"@,
                    keyword + " needs a distance, for example "@ + keyword + "/3; quote \""@ + keyword
                        + "\" to search for the word"@,
                    i,
                    e,
                ),
            ]
        },
    }
}

pub open spec fn is_known_field(f: Seq<char>) -> bool {
    f == "content_exact"@ || f == "content"@
}

pub open spec fn field_diag(cs: Seq<char>, i: int, colon: int) -> DiagnosticV {
    let range = range_spec(cs, boff(cs, i) as int, boff(cs, i) + colon + 1);
    with_fix(
        coded(
            DiagnosticSeverity::Warning,
            "field-ignored"@,
            "Field prefix \""@ + cs.subrange(i, i + colon + 1)
                + "\" is ignored; all terms search post content"@,
            range,
        ),
        "Remove field prefix"@,
        range,
        Seq::empty(),
    )
}

pub open spec fn word_step(cs: Seq<char>, i: int) -> Step {
    let w = scan_word(cs, i);
    let raw = cs.subrange(i, w.end);
    let keyword_token = |k: TokenKindV|
        Step { next: w.end, token: Some(TokenV { kind: k, span: span_of(cs, i, w.end) }), diags: Seq::empty() };
    if !w.escaped && raw == "*"@ {
        keyword_token(TokenKindV::All)
    } else if !w.escaped && raw == "AND"@ {
        keyword_token(TokenKindV::And)
    } else if !w.escaped && raw == "OR"@ {
        keyword_token(TokenKindV::Or)
    } else if !w.escaped && raw == "NOT"@ {
        keyword_token(TokenKindV::Not)
    } else if !w.escaped && proximity_word(cs, i, w.end, "NEAR"@) {
        proximity_step(cs, i, w.end, "NEAR"@, false)
    } else if !w.escaped && proximity_word(cs, i, w.end, "THEN"@) {
        proximity_step(cs, i, w.end, "THEN"@, true)
    } else {
        let colon = find_char(cs, ':', i, w.end) - i;
        let field = i + colon < w.end && is_known_field(cs.subrange(i, i + colon));
        if field && i + colon + 1 == w.end {
            Step { next: w.end, token: None, diags: seq![field_diag(cs, i, colon)] }
        } else {
            let text = if field {
                w.text.skip(colon + 1)
            } else {
                w.text
            };
            let fz = fuzzy_suffix(cs, w.end);
            Step {
                next: fz.0,
                token: Some(
                    TokenV {
                        kind: TokenKindV::Word { text, wildcard: w.wildcard, fuzzy: fz.1 },
                        span: span_of(cs, i, fz.0),
                    },
                ),
                diags: (if field {
                    seq![field_diag(cs, i, colon)]
                } else {
                    Seq::empty()
                }) + fz.2,
            }
        }
    }
}

/// What the lexer does at character `i`.
pub open spec fn lex_step(cs: Seq<char>, i: int) -> Step {
    let c = cs[i];
    if is_white_space(c) {
        Step { next: i + 1, token: None, diags: Seq::empty() }
    } else if c == '(' {
        punct_step(cs, i, TokenKindV::LParen)
    } else if c == ')' {
        punct_step(cs, i, TokenKindV::RParen)
    } else if c == '[' {
        punct_step(cs, i, TokenKindV::LBracket)
    } else if c == ']' {
        punct_step(cs, i, TokenKindV::RBracket)
    } else if c == '"' {
        phrase_step(cs, i, '"')
    } else if c == '\'' && single_quote_opens(cs, i) {
        phrase_step(cs, i, '\'')
    } else if c == '^' {
        boost_step(cs, i)
    } else if c == '~' {
        tilde_step(cs, i)
    } else if (c == '+' || c == '-') && sign_starts_operand(cs, i) {
        punct_step(
            cs,
            i,
            if c == '+' {
                TokenKindV::Plus
            } else {
                TokenKindV::Minus
            },
        )
    } else {
        word_step(cs, i)
    }
}

/// Tokens and diagnostics of the query from character `i` on.
pub open spec fn lex_from(cs: Seq<char>, i: int) -> (Seq<TokenV>, Seq<DiagnosticV>)
    decreases cs.len() - i,
{
    if i < 0 || i >= cs.len() {
        (Seq::empty(), Seq::empty())
    } else {
        let s = lex_step(cs, i);
        if i < s.next <= cs.len() {
            let r = lex_from(cs, s.next);
            (opt_seq(s.token) + r.0, s.diags + r.1)
        } else {
            (Seq::empty(), Seq::empty())
        }
    }
}

/// The tokens and diagnostics of a query.
pub open spec fn lex_spec(cs: Seq<char>) -> (Seq<TokenV>, Seq<DiagnosticV>) {
    lex_from(cs, 0)
}

} // verus!

verus! {

// ---------------------------------------------------------------------------
// The lexer.
// ---------------------------------------------------------------------------

/// The outcome of one lexer step.
struct StepOut {
    next: usize,
    bnext: usize,
    token: Option<Token>,
    diags: Vec<Diagnostic>,
}

spec fn opt_token_view(t: Option<Token>) -> Option<TokenV> {
    match t {
        Some(t) => Some(t@),
        None => None,
    }
}

spec fn step_done(src: &SourceText, i: int, o: StepOut, s: Step) -> bool {
    &&& o.next == s.next
    &&& i < o.next <= src.chars@.len()
    &&& o.bnext == boff(src.chars@, o.next as int)
    &&& opt_token_view(o.token) == s.token
    &&& diags_view(o.diags@) == s.diags
}

fn is_boundary_exec(c: char) -> (b: bool)
    ensures
        b == is_boundary(c),
{
    is_whitespace(c) || c == '(' || c == ')' || c == '[' || c == ']' || c == '"' || c == '~' || c
        == '^'
}

fn is_term_escapable_exec(c: char) -> (b: bool)
    ensures
        b == is_term_escapable(c),
{
    c == '*' || c == '?' || c == '(' || c == ')' || c == '[' || c == ']' || c == '"' || c == '~'
        || c == '^' || c == '\\' || c == ' '
}

proof fn lemma_digits_end(cs: Seq<char>, i: int)
    requires
        0 <= i <= cs.len(),
    ensures
        i <= digits_end(cs, i) <= cs.len(),
        all_digits(cs.subrange(i, digits_end(cs, i))),
    decreases cs.len() - i,
{
    if i < cs.len() && is_digit(cs[i]) {
        lemma_digits_end(cs, i + 1);
        assert forall|k: int| 0 <= k < cs.subrange(i, digits_end(cs, i)).len() implies is_digit(
            #[trigger] cs.subrange(i, digits_end(cs, i))[k],
        ) by {
            if k > 0 {
                assert(cs.subrange(i, digits_end(cs, i))[k] == cs.subrange(i + 1, digits_end(cs, i))[k
                    - 1]);
            }
        }
    }
}

fn digits_end_exec(src: &SourceText, i: usize) -> (e: usize)
    requires
        i <= src.chars@.len(),
    ensures
        e == digits_end(src.chars@, i as int),
        i <= e <= src.chars@.len(),
        all_digits(src.chars@.subrange(i as int, e as int)),
{
    proof {
        lemma_digits_end(src.chars@, i as int);
    }
    let mut k = i;
    while k < src.chars.len() && is_ascii_digit(src.chars[k])
        invariant
            i <= k <= src.chars@.len(),
            digits_end(src.chars@, i as int) == digits_end(src.chars@, k as int),
        decreases src.chars@.len() - k,
    {
        k = k + 1;
    }
    k
}

fn number_end_exec(src: &SourceText, i: usize) -> (e: usize)
    requires
        i <= src.chars@.len(),
    ensures
        e == number_end(src.chars@, i as int),
        i <= e <= src.chars@.len(),
{
    let mut k = i;
    while k < src.chars.len() && (is_ascii_digit(src.chars[k]) || src.chars[k] == '.')
        invariant
            i <= k <= src.chars@.len(),
            number_end(src.chars@, i as int) == number_end(src.chars@, k as int),
        decreases src.chars@.len() - k,
    {
        k = k + 1;
    }
    k
}

fn is_decimal_number_exec(src: &SourceText, from: usize, to: usize) -> (b: bool)
    requires
        from <= to <= src.chars@.len(),
    ensures
        b == is_decimal_number(src.chars@.subrange(from as int, to as int)),
{
    let ghost s = src.chars@.subrange(from as int, to as int);
    let mut k = from;
    let mut dots: usize = 0;
    let mut digit = false;
    while k < to
        invariant
            from <= k <= to <= src.chars@.len(),
            s == src.chars@.subrange(from as int, to as int),
            dots == crate::text::count_char(s.take(k - from), '.'),
            dots <= k - from,
            digit == exists|j: int| 0 <= j < k - from && is_digit(#[trigger] s[j]),
        decreases to - k,
    {
        let c = src.chars[k];
        assert(s[k - from] == c);
        assert(s.take(k - from + 1).drop_last() =~= s.take(k - from));
        if c == '.' {
            dots = dots + 1;
        }
        if is_ascii_digit(c) {
            digit = true;
        }
        k = k + 1;
    }
    assert(s.take(to - from) =~= s);
    dots <= 1 && digit
}

fn find_char_exec(src: &SourceText, c: char, k: usize, e: usize) -> (r: usize)
    requires
        k <= e <= src.chars@.len(),
    ensures
        r == find_char(src.chars@, c, k as int, e as int),
        k <= r <= e,
        r < e ==> src.chars@[r as int] == c,
        forall|j: int| k <= j < r ==> src.chars@[j] != c,
{
    let mut j = k;
    while j < e && src.chars[j] != c
        invariant
            k <= j <= e <= src.chars@.len(),
            find_char(src.chars@, c, k as int, e as int) == find_char(src.chars@, c, j as int, e as int),
            forall|m: int| k <= m < j ==> src.chars@[m] != c,
        decreases e - j,
    {
        j = j + 1;
    }
    j
}

/// An error diagnostic with a code, over bytes `bi..bj`.
fn error_diag(src: &SourceText, code: &str, msg: String, bi: usize, bj: usize) -> (d: Diagnostic)
    requires
        src.wf(),
    ensures
        d@ == coded(DiagnosticSeverity::Error, code@, msg@, range_spec(src.chars@, bi as int, bj as int)),
{
    Diagnostic::error(msg, range_in(src, bi, bj)).with_code(code)
}

fn single_token(src: &SourceText, i: usize, bi: usize, kind: TokenKind) -> (o: StepOut)
    requires
        src.wf(),
        i < src.chars@.len(),
        bi == boff(src.chars@, i as int),
    ensures
        step_done(src, i as int, o, punct_step(src.chars@, i as int, kind@)),
{
    let bn = src.byte_offset(i, bi, i + 1);
    let diags: Vec<Diagnostic> = Vec::new();
    assert(diags_view(diags@) =~= Seq::<DiagnosticV>::empty());
    StepOut {
        next: i + 1,
        bnext: bn,
        token: Some(Token { kind, span: Span { start: bi, end: bn } }),
        diags,
    }
}

fn tilde_exec(src: &SourceText, i: usize, bi: usize) -> (o: StepOut)
    requires
        src.wf(),
        i < src.chars@.len(),
        src.chars@[i as int] == '~',
        bi == boff(src.chars@, i as int),
    ensures
        step_done(src, i as int, o, tilde_step(src.chars@, i as int)),
{
    let e = digits_end_exec(src, i + 1);
    let be = src.byte_offset(i, bi, e);
    let d = error_diag(
        src,
        "dangling-modifier",
        String::from_str("~ must directly follow a term (fuzzy) or a closing quote (proximity)"),
        bi,
        be,
    );
    let mut diags = Vec::new();
    diags.push(d);
    assert(diags_view(diags@) =~= tilde_step(src.chars@, i as int).diags);
    StepOut { next: e, bnext: be, token: None, diags }
}

proof fn lemma_scan_phrase(cs: Seq<char>, k: int, q: char)
    requires
        0 <= k <= cs.len(),
    ensures
        k <= scan_phrase(cs, k, q).end <= cs.len(),
    decreases cs.len() - k,
{
    if k < cs.len() && cs[k] != q {
        if cs[k] == '\\' {
            if k + 1 < cs.len() {
                lemma_scan_phrase(cs, k + 2, q);
            }
        } else {
            lemma_scan_phrase(cs, k + 1, q);
        }
    }
}

fn phrase_exec(src: &SourceText, i: usize, bi: usize, quote: char) -> (o: StepOut)
    requires
        src.wf(),
        i < src.chars@.len(),
        src.chars@[i as int] == quote,
        quote == '"' || quote == '\'',
        bi == boff(src.chars@, i as int),
    ensures
        step_done(src, i as int, o, phrase_step(src.chars@, i as int, quote)),
{
    let ghost cs = src.chars@;
    let n = src.chars.len();
    let ghost p = scan_phrase(cs, i + 1, quote);
    proof {
        lemma_scan_phrase(cs, i + 1, quote);
    }
    let mut text = String::new();
    let mut k = i + 1;
    let mut terminated = false;
    while k < n
        invariant_except_break
            i + 1 <= k <= n,
            n == cs.len(),
            cs == src.chars@,
            p == scan_phrase(cs, i + 1, quote),
            p.end == scan_phrase(cs, k as int, quote).end,
            p.terminated == scan_phrase(cs, k as int, quote).terminated,
            p.text == text@ + scan_phrase(cs, k as int, quote).text,
            !terminated,
        ensures
            k == p.end,
            terminated == p.terminated,
            text@ == p.text,
        decreases n - k,
    {
        let c = src.chars[k];
        if c == quote {
            terminated = true;
            k = k + 1;
            assert(text@ + Seq::<char>::empty() =~= text@);
            break;
        }
        if c == '\\' {
            if k + 1 < n {
                let ghost before = text@;
                push_char(&mut text, src.chars[k + 1]);
                assert(before + (seq![cs[k + 1]] + scan_phrase(cs, k + 2, quote).text) =~= text@
                    + scan_phrase(cs, k + 2, quote).text);
                k = k + 2;
            } else {
                assert(text@ + Seq::<char>::empty() =~= text@);
                k = n;
            }
        } else {
            let ghost before = text@;
            push_char(&mut text, c);
            assert(before + (seq![c] + scan_phrase(cs, k + 1, quote).text) =~= text@ + scan_phrase(
                cs,
                k + 1,
                quote,
            ).text);
            k = k + 1;
        }
    }
    proof {
        if !terminated {
            assert(text@ + Seq::<char>::empty() =~= text@);
        }
    }
    let bk = src.byte_offset(i, bi, k);
    let mut diags: Vec<Diagnostic> = Vec::new();
    if !terminated {
        let mut msg = String::from_str("Missing closing ");
        push_char(&mut msg, quote);
        crate::text::append_str(&mut msg, " for this phrase");
        assert(msg@ =~= "Missing closing "@ + seq![quote] + " for this phrase"@);
        diags.push(error_diag(src, "unterminated-phrase", msg, bi, bk));
    }
    proof {
        if !terminated {
            assert(diags_view(diags@) =~= seq![
                error_at(
                    cs,
                    "unterminated-phrase"@,
                    "Missing closing "@ + seq![quote] + " for this phrase"@,
                    i as int,
                    k as int,
                ),
            ]);
        } else {
            assert(diags_view(diags@) =~= Seq::<DiagnosticV>::empty());
        }
    }
    if terminated && k < n && src.chars[k] == '~' {
        let e = digits_end_exec(src, k + 1);
        let be = src.byte_offset(k, bk, e);
        let slop = if e > k + 1 {
            Some(parse_digits(&src.chars, k + 1, e))
        } else {
            diags.push(
                error_diag(
                    src,
                    "invalid-slop",
                    String::from_str("Proximity needs a number after ~, for example \"health care\"~3"),
                    bk,
                    be,
                ),
            );
            None
        };
        proof {
            let s = phrase_step(cs, i as int, quote);
            assert(diags_view(diags@) =~= s.diags);
        }
        StepOut {
            next: e,
            bnext: be,
            token: Some(Token { kind: TokenKind::Phrase { text, slop }, span: Span { start: bi, end: be } }),
            diags,
        }
    } else {
        proof {
            let s = phrase_step(cs, i as int, quote);
            assert(diags_view(diags@) =~= s.diags);
        }
        StepOut {
            next: k,
            bnext: bk,
            token: Some(Token { kind: TokenKind::Phrase { text, slop: None }, span: Span { start: bi, end: bk } }),
            diags,
        }
    }
}

fn boost_exec(src: &SourceText, i: usize, bi: usize) -> (o: StepOut)
    requires
        src.wf(),
        i < src.chars@.len(),
        src.chars@[i as int] == '^',
        bi == boff(src.chars@, i as int),
    ensures
        step_done(src, i as int, o, boost_step(src.chars@, i as int)),
{
    let e = number_end_exec(src, i + 1);
    let be = src.byte_offset(i, bi, e);
    if is_decimal_number_exec(src, i + 1, e) {
        let num = string_of(&src.chars, i + 1, e);
        let diags: Vec<Diagnostic> = Vec::new();
        assert(diags_view(diags@) =~= Seq::<DiagnosticV>::empty());
        StepOut {
            next: e,
            bnext: be,
            token: Some(Token { kind: TokenKind::Boost(num), span: Span { start: bi, end: be } }),
            diags,
        }
    } else {
        let mut diags = Vec::new();
        diags.push(
            error_diag(
                src,
                "invalid-boost",
                String::from_str("Boost needs a number after ^, for example term^2"),
                bi,
                be,
            ),
        );
        assert(diags_view(diags@) =~= boost_step(src.chars@, i as int).diags);
        StepOut { next: e, bnext: be, token: None, diags }
    }
}

proof fn lemma_scan_word(cs: Seq<char>, k: int)
    requires
        0 <= k <= cs.len(),
    ensures
        k <= scan_word(cs, k).end <= cs.len(),
        k < cs.len() && !is_boundary(cs[k]) ==> k < scan_word(cs, k).end,
    decreases cs.len() - k,
{
    if k < cs.len() && !is_boundary(cs[k]) {
        if cs[k] == '\\' && k + 1 < cs.len() && is_term_escapable(cs[k + 1]) {
            lemma_scan_word(cs, k + 2);
        } else {
            lemma_scan_word(cs, k + 1);
        }
    }
}

/// Scans a bare word: its end, text, whether it holds a wildcard, whether it holds an escape.
fn scan_word_exec(src: &SourceText, start: usize) -> (r: (usize, String, bool, bool))
    requires
        start <= src.chars@.len(),
    ensures
        r.0 == scan_word(src.chars@, start as int).end,
        r.1@ == scan_word(src.chars@, start as int).text,
        r.2 == scan_word(src.chars@, start as int).wildcard,
        r.3 == scan_word(src.chars@, start as int).escaped,
{
    let ghost cs = src.chars@;
    let ghost w = scan_word(cs, start as int);
    let n = src.chars.len();
    let mut k = start;
    let mut text = String::new();
    let mut wildcard = false;
    let mut escaped = false;
    assert(text@ + w.text =~= w.text);
    while k < n
        invariant_except_break
            start <= k <= n,
            n == cs.len(),
            cs == src.chars@,
            w == scan_word(cs, start as int),
            w.end == scan_word(cs, k as int).end,
            w.text == text@ + scan_word(cs, k as int).text,
            w.wildcard == (wildcard || scan_word(cs, k as int).wildcard),
            w.escaped == (escaped || scan_word(cs, k as int).escaped),
        ensures
            k == w.end,
            text@ == w.text,
            wildcard == w.wildcard,
            escaped == w.escaped,
        decreases n - k,
    {
        let c = src.chars[k];
        if is_boundary_exec(c) {
            assert(text@ + Seq::<char>::empty() =~= text@);
            break;
        }
        let ghost before = text@;
        if c == '\\' {
            if k + 1 < n && is_term_escapable_exec(src.chars[k + 1]) {
                let next = src.chars[k + 1];
                escaped = true;
                if next == '*' || next == '?' {
                    push_char(&mut text, '\\');
                    push_char(&mut text, next);
                    assert(before + (seq!['\\', next] + scan_word(cs, k + 2).text) =~= text@
                        + scan_word(cs, k + 2).text);
                } else {
                    push_char(&mut text, next);
                    assert(before + (seq![next] + scan_word(cs, k + 2).text) =~= text@ + scan_word(
                        cs,
                        k + 2,
                    ).text);
                }
                k = k + 2;
            } else {
                push_char(&mut text, '\\');
                assert(before + (seq!['\\'] + scan_word(cs, k + 1).text) =~= text@ + scan_word(
                    cs,
                    k + 1,
                ).text);
                k = k + 1;
            }
        } else if c == '*' || c == '?' {
            wildcard = true;
            push_char(&mut text, c);
            assert(before + (seq![c] + scan_word(cs, k + 1).text) =~= text@ + scan_word(cs, k + 1).text);
            k = k + 1;
        } else {
            push_char(&mut text, c);
            assert(before + (seq![c] + scan_word(cs, k + 1).text) =~= text@ + scan_word(cs, k + 1).text);
            k = k + 1;
        }
    }
    proof {
        if k >= n {
            assert(text@ + Seq::<char>::empty() =~= text@);
        }
    }
    (k, text, wildcard, escaped)
}

fn proximity_exec(src: &SourceText, i: usize, bi: usize, e: usize, be: usize, keyword: &str, ordered: bool) -> (o: StepOut)
    requires
        src.wf(),
        i < e <= src.chars@.len(),
        bi == boff(src.chars@, i as int),
        be == boff(src.chars@, e as int),
    ensures
        step_done(src, i as int, o, proximity_step(src.chars@, i as int, e as int, keyword@, ordered)),
{
    let ghost cs = src.chars@;
    let gap = if e - i > 5 && digits_in(&src.chars, i + 5, e) {
        Some(parse_digits(&src.chars, i + 5, e))
    } else {
        None
    };
    assert(gap == proximity_gap(cs, i as int, e as int));
    let mut diags = Vec::new();
    if gap.is_none() {
        let mut msg = String::from_str(keyword);
        crate::text::append_str(&mut msg, " needs a distance, for example ");
        crate::text::append_str(&mut msg, keyword);
        crate::text::append_str(&mut msg, "/3; quote \"");
        crate::text::append_str(&mut msg, keyword);
        crate::text::append_str(&mut msg, "\" to search for the word");
        diags.push(error_diag(src, "invalid-proximity", msg, bi, be));
    }
    assert(diags_view(diags@) =~= proximity_step(cs, i as int, e as int, keyword@, ordered).diags);
    let kind = if ordered {
        TokenKind::Then(gap)
    } else {
        TokenKind::Near(gap)
    };
    StepOut { next: e, bnext: be, token: Some(Token { kind, span: Span { start: bi, end: be } }), diags }
}

fn field_diag_exec(src: &SourceText, i: usize, bi: usize, colon: usize) -> (d: Diagnostic)
    requires
        src.wf(),
        i + colon + 1 <= src.chars@.len(),
        bi == boff(src.chars@, i as int),
    ensures
        d@ == field_diag(src.chars@, i as int, colon as int),
{
    proof {
        crate::text::lemma_boff_ge_count(src.chars@, i as int, i + colon + 1);
        lemma_boff_bound(src.chars@, i + colon + 1);
    }
    let range = range_in(src, bi, bi + colon + 1);
    let mut msg = String::from_str("Field prefix \"");
    let prefix = string_of(&src.chars, i, i + colon + 1);
    crate::text::append_string(&mut msg, &prefix);
    crate::text::append_str(&mut msg, "\" is ignored; all terms search post content");
    Diagnostic::warning(msg, range).with_code("field-ignored").with_fix(
        String::from_str("Remove field prefix"),
        range,
        String::new(),
    )
}

fn fuzzy_exec(src: &SourceText, p: usize, bp: usize) -> (r: (usize, usize, Option<Fuzzy>, Vec<Diagnostic>))
    requires
        src.wf(),
        p <= src.chars@.len(),
        bp == boff(src.chars@, p as int),
    ensures
        r.0 == fuzzy_suffix(src.chars@, p as int).0,
        p <= r.0 <= src.chars@.len(),
        r.1 == boff(src.chars@, r.0 as int),
        r.2 == fuzzy_suffix(src.chars@, p as int).1,
        diags_view(r.3@) == fuzzy_suffix(src.chars@, p as int).2,
{
    let ghost cs = src.chars@;
    let mut diags: Vec<Diagnostic> = Vec::new();
    if p < src.chars.len() && src.chars[p] == '~' {
        let e1 = digits_end_exec(src, p + 1);
        let be1 = src.byte_offset(p, bp, e1);
        if e1 > p + 1 {
            let first = parse_digits(&src.chars, p + 1, e1);
            if e1 < src.chars.len() && src.chars[e1] == ':' {
                let e2 = digits_end_exec(src, e1 + 1);
                let be2 = src.byte_offset(e1, be1, e2);
                if e2 > e1 + 1 {
                    let distance = parse_digits(&src.chars, e1 + 1, e2);
                    assert(diags_view(diags@) =~= Seq::<DiagnosticV>::empty());
                    (e2, be2, Some(Fuzzy { distance, prefix: Some(first) }), diags)
                } else {
                    diags.push(
                        error_diag(
                            src,
                            "invalid-fuzzy",
                            String::from_str(
                                "Fuzzy prefix form is term~PREFIX:DISTANCE, for example apple~1:2",
                            ),
                            bp,
                            be2,
                        ),
                    );
                    assert(diags_view(diags@) =~= fuzzy_suffix(cs, p as int).2);
                    (e2, be2, None, diags)
                }
            } else {
                assert(diags_view(diags@) =~= Seq::<DiagnosticV>::empty());
                (e1, be1, Some(Fuzzy { distance: first, prefix: None }), diags)
            }
        } else {
            diags.push(
                error_diag(
                    src,
                    "invalid-fuzzy",
                    String::from_str("Fuzzy match needs a number after ~, for example apple~1"),
                    bp,
                    be1,
                ),
            );
            assert(diags_view(diags@) =~= fuzzy_suffix(cs, p as int).2);
            (e1, be1, None, diags)
        }
    } else {
        assert(diags_view(diags@) =~= Seq::<DiagnosticV>::empty());
        (p, bp, None, diags)
    }
}

fn word_exec(src: &SourceText, i: usize, bi: usize) -> (o: StepOut)
    requires
        src.wf(),
        i < src.chars@.len(),
        !is_boundary(src.chars@[i as int]),
        bi == boff(src.chars@, i as int),
    ensures
        step_done(src, i as int, o, word_step(src.chars@, i as int)),
{
    let ghost cs = src.chars@;
    proof {
        lemma_scan_word(cs, i as int);
    }
    let (e, text, wildcard, escaped) = scan_word_exec(src, i);
    let be = src.byte_offset(i, bi, e);
    let ghost s = word_step(cs, i as int);
    if !escaped {
        let kw = if chars_eq_str(&src.chars, i, e, "*") {
            Some(TokenKind::All)
        } else if chars_eq_str(&src.chars, i, e, "AND") {
            Some(TokenKind::And)
        } else if chars_eq_str(&src.chars, i, e, "OR") {
            Some(TokenKind::Or)
        } else if chars_eq_str(&src.chars, i, e, "NOT") {
            Some(TokenKind::Not)
        } else {
            None
        };
        match kw {
            Some(kind) => {
                let diags: Vec<Diagnostic> = Vec::new();
                assert(diags_view(diags@) =~= s.diags);
                return StepOut {
                    next: e,
                    bnext: be,
                    token: Some(Token { kind, span: Span { start: bi, end: be } }),
                    diags,
                };
            },
            None => {},
        }
        if chars_eq_str(&src.chars, i, e, "NEAR") || (e - i >= 5 && chars_eq_str(
            &src.chars,
            i,
            i + 5,
            "NEAR/",
        )) {
            proof {
                if e - i >= 5 {
                    assert(cs.subrange(i as int, e as int).take(5) =~= cs.subrange(i as int, i + 5));
                }
                assert(("NEAR"@ + seq!['/']) =~= "NEAR/"@) by {
                    reveal_strlit("NEAR");
                    reveal_strlit("NEAR/");
                }
            }
            return proximity_exec(src, i, bi, e, be, "NEAR", false);
        }
        proof {
            if e - i >= 5 {
                assert(cs.subrange(i as int, e as int).take(5) =~= cs.subrange(i as int, i + 5));
            }
            assert(("NEAR"@ + seq!['/']) =~= "NEAR/"@) by {
                reveal_strlit("NEAR");
                reveal_strlit("NEAR/");
            }
            assert(("THEN"@ + seq!['/']) =~= "THEN/"@) by {
                reveal_strlit("THEN");
                reveal_strlit("THEN/");
            }
        }
        if chars_eq_str(&src.chars, i, e, "THEN") || (e - i >= 5 && chars_eq_str(
            &src.chars,
            i,
            i + 5,
            "THEN/",
        )) {
            return proximity_exec(src, i, bi, e, be, "THEN", true);
        }
    }
    let colon_at = find_char_exec(src, ':', i, e);
    let colon = colon_at - i;
    let field = colon_at < e && (chars_eq_str(&src.chars, i, colon_at, "content_exact")
        || chars_eq_str(&src.chars, i, colon_at, "content"));
    let mut diags: Vec<Diagnostic> = Vec::new();
    if field {
        diags.push(field_diag_exec(src, i, bi, colon));
        if colon_at + 1 == e {
            assert(diags_view(diags@) =~= s.diags);
            return StepOut { next: e, bnext: be, token: None, diags };
        }
    }
    let text = if field {
        let tc = crate::text::chars_of(&text);
        proof {
            lemma_field_text_len(cs, i as int, colon as int);
        }
        string_of(&tc, colon + 1, tc.len())
    } else {
        text
    };
    proof {
        if field {
            assert(scan_word(cs, i as int).text.skip(colon + 1) =~= text@);
        }
    }
    let (next, bnext, fuzzy, mut fd) = fuzzy_exec(src, e, be);
    diags.append(&mut fd);
    assert(diags_view(diags@) =~= s.diags);
    StepOut {
        next,
        bnext,
        token: Some(Token { kind: TokenKind::Word { text, wildcard, fuzzy }, span: Span { start: bi, end: bnext } }),
        diags,
    }
}

/// A known field prefix scans to itself: the word's text is at least as long as it.
proof fn lemma_field_text_len(cs: Seq<char>, i: int, colon: int)
    requires
        0 <= i,
        i + colon < scan_word(cs, i).end,
        i + colon < cs.len(),
        0 <= colon,
        is_known_field(cs.subrange(i, i + colon)),
        cs[i + colon] == ':',
    ensures
        scan_word(cs, i).text.len() >= colon + 1,
{
    lemma_known_field_chars(cs.subrange(i, i + colon));
    assert forall|m: int| i <= m < i + colon + 1 implies !is_boundary(cs[m]) && cs[m] != '\\' by {
        if m < i + colon {
            assert(cs[m] == cs.subrange(i, i + colon)[m - i]);
        }
    }
    lemma_scan_word_plain(cs, i, colon + 1);
}

proof fn lemma_known_field_chars(f: Seq<char>)
    requires
        is_known_field(f),
    ensures
        forall|j: int| 0 <= j < f.len() ==> ('a' <= #[trigger] f[j] <= 'z' || f[j] == '_'),
{
    reveal_strlit("content_exact");
    reveal_strlit("content");
    assert forall|j: int| 0 <= j < f.len() implies ('a' <= #[trigger] f[j] <= 'z' || f[j] == '_') by {
        if f == "content"@ {
            assert(j == 0 || j == 1 || j == 2 || j == 3 || j == 4 || j == 5 || j == 6);
        } else {
            assert(j == 0 || j == 1 || j == 2 || j == 3 || j == 4 || j == 5 || j == 6 || j == 7 || j
                == 8 || j == 9 || j == 10 || j == 11 || j == 12);
        }
    }
}

proof fn lemma_scan_word_plain(cs: Seq<char>, k: int, t: int)
    requires
        0 <= k,
        0 <= t,
        k + t <= cs.len(),
        forall|m: int| k <= m < k + t ==> !is_boundary(#[trigger] cs[m]) && cs[m] != '\\',
    ensures
        scan_word(cs, k).text.len() >= t,
    decreases t,
{
    if t > 0 {
        lemma_scan_word_plain(cs, k + 1, t - 1);
    }
}

fn lex_step_exec(src: &SourceText, i: usize, bi: usize) -> (o: StepOut)
    requires
        src.wf(),
        i < src.chars@.len(),
        bi == boff(src.chars@, i as int),
    ensures
        step_done(src, i as int, o, lex_step(src.chars@, i as int)),
{
    let c = src.chars[i];
    if is_whitespace(c) {
        let bn = src.byte_offset(i, bi, i + 1);
        let diags: Vec<Diagnostic> = Vec::new();
        assert(diags_view(diags@) =~= Seq::<DiagnosticV>::empty());
        StepOut { next: i + 1, bnext: bn, token: None, diags }
    } else if c == '(' {
        single_token(src, i, bi, TokenKind::LParen)
    } else if c == ')' {
        single_token(src, i, bi, TokenKind::RParen)
    } else if c == '[' {
        single_token(src, i, bi, TokenKind::LBracket)
    } else if c == ']' {
        single_token(src, i, bi, TokenKind::RBracket)
    } else if c == '"' {
        phrase_exec(src, i, bi, '"')
    } else if c == '\'' && single_quote_opens_exec(src, i) {
        phrase_exec(src, i, bi, '\'')
    } else if c == '^' {
        boost_exec(src, i, bi)
    } else if c == '~' {
        tilde_exec(src, i, bi)
    } else if (c == '+' || c == '-') && sign_starts_operand_exec(src, i) {
        if c == '+' {
            single_token(src, i, bi, TokenKind::Plus)
        } else {
            single_token(src, i, bi, TokenKind::Minus)
        }
    } else {
        word_exec(src, i, bi)
    }
}

fn single_quote_opens_exec(src: &SourceText, i: usize) -> (b: bool)
    requires
        src.wf(),
        i < src.chars@.len(),
    ensures
        b == single_quote_opens(src.chars@, i as int),
{
    let n = src.chars.len();
    let r = find_char_exec(src, '\'', i + 1, n);
    r < n
}

fn sign_starts_operand_exec(src: &SourceText, i: usize) -> (b: bool)
    requires
        src.wf(),
        i < src.chars@.len(),
    ensures
        b == sign_starts_operand(src.chars@, i as int),
{
    if i + 1 < src.chars.len() {
        let next = src.chars[i + 1];
        !is_whitespace(next) && next != ')' && next != ']' && next != '~' && next != '^' && next != '['
    } else {
        false
    }
}

/// Tokenizes a query.
pub fn lex(source: &str) -> (l: Lexed)
    ensures
        tokens_view(l.tokens@) == lex_spec(source@).0,
        l.diagnostics@ == lex_spec(source@).1,
{
    let src = SourceText::new(source);
    lex_text(&src)
}

/// `lex` on an already decoded source.
pub fn lex_text(src: &SourceText) -> (l: Lexed)
    requires
        src.wf(),
    ensures
        tokens_view(l.tokens@) == lex_spec(src.chars@).0,
        l.diagnostics@ == lex_spec(src.chars@).1,
{
    let ghost cs = src.chars@;
    let n = src.chars.len();
    let mut i: usize = 0;
    let mut bi: usize = 0;
    let mut tokens: Vec<Token> = Vec::new();
    let mut diagnostics = DiagnosticList::new();
    proof {
        assert(cs.take(0) =~= Seq::<char>::empty());
        assert(tokens_view(tokens@) + lex_from(cs, 0).0 =~= lex_spec(cs).0);
        assert(diagnostics@ + lex_from(cs, 0).1 =~= lex_spec(cs).1);
    }
    while i < n
        invariant
            src.wf(),
            n == cs.len(),
            cs == src.chars@,
            i <= n,
            bi == boff(cs, i as int),
            tokens_view(tokens@) + lex_from(cs, i as int).0 == lex_spec(cs).0,
            diagnostics@ + lex_from(cs, i as int).1 == lex_spec(cs).1,
        decreases n - i,
    {
        let out = lex_step_exec(src, i, bi);
        let ghost s = lex_step(cs, i as int);
        let ghost before_t = tokens_view(tokens@);
        let ghost before_d = diagnostics@;
        match out.token {
            Some(t) => {
                tokens.push(t);
            },
            None => {},
        }
        assert(tokens_view(tokens@) =~= before_t + opt_seq(s.token));
        diagnostics.extend(out.diags);
        assert(before_t + (opt_seq(s.token) + lex_from(cs, out.next as int).0) =~= tokens_view(tokens@)
            + lex_from(cs, out.next as int).0);
        assert(before_d + (s.diags + lex_from(cs, out.next as int).1) =~= diagnostics@ + lex_from(
            cs,
            out.next as int,
        ).1);
        i = out.next;
        bi = out.bnext;
    }
    assert(tokens_view(tokens@) + Seq::<TokenV>::empty() =~= tokens_view(tokens@));
    assert(diagnostics@ + Seq::<DiagnosticV>::empty() =~= diagnostics@);
    Lexed { tokens, diagnostics }
}

} // verus!

verus! {

// ---------------------------------------------------------------------------
// Token spans.
// ---------------------------------------------------------------------------

/// Every token spans at least one byte within `lo..hi`, and the tokens come in order without overlapping.
pub open spec fn spans_in_order(toks: Seq<TokenV>, lo: int, hi: int) -> bool {
    &&& forall|k: int| 0 <= k < toks.len() ==> lo <= #[trigger] toks[k].span.start < toks[k].span.end <= hi
    &&& forall|k: int, l: int| 0 <= k < l < toks.len() ==> #[trigger] toks[k].span.end <= #[trigger] toks[l].span.start
}

/// Whether byte `o` is a character boundary of `cs` (its end included).
pub open spec fn on_boundary(cs: Seq<char>, o: int) -> bool {
    exists|a: int| 0 <= a <= cs.len() && #[trigger] boff(cs, a) == o
}

/// Whether a span starts and ends on character boundaries of `cs`.
pub open spec fn span_on_boundaries(cs: Seq<char>, sp: Span) -> bool {
    on_boundary(cs, sp.start as int) && on_boundary(cs, sp.end as int)
}

/// Every token starts and ends on a character boundary.
pub open spec fn spans_on_boundaries(toks: Seq<TokenV>, cs: Seq<char>) -> bool {
    forall|k: int| 0 <= k < toks.len() ==> span_on_boundaries(cs, #[trigger] toks[k].span)
}

proof fn lemma_boff_strict(cs: Seq<char>, i: int, j: int)
    requires
        0 <= i < j <= cs.len(),
    ensures
        boff(cs, i) < boff(cs, j),
{
    lemma_boff_step(cs, i);
    crate::text::lemma_byte_len_take_mono(cs, i + 1, j);
}

/// A step's token, when there is one, spans exactly the characters the step consumed.
proof fn lemma_step_span(cs: Seq<char>, i: int)
    requires
        0 <= i < cs.len(),
    ensures
        lex_step(cs, i).token is Some ==> lex_step(cs, i).token->0.span == span_of(cs, i, lex_step(cs, i).next),
{
}

#[verifier::spinoff_prover]
#[verifier::rlimit(40)]
proof fn lemma_lex_from_spans(cs: Seq<char>, i: int)
    requires
        0 <= i <= cs.len(),
        byte_len(cs) <= usize::MAX,
    ensures
        spans_in_order(lex_from(cs, i).0, boff(cs, i) as int, byte_len(cs) as int),
        spans_on_boundaries(lex_from(cs, i).0, cs),
    decreases cs.len() - i,
{
    if i < cs.len() {
        let s = lex_step(cs, i);
        if i < s.next <= cs.len() {
            lemma_lex_from_spans(cs, s.next);
            lemma_step_span(cs, i);
            lemma_boff_strict(cs, i, s.next);
            lemma_boff_bound(cs, s.next);
            lemma_boff_bound(cs, i);
            crate::text::lemma_byte_len_take_mono(cs, i, s.next);
            let r = lex_from(cs, s.next).0;
            let all = opt_seq(s.token) + r;
            assert(lex_from(cs, i).0 == all);
            if s.token is Some {
                let t = s.token->0;
                assert(t.span == span_of(cs, i, s.next));
                assert(t.span.start as int == boff(cs, i));
                assert(t.span.end as int == boff(cs, s.next));
                assert forall|k: int| 0 <= k < all.len() implies boff(cs, i) <= #[trigger] all[k].span.start
                    < all[k].span.end <= byte_len(cs) by {
                    if k > 0 {
                        assert(all[k] == r[k - 1]);
                        assert(boff(cs, s.next) <= r[k - 1].span.start < r[k - 1].span.end <= byte_len(cs));
                    } else {
                        assert(all[k] == t);
                    }
                }
                assert(boff(cs, i) == t.span.start as int);
                assert(boff(cs, s.next) == t.span.end as int);
                assert(span_on_boundaries(cs, t.span)) by {
                    assert(0 <= i <= cs.len() && boff(cs, i) == t.span.start as int);
                    assert(0 <= s.next <= cs.len() && boff(cs, s.next) == t.span.end as int);
                }
                assert forall|k: int| 0 <= k < all.len() implies span_on_boundaries(cs, #[trigger] all[k].span) by {
                    if k > 0 {
                        assert(all[k] == r[k - 1]);
                    } else {
                        assert(all[k] == t);
                    }
                }
                assert forall|k: int, l: int| 0 <= k < l < all.len() implies #[trigger] all[k].span.end
                    <= #[trigger] all[l].span.start by {
                    assert(all[l] == r[l - 1]);
                    if k > 0 {
                        assert(all[k] == r[k - 1]);
                        assert(boff(cs, s.next) <= r[k - 1].span.start < r[k - 1].span.end <= byte_len(cs));
                    } else {
                        assert(all[k] == t);
                    }
                }
            } else {
                assert(all =~= r);
            }
        }
    }
}

/// Token spans are byte offsets into the query: each token covers at least one byte of it,
/// starts and ends on a character boundary, and the tokens come in source order without
/// overlapping.
pub proof fn law_token_spans(cs: Seq<char>)
    requires
        byte_len(cs) <= usize::MAX,
    ensures
        spans_in_order(lex_spec(cs).0, 0, byte_len(cs) as int),
        spans_on_boundaries(lex_spec(cs).0, cs),
{
    lemma_lex_from_spans(cs, 0);
    assert(cs.take(0) =~= Seq::<char>::empty());
}

} // verus!

verus! {

// ---------------------------------------------------------------------------
// Diagnostic ranges.
// ---------------------------------------------------------------------------

/// A range that does not end before it starts and ends within `hi` bytes.
pub open spec fn range_within(r: crate::diagnostics::Range, hi: int) -> bool {
    r.start.offset <= r.end.offset <= hi
}

/// A diagnostic whose range, and whose fix's range if it has one, lie within `hi` bytes.
pub open spec fn diag_within(d: DiagnosticV, hi: int) -> bool {
    &&& range_within(d.range, hi)
    &&& d.fix is Some ==> range_within(d.fix->0.range, hi)
}

pub open spec fn diags_within(ds: Seq<DiagnosticV>, hi: int) -> bool {
    forall|k: int| 0 <= k < ds.len() ==> diag_within(#[trigger] ds[k], hi)
}

proof fn lemma_diags_concat(a: Seq<DiagnosticV>, b: Seq<DiagnosticV>, hi: int)
    requires
        diags_within(a, hi),
        diags_within(b, hi),
    ensures
        diags_within(a + b, hi),
{
    assert forall|k: int| 0 <= k < (a + b).len() implies diag_within(#[trigger] (a + b)[k], hi) by {
        if k < a.len() {
            assert((a + b)[k] == a[k]);
        } else {
            assert((a + b)[k] == b[k - a.len()]);
        }
    }
}

proof fn lemma_error_at_within(cs: Seq<char>, code: Seq<char>, msg: Seq<char>, i: int, j: int)
    requires
        byte_len(cs) <= u32::MAX,
    ensures
        diags_within(seq![error_at(cs, code, msg, i, j)], byte_len(cs) as int),
{
    crate::diagnostics::law_range_in_order(cs, boff(cs, i) as int, boff(cs, j) as int);
    assert(seq![error_at(cs, code, msg, i, j)][0] == error_at(cs, code, msg, i, j));
}

proof fn lemma_field_diag_within(cs: Seq<char>, i: int, colon: int)
    requires
        byte_len(cs) <= u32::MAX,
    ensures
        diags_within(seq![field_diag(cs, i, colon)], byte_len(cs) as int),
{
    crate::diagnostics::law_range_in_order(cs, boff(cs, i) as int, boff(cs, i) + colon + 1);
    assert(seq![field_diag(cs, i, colon)][0] == field_diag(cs, i, colon));
}

proof fn lemma_fuzzy_within(cs: Seq<char>, p: int)
    requires
        byte_len(cs) <= u32::MAX,
    ensures
        diags_within(fuzzy_suffix(cs, p).2, byte_len(cs) as int),
{
    if p < cs.len() && cs[p] == '~' {
        let e1 = digits_end(cs, p + 1);
        if e1 > p + 1 {
            if e1 < cs.len() && cs[e1] == ':' {
                let e2 = digits_end(cs, e1 + 1);
                if e2 <= e1 + 1 {
                    lemma_error_at_within(
                        cs,
                        "invalid-fuzzy"@,
                        "Fuzzy prefix form is term~PREFIX:DISTANCE, for example apple~1:2"@,
                        p,
                        e2,
                    );
                }
            }
        } else {
            lemma_error_at_within(
                cs,
                "invalid-fuzzy"@,
                "Fuzzy match needs a number after ~, for example apple~1"@,
                p,
                e1,
            );
        }
    }
}

#[verifier::spinoff_prover]
proof fn lemma_phrase_within(cs: Seq<char>, i: int, quote: char)
    requires
        byte_len(cs) <= u32::MAX,
    ensures
        diags_within(phrase_step(cs, i, quote).diags, byte_len(cs) as int),
{
    let hi = byte_len(cs) as int;
    let p = scan_phrase(cs, i + 1, quote);
    let d1 = if p.terminated {
        Seq::empty()
    } else {
        seq![
            error_at(
                cs,
                "unterminated-phrase"@,
                "Missing closing "@ + seq![quote] + " for this phrase"@,
                i,
                p.end,
            ),
        ]
    };
    if !p.terminated {
        lemma_error_at_within(cs, "unterminated-phrase"@, "Missing closing "@ + seq![quote] + " for this phrase"@, i, p.end);
    }
    assert(diags_within(d1, hi));
    if p.terminated && p.end < cs.len() && cs[p.end] == '~' {
        let e = digits_end(cs, p.end + 1);
        if e <= p.end + 1 {
            lemma_error_at_within(
                cs,
                "invalid-slop"@,
                "Proximity needs a number after ~, for example \"health care\"~3"@,
                p.end,
                e,
            );
            lemma_diags_concat(d1, phrase_step(cs, i, quote).diags.subrange(d1.len() as int, phrase_step(cs, i, quote).diags.len() as int), hi);
        }
        let d2 = if e > p.end + 1 {
            Seq::<DiagnosticV>::empty()
        } else {
            seq![
                error_at(
                    cs,
                    "invalid-slop"@,
                    "Proximity needs a number after ~, for example \"health care\"~3"@,
                    p.end,
                    e,
                ),
            ]
        };
        lemma_diags_concat(d1, d2, hi);
    }
}

#[verifier::spinoff_prover]
proof fn lemma_word_within(cs: Seq<char>, i: int)
    requires
        byte_len(cs) <= u32::MAX,
    ensures
        diags_within(word_step(cs, i).diags, byte_len(cs) as int),
{
    let hi = byte_len(cs) as int;
    let w = scan_word(cs, i);
    let raw = cs.subrange(i, w.end);
    if !w.escaped && (raw == "*"@ || raw == "AND"@ || raw == "OR"@ || raw == "NOT"@) {
    } else if !w.escaped && proximity_word(cs, i, w.end, "NEAR"@) {
        let kw = "NEAR"@;
        lemma_error_at_within(
            cs,
            "invalid-proximity"@,
            kw + " needs a distance, for example "@ + kw + "/3; quote \""@ + kw + "\" to search for the word"@,
            i,
            w.end,
        );
    } else if !w.escaped && proximity_word(cs, i, w.end, "THEN"@) {
        let kw = "THEN"@;
        lemma_error_at_within(
            cs,
            "invalid-proximity"@,
            kw + " needs a distance, for example "@ + kw + "/3; quote \""@ + kw + "\" to search for the word"@,
            i,
            w.end,
        );
    } else {
        let colon = find_char(cs, ':', i, w.end) - i;
        let field = i + colon < w.end && is_known_field(cs.subrange(i, i + colon));
        lemma_field_diag_within(cs, i, colon);
        lemma_fuzzy_within(cs, w.end);
        if !(field && i + colon + 1 == w.end) {
            let fz = fuzzy_suffix(cs, w.end);
            let f = if field {
                seq![field_diag(cs, i, colon)]
            } else {
                Seq::<DiagnosticV>::empty()
            };
            lemma_diags_concat(f, fz.2, hi);
        }
    }
}

#[verifier::spinoff_prover]
proof fn lemma_step_within(cs: Seq<char>, i: int)
    requires
        0 <= i < cs.len(),
        byte_len(cs) <= u32::MAX,
    ensures
        diags_within(lex_step(cs, i).diags, byte_len(cs) as int),
{
    let c = cs[i];
    if c == '"' {
        lemma_phrase_within(cs, i, '"');
    } else if c == '\'' {
        lemma_phrase_within(cs, i, '\'');
    } else if c == '^' {
        let e = number_end(cs, i + 1);
        lemma_error_at_within(cs, "invalid-boost"@, "Boost needs a number after ^, for example term^2"@, i, e);
    } else if c == '~' {
        let e = digits_end(cs, i + 1);
        lemma_error_at_within(
            cs,
            "dangling-modifier"@,
            "~ must directly follow a term (fuzzy) or a closing quote (proximity)"@,
            i,
            e,
        );
    }
    lemma_word_within(cs, i);
}

proof fn lemma_lex_from_within(cs: Seq<char>, i: int)
    requires
        0 <= i <= cs.len(),
        byte_len(cs) <= u32::MAX,
    ensures
        diags_within(lex_from(cs, i).1, byte_len(cs) as int),
    decreases cs.len() - i,
{
    if i < cs.len() {
        let s = lex_step(cs, i);
        if i < s.next <= cs.len() {
            lemma_lex_from_within(cs, s.next);
            lemma_step_within(cs, i);
            lemma_diags_concat(s.diags, lex_from(cs, s.next).1, byte_len(cs) as int);
        }
    }
}

/// Every diagnostic of the lexer, and every fix it offers, has a range that does not end
/// before it starts and lies within the query.
pub proof fn law_lex_diagnostic_ranges(cs: Seq<char>)
    requires
        byte_len(cs) <= u32::MAX,
    ensures
        diags_within(lex_spec(cs).1, byte_len(cs) as int),
{
    lemma_lex_from_within(cs, 0);
}

} // verus!

verus! {

proof fn lemma_prox_keyword(kw: Seq<char>, ordered: bool, n: u32)
    requires
        kw == "NEAR"@ || kw == "THEN"@,
        ordered == (kw == "THEN"@),
    ensures
        lex_spec(kw + seq!['/'] + decimal(n as nat)).0.len() == 1,
        lex_spec(kw + seq!['/'] + decimal(n as nat)).0[0].kind == (if ordered {
            TokenKindV::Then(Some(n))
        } else {
            TokenKindV::Near(Some(n))
        }),
        lex_spec(kw + seq!['/'] + decimal(n as nat)).1.len() == 0,
{
    reveal_strlit("NEAR");
    reveal_strlit("THEN");
    reveal_strlit("*");
    reveal_strlit("AND");
    reveal_strlit("OR");
    reveal_strlit("NOT");
    let dec = decimal(n as nat);
    crate::text::lemma_decimal_digits(n as nat);
    let cs = kw + seq!['/'] + dec;
    let len = cs.len() as int;
    assert forall|i: int| 0 <= i < len implies !is_boundary(#[trigger] cs[i]) && cs[i] != '\\' && cs[i] != '*'
        && cs[i] != '?' by {
        if i >= 5 {
            assert(cs[i] == dec[i - 5]);
            assert(is_digit(dec[i - 5]));
        }
    }
    crate::format::lemma_scan_plain(cs, 0, len);
    assert(cs.subrange(0, len) =~= cs);
    assert(cs.subrange(len, len) + scan_word(cs, len).text =~= scan_word(cs, len).text);
    let w = scan_word(cs, 0);
    assert(w.end == len && !w.escaped);
    assert(cs.take(5) =~= kw + seq!['/']);
    assert(cs.subrange(5, len) =~= dec);
    assert(cs[0] == kw[0]);
    assert(cs != "*"@ && cs != "AND"@ && cs != "OR"@ && cs != "NOT"@) by {
        assert(cs.len() >= 6);
    }
    if ordered {
        assert(cs.take(5) != "NEAR"@ + seq!['/']) by {
            assert(cs.take(5)[0] != ("NEAR"@ + seq!['/'])[0]);
        }
        assert(cs != "NEAR"@);
        assert(proximity_word(cs, 0, len, "THEN"@));
    } else {
        assert(proximity_word(cs, 0, len, "NEAR"@));
    }
    assert(proximity_gap(cs, 0, len) == Some(n));
    crate::format::lemma_routes_to_word(cs);
    assert(lex_from(cs, len) == (Seq::<TokenV>::empty(), Seq::<DiagnosticV>::empty()));
    assert(lex_spec(cs).0 =~= opt_seq(lex_step(cs, 0).token) + lex_from(cs, len).0);
    assert(lex_spec(cs).1 =~= lex_step(cs, 0).diags + lex_from(cs, len).1);
}

/// `NEAR/N` and `THEN/N`, for every distance `N` a `u32` holds, lex to exactly one proximity
/// token carrying that distance, and to no diagnostic.
pub proof fn law_proximity_gap(n: u32)
    ensures
        lex_spec("NEAR"@ + seq!['/'] + decimal(n as nat)).0.len() == 1,
        lex_spec("NEAR"@ + seq!['/'] + decimal(n as nat)).0[0].kind == TokenKindV::Near(Some(n)),
        lex_spec("NEAR"@ + seq!['/'] + decimal(n as nat)).1.len() == 0,
        lex_spec("THEN"@ + seq!['/'] + decimal(n as nat)).0.len() == 1,
        lex_spec("THEN"@ + seq!['/'] + decimal(n as nat)).0[0].kind == TokenKindV::Then(Some(n)),
        lex_spec("THEN"@ + seq!['/'] + decimal(n as nat)).1.len() == 0,
{
    reveal_strlit("NEAR");
    reveal_strlit("THEN");
    lemma_prox_keyword("NEAR"@, false, n);
    lemma_prox_keyword("THEN"@, true, n);
}

} // verus!
