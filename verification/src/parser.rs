//! Recursive-descent parser with error recovery: OR over AND over NOT over
//! NEAR/THEN over postfix boosts over primaries.
use vstd::prelude::*;

use crate::ast::{Node, NodeV, Span, is_negation_spec, node_span, nodes_view, span_hull};
use crate::diagnostics::{
    Diagnostic, DiagnosticList, DiagnosticSeverity, DiagnosticV, coded, range_in, range_spec,
    sort_stable, span_range, span_range_in, with_fix,
};
use crate::lexer::{Token, TokenKind, TokenKindV, TokenV, describe_spec, lex_spec, lex_text, tokens_view};
use crate::text::{SourceText, append_str, append_string, byte_len};

verus! {

/// Operator inserted between adjacent operands with no explicit keyword.
#[derive(Debug, Clone, Copy, PartialEq, Eq, Structural)]
pub enum ImplicitOp {
    And,
    Or,
}

pub struct Parsed {
    pub ast: Option<Node>,
    pub diagnostics: DiagnosticList,
}

// ---------------------------------------------------------------------------
// The grammar and its recovery rules, as functions of the token sequence.
// ---------------------------------------------------------------------------

/// What the parser reads: the query's characters (for ranges), its tokens, the implicit operator.
pub struct Ctx {
    pub cs: Seq<char>,
    pub toks: Seq<TokenV>,
    pub implicit: ImplicitOp,
}

/// Where the parser stands: the next token and the diagnostics so far.
pub struct PState {
    pub pos: int,
    pub diags: Seq<DiagnosticV>,
}

/// An operand plus whether it carried its own `+`/`-`/`NOT` marker.
pub struct OperandV {
    pub node: NodeV,
    pub marked: bool,
}

pub open spec fn peek(c: Ctx, p: int) -> Option<TokenKindV> {
    if 0 <= p < c.toks.len() {
        Some(c.toks[p].kind)
    } else {
        None
    }
}

pub open spec fn bump(st: PState) -> PState {
    PState { pos: st.pos + 1, diags: st.diags }
}

pub open spec fn push_diag(st: PState, d: DiagnosticV) -> PState {
    PState { pos: st.pos, diags: st.diags.push(d) }
}

pub open spec fn err(c: Ctx, st: PState, code: Seq<char>, msg: Seq<char>, span: Span) -> PState {
    push_diag(st, coded(DiagnosticSeverity::Error, code, msg, span_range(c.cs, span)))
}

/// Token kinds that begin an operand.
pub open spec fn starts_operand(k: TokenKindV) -> bool {
    match k {
        TokenKindV::Word { .. } | TokenKindV::Phrase { .. } | TokenKindV::All | TokenKindV::LParen
        | TokenKindV::LBracket | TokenKindV::Plus | TokenKindV::Minus | TokenKindV::Not => true,
        _ => false,
    }
}

/// `a` to `b` moved forward and stayed within the tokens.
pub open spec fn fwd(c: Ctx, a: PState, b: PState) -> bool {
    a.pos <= b.pos <= c.toks.len()
}

/// Several operands joined by `op`; one operand stands alone; none gives nothing.
pub open spec fn combine_spec(children: Seq<NodeV>, op: ImplicitOp) -> Option<NodeV> {
    if children.len() == 0 {
        None
    } else if children.len() == 1 {
        Some(children[0])
    } else {
        let span = span_hull(node_span(children[0]), node_span(children.last()));
        Some(
            match op {
                ImplicitOp::And => NodeV::And { children, span },
                ImplicitOp::Or => NodeV::Or { children, span },
            },
        )
    }
}

pub open spec fn implicit_word(op: ImplicitOp) -> Seq<char> {
    match op {
        ImplicitOp::And => "AND"@,
        ImplicitOp::Or => "OR"@,
    }
}

pub open spec fn implicit_message(op: ImplicitOp) -> Seq<char> {
    match op {
        ImplicitOp::And => "Space-separated terms are combined with AND; use an explicit AND to make this clear"@,
        ImplicitOp::Or => "Space-separated terms are combined with OR; use an explicit OR to make this clear"@,
    }
}

/// The implicit-operator warning between `prev` and `next`, unless `next` is
/// negated or carries its own marker.
pub open spec fn warn(c: Ctx, st: PState, prev: Option<NodeV>, next: OperandV) -> PState {
    match prev {
        None => st,
        Some(p) => if is_negation_spec(next.node) || next.marked {
            st
        } else {
            let span = span_hull(node_span(p), node_span(next.node));
            let op = implicit_word(c.implicit);
            let gap = range_spec(c.cs, node_span(p).end as int, node_span(next.node).start as int);
            push_diag(
                st,
                with_fix(
                    coded(
                        DiagnosticSeverity::Warning,
                        "implicit-operator"@,
                        implicit_message(c.implicit),
                        span_range(c.cs, span),
                    ),
                    "Insert "@ + op,
                    gap,
                    " "@ + op + " "@,
                ),
            )
        },
    }
}

pub open spec fn last_of(s: Seq<NodeV>) -> Option<NodeV> {
    if s.len() == 0 {
        None
    } else {
        Some(s.last())
    }
}

pub open spec fn boost_diag(c: Ctx, span: Span) -> DiagnosticV {
    with_fix(
        coded(
            DiagnosticSeverity::Warning,
            "boost-ignored"@,
            "Boost (^) has no effect on matching and is ignored"@,
            span_range(c.cs, span),
        ),
        "Remove boost"@,
        span_range(c.cs, span),
        Seq::empty(),
    )
}

pub open spec fn missing_close_diag(c: Ctx, open: Span) -> DiagnosticV {
    with_fix(
        coded(
            DiagnosticSeverity::Error,
            "unbalanced-paren"@,
            "Missing closing parenthesis"@,
            span_range(c.cs, open),
        ),
        "Add closing parenthesis"@,
        range_spec(c.cs, byte_len(c.cs) as int, byte_len(c.cs) as int),
        ")"@,
    )
}

/// Skips a bracketed block (nested brackets counted): the span of its last token and the next position.
pub open spec fn bracket_skip(c: Ctx, p: int, depth: int, end: Span) -> (Span, int)
    decreases c.toks.len() - p,
{
    if p < 0 || p >= c.toks.len() {
        (end, p)
    } else {
        let d = match c.toks[p].kind {
            TokenKindV::LBracket => depth + 1,
            TokenKindV::RBracket => depth - 1,
            _ => depth,
        };
        if d == 0 {
            (c.toks[p].span, p + 1)
        } else {
            bracket_skip(c, p + 1, d, c.toks[p].span)
        }
    }
}

/// What the top level does after an OR expression that ended at `s1` (started at `before`):
/// nothing more at the end of the tokens, otherwise the state to go on from.
pub open spec fn recover(c: Ctx, s1: PState, before: int) -> Option<PState> {
    match peek(c, s1.pos) {
        None => None,
        Some(TokenKindV::RParen) => Some(
            err(c, bump(s1), "unbalanced-paren"@, "Unmatched closing parenthesis"@, c.toks[s1.pos].span),
        ),
        Some(TokenKindV::RBracket) => Some(
            err(c, bump(s1), "unsupported-syntax"@, "Unmatched closing bracket"@, c.toks[s1.pos].span),
        ),
        Some(k) => if s1.pos == before {
            Some(err(c, bump(s1), "unexpected-token"@, "Unexpected "@ + describe_spec(k), c.toks[s1.pos].span))
        } else {
            Some(s1)
        },
    }
}

/// The top level: OR expressions separated by recovery from stray tokens.
pub open spec fn p_query(c: Ctx, st: PState, parts: Seq<NodeV>) -> (Seq<NodeV>, PState)
    decreases c.toks.len() - st.pos, 11int,
{
    if st.pos < 0 || st.pos >= c.toks.len() {
        (parts, st)
    } else {
        let (n, s1) = p_or(c, st);
        if !fwd(c, st, s1) {
            (parts, s1)
        } else {
            let parts1 = match n {
                Some(n) => parts.push(n),
                None => parts,
            };
            match recover(c, s1, st.pos) {
                None => (parts1, s1),
                Some(s2) => if st.pos < s2.pos <= c.toks.len() {
                    p_query(c, s2, parts1)
                } else {
                    (parts1, s2)
                },
            }
        }
    }
}

/// `a OR b OR …`
pub open spec fn p_or(c: Ctx, st: PState) -> (Option<NodeV>, PState)
    decreases c.toks.len() - st.pos, 10int,
{
    let (first, s1) = p_and(c, st);
    if !fwd(c, st, s1) {
        (None, s1)
    } else {
        let children = match first {
            Some(o) => seq![o.node],
            None => Seq::empty(),
        };
        let (ch, s2) = or_loop(c, s1, children);
        (combine_spec(ch, ImplicitOp::Or), s2)
    }
}

pub open spec fn or_loop(c: Ctx, st: PState, children: Seq<NodeV>) -> (Seq<NodeV>, PState)
    decreases c.toks.len() - st.pos, 9int,
{
    if st.pos < 0 || st.pos >= c.toks.len() {
        (children, st)
    } else {
        match peek(c, st.pos) {
            Some(TokenKindV::Or) => {
                let sp = c.toks[st.pos].span;
                let s1 = bump(st);
                let (r, s2) = p_and(c, s1);
                if !fwd(c, s1, s2) {
                    (children, s2)
                } else {
                    match r {
                        Some(o) => or_loop(c, s2, children.push(o.node)),
                        None => or_loop(
                            c,
                            if s2.diags.len() == s1.diags.len() {
                                err(c, s2, "bare-operator"@, "OR has no search term after it"@, sp)
                            } else {
                                s2
                            },
                            children,
                        ),
                    }
                }
            },
            Some(k) => if c.implicit == ImplicitOp::Or && starts_operand(k) {
                let (r, s1) = p_and(c, st);
                match r {
                    None => (children, s1),
                    Some(o) => {
                        let s2 = warn(c, s1, last_of(children), o);
                        if st.pos < s2.pos <= c.toks.len() {
                            or_loop(c, s2, children.push(o.node))
                        } else {
                            (children.push(o.node), s2)
                        }
                    },
                }
            } else {
                (children, st)
            },
            None => (children, st),
        }
    }
}

/// `a AND b AND …`, with whether a single operand carried a marker.
pub open spec fn p_and(c: Ctx, st: PState) -> (Option<OperandV>, PState)
    decreases c.toks.len() - st.pos, 8int,
{
    let (first, s1) = p_not(c, st);
    match first {
        None => (None, s1),
        Some(f) => if !fwd(c, st, s1) {
            (None, s1)
        } else {
            let (ch, s2) = and_loop(c, s1, seq![f.node]);
            let marked = if ch.len() > 1 {
                false
            } else {
                f.marked
            };
            match combine_spec(ch, ImplicitOp::And) {
                Some(n) => (Some(OperandV { node: n, marked }), s2),
                None => (None, s2),
            }
        },
    }
}

pub open spec fn and_loop(c: Ctx, st: PState, children: Seq<NodeV>) -> (Seq<NodeV>, PState)
    decreases c.toks.len() - st.pos, 7int,
{
    if st.pos < 0 || st.pos >= c.toks.len() {
        (children, st)
    } else {
        match peek(c, st.pos) {
            Some(TokenKindV::And) => {
                let sp = c.toks[st.pos].span;
                let s1 = bump(st);
                let (r, s2) = p_not(c, s1);
                if !fwd(c, s1, s2) {
                    (children, s2)
                } else {
                    match r {
                        Some(o) => and_loop(c, s2, children.push(o.node)),
                        None => and_loop(
                            c,
                            if s2.diags.len() == s1.diags.len() {
                                err(c, s2, "bare-operator"@, "AND has no search term after it"@, sp)
                            } else {
                                s2
                            },
                            children,
                        ),
                    }
                }
            },
            Some(k) => if c.implicit == ImplicitOp::And && starts_operand(k) {
                let (r, s1) = p_not(c, st);
                match r {
                    None => (children, s1),
                    Some(o) => {
                        let s2 = warn(c, s1, last_of(children), o);
                        if st.pos < s2.pos <= c.toks.len() {
                            and_loop(c, s2, children.push(o.node))
                        } else {
                            (children.push(o.node), s2)
                        }
                    },
                }
            } else {
                (children, st)
            },
            None => (children, st),
        }
    }
}

/// `NOT x`, `-x`, `+x`, or a proximity expression.
pub open spec fn p_not(c: Ctx, st: PState) -> (Option<OperandV>, PState)
    decreases c.toks.len() - st.pos, 6int,
{
    match peek(c, st.pos) {
        Some(TokenKindV::Not) => not_case(c, st),
        Some(TokenKindV::Minus) => not_case(c, st),
        Some(TokenKindV::Plus) => plus_case(c, st),
        _ => {
            let (n, s1) = p_prox(c, st);
            match n {
                Some(n) => (Some(OperandV { node: n, marked: false }), s1),
                None => (None, s1),
            }
        },
    }
}

/// `NOT x` / `-x` at the current token.
pub open spec fn not_case(c: Ctx, st: PState) -> (Option<OperandV>, PState)
    decreases c.toks.len() - st.pos, 0int,
{
    if st.pos < 0 || st.pos >= c.toks.len() {
        (None, st)
    } else {
        let tk = c.toks[st.pos];
        let s1 = bump(st);
        let (r, s2) = p_not(c, s1);
        match r {
            Some(o) => (
                Some(
                    OperandV {
                        node: NodeV::Not {
                            child: Box::new(o.node),
                            span: span_hull(tk.span, node_span(o.node)),
                        },
                        marked: true,
                    },
                ),
                s2,
            ),
            None => (
                None,
                if s2.diags.len() == s1.diags.len() {
                    err(c, s2, "bare-operator"@, describe_spec(tk.kind) + " has no search term after it"@, tk.span)
                } else {
                    s2
                },
            ),
        }
    }
}

/// `+x` at the current token.
pub open spec fn plus_case(c: Ctx, st: PState) -> (Option<OperandV>, PState)
    decreases c.toks.len() - st.pos, 0int,
{
    if st.pos < 0 || st.pos >= c.toks.len() {
        (None, st)
    } else {
        let tk = c.toks[st.pos];
        let s1 = bump(st);
        let (r, s2) = p_not(c, s1);
        match r {
            Some(o) => (Some(OperandV { node: o.node, marked: true }), s2),
            None => (
                None,
                if s2.diags.len() == s1.diags.len() {
                    err(c, s2, "bare-operator"@, "+ has no search term after it"@, tk.span)
                } else {
                    s2
                },
            ),
        }
    }
}

/// `a NEAR/n b THEN/m c …`, chained to the left.
pub open spec fn p_prox(c: Ctx, st: PState) -> (Option<NodeV>, PState)
    decreases c.toks.len() - st.pos, 5int,
{
    let (l, s1) = p_postfix(c, st);
    match l {
        None => (None, s1),
        Some(left) => if !fwd(c, st, s1) {
            (None, s1)
        } else {
            let (n, s2) = prox_loop(c, s1, left);
            (Some(n), s2)
        },
    }
}

pub open spec fn prox_gap(k: TokenKindV) -> Option<(u32, bool)> {
    match k {
        TokenKindV::Near(g) => Some(
            (
                match g {
                    Some(n) => n,
                    None => 0u32,
                },
                false,
            ),
        ),
        TokenKindV::Then(g) => Some(
            (
                match g {
                    Some(n) => n,
                    None => 0u32,
                },
                true,
            ),
        ),
        _ => None,
    }
}

pub open spec fn prox_loop(c: Ctx, st: PState, left: NodeV) -> (NodeV, PState)
    decreases c.toks.len() - st.pos, 4int,
{
    if st.pos < 0 || st.pos >= c.toks.len() {
        (left, st)
    } else {
        match prox_gap(c.toks[st.pos].kind) {
            None => (left, st),
            Some((gap, ordered)) => {
                let tk = c.toks[st.pos];
                let s1 = bump(st);
                let (r, s2) = p_postfix(c, s1);
                if !fwd(c, s1, s2) {
                    (left, s2)
                } else {
                    match r {
                        Some(right) => prox_loop(
                            c,
                            s2,
                            NodeV::Proximity {
                                left: Box::new(left),
                                right: Box::new(right),
                                gap,
                                ordered,
                                span: span_hull(node_span(left), node_span(right)),
                            },
                        ),
                        None => prox_loop(
                            c,
                            if s2.diags.len() == s1.diags.len() {
                                err(
                                    c,
                                    s2,
                                    "bare-operator"@,
                                    describe_spec(tk.kind) + " has no search term after it"@,
                                    tk.span,
                                )
                            } else {
                                s2
                            },
                            left,
                        ),
                    }
                }
            },
        }
    }
}

/// A primary followed by any number of `^N` boosts.
pub open spec fn p_postfix(c: Ctx, st: PState) -> (Option<NodeV>, PState)
    decreases c.toks.len() - st.pos, 3int,
{
    let (n, s1) = p_primary(c, st);
    match n {
        None => (None, s1),
        Some(n) => if !fwd(c, st, s1) {
            (None, s1)
        } else {
            let (r, s2) = postfix_loop(c, s1, n);
            (Some(r), s2)
        },
    }
}

pub open spec fn postfix_loop(c: Ctx, st: PState, node: NodeV) -> (NodeV, PState)
    decreases c.toks.len() - st.pos, 2int,
{
    if st.pos < 0 || st.pos >= c.toks.len() {
        (node, st)
    } else {
        match c.toks[st.pos].kind {
            TokenKindV::Boost(factor) => {
                let span = c.toks[st.pos].span;
                postfix_loop(
                    c,
                    push_diag(bump(st), boost_diag(c, span)),
                    NodeV::Boost {
                        factor,
                        child: Box::new(node),
                        span: span_hull(node_span(node), span),
                    },
                )
            },
            _ => (node, st),
        }
    }
}

/// `( … )` at the current token.
pub open spec fn paren_case(c: Ctx, st: PState) -> (Option<NodeV>, PState)
    decreases c.toks.len() - st.pos, 0int,
{
    if st.pos < 0 || st.pos >= c.toks.len() {
        (None, st)
    } else {
        let open = c.toks[st.pos].span;
        let s1 = bump(st);
        let (inner, s2) = p_or(c, s1);
        let (close, s3) = match peek(c, s2.pos) {
            Some(TokenKindV::RParen) => (Some(c.toks[s2.pos].span), bump(s2)),
            _ => (None, push_diag(s2, missing_close_diag(c, open))),
        };
        let end = match close {
            Some(s) => s,
            None => match inner {
                Some(n) => node_span(n),
                None => open,
            },
        };
        let span = span_hull(open, end);
        match inner {
            Some(child) => (Some(NodeV::Group { child: Box::new(child), span }), s3),
            None => (None, err(c, s3, "empty-group"@, "Empty parentheses"@, span)),
        }
    }
}

/// `[ … ]` at the current token: reported, skipped, and parsing goes on after it.
pub open spec fn bracket_case(c: Ctx, st: PState) -> (Option<NodeV>, PState)
    decreases c.toks.len() - st.pos, 0int,
{
    if st.pos < 0 || st.pos >= c.toks.len() {
        (None, st)
    } else {
        let open = c.toks[st.pos].span;
        let (end, p) = bracket_skip(c, st.pos + 1, 1, open);
        let s2 = err(
            c,
            PState { pos: p, diags: st.diags },
            "unsupported-syntax"@,
            "Square brackets are not supported; use parentheses with OR, for example (apple OR pear)"@,
            span_hull(open, end),
        );
        if st.pos < p <= c.toks.len() {
            p_primary(c, s2)
        } else {
            (None, s2)
        }
    }
}

/// A term, phrase, `*`, parenthesised group, or recovery from a misplaced token.
pub open spec fn p_primary(c: Ctx, st: PState) -> (Option<NodeV>, PState)
    decreases c.toks.len() - st.pos, 1int,
{
    if st.pos < 0 || st.pos >= c.toks.len() {
        (None, st)
    } else {
        let tk = c.toks[st.pos];
        match tk.kind {
            TokenKindV::Word { text, wildcard, fuzzy } => (
                Some(NodeV::Term { value: text, wildcard, fuzzy, span: tk.span }),
                bump(st),
            ),
            TokenKindV::Phrase { text, slop } => (
                Some(
                    NodeV::Phrase {
                        text,
                        slop: match slop {
                            Some(n) => n,
                            None => 0u32,
                        },
                        span: tk.span,
                    },
                ),
                bump(st),
            ),
            TokenKindV::All => (Some(NodeV::All { span: tk.span }), bump(st)),
            TokenKindV::LParen => paren_case(c, st),
            TokenKindV::LBracket => bracket_case(c, st),
            TokenKindV::And | TokenKindV::Or | TokenKindV::Near(_) | TokenKindV::Then(_) => p_primary(
                c,
                err(c, bump(st), "bare-operator"@, describe_spec(tk.kind) + " has no search term before it"@, tk.span),
            ),
            TokenKindV::Not | TokenKindV::Minus => {
                let (r, s1) = not_case(c, st);
                match r {
                    Some(o) => (Some(o.node), s1),
                    None => (None, s1),
                }
            },
            TokenKindV::Plus => {
                let (r, s1) = plus_case(c, st);
                match r {
                    Some(o) => (Some(o.node), s1),
                    None => (None, s1),
                }
            },
            TokenKindV::Boost(_) => p_primary(
                c,
                err(
                    c,
                    bump(st),
                    "dangling-modifier"@,
                    "^ must directly follow a term, phrase or closing parenthesis"@,
                    tk.span,
                ),
            ),
            TokenKindV::RParen | TokenKindV::RBracket => (None, st),
        }
    }
}

/// The tree and the diagnostics (lexer's first, then parser's, sorted) of a token sequence.
pub open spec fn parse_tokens(cs: Seq<char>, toks: Seq<TokenV>, lexed: Seq<DiagnosticV>, implicit: ImplicitOp) -> (Option<NodeV>, Seq<DiagnosticV>) {
    let c = Ctx { cs, toks, implicit };
    let (parts, st) = p_query(c, PState { pos: 0, diags: lexed }, Seq::empty());
    (combine_spec(parts, implicit), sort_stable(st.diags))
}

/// The tree and the sorted diagnostics of a query.
pub open spec fn parse_spec(cs: Seq<char>, implicit: ImplicitOp) -> (Option<NodeV>, Seq<DiagnosticV>) {
    let (toks, lexed) = lex_spec(cs);
    parse_tokens(cs, toks, lexed, implicit)
}

} // verus!

verus! {

// ---------------------------------------------------------------------------
// The parser.
// ---------------------------------------------------------------------------

/// An operand plus whether it carried its own `+`/`-`/`NOT` marker.
pub struct Operand {
    pub node: Node,
    pub marked: bool,
}

impl View for Operand {
    type V = OperandV;

    open spec fn view(&self) -> OperandV {
        OperandV { node: self.node@, marked: self.marked }
    }
}

pub open spec fn opt_node_view(n: Option<Node>) -> Option<NodeV> {
    match n {
        Some(n) => Some(n@),
        None => None,
    }
}

spec fn opt_ref_view(n: Option<&Node>) -> Option<NodeV> {
    match n {
        Some(n) => Some(n@),
        None => None,
    }
}

spec fn opt_operand_view(o: Option<Operand>) -> Option<OperandV> {
    match o {
        Some(o) => Some(o@),
        None => None,
    }
}

struct Parser<'a> {
    src: &'a SourceText,
    tokens: Vec<Token>,
    pos: usize,
    implicit: ImplicitOp,
    diagnostics: DiagnosticList,
}

spec fn same_input(a: Parser, b: Parser) -> bool {
    &&& a.src == b.src
    &&& a.tokens == b.tokens
    &&& a.implicit == b.implicit
}

impl<'a> Parser<'a> {
    spec fn ctx(&self) -> Ctx {
        Ctx { cs: self.src.chars@, toks: tokens_view(self.tokens@), implicit: self.implicit }
    }

    spec fn st(&self) -> PState {
        PState { pos: self.pos as int, diags: self.diagnostics@ }
    }

    spec fn inv(&self) -> bool {
        &&& self.src.wf()
        &&& self.pos <= self.tokens@.len()
        &&& self.tokens@.len() <= usize::MAX
    }

    /// Whether the current token is an operand-start or a recovery token (anything but a closer).
    spec fn consumes(&self) -> bool {
        &&& self.pos < self.tokens@.len()
        &&& !(self.tokens@[self.pos as int].kind is RParen)
        &&& !(self.tokens@[self.pos as int].kind is RBracket)
    }

    fn at(&self, kind_is: u8) -> (b: bool)
        requires
            self.inv(),
        ensures
            b == (self.pos < self.tokens@.len() && match self.tokens@[self.pos as int].kind {
                TokenKind::Or => kind_is == 0,
                TokenKind::And => kind_is == 1,
                TokenKind::RParen => kind_is == 2,
                TokenKind::RBracket => kind_is == 3,
                _ => false,
            }),
    {
        if self.pos < self.tokens.len() {
            match &self.tokens[self.pos].kind {
                TokenKind::Or => kind_is == 0,
                TokenKind::And => kind_is == 1,
                TokenKind::RParen => kind_is == 2,
                TokenKind::RBracket => kind_is == 3,
                _ => false,
            }
        } else {
            false
        }
    }

    fn starts_operand_here(&self) -> (b: bool)
        requires
            self.inv(),
        ensures
            b == (self.pos < self.tokens@.len() && starts_operand(self.tokens@[self.pos as int].kind@)),
    {
        if self.pos < self.tokens.len() {
            match &self.tokens[self.pos].kind {
                TokenKind::Word { .. } | TokenKind::Phrase { .. } | TokenKind::All | TokenKind::LParen
                | TokenKind::LBracket | TokenKind::Plus | TokenKind::Minus | TokenKind::Not => true,
                _ => false,
            }
        } else {
            false
        }
    }

    fn bump(&mut self) -> (span: Span)
        requires
            old(self).inv(),
            old(self).pos < old(self).tokens@.len(),
        ensures
            final(self).inv(),
            same_input(*final(self), *old(self)),
            final(self).st() == bump(old(self).st()),
            span == old(self).tokens@[old(self).pos as int].span,
    {
        let span = self.tokens[self.pos].span;
        self.pos = self.pos + 1;
        span
    }

    fn error(&mut self, code: &str, message: String, span: Span)
        requires
            old(self).inv(),
        ensures
            final(self).inv(),
            same_input(*final(self), *old(self)),
            final(self).st() == err(old(self).ctx(), old(self).st(), code@, message@, span),
    {
        let d = Diagnostic::error(message, span_range_in(self.src, span)).with_code(code);
        self.diagnostics.push(d);
    }

    fn recover(&mut self, before: usize) -> (more: bool)
        requires
            old(self).inv(),
            before <= old(self).pos,
        ensures
            final(self).inv(),
            same_input(*final(self), *old(self)),
            more == (recover(old(self).ctx(), old(self).st(), before as int) is Some),
            more ==> final(self).st() == recover(old(self).ctx(), old(self).st(), before as int).unwrap(),
            more ==> before < final(self).pos,
            !more ==> final(self).st() == old(self).st(),
    {
        if self.pos >= self.tokens.len() {
            return false;
        }
        if self.at(2) {
            let span = self.bump();
            self.error("unbalanced-paren", String::from_str("Unmatched closing parenthesis"), span);
        } else if self.at(3) {
            let span = self.bump();
            self.error("unsupported-syntax", String::from_str("Unmatched closing bracket"), span);
        } else if self.pos == before {
            let mut msg = String::from_str("Unexpected ");
            let d = self.tokens[self.pos].kind.describe();
            append_string(&mut msg, &d);
            let span = self.bump();
            self.error("unexpected-token", msg, span);
        }
        true
    }

    #[verifier::spinoff_prover]
    #[verifier::rlimit(50)]
    fn parse_query(&mut self) -> (r: Option<Node>)
        requires
            old(self).inv(),
        ensures
            final(self).inv(),
            same_input(*final(self), *old(self)),
            opt_node_view(r) == combine_spec(
                p_query(old(self).ctx(), old(self).st(), Seq::empty()).0,
                old(self).implicit,
            ),
            final(self).st() == p_query(old(self).ctx(), old(self).st(), Seq::empty()).1,
    {
        let ghost c = self.ctx();
        let ghost goal = p_query(c, self.st(), Seq::empty());
        let mut parts: Vec<Node> = Vec::new();
        proof {
            assert(nodes_view(parts@) =~= Seq::<NodeV>::empty());
        }
        while self.pos < self.tokens.len()
            invariant_except_break
                self.inv(),
                same_input(*self, *old(self)),
                c == self.ctx(),
                goal == p_query(c, self.st(), nodes_view(parts@)),
            ensures
                self.inv(),
                same_input(*self, *old(self)),
                goal == (nodes_view(parts@), self.st()),
            decreases self.tokens@.len() - self.pos,
        {
            let before = self.pos;
            let ghost st0 = self.st();
            let node = self.parse_or();
            match node {
                Some(n) => {
                    proof {
                        crate::ast::lemma_nodes_view_push(parts@, n);
                    }
                    parts.push(n);
                },
                None => {},
            }
            if !self.recover(before) {
                break;
            }
        }
        proof {
            assert(goal.0 == nodes_view(parts@));
        }
        combine(parts, self.implicit)
    }

    #[verifier::spinoff_prover]
    #[verifier::rlimit(50)]
    fn parse_or(&mut self) -> (r: Option<Node>)
        requires
            old(self).inv(),
        ensures
            final(self).inv(),
            same_input(*final(self), *old(self)),
            old(self).pos <= final(self).pos,
            opt_node_view(r) == p_or(old(self).ctx(), old(self).st()).0,
            final(self).st() == p_or(old(self).ctx(), old(self).st()).1,
        decreases old(self).tokens@.len() - old(self).pos, 10int,
    {
        let ghost c = self.ctx();
        let ghost st0 = self.st();
        let first = self.parse_and();
        let ghost s1 = self.st();
        let mut children: Vec<Node> = Vec::new();
        match first {
            Some(o) => {
                children.push(o.node);
            },
            None => {},
        }
        proof {
            crate::ast::lemma_nodes_view(children@);
            assert(nodes_view(children@) =~= match opt_operand_view(first) {
                Some(o) => seq![o.node],
                None => Seq::<NodeV>::empty(),
            });
        }
        let ghost goal = or_loop(c, s1, nodes_view(children@));
        loop
            invariant_except_break
                self.inv(),
                same_input(*self, *old(self)),
                c == self.ctx(),
                old(self).pos <= self.pos,
                st0.pos <= self.pos,
                goal == or_loop(c, self.st(), nodes_view(children@)),
            ensures
                self.inv(),
                same_input(*self, *old(self)),
                st0.pos <= self.pos,
                goal == (nodes_view(children@), self.st()),
            decreases self.tokens@.len() - self.pos,
        {
            if self.at(0) {
                let sp = self.bump();
                let before = self.diagnostics.len();
                let r = self.parse_and();
                match r {
                    Some(o) => {
                        proof {
                            crate::ast::lemma_nodes_view_push(children@, o.node);
                        }
                        children.push(o.node);
                    },
                    None => {
                        if self.diagnostics.len() == before {
                            self.error("bare-operator", String::from_str("OR has no search term after it"), sp);
                        }
                    },
                }
            } else if self.implicit == ImplicitOp::Or && self.starts_operand_here() {
                let r = self.parse_and();
                match r {
                    None => {
                        break;
                    },
                    Some(o) => {
                        let prev = if children.len() > 0 {
                            Some(&children[children.len() - 1])
                        } else {
                            None
                        };
                        proof {
                            crate::ast::lemma_nodes_view(children@);
                            if children@.len() > 0 {
                                assert(last_of(nodes_view(children@)) == Some(children@.last()@));
                            }
                        }
                        self.warn_implicit(prev, &o);
                        proof {
                            crate::ast::lemma_nodes_view_push(children@, o.node);
                        }
                        children.push(o.node);
                    },
                }
            } else {
                break;
            }
        }
        combine(children, ImplicitOp::Or)
    }

    #[verifier::spinoff_prover]
    #[verifier::rlimit(50)]
    fn parse_and(&mut self) -> (r: Option<Operand>)
        requires
            old(self).inv(),
        ensures
            final(self).inv(),
            same_input(*final(self), *old(self)),
            old(self).pos <= final(self).pos,
            old(self).consumes() ==> old(self).pos < final(self).pos,
            opt_operand_view(r) == p_and(old(self).ctx(), old(self).st()).0,
            final(self).st() == p_and(old(self).ctx(), old(self).st()).1,
        decreases old(self).tokens@.len() - old(self).pos, 8int,
    {
        let ghost c = self.ctx();
        let first = self.parse_not();
        let f = match first {
            None => {
                return None;
            },
            Some(f) => f,
        };
        let ghost s1 = self.st();
        let marked_first = f.marked;
        let mut children: Vec<Node> = Vec::new();
        children.push(f.node);
        proof {
            crate::ast::lemma_nodes_view(children@);
            assert(nodes_view(children@) =~= seq![f@.node]);
        }
        let ghost goal = and_loop(c, s1, nodes_view(children@));
        loop
            invariant_except_break
                self.inv(),
                same_input(*self, *old(self)),
                c == self.ctx(),
                old(self).pos <= self.pos,
                s1.pos <= self.pos,
                children@.len() >= 1,
                goal == and_loop(c, self.st(), nodes_view(children@)),
            ensures
                self.inv(),
                same_input(*self, *old(self)),
                s1.pos <= self.pos,
                children@.len() >= 1,
                goal == (nodes_view(children@), self.st()),
            decreases self.tokens@.len() - self.pos,
        {
            if self.at(1) {
                let sp = self.bump();
                let before = self.diagnostics.len();
                let r = self.parse_not();
                match r {
                    Some(o) => {
                        proof {
                            crate::ast::lemma_nodes_view_push(children@, o.node);
                        }
                        children.push(o.node);
                    },
                    None => {
                        if self.diagnostics.len() == before {
                            self.error("bare-operator", String::from_str("AND has no search term after it"), sp);
                        }
                    },
                }
            } else if self.implicit == ImplicitOp::And && self.starts_operand_here() {
                let r = self.parse_not();
                match r {
                    None => {
                        break;
                    },
                    Some(o) => {
                        let prev = Some(&children[children.len() - 1]);
                        proof {
                            crate::ast::lemma_nodes_view(children@);
                            assert(last_of(nodes_view(children@)) == Some(children@.last()@));
                        }
                        self.warn_implicit(prev, &o);
                        proof {
                            crate::ast::lemma_nodes_view_push(children@, o.node);
                        }
                        children.push(o.node);
                    },
                }
            } else {
                break;
            }
        }
        proof {
            crate::ast::lemma_nodes_view(children@);
        }
        let marked = if children.len() > 1 {
            false
        } else {
            marked_first
        };
        match combine(children, ImplicitOp::And) {
            Some(node) => Some(Operand { node, marked }),
            None => None,
        }
    }

    /// `apple banana` warns; `apple NOT banana`, `apple -banana` and
    /// `+apple +banana` carry explicit markers and do not.
    #[verifier::spinoff_prover]
    #[verifier::rlimit(50)]
    fn warn_implicit(&mut self, previous: Option<&Node>, next: &Operand)
        requires
            old(self).inv(),
        ensures
            final(self).inv(),
            same_input(*final(self), *old(self)),
            final(self).st() == warn(old(self).ctx(), old(self).st(), opt_ref_view(previous), next@),
    {
        let previous = match previous {
            None => {
                return;
            },
            Some(p) => p,
        };
        if next.node.is_negation() || next.marked {
            return;
        }
        let span = previous.span().to(next.node.span());
        let (message, operator) = match self.implicit {
            ImplicitOp::And => (
                String::from_str(
                    "Space-separated terms are combined with AND; use an explicit AND to make this clear",
                ),
                "AND",
            ),
            ImplicitOp::Or => (
                String::from_str(
                    "Space-separated terms are combined with OR; use an explicit OR to make this clear",
                ),
                "OR",
            ),
        };
        let gap = range_in(self.src, previous.span().end, next.node.span().start);
        let mut title = String::from_str("Insert ");
        append_str(&mut title, operator);
        let mut replacement = String::from_str(" ");
        append_str(&mut replacement, operator);
        append_str(&mut replacement, " ");
        let d = Diagnostic::warning(message, span_range_in(self.src, span)).with_code(
            "implicit-operator",
        ).with_fix(title, gap, replacement);
        self.diagnostics.push(d);
    }

    #[verifier::spinoff_prover]
    #[verifier::rlimit(50)]
    fn parse_not(&mut self) -> (r: Option<Operand>)
        requires
            old(self).inv(),
        ensures
            final(self).inv(),
            same_input(*final(self), *old(self)),
            old(self).pos <= final(self).pos,
            old(self).consumes() ==> old(self).pos < final(self).pos,
            opt_operand_view(r) == p_not(old(self).ctx(), old(self).st()).0,
            final(self).st() == p_not(old(self).ctx(), old(self).st()).1,
        decreases old(self).tokens@.len() - old(self).pos, 6int,
    {
        if self.pos < self.tokens.len() {
            match &self.tokens[self.pos].kind {
                TokenKind::Not | TokenKind::Minus => {
                    assert(self.tokens@[self.pos as int].kind@ is Not || self.tokens@[self.pos as int].kind@ is Minus);
                    assert(self.ctx().toks[self.pos as int] == self.tokens@[self.pos as int]@);
                    assert(peek(self.ctx(), self.pos as int) is Some);
                    assert(p_not(self.ctx(), self.st()) == not_case(self.ctx(), self.st()));
                    return self.not_case();
                },
                TokenKind::Plus => {
                    return self.plus_case();
                },
                _ => {},
            }
        }
        match self.parse_proximity() {
            Some(node) => Some(Operand { node, marked: false }),
            None => None,
        }
    }

    #[verifier::spinoff_prover]
    #[verifier::rlimit(50)]
    fn not_case(&mut self) -> (r: Option<Operand>)
        requires
            old(self).inv(),
            old(self).pos < old(self).tokens@.len(),
        ensures
            final(self).inv(),
            same_input(*final(self), *old(self)),
            old(self).pos < final(self).pos,
            opt_operand_view(r) == not_case(old(self).ctx(), old(self).st()).0,
            final(self).st() == not_case(old(self).ctx(), old(self).st()).1,
        decreases old(self).tokens@.len() - old(self).pos, 0int,
    {
        let ghost c = self.ctx();
        let ghost st0 = self.st();
        let desc = self.tokens[self.pos].kind.describe();
        let tspan = self.bump();
        assert(c == self.ctx());
        assert(desc@ == describe_spec(c.toks[st0.pos].kind));
        assert(tspan == c.toks[st0.pos].span);
        let before = self.diagnostics.len();
        match self.parse_not() {
            Some(operand) => {
                let span = tspan.to(operand.node.span());
                Some(Operand { node: Node::Not { child: Box::new(operand.node), span }, marked: true })
            },
            None => {
                if self.diagnostics.len() == before {
                    let mut msg = desc;
                    append_str(&mut msg, " has no search term after it");
                    self.error("bare-operator", msg, tspan);
                }
                None
            },
        }
    }

    #[verifier::spinoff_prover]
    #[verifier::rlimit(50)]
    fn plus_case(&mut self) -> (r: Option<Operand>)
        requires
            old(self).inv(),
            old(self).pos < old(self).tokens@.len(),
        ensures
            final(self).inv(),
            same_input(*final(self), *old(self)),
            old(self).pos < final(self).pos,
            opt_operand_view(r) == plus_case(old(self).ctx(), old(self).st()).0,
            final(self).st() == plus_case(old(self).ctx(), old(self).st()).1,
        decreases old(self).tokens@.len() - old(self).pos, 0int,
    {
        let tspan = self.bump();
        let before = self.diagnostics.len();
        match self.parse_not() {
            Some(operand) => Some(Operand { node: operand.node, marked: true }),
            None => {
                if self.diagnostics.len() == before {
                    self.error("bare-operator", String::from_str("+ has no search term after it"), tspan);
                }
                None
            },
        }
    }

    #[verifier::spinoff_prover]
    #[verifier::rlimit(50)]
    fn parse_proximity(&mut self) -> (r: Option<Node>)
        requires
            old(self).inv(),
        ensures
            final(self).inv(),
            same_input(*final(self), *old(self)),
            old(self).pos <= final(self).pos,
            old(self).consumes() ==> old(self).pos < final(self).pos,
            opt_node_view(r) == p_prox(old(self).ctx(), old(self).st()).0,
            final(self).st() == p_prox(old(self).ctx(), old(self).st()).1,
        decreases old(self).tokens@.len() - old(self).pos, 5int,
    {
        let ghost c = self.ctx();
        let mut left = match self.parse_postfix() {
            None => {
                return None;
            },
            Some(l) => l,
        };
        let ghost s1 = self.st();
        let ghost goal = prox_loop(c, s1, left@);
        loop
            invariant_except_break
                self.inv(),
                same_input(*self, *old(self)),
                c == self.ctx(),
                old(self).pos <= self.pos,
                s1.pos <= self.pos,
                goal == prox_loop(c, self.st(), left@),
            ensures
                self.inv(),
                same_input(*self, *old(self)),
                s1.pos <= self.pos,
                goal == (left@, self.st()),
            decreases self.tokens@.len() - self.pos,
        {
            if self.pos >= self.tokens.len() {
                break;
            }
            let (gap, ordered) = match &self.tokens[self.pos].kind {
                TokenKind::Near(g) => (
                    match g {
                        Some(n) => *n,
                        None => 0u32,
                    },
                    false,
                ),
                TokenKind::Then(g) => (
                    match g {
                        Some(n) => *n,
                        None => 0u32,
                    },
                    true,
                ),
                _ => {
                    break;
                },
            };
            let desc = self.tokens[self.pos].kind.describe();
            let tspan = self.bump();
            let before = self.diagnostics.len();
            match self.parse_postfix() {
                Some(right) => {
                    let span = left.span().to(right.span());
                    left = Node::Proximity { left: Box::new(left), right: Box::new(right), gap, ordered, span };
                },
                None => {
                    if self.diagnostics.len() == before {
                        let mut msg = desc;
                        append_str(&mut msg, " has no search term after it");
                        self.error("bare-operator", msg, tspan);
                    }
                },
            }
        }
        Some(left)
    }

    #[verifier::spinoff_prover]
    #[verifier::rlimit(50)]
    fn parse_postfix(&mut self) -> (r: Option<Node>)
        requires
            old(self).inv(),
        ensures
            final(self).inv(),
            same_input(*final(self), *old(self)),
            old(self).pos <= final(self).pos,
            old(self).consumes() ==> old(self).pos < final(self).pos,
            opt_node_view(r) == p_postfix(old(self).ctx(), old(self).st()).0,
            final(self).st() == p_postfix(old(self).ctx(), old(self).st()).1,
        decreases old(self).tokens@.len() - old(self).pos, 3int,
    {
        let ghost c = self.ctx();
        let mut node = match self.parse_primary() {
            None => {
                return None;
            },
            Some(n) => n,
        };
        let ghost s1 = self.st();
        let ghost goal = postfix_loop(c, s1, node@);
        loop
            invariant_except_break
                self.inv(),
                same_input(*self, *old(self)),
                c == self.ctx(),
                old(self).pos <= self.pos,
                s1.pos <= self.pos,
                goal == postfix_loop(c, self.st(), node@),
            ensures
                self.inv(),
                same_input(*self, *old(self)),
                s1.pos <= self.pos,
                goal == (node@, self.st()),
            decreases self.tokens@.len() - self.pos,
        {
            if self.pos >= self.tokens.len() {
                break;
            }
            let factor = match &self.tokens[self.pos].kind {
                TokenKind::Boost(f) => f.clone(),
                _ => {
                    break;
                },
            };
            let tspan = self.bump();
            let range = span_range_in(self.src, tspan);
            let d = Diagnostic::warning(
                String::from_str("Boost (^) has no effect on matching and is ignored"),
                range,
            ).with_code("boost-ignored").with_fix(String::from_str("Remove boost"), range, String::new());
            self.diagnostics.push(d);
            let span = node.span().to(tspan);
            node = Node::Boost { factor, child: Box::new(node), span };
        }
        Some(node)
    }

    #[verifier::spinoff_prover]
    #[verifier::rlimit(50)]
    fn paren_case(&mut self) -> (r: Option<Node>)
        requires
            old(self).inv(),
            old(self).pos < old(self).tokens@.len(),
        ensures
            final(self).inv(),
            same_input(*final(self), *old(self)),
            old(self).pos < final(self).pos,
            opt_node_view(r) == paren_case(old(self).ctx(), old(self).st()).0,
            final(self).st() == paren_case(old(self).ctx(), old(self).st()).1,
        decreases old(self).tokens@.len() - old(self).pos, 0int,
    {
        let open = self.bump();
        let inner = self.parse_or();
        let close = if self.at(2) {
            Some(self.bump())
        } else {
            let end = self.src.len;
            let d = Diagnostic::error(
                String::from_str("Missing closing parenthesis"),
                span_range_in(self.src, open),
            ).with_code("unbalanced-paren").with_fix(
                String::from_str("Add closing parenthesis"),
                range_in(self.src, end, end),
                String::from_str(")"),
            );
            self.diagnostics.push(d);
            None
        };
        let end = match close {
            Some(s) => s,
            None => match &inner {
                Some(n) => n.span(),
                None => open,
            },
        };
        let span = open.to(end);
        match inner {
            Some(child) => Some(Node::Group { child: Box::new(child), span }),
            None => {
                self.error("empty-group", String::from_str("Empty parentheses"), span);
                None
            },
        }
    }

    #[verifier::spinoff_prover]
    #[verifier::rlimit(50)]
    fn bracket_case(&mut self) -> (r: Option<Node>)
        requires
            old(self).inv(),
            old(self).pos < old(self).tokens@.len(),
        ensures
            final(self).inv(),
            same_input(*final(self), *old(self)),
            old(self).pos < final(self).pos,
            opt_node_view(r) == bracket_case(old(self).ctx(), old(self).st()).0,
            final(self).st() == bracket_case(old(self).ctx(), old(self).st()).1,
        decreases old(self).tokens@.len() - old(self).pos, 0int,
    {
        let ghost c = self.ctx();
        let ghost st0 = self.st();
        let open = self.bump();
        let mut depth: usize = 1;
        let mut end = open;
        let ghost goal = bracket_skip(c, st0.pos + 1, 1, open);
        while self.pos < self.tokens.len()
            invariant_except_break
                self.inv(),
                same_input(*self, *old(self)),
                c == self.ctx(),
                self.diagnostics@ == st0.diags,
                0 <= st0.pos < self.pos,
                1 <= depth <= self.pos - st0.pos,
                goal == bracket_skip(c, self.pos as int, depth as int, end),
            ensures
                self.inv(),
                same_input(*self, *old(self)),
                self.diagnostics@ == st0.diags,
                st0.pos < self.pos,
                goal == (end, self.pos as int),
            decreases self.tokens@.len() - self.pos,
        {
            match &self.tokens[self.pos].kind {
                TokenKind::LBracket => {
                    assert(depth + 1 <= self.tokens@.len());
                    depth = depth + 1;
                },
                TokenKind::RBracket => {
                    depth = depth - 1;
                },
                _ => {},
            }
            end = self.bump();
            if depth == 0 {
                break;
            }
        }
        self.error(
            "unsupported-syntax",
            String::from_str(
                "Square brackets are not supported; use parentheses with OR, for example (apple OR pear)",
            ),
            open.to(end),
        );
        self.parse_primary()
    }

    #[verifier::spinoff_prover]
    #[verifier::rlimit(50)]
    fn parse_primary(&mut self) -> (r: Option<Node>)
        requires
            old(self).inv(),
        ensures
            final(self).inv(),
            same_input(*final(self), *old(self)),
            old(self).pos <= final(self).pos,
            old(self).consumes() ==> old(self).pos < final(self).pos,
            opt_node_view(r) == p_primary(old(self).ctx(), old(self).st()).0,
            final(self).st() == p_primary(old(self).ctx(), old(self).st()).1,
        decreases old(self).tokens@.len() - old(self).pos, 1int,
    {
        if self.pos >= self.tokens.len() {
            return None;
        }
        let ghost c = self.ctx();
        match &self.tokens[self.pos].kind {
            TokenKind::Word { text, wildcard, fuzzy } => {
                let value = text.clone();
                let wildcard = *wildcard;
                let fuzzy = *fuzzy;
                let span = self.bump();
                Some(Node::Term { value, wildcard, fuzzy, span })
            },
            TokenKind::Phrase { text, slop } => {
                let text = text.clone();
                let slop = match slop {
                    Some(n) => *n,
                    None => 0u32,
                };
                let span = self.bump();
                Some(Node::Phrase { text, slop, span })
            },
            TokenKind::All => {
                let span = self.bump();
                Some(Node::All { span })
            },
            TokenKind::LParen => self.paren_case(),
            TokenKind::LBracket => self.bracket_case(),
            TokenKind::And | TokenKind::Or | TokenKind::Near(_) | TokenKind::Then(_) => {
                let mut msg = self.tokens[self.pos].kind.describe();
                append_str(&mut msg, " has no search term before it");
                let span = self.bump();
                self.error("bare-operator", msg, span);
                self.parse_primary()
            },
            TokenKind::Not | TokenKind::Minus => {
                match self.not_case() {
                    Some(operand) => Some(operand.node),
                    None => None,
                }
            },
            TokenKind::Plus => {
                match self.plus_case() {
                    Some(operand) => Some(operand.node),
                    None => None,
                }
            },
            TokenKind::Boost(_) => {
                let span = self.bump();
                self.error(
                    "dangling-modifier",
                    String::from_str("^ must directly follow a term, phrase or closing parenthesis"),
                    span,
                );
                self.parse_primary()
            },
            TokenKind::RParen | TokenKind::RBracket => None,
        }
    }
}

/// Joins operands with `op`; one operand stands alone; none gives nothing.
fn combine(children: Vec<Node>, op: ImplicitOp) -> (r: Option<Node>)
    ensures
        opt_node_view(r) == combine_spec(nodes_view(children@), op),
{
    proof {
        crate::ast::lemma_nodes_view(children@);
    }
    let mut children = children;
    let n = children.len();
    if n == 0 {
        None
    } else if n == 1 {
        children.pop()
    } else {
        let span = children[0].span().to(children[n - 1].span());
        Some(
            match op {
                ImplicitOp::And => Node::And { children, span },
                ImplicitOp::Or => Node::Or { children, span },
            },
        )
    }
}

/// Lexes and parses a query: the tree, and the lexer's and parser's diagnostics ordered by position.
pub fn parse(source: &str, implicit: ImplicitOp) -> (p: Parsed)
    ensures
        opt_node_view(p.ast) == parse_spec(source@, implicit).0,
        p.diagnostics@ == parse_spec(source@, implicit).1,
{
    let src = SourceText::new(source);
    parse_text(&src, implicit)
}

/// `parse` on an already decoded source.
pub fn parse_text(src: &SourceText, implicit: ImplicitOp) -> (p: Parsed)
    requires
        src.wf(),
    ensures
        opt_node_view(p.ast) == parse_spec(src.chars@, implicit).0,
        p.diagnostics@ == parse_spec(src.chars@, implicit).1,
{
    let lexed = lex_text(src);
    let _n = lexed.tokens.len();
    let mut parser = Parser { src, tokens: lexed.tokens, pos: 0, implicit, diagnostics: lexed.diagnostics };
    let ast = parser.parse_query();
    parser.diagnostics.sort();
    Parsed { ast, diagnostics: parser.diagnostics }
}

} // verus!

verus! {

// ---------------------------------------------------------------------------
// Node spans.
// ---------------------------------------------------------------------------

/// Every node's span, the node's own and those of the nodes under it, starts no later than
/// it ends, and ends no later than `hi`.
pub open spec fn tree_within(n: NodeV, hi: int) -> bool
    decreases n,
{
    &&& node_span(n).start <= node_span(n).end <= hi
    &&& match n {
        NodeV::Group { child, .. } => tree_within(*child, hi),
        NodeV::Not { child, .. } => tree_within(*child, hi),
        NodeV::Boost { child, .. } => tree_within(*child, hi),
        NodeV::Proximity { left, right, .. } => tree_within(*left, hi) && tree_within(*right, hi),
        NodeV::And { children, .. } => trees_within(children, hi),
        NodeV::Or { children, .. } => trees_within(children, hi),
        _ => true,
    }
}

pub open spec fn trees_within(s: Seq<NodeV>, hi: int) -> bool
    decreases s,
{
    s.len() == 0 || (trees_within(s.subrange(0, s.len() - 1), hi) && tree_within(s[s.len() - 1], hi))
}

/// Every token's span starts no later than it ends, and ends no later than `hi`.
pub open spec fn toks_within(c: Ctx, hi: int) -> bool {
    forall|k: int| 0 <= k < c.toks.len() ==> #[trigger] c.toks[k].span.start <= c.toks[k].span.end <= hi
}

proof fn lemma_trees_push(s: Seq<NodeV>, x: NodeV, hi: int)
    ensures
        trees_within(s.push(x), hi) == (trees_within(s, hi) && tree_within(x, hi)),
{
    assert(s.push(x).subrange(0, s.len() as int) =~= s);
}

proof fn lemma_trees_elem(s: Seq<NodeV>, hi: int, k: int)
    requires
        trees_within(s, hi),
        0 <= k < s.len(),
    ensures
        tree_within(s[k], hi),
    decreases s.len(),
{
    if k < s.len() - 1 {
        let t = s.subrange(0, s.len() - 1);
        lemma_trees_elem(t, hi, k);
        assert(t[k] == s[k]);
    }
}

proof fn lemma_hull_within(a: Span, b: Span, hi: int)
    requires
        a.start <= a.end <= hi,
        b.start <= b.end <= hi,
    ensures
        span_hull(a, b).start <= span_hull(a, b).end <= hi,
{
}

proof fn lemma_combine_within(ch: Seq<NodeV>, op: ImplicitOp, hi: int)
    requires
        trees_within(ch, hi),
    ensures
        combine_spec(ch, op) is Some ==> tree_within(combine_spec(ch, op)->0, hi),
{
    if ch.len() >= 1 {
        lemma_trees_elem(ch, hi, 0);
        lemma_trees_elem(ch, hi, ch.len() - 1);
        lemma_hull_within(node_span(ch[0]), node_span(ch.last()), hi);
    }
}

proof fn lemma_single_within(x: NodeV, hi: int)
    requires
        tree_within(x, hi),
    ensures
        trees_within(seq![x], hi),
{
    lemma_trees_push(Seq::empty(), x, hi);
    assert(Seq::<NodeV>::empty().push(x) =~= seq![x]);
}

proof fn lemma_query_within(c: Ctx, st: PState, parts: Seq<NodeV>, hi: int)
    requires
        toks_within(c, hi),
        trees_within(parts, hi),
    ensures
        trees_within(p_query(c, st, parts).0, hi),
    decreases c.toks.len() - st.pos, 11int,
{
    if 0 <= st.pos < c.toks.len() {
        lemma_or_within(c, st, hi);
        let (n, s1) = p_or(c, st);
        if fwd(c, st, s1) {
            let parts1 = match n {
                Some(n) => parts.push(n),
                None => parts,
            };
            if n is Some {
                lemma_trees_push(parts, n->0, hi);
            }
            match recover(c, s1, st.pos) {
                None => {},
                Some(s2) => if st.pos < s2.pos <= c.toks.len() {
                    lemma_query_within(c, s2, parts1, hi);
                },
            }
        }
    }
}

proof fn lemma_or_within(c: Ctx, st: PState, hi: int)
    requires
        toks_within(c, hi),
    ensures
        p_or(c, st).0 is Some ==> tree_within(p_or(c, st).0->0, hi),
    decreases c.toks.len() - st.pos, 10int,
{
    lemma_and_within(c, st, hi);
    let (first, s1) = p_and(c, st);
    if fwd(c, st, s1) {
        let children = match first {
            Some(o) => seq![o.node],
            None => Seq::empty(),
        };
        if first is Some {
            lemma_single_within(first->0.node, hi);
        }
        lemma_or_loop_within(c, s1, children, hi);
        let (ch, s2) = or_loop(c, s1, children);
        lemma_combine_within(ch, ImplicitOp::Or, hi);
    }
}

#[verifier::spinoff_prover]
#[verifier::rlimit(40)]
proof fn lemma_or_loop_within(c: Ctx, st: PState, children: Seq<NodeV>, hi: int)
    requires
        toks_within(c, hi),
        trees_within(children, hi),
    ensures
        trees_within(or_loop(c, st, children).0, hi),
    decreases c.toks.len() - st.pos, 9int,
{
    if 0 <= st.pos < c.toks.len() {
        match peek(c, st.pos) {
            Some(TokenKindV::Or) => {
                let sp = c.toks[st.pos].span;
                let s1 = bump(st);
                lemma_and_within(c, s1, hi);
                let (r, s2) = p_and(c, s1);
                if fwd(c, s1, s2) {
                    match r {
                        Some(o) => {
                            lemma_trees_push(children, o.node, hi);
                            lemma_or_loop_within(c, s2, children.push(o.node), hi);
                        },
                        None => lemma_or_loop_within(
                            c,
                            if s2.diags.len() == s1.diags.len() {
                                err(c, s2, "bare-operator"@, "OR has no search term after it"@, sp)
                            } else {
                                s2
                            },
                            children,
                            hi,
                        ),
                    }
                }
            },
            Some(k) => if c.implicit == ImplicitOp::Or && starts_operand(k) {
                lemma_and_within(c, st, hi);
                let (r, s1) = p_and(c, st);
                if r is Some {
                    let o = r->0;
                    let s2 = warn(c, s1, last_of(children), o);
                    lemma_trees_push(children, o.node, hi);
                    if st.pos < s2.pos <= c.toks.len() {
                        lemma_or_loop_within(c, s2, children.push(o.node), hi);
                    }
                }
            },
            None => {},
        }
    }
}

proof fn lemma_and_within(c: Ctx, st: PState, hi: int)
    requires
        toks_within(c, hi),
    ensures
        p_and(c, st).0 is Some ==> tree_within(p_and(c, st).0->0.node, hi),
    decreases c.toks.len() - st.pos, 8int,
{
    lemma_not_within(c, st, hi);
    let (first, s1) = p_not(c, st);
    if first is Some && fwd(c, st, s1) {
        let f = first->0;
        lemma_single_within(f.node, hi);
        lemma_and_loop_within(c, s1, seq![f.node], hi);
        let (ch, s2) = and_loop(c, s1, seq![f.node]);
        lemma_combine_within(ch, ImplicitOp::And, hi);
    }
}

#[verifier::spinoff_prover]
#[verifier::rlimit(40)]
proof fn lemma_and_loop_within(c: Ctx, st: PState, children: Seq<NodeV>, hi: int)
    requires
        toks_within(c, hi),
        trees_within(children, hi),
    ensures
        trees_within(and_loop(c, st, children).0, hi),
    decreases c.toks.len() - st.pos, 7int,
{
    if 0 <= st.pos < c.toks.len() {
        match peek(c, st.pos) {
            Some(TokenKindV::And) => {
                let sp = c.toks[st.pos].span;
                let s1 = bump(st);
                lemma_not_within(c, s1, hi);
                let (r, s2) = p_not(c, s1);
                if fwd(c, s1, s2) {
                    match r {
                        Some(o) => {
                            lemma_trees_push(children, o.node, hi);
                            lemma_and_loop_within(c, s2, children.push(o.node), hi);
                        },
                        None => lemma_and_loop_within(
                            c,
                            if s2.diags.len() == s1.diags.len() {
                                err(c, s2, "bare-operator"@, "AND has no search term after it"@, sp)
                            } else {
                                s2
                            },
                            children,
                            hi,
                        ),
                    }
                }
            },
            Some(k) => if c.implicit == ImplicitOp::And && starts_operand(k) {
                lemma_not_within(c, st, hi);
                let (r, s1) = p_not(c, st);
                if r is Some {
                    let o = r->0;
                    let s2 = warn(c, s1, last_of(children), o);
                    lemma_trees_push(children, o.node, hi);
                    if st.pos < s2.pos <= c.toks.len() {
                        lemma_and_loop_within(c, s2, children.push(o.node), hi);
                    }
                }
            },
            None => {},
        }
    }
}

proof fn lemma_not_within(c: Ctx, st: PState, hi: int)
    requires
        toks_within(c, hi),
    ensures
        p_not(c, st).0 is Some ==> tree_within(p_not(c, st).0->0.node, hi),
    decreases c.toks.len() - st.pos, 6int,
{
    match peek(c, st.pos) {
        Some(TokenKindV::Not) => lemma_not_case_within(c, st, hi),
        Some(TokenKindV::Minus) => lemma_not_case_within(c, st, hi),
        Some(TokenKindV::Plus) => lemma_plus_case_within(c, st, hi),
        _ => lemma_prox_within(c, st, hi),
    }
}

proof fn lemma_not_case_within(c: Ctx, st: PState, hi: int)
    requires
        toks_within(c, hi),
    ensures
        not_case(c, st).0 is Some ==> tree_within(not_case(c, st).0->0.node, hi),
    decreases c.toks.len() - st.pos, 0int,
{
    if 0 <= st.pos < c.toks.len() {
        let tk = c.toks[st.pos];
        let s1 = bump(st);
        lemma_not_within(c, s1, hi);
        let (r, s2) = p_not(c, s1);
        if r is Some {
            lemma_hull_within(tk.span, node_span(r->0.node), hi);
        }
    }
}

proof fn lemma_plus_case_within(c: Ctx, st: PState, hi: int)
    requires
        toks_within(c, hi),
    ensures
        plus_case(c, st).0 is Some ==> tree_within(plus_case(c, st).0->0.node, hi),
    decreases c.toks.len() - st.pos, 0int,
{
    if 0 <= st.pos < c.toks.len() {
        lemma_not_within(c, bump(st), hi);
    }
}

proof fn lemma_prox_within(c: Ctx, st: PState, hi: int)
    requires
        toks_within(c, hi),
    ensures
        p_prox(c, st).0 is Some ==> tree_within(p_prox(c, st).0->0, hi),
    decreases c.toks.len() - st.pos, 5int,
{
    lemma_postfix_within(c, st, hi);
    let (l, s1) = p_postfix(c, st);
    if l is Some && fwd(c, st, s1) {
        lemma_prox_loop_within(c, s1, l->0, hi);
    }
}

#[verifier::spinoff_prover]
#[verifier::rlimit(40)]
proof fn lemma_prox_loop_within(c: Ctx, st: PState, left: NodeV, hi: int)
    requires
        toks_within(c, hi),
        tree_within(left, hi),
    ensures
        tree_within(prox_loop(c, st, left).0, hi),
    decreases c.toks.len() - st.pos, 4int,
{
    if 0 <= st.pos < c.toks.len() {
        match prox_gap(c.toks[st.pos].kind) {
            None => {},
            Some((gap, ordered)) => {
                let tk = c.toks[st.pos];
                let s1 = bump(st);
                lemma_postfix_within(c, s1, hi);
                let (r, s2) = p_postfix(c, s1);
                if fwd(c, s1, s2) {
                    match r {
                        Some(right) => {
                            lemma_hull_within(node_span(left), node_span(right), hi);
                            lemma_prox_loop_within(
                                c,
                                s2,
                                NodeV::Proximity {
                                    left: Box::new(left),
                                    right: Box::new(right),
                                    gap,
                                    ordered,
                                    span: span_hull(node_span(left), node_span(right)),
                                },
                                hi,
                            );
                        },
                        None => lemma_prox_loop_within(
                            c,
                            if s2.diags.len() == s1.diags.len() {
                                err(
                                    c,
                                    s2,
                                    "bare-operator"@,
                                    describe_spec(tk.kind) + " has no search term after it"@,
                                    tk.span,
                                )
                            } else {
                                s2
                            },
                            left,
                            hi,
                        ),
                    }
                }
            },
        }
    }
}

proof fn lemma_postfix_within(c: Ctx, st: PState, hi: int)
    requires
        toks_within(c, hi),
    ensures
        p_postfix(c, st).0 is Some ==> tree_within(p_postfix(c, st).0->0, hi),
    decreases c.toks.len() - st.pos, 3int,
{
    lemma_primary_within(c, st, hi);
    let (n, s1) = p_primary(c, st);
    if n is Some && fwd(c, st, s1) {
        lemma_postfix_loop_within(c, s1, n->0, hi);
    }
}

proof fn lemma_postfix_loop_within(c: Ctx, st: PState, node: NodeV, hi: int)
    requires
        toks_within(c, hi),
        tree_within(node, hi),
    ensures
        tree_within(postfix_loop(c, st, node).0, hi),
    decreases c.toks.len() - st.pos, 2int,
{
    if 0 <= st.pos < c.toks.len() {
        match c.toks[st.pos].kind {
            TokenKindV::Boost(factor) => {
                let span = c.toks[st.pos].span;
                lemma_hull_within(node_span(node), span, hi);
                lemma_postfix_loop_within(
                    c,
                    push_diag(bump(st), boost_diag(c, span)),
                    NodeV::Boost { factor, child: Box::new(node), span: span_hull(node_span(node), span) },
                    hi,
                );
            },
            _ => {},
        }
    }
}

#[verifier::spinoff_prover]
#[verifier::rlimit(40)]
proof fn lemma_paren_within(c: Ctx, st: PState, hi: int)
    requires
        toks_within(c, hi),
    ensures
        paren_case(c, st).0 is Some ==> tree_within(paren_case(c, st).0->0, hi),
    decreases c.toks.len() - st.pos, 0int,
{
    if 0 <= st.pos < c.toks.len() {
        let open = c.toks[st.pos].span;
        let s1 = bump(st);
        lemma_or_within(c, s1, hi);
        let (inner, s2) = p_or(c, s1);
        if 0 <= s2.pos < c.toks.len() {
            assert(c.toks[s2.pos].span.start <= c.toks[s2.pos].span.end <= hi);
        }
        let (close, s3) = match peek(c, s2.pos) {
            Some(TokenKindV::RParen) => (Some(c.toks[s2.pos].span), bump(s2)),
            _ => (None, push_diag(s2, missing_close_diag(c, open))),
        };
        let end = match close {
            Some(s) => s,
            None => match inner {
                Some(n) => node_span(n),
                None => open,
            },
        };
        lemma_hull_within(open, end, hi);
    }
}

#[verifier::spinoff_prover]
#[verifier::rlimit(40)]
proof fn lemma_bracket_within(c: Ctx, st: PState, hi: int)
    requires
        toks_within(c, hi),
    ensures
        bracket_case(c, st).0 is Some ==> tree_within(bracket_case(c, st).0->0, hi),
    decreases c.toks.len() - st.pos, 0int,
{
    if 0 <= st.pos < c.toks.len() {
        let open = c.toks[st.pos].span;
        let (end, p) = bracket_skip(c, st.pos + 1, 1, open);
        let s2 = err(
            c,
            PState { pos: p, diags: st.diags },
            "unsupported-syntax"@,
            "Square brackets are not supported; use parentheses with OR, for example (apple OR pear)"@,
            span_hull(open, end),
        );
        if st.pos < p <= c.toks.len() {
            lemma_primary_within(c, s2, hi);
        }
    }
}

#[verifier::spinoff_prover]
#[verifier::rlimit(40)]
proof fn lemma_primary_within(c: Ctx, st: PState, hi: int)
    requires
        toks_within(c, hi),
    ensures
        p_primary(c, st).0 is Some ==> tree_within(p_primary(c, st).0->0, hi),
    decreases c.toks.len() - st.pos, 1int,
{
    if 0 <= st.pos < c.toks.len() {
        let tk = c.toks[st.pos];
        match tk.kind {
            TokenKindV::LParen => lemma_paren_within(c, st, hi),
            TokenKindV::LBracket => lemma_bracket_within(c, st, hi),
            TokenKindV::And | TokenKindV::Or | TokenKindV::Near(_) | TokenKindV::Then(_) => lemma_primary_within(
                c,
                err(c, bump(st), "bare-operator"@, describe_spec(tk.kind) + " has no search term before it"@, tk.span),
                hi,
            ),
            TokenKindV::Not | TokenKindV::Minus => lemma_not_case_within(c, st, hi),
            TokenKindV::Plus => lemma_plus_case_within(c, st, hi),
            TokenKindV::Boost(_) => lemma_primary_within(
                c,
                err(
                    c,
                    bump(st),
                    "dangling-modifier"@,
                    "^ must directly follow a term, phrase or closing parenthesis"@,
                    tk.span,
                ),
                hi,
            ),
            _ => {},
        }
    }
}

/// Every node of a parsed query carries a byte span inside the query: it starts no later
/// than it ends, and ends no later than the query's length in bytes.
pub proof fn law_tree_spans(cs: Seq<char>, implicit: ImplicitOp)
    requires
        byte_len(cs) <= usize::MAX,
    ensures
        parse_spec(cs, implicit).0 is Some ==> tree_within(parse_spec(cs, implicit).0->0, byte_len(cs) as int),
{
    let hi = byte_len(cs) as int;
    crate::lexer::law_token_spans(cs);
    let (toks, lexed) = lex_spec(cs);
    let c = Ctx { cs, toks, implicit };
    assert(toks_within(c, hi));
    assert(trees_within(Seq::<NodeV>::empty(), hi));
    lemma_query_within(c, PState { pos: 0, diags: lexed }, Seq::empty(), hi);
    let (parts, st) = p_query(c, PState { pos: 0, diags: lexed }, Seq::empty());
    lemma_combine_within(parts, implicit, hi);
}

} // verus!
