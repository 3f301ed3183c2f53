//! TINQL emission and the single analysis pipeline (lex, parse, lint, emit).
use vstd::prelude::*;

use crate::ast::{Fuzzy, Node, NodeV, QueryStats, Span, lemma_nodes_view, nodes_view, stats_spec};
use crate::diagnostics::{
    Diagnostic, DiagnosticList, DiagnosticSeverity, DiagnosticV, Range, coded, has_error, range_spec, sort_stable,
};
use crate::lint::{LintOptions, lint, lint_node};
use crate::parser::{ImplicitOp, opt_node_view, parse, parse_spec};
use crate::text::{byte_len, chars_of, decimal, is_white_space, is_whitespace, push_char, u32_to_string, append_string, append_str};

verus! {

/// Whether `s` is one of the UPPER CASE words TINQL reserves.
pub open spec fn tin_keyword(s: Seq<char>) -> bool {
    ||| s == "AND"@
    ||| s == "OR"@
    ||| s == "NOT"@
    ||| s == "THEN"@
    ||| s == "NEAR"@
    ||| s == "WITHIN"@
    ||| s == "ENCLOSES"@
    ||| s == "ENCLOSED"@
    ||| s == "BY"@
    ||| s == "OVERLAPPING"@
    ||| s == "BEFORE"@
    ||| s == "AFTER"@
    ||| s == "TO"@
    ||| s == "IN"@
    ||| s == "FIRST"@
    ||| s == "LAST"@
    ||| s == "MIDDLE"@
    ||| s == "WORDS"@
    ||| s == "CONTAINS"@
    ||| s == "MATCHES"@
    ||| s == "AT"@
    ||| s == "LEAST"@
    ||| s == "OF"@
    ||| s == "ALL"@
}

/// Every UPPER CASE word TINQL reserves; emitted quoted when searched literally.
pub fn is_tin_keyword(value: &String) -> (b: bool)
    ensures
        b == tin_keyword(value@),
{
    let v = value.as_str();
    str_eq(v, "AND") || str_eq(v, "OR") || str_eq(v, "NOT") || str_eq(v, "THEN") || str_eq(v, "NEAR")
        || str_eq(v, "WITHIN") || str_eq(v, "ENCLOSES") || str_eq(v, "ENCLOSED") || str_eq(v, "BY")
        || str_eq(v, "OVERLAPPING") || str_eq(v, "BEFORE") || str_eq(v, "AFTER") || str_eq(v, "TO")
        || str_eq(v, "IN") || str_eq(v, "FIRST") || str_eq(v, "LAST") || str_eq(v, "MIDDLE") || str_eq(
        v,
        "WORDS",
    ) || str_eq(v, "CONTAINS") || str_eq(v, "MATCHES") || str_eq(v, "AT") || str_eq(v, "LEAST")
        || str_eq(v, "OF") || str_eq(v, "ALL")
}

/// `a == b` on string slices.
pub fn str_eq(a: &str, b: &str) -> (r: bool)
    ensures
        r == (a@ == b@),
{
    let n = a.unicode_len();
    if n != b.unicode_len() {
        return false;
    }
    let mut i: usize = 0;
    while i < n
        invariant
            n == a@.len(),
            n == b@.len(),
            i <= n,
            forall|k: int| 0 <= k < i ==> a@[k] == b@[k],
        decreases n - i,
    {
        if a.get_char(i) != b.get_char(i) {
            return false;
        }
        i = i + 1;
    }
    assert(a@ =~= b@);
    true
}

/// Characters that end a bare TINQL term.
pub open spec fn is_term_breaker(c: char) -> bool {
    c == '(' || c == ')' || c == '[' || c == ']' || c == '"' || c == '~' || c == '^'
}

/// From `k` on: whether a character needs the term quoted (whitespace, a breaker, or a
/// backslash that does not escape `*` / `?`).
pub open spec fn quoting_from(v: Seq<char>, k: int) -> bool
    decreases v.len() - k,
{
    if k < 0 || k >= v.len() {
        false
    } else if v[k] == '\\' {
        if k + 1 < v.len() && (v[k + 1] == '*' || v[k + 1] == '?') {
            quoting_from(v, k + 2)
        } else {
            true
        }
    } else if is_white_space(v[k]) || is_term_breaker(v[k]) {
        true
    } else {
        quoting_from(v, k + 1)
    }
}

/// A bare TINQL term may hold anything except whitespace and `( ) [ ] " ~ ^`;
/// a backslash is only meaningful before `*` / `?`; a leading `:` needs quotes too.
pub open spec fn needs_quoting_spec(v: Seq<char>) -> bool {
    quoting_from(v, 0) || (v.len() > 0 && v[0] == ':')
}

/// A bare TINQL term may hold anything except whitespace and `( ) [ ] " ~ ^`;
/// a backslash is only meaningful before `*` / `?`.
pub fn needs_quoting(value: &str) -> (b: bool)
    ensures
        b == needs_quoting_spec(value@),
{
    let n = value.unicode_len();
    let mut k: usize = 0;
    let ghost v = value@;
    let mut found = false;
    while k < n
        invariant_except_break
            n == v.len(),
            v == value@,
            k <= n + 1,
            quoting_from(v, 0) == quoting_from(v, k as int),
            !found,
        ensures
            found ==> quoting_from(v, 0),
            !found ==> !quoting_from(v, 0),
        decreases n + 1 - k,
    {
        let c = value.get_char(k);
        if c == '\\' {
            if k + 1 < n {
                let d = value.get_char(k + 1);
                if d == '*' || d == '?' {
                    k = k + 2;
                    continue;
                }
            }
            found = true;
            break;
        }
        if is_whitespace(c) || c == '(' || c == ')' || c == '[' || c == ']' || c == '"' || c == '~'
            || c == '^' {
            found = true;
            break;
        }
        k = k + 1;
    }
    if found {
        return true;
    }
    n > 0 && value.get_char(0) == ':'
}

pub open spec fn is_phrase_escaped(c: char) -> bool {
    c == '\\' || c == '"' || c == '_' || c == '[' || c == ']'
}

/// A backslash before every `\ " _ [ ]`.
pub open spec fn escape_phrase(s: Seq<char>) -> Seq<char>
    decreases s.len(),
{
    if s.len() == 0 {
        s
    } else {
        escape_phrase(s.drop_last()) + if is_phrase_escaped(s.last()) {
            seq!['\\', s.last()]
        } else {
            seq![s.last()]
        }
    }
}

/// A TINQL phrase: quoted, escaped, with `~slop` when the slop is positive.
pub open spec fn quote_phrase_spec(text: Seq<char>, slop: u32) -> Seq<char> {
    seq!['"'] + escape_phrase(text) + seq!['"'] + if slop > 0 {
        seq!['~'] + decimal(slop as nat)
    } else {
        Seq::empty()
    }
}

pub fn quote_phrase(text: &String, slop: u32) -> (out: String)
    ensures
        out@ == quote_phrase_spec(text@, slop),
{
    let cs = chars_of(text);
    let mut out = String::new();
    push_char(&mut out, '"');
    let mut i: usize = 0;
    while i < cs.len()
        invariant
            i <= cs@.len(),
            cs@ == text@,
            out@ == seq!['"'] + escape_phrase(cs@.take(i as int)),
        decreases cs@.len() - i,
    {
        let c = cs[i];
        assert(cs@.take(i + 1).drop_last() =~= cs@.take(i as int));
        let ghost before = out@;
        if c == '\\' || c == '"' || c == '_' || c == '[' || c == ']' {
            push_char(&mut out, '\\');
        }
        push_char(&mut out, c);
        assert(out@ =~= seq!['"'] + escape_phrase(cs@.take(i + 1)));
        i = i + 1;
    }
    assert(cs@.take(cs@.len() as int) =~= cs@);
    push_char(&mut out, '"');
    if slop > 0 {
        push_char(&mut out, '~');
        let d = u32_to_string(slop);
        append_string(&mut out, &d);
    }
    assert(out@ =~= quote_phrase_spec(text@, slop));
    out
}

/// Removes the backslash before each escaped `*` / `?` (`\*` → `*`, `\?` → `?`).
pub open spec fn unescape_wildcards(s: Seq<char>, k: int) -> Seq<char>
    decreases s.len() - k,
{
    if k < 0 || k >= s.len() {
        Seq::empty()
    } else if s[k] == '\\' && k + 1 < s.len() && (s[k + 1] == '*' || s[k + 1] == '?') {
        seq![s[k + 1]] + unescape_wildcards(s, k + 2)
    } else {
        seq![s[k]] + unescape_wildcards(s, k + 1)
    }
}

/// `value.replace("\\*", "*").replace("\\?", "?")`.
pub fn unescape_wildcards_exec(value: &String) -> (out: String)
    ensures
        out@ == unescape_wildcards(value@, 0),
{
    let cs = chars_of(value);
    let n = cs.len();
    let mut out = String::new();
    let mut k: usize = 0;
    assert(out@ + unescape_wildcards(cs@, 0) =~= unescape_wildcards(cs@, 0));
    while k < n
        invariant
            n == cs@.len(),
            cs@ == value@,
            k <= n + 1,
            out@ + unescape_wildcards(cs@, k as int) == unescape_wildcards(cs@, 0),
        decreases n + 1 - k,
    {
        let c = cs[k];
        let ghost before = out@;
        if c == '\\' && k + 1 < n && (cs[k + 1] == '*' || cs[k + 1] == '?') {
            push_char(&mut out, cs[k + 1]);
            assert(before + unescape_wildcards(cs@, k as int) =~= out@ + unescape_wildcards(cs@, k + 2));
            k = k + 2;
        } else {
            push_char(&mut out, c);
            assert(before + unescape_wildcards(cs@, k as int) =~= out@ + unescape_wildcards(cs@, k + 1));
            k = k + 1;
        }
    }
    assert(out@ + unescape_wildcards(cs@, k as int) =~= out@);
    out
}

} // verus!

verus! {

// ---------------------------------------------------------------------------
// Emission.
// ---------------------------------------------------------------------------

/// How tightly an emitted piece binds, loosest first.
#[derive(Debug, Clone, Copy, PartialEq, Eq, Structural)]
enum Prec {
    Or,
    And,
    AndNot,
    Proximity,
    Primary,
}

struct Piece {
    text: String,
    prec: Prec,
}

/// An emitted piece as values.
pub struct PieceV {
    pub text: Seq<char>,
    pub prec: PrecV,
}

/// `Prec` as a value.
pub enum PrecV {
    Or,
    And,
    AndNot,
    Proximity,
    Primary,
}

spec fn prec_view(p: Prec) -> PrecV {
    match p {
        Prec::Or => PrecV::Or,
        Prec::And => PrecV::And,
        Prec::AndNot => PrecV::AndNot,
        Prec::Proximity => PrecV::Proximity,
        Prec::Primary => PrecV::Primary,
    }
}

impl View for Piece {
    type V = PieceV;

    closed spec fn view(&self) -> PieceV {
        PieceV { text: self.text@, prec: prec_view(self.prec) }
    }
}

pub open spec fn primary(text: Seq<char>) -> PieceV {
    PieceV { text, prec: PrecV::Primary }
}

/// Anything that is not a single term or phrase gets parentheses, so the
/// emitted string never relies on TINQL precedence.
pub open spec fn wrap(p: PieceV) -> Seq<char> {
    if p.prec is Primary {
        p.text
    } else {
        "("@ + p.text + ")"@
    }
}

/// The wrapped pieces joined by `sep`.
pub open spec fn join_wrapped(ps: Seq<PieceV>, sep: Seq<char>) -> Seq<char>
    decreases ps.len(),
{
    if ps.len() == 0 {
        Seq::empty()
    } else if ps.len() == 1 {
        wrap(ps[0])
    } else {
        join_wrapped(ps.subrange(0, ps.len() - 1), sep) + sep + wrap(ps[ps.len() - 1])
    }
}

/// `~N` or `~P:N` after a fuzzy term.
pub open spec fn fuzzy_text(f: Fuzzy) -> Seq<char> {
    match f.prefix {
        Some(p) => "~"@ + decimal(p as nat) + ":"@ + decimal(f.distance as nat),
        None => "~"@ + decimal(f.distance as nat),
    }
}

pub open spec fn emit_term(value: Seq<char>, wildcard: bool, fuzzy: Option<Fuzzy>) -> PieceV {
    if wildcard {
        primary(value)
    } else if fuzzy is Some {
        primary(value + fuzzy_text(fuzzy->0))
    } else if needs_quoting_spec(value) || tin_keyword(value) {
        primary(quote_phrase_spec(unescape_wildcards(value, 0), 0))
    } else {
        primary(value)
    }
}

/// The TINQL piece of a node.
pub open spec fn emit_spec(n: NodeV) -> PieceV
    decreases n,
{
    match n {
        NodeV::Term { value, wildcard, fuzzy, .. } => emit_term(value, wildcard, fuzzy),
        NodeV::Phrase { text, slop, .. } => primary(quote_phrase_spec(text, slop)),
        NodeV::All { .. } => primary("*"@),
        NodeV::Group { child, .. } => emit_spec(*child),
        NodeV::Boost { child, .. } => emit_spec(*child),
        NodeV::Not { child, .. } => PieceV { text: "* AND NOT "@ + wrap(emit_spec(*child)), prec: PrecV::AndNot },
        NodeV::Proximity { left, right, gap, ordered, .. } => PieceV {
            text: wrap(emit_spec(*left)) + (if ordered { " THEN/"@ } else { " NEAR/"@ }) + decimal(gap as nat)
                + " "@ + wrap(emit_spec(*right)),
            prec: PrecV::Proximity,
        },
        NodeV::And { children, .. } => emit_and(split_and(children)),
        NodeV::Or { children, .. } => PieceV { text: join_wrapped(emit_all(children), " OR "@), prec: PrecV::Or },
    }
}

/// For a negation (under any groups and boosts), the piece of what it negates.
pub open spec fn negated(n: NodeV) -> Option<PieceV>
    decreases n,
{
    match n {
        NodeV::Group { child, .. } => negated(*child),
        NodeV::Boost { child, .. } => negated(*child),
        NodeV::Not { child, .. } => Some(emit_spec(*child)),
        _ => None,
    }
}

/// The pieces of an AND's operands, kept apart: the positive ones, and what the negated ones negate.
pub open spec fn split_and(s: Seq<NodeV>) -> (Seq<PieceV>, Seq<PieceV>)
    decreases s,
{
    if s.len() == 0 {
        (Seq::empty(), Seq::empty())
    } else {
        let (pos, neg) = split_and(s.subrange(0, s.len() - 1));
        match negated(s[s.len() - 1]) {
            Some(p) => (pos, neg.push(p)),
            None => (pos.push(emit_spec(s[s.len() - 1])), neg),
        }
    }
}

pub open spec fn emit_all(s: Seq<NodeV>) -> Seq<PieceV>
    decreases s,
{
    if s.len() == 0 {
        Seq::empty()
    } else {
        emit_all(s.subrange(0, s.len() - 1)).push(emit_spec(s[s.len() - 1]))
    }
}

/// An AND: the positive operands (`*` when there are none), then `AND NOT` what is excluded.
pub open spec fn emit_and(split: (Seq<PieceV>, Seq<PieceV>)) -> PieceV {
    let (pos, neg) = split;
    let positive = if pos.len() == 0 {
        primary("*"@)
    } else if pos.len() == 1 {
        pos[0]
    } else {
        PieceV { text: join_wrapped(pos, " AND "@), prec: PrecV::And }
    };
    if neg.len() == 0 {
        positive
    } else {
        let negative = if neg.len() == 1 {
            wrap(neg[0])
        } else {
            "("@ + join_wrapped(neg, " OR "@) + ")"@
        };
        PieceV { text: wrap(positive) + " AND NOT "@ + negative, prec: PrecV::AndNot }
    }
}

} // verus!

verus! {

pub open spec fn pieces_view(v: Seq<Piece>) -> Seq<PieceV> {
    v.map_values(|p: Piece| p@)
}

impl Piece {
    fn primary(text: String) -> (p: Piece)
        ensures
            p@ == primary(text@),
    {
        Piece { text, prec: Prec::Primary }
    }

    /// Anything that is not a single term or phrase gets parentheses, so the
    /// emitted string never relies on TINQL precedence.
    fn wrapped(&self) -> (s: String)
        ensures
            s@ == wrap(self@),
    {
        if self.prec == Prec::Primary {
            self.text.clone()
        } else {
            let mut s = String::new();
            append_str(&mut s, "(");
            append_string(&mut s, &self.text);
            append_str(&mut s, ")");
            assert(s@ =~= "("@ + self.text@ + ")"@);
            s
        }
    }
}

/// The wrapped pieces joined by `sep`.
fn join_pieces(ps: &Vec<Piece>, sep: &str) -> (s: String)
    ensures
        s@ == join_wrapped(pieces_view(ps@), sep@),
{
    let ghost v = pieces_view(ps@);
    let mut s = String::new();
    let mut i: usize = 0;
    assert(v.take(0) =~= Seq::<PieceV>::empty());
    while i < ps.len()
        invariant
            i <= ps@.len(),
            v == pieces_view(ps@),
            v.len() == ps@.len(),
            s@ == join_wrapped(v.take(i as int), sep@),
        decreases ps@.len() - i,
    {
        let w = ps[i].wrapped();
        let ghost t = v.take(i + 1);
        assert(t.subrange(0, t.len() - 1) =~= v.take(i as int));
        assert(t[t.len() - 1] == ps@[i as int]@);
        if i > 0 {
            append_str(&mut s, sep);
        }
        append_string(&mut s, &w);
        assert(s@ =~= join_wrapped(t, sep@));
        i = i + 1;
    }
    assert(v.take(ps@.len() as int) =~= v);
    s
}

/// The TINQL piece of a node.
fn emit(node: &Node) -> (p: Piece)
    ensures
        p@ == emit_spec(node@),
    decreases node@,
{
    match node {
        Node::Term { value, wildcard, fuzzy, .. } => {
            if *wildcard {
                return Piece::primary(value.clone());
            }
            if let Some(f) = fuzzy {
                let mut s = value.clone();
                append_str(&mut s, "~");
                if let Some(p) = f.prefix {
                    let ps = u32_to_string(p);
                    append_string(&mut s, &ps);
                    append_str(&mut s, ":");
                }
                let ds = u32_to_string(f.distance);
                append_string(&mut s, &ds);
                assert(s@ =~= value@ + fuzzy_text(*f));
                return Piece::primary(s);
            }
            if needs_quoting(value.as_str()) || is_tin_keyword(value) {
                let literal = unescape_wildcards_exec(value);
                Piece::primary(quote_phrase(&literal, 0))
            } else {
                Piece::primary(value.clone())
            }
        },
        Node::Phrase { text, slop, .. } => Piece::primary(quote_phrase(text, *slop)),
        Node::All { .. } => Piece::primary(String::from_str("*")),
        Node::Group { child, .. } => emit(child),
        Node::Boost { child, .. } => emit(child),
        Node::Not { child, .. } => {
            let inner = emit(child).wrapped();
            let mut s = String::new();
            append_str(&mut s, "* AND NOT ");
            append_string(&mut s, &inner);
            assert(s@ =~= "* AND NOT "@ + inner@);
            Piece { text: s, prec: Prec::AndNot }
        },
        Node::Proximity { left, right, gap, ordered, .. } => {
            let l = emit(left).wrapped();
            let r = emit(right).wrapped();
            let mut s = String::new();
            append_string(&mut s, &l);
            if *ordered {
                append_str(&mut s, " THEN/");
            } else {
                append_str(&mut s, " NEAR/");
            }
            let g = u32_to_string(*gap);
            append_string(&mut s, &g);
            append_str(&mut s, " ");
            append_string(&mut s, &r);
            assert(s@ =~= l@ + (if *ordered { " THEN/"@ } else { " NEAR/"@ }) + g@ + " "@ + r@);
            Piece { text: s, prec: Prec::Proximity }
        },
        Node::And { children, .. } => {
            let ghost cv = nodes_view(children@);
            proof {
                lemma_nodes_view(children@);
                assert(cv.take(0) =~= Seq::<NodeV>::empty());
            }
            let mut positives: Vec<Piece> = Vec::new();
            let mut negatives: Vec<Piece> = Vec::new();
            let mut i: usize = 0;
            while i < children.len()
                invariant
                    i <= children@.len(),
                    cv == nodes_view(children@),
                    cv.len() == children@.len(),
                    forall|k: int| 0 <= k < children@.len() ==> #[trigger] cv[k] == children@[k]@,
                    node@ is And,
                    node@->And_children == cv,
                    (pieces_view(positives@), pieces_view(negatives@)) == split_and(cv.take(i as int)),
                decreases children@.len() - i,
            {
                let ghost t = cv.take(i + 1);
                proof {
                    assert(t.subrange(0, t.len() - 1) =~= cv.take(i as int));
                    assert(t[t.len() - 1] == children@[i as int]@);
                    let nv = node@;
                    assert(decreases_to!(nv => nv->And_children));
                    assert(decreases_to!(nv->And_children => nv->And_children[i as int]));
                }
                match negated_piece(&children[i]) {
                    Some(p) => {
                        negatives.push(p);
                        assert(pieces_view(negatives@) =~= split_and(t).1);
                        assert(pieces_view(positives@) =~= split_and(t).0);
                    },
                    None => {
                        let p = emit(&children[i]);
                        positives.push(p);
                        assert(pieces_view(positives@) =~= split_and(t).0);
                        assert(pieces_view(negatives@) =~= split_and(t).1);
                    },
                }
                i = i + 1;
            }
            assert(cv.take(children@.len() as int) =~= cv);
            let ghost pv = pieces_view(positives@);
            let ghost nv = pieces_view(negatives@);
            let positive = if positives.len() == 0 {
                Piece::primary(String::from_str("*"))
            } else if positives.len() == 1 {
                let p = positives.pop().unwrap();
                assert(p@ == pv[0]);
                p
            } else {
                Piece { text: join_pieces(&positives, " AND "), prec: Prec::And }
            };
            if negatives.len() == 0 {
                return positive;
            }
            let negative = if negatives.len() == 1 {
                negatives[0].wrapped()
            } else {
                let j = join_pieces(&negatives, " OR ");
                let mut s = String::new();
                append_str(&mut s, "(");
                append_string(&mut s, &j);
                append_str(&mut s, ")");
                assert(s@ =~= "("@ + j@ + ")"@);
                s
            };
            let pw = positive.wrapped();
            let mut s = String::new();
            append_string(&mut s, &pw);
            append_str(&mut s, " AND NOT ");
            append_string(&mut s, &negative);
            assert(s@ =~= pw@ + " AND NOT "@ + negative@);
            Piece { text: s, prec: Prec::AndNot }
        },
        Node::Or { children, .. } => {
            let ghost cv = nodes_view(children@);
            proof {
                lemma_nodes_view(children@);
                assert(cv.take(0) =~= Seq::<NodeV>::empty());
            }
            let mut pieces: Vec<Piece> = Vec::new();
            let mut i: usize = 0;
            while i < children.len()
                invariant
                    i <= children@.len(),
                    cv == nodes_view(children@),
                    cv.len() == children@.len(),
                    forall|k: int| 0 <= k < children@.len() ==> #[trigger] cv[k] == children@[k]@,
                    node@ is Or,
                    node@->Or_children == cv,
                    pieces_view(pieces@) == emit_all(cv.take(i as int)),
                decreases children@.len() - i,
            {
                let ghost t = cv.take(i + 1);
                proof {
                    assert(t.subrange(0, t.len() - 1) =~= cv.take(i as int));
                    assert(t[t.len() - 1] == children@[i as int]@);
                    let nv = node@;
                    assert(decreases_to!(nv => nv->Or_children));
                    assert(decreases_to!(nv->Or_children => nv->Or_children[i as int]));
                }
                let p = emit(&children[i]);
                pieces.push(p);
                assert(pieces_view(pieces@) =~= emit_all(t));
                i = i + 1;
            }
            assert(cv.take(children@.len() as int) =~= cv);
            Piece { text: join_pieces(&pieces, " OR "), prec: Prec::Or }
        },
    }
}

/// For a negation (under any groups and boosts), the piece of what it negates.
fn negated_piece(node: &Node) -> (r: Option<Piece>)
    ensures
        match r {
            Some(p) => negated(node@) == Some(p@),
            None => negated(node@) is None,
        },
    decreases node@,
{
    match node {
        Node::Group { child, .. } => negated_piece(child),
        Node::Boost { child, .. } => negated_piece(child),
        Node::Not { child, .. } => Some(emit(child)),
        _ => None,
    }
}

} // verus!

verus! {

// ---------------------------------------------------------------------------
// The pipeline.
// ---------------------------------------------------------------------------

/// Options for analysis and TINQL emission
#[derive(Debug, Clone, Copy, PartialEq, Eq, Structural)]
pub struct TinqlOptions {
    /// Treat bare adjacent terms as AND (true, default) or OR (false).
    pub conjunction_mode: Option<bool>,
    /// Maximum phrase proximity `"a b"~N`. Defaults to 20.
    pub max_slop: Option<u32>,
    /// Maximum fuzzy edit distance `term~N`. Defaults to 2.
    pub max_fuzzy_distance: Option<u32>,
}

impl Default for TinqlOptions {
    fn default() -> (o: Self)
        ensures
            o == (TinqlOptions { conjunction_mode: None, max_slop: None, max_fuzzy_distance: None }),
    {
        TinqlOptions { conjunction_mode: None, max_slop: None, max_fuzzy_distance: None }
    }
}

/// Result of transpiling a query to TINQL
pub struct TinqlOutput {
    /// Whether transpilation succeeded (no error diagnostics)
    pub ok: bool,
    /// The TINQL string for `content ==> $1`, present only when `ok`
    pub tinql: Option<String>,
    /// Diagnostics from parsing, linting, and emission
    pub diagnostics: DiagnosticList,
}

pub struct Analysis {
    pub ast: Option<Node>,
    pub stats: Option<QueryStats>,
    pub diagnostics: DiagnosticList,
    pub tinql: Option<String>,
}

/// The operator a bare space stands for.
pub open spec fn implicit_of(o: TinqlOptions) -> ImplicitOp {
    if o.conjunction_mode.unwrap_or(true) {
        ImplicitOp::And
    } else {
        ImplicitOp::Or
    }
}

pub open spec fn lint_options_of(o: TinqlOptions) -> LintOptions {
    LintOptions { max_slop: o.max_slop.unwrap_or(20), max_fuzzy_distance: o.max_fuzzy_distance.unwrap_or(2) }
}

/// The tree of a query under the given options.
pub open spec fn analysis_ast(cs: Seq<char>, o: TinqlOptions) -> Option<NodeV> {
    parse_spec(cs, implicit_of(o)).0
}

/// The error a query with no search terms gets.
pub open spec fn empty_query_diag(cs: Seq<char>) -> DiagnosticV {
    coded(
        DiagnosticSeverity::Error,
        "empty-query"@,
        "Query has no search terms"@,
        range_spec(cs, 0, byte_len(cs) as int),
    )
}

/// The diagnostics of a query, ordered by position: the parser's and, when there is a tree,
/// the linter's; when there is none, the error that the query has no search terms.
pub open spec fn analysis_diags(cs: Seq<char>, o: TinqlOptions) -> Seq<DiagnosticV> {
    let (ast, ds) = parse_spec(cs, implicit_of(o));
    match ast {
        None => sort_stable(ds.push(empty_query_diag(cs))),
        Some(a) => sort_stable(ds + lint_node(cs, lint_options_of(o), a)),
    }
}

/// The TINQL text of a query: present when it has a tree and no error.
pub open spec fn analysis_tinql(cs: Seq<char>, o: TinqlOptions) -> Option<Seq<char>> {
    match analysis_ast(cs, o) {
        None => None,
        Some(a) => if has_error(analysis_diags(cs, o)) {
            None
        } else {
            Some(emit_spec(a).text)
        },
    }
}

pub open spec fn opt_string_view(s: Option<String>) -> Option<Seq<char>> {
    match s {
        Some(t) => Some(t@),
        None => None,
    }
}

impl Analysis {
    pub fn is_ok(&self) -> (b: bool)
        ensures
            b == !has_error(self.diagnostics@),
    {
        !self.diagnostics.has_errors()
    }
}

/// The single pipeline behind every public function: lex, parse, lint, emit.
pub fn analyze(source: &str, options: &TinqlOptions) -> (a: Analysis)
    ensures
        opt_node_view(a.ast) == analysis_ast(source@, *options),
        a.diagnostics@ == analysis_diags(source@, *options),
        a.stats == (match analysis_ast(source@, *options) {
            Some(n) => Some(stats_spec(n)),
            None => None,
        }),
        opt_string_view(a.tinql) == analysis_tinql(source@, *options),
{
    let implicit = if options.conjunction_mode.unwrap_or(true) {
        ImplicitOp::And
    } else {
        ImplicitOp::Or
    };
    let parsed = parse(source, implicit);
    let mut diagnostics = parsed.diagnostics;
    let ast = match parsed.ast {
        Some(ast) => ast,
        None => {
            diagnostics.push(
                Diagnostic::error(String::from_str("Query has no search terms"), Range::whole(source)).with_code(
                    "empty-query",
                ),
            );
            diagnostics.sort();
            return Analysis { ast: None, stats: None, diagnostics, tinql: None };
        },
    };
    let lint_options = LintOptions {
        max_slop: options.max_slop.unwrap_or(20),
        max_fuzzy_distance: options.max_fuzzy_distance.unwrap_or(2),
    };
    let linted = lint(source, &ast, &lint_options);
    diagnostics.extend(linted.items);
    diagnostics.sort();
    let stats = QueryStats::from_node(&ast);
    let tinql = if diagnostics.has_errors() {
        None
    } else {
        Some(emit(&ast).text)
    };
    Analysis { ast: Some(ast), stats: Some(stats), diagnostics, tinql }
}

pub fn to_tinql(source: &str, options: &TinqlOptions) -> (out: TinqlOutput)
    ensures
        out.ok == (!has_error(analysis_diags(source@, *options)) && analysis_tinql(source@, *options) is Some),
        opt_string_view(out.tinql) == analysis_tinql(source@, *options),
        out.diagnostics@ == analysis_diags(source@, *options),
        out.ok == !has_error(out.diagnostics@),
        (out.tinql is Some) == out.ok,
{
    proof {
        crate::law_valid_iff_transpiles(source@, *options);
    }
    let analysis = analyze(source, options);
    TinqlOutput {
        ok: analysis.is_ok() && analysis.tinql.is_some(),
        tinql: analysis.tinql,
        diagnostics: analysis.diagnostics,
    }
}

} // verus!

verus! {

proof fn lemma_split_all_negated(s: Seq<NodeV>)
    requires
        forall|i: int| 0 <= i < s.len() ==> #[trigger] negated(s[i]) is Some,
    ensures
        split_and(s).0.len() == 0,
        split_and(s).1.len() == s.len(),
    decreases s.len(),
{
    if s.len() > 0 {
        let t = s.subrange(0, s.len() - 1);
        assert forall|i: int| 0 <= i < t.len() implies #[trigger] negated(t[i]) is Some by {
            assert(t[i] == s[i]);
        }
        lemma_split_all_negated(t);
        assert(negated(s[s.len() - 1]) is Some);
    }
}

/// An AND of negations only (`NOT a NOT b`, `-a -b`) is emitted as `* AND NOT …`:
/// TINQL needs something to subtract from.
pub proof fn law_negation_only_and(children: Seq<NodeV>, span: Span)
    requires
        children.len() > 0,
        forall|i: int| 0 <= i < children.len() ==> #[trigger] negated(children[i]) is Some,
    ensures
        exists|rest: Seq<char>| emit_spec(NodeV::And { children, span }).text == "* AND NOT "@ + rest,
{
    lemma_split_all_negated(children);
    reveal_strlit("*");
    reveal_strlit(" AND NOT ");
    reveal_strlit("* AND NOT ");
    let (pos, neg) = split_and(children);
    let negative = if neg.len() == 1 {
        wrap(neg[0])
    } else {
        "("@ + join_wrapped(neg, " OR "@) + ")"@
    };
    assert(emit_spec(NodeV::And { children, span }).text == "*"@ + " AND NOT "@ + negative);
    assert("*"@ + " AND NOT "@ + negative =~= "* AND NOT "@ + negative);
}

/// A negation on its own is emitted as `* AND NOT …` too.
pub proof fn law_negation_alone(child: NodeV, span: Span)
    ensures
        emit_spec(NodeV::Not { child: Box::new(child), span }).text == "* AND NOT "@ + wrap(emit_spec(child)),
{
}

} // verus!

verus! {

/// A boost is parsed for compatibility and ignored by the emitter: `x^N` emits as `x`.
pub proof fn law_boost_ignored(factor: Seq<char>, child: NodeV, span: Span)
    ensures
        emit_spec(NodeV::Boost { factor, child: Box::new(child), span }) == emit_spec(child),
{
}

} // verus!

verus! {

proof fn lemma_upper_unescape(w: Seq<char>, k: int)
    requires
        0 <= k <= w.len(),
        forall|i: int| 0 <= i < w.len() ==> 'A' <= #[trigger] w[i] <= 'Z',
    ensures
        unescape_wildcards(w, k) == w.subrange(k, w.len() as int),
    decreases w.len() - k,
{
    if k < w.len() {
        lemma_upper_unescape(w, k + 1);
        assert(w.subrange(k, w.len() as int) =~= seq![w[k]] + w.subrange(k + 1, w.len() as int));
    } else {
        assert(w.subrange(k, w.len() as int) =~= Seq::<char>::empty());
    }
}

proof fn lemma_upper_escape(w: Seq<char>)
    requires
        forall|i: int| 0 <= i < w.len() ==> 'A' <= #[trigger] w[i] <= 'Z',
    ensures
        escape_phrase(w) == w,
    decreases w.len(),
{
    if w.len() > 0 {
        let t = w.drop_last();
        assert forall|i: int| 0 <= i < t.len() implies 'A' <= #[trigger] t[i] <= 'Z' by {
            assert(t[i] == w[i]);
        }
        lemma_upper_escape(t);
        assert(t.push(w.last()) =~= w);
    }
}

/// Whether a plain term whose value is `w` is emitted as the quoted phrase `"w"`.
#[verifier::opaque]
pub open spec fn reserved_emitted(w: Seq<char>, span: Span) -> bool {
    emit_spec(NodeV::Term { value: w, wildcard: false, fuzzy: None, span }).text == seq!['"'] + w + seq!['"']
}

proof fn lemma_reserved_quoted(w: Seq<char>, span: Span)
    requires
        tin_keyword(w),
        forall|i: int| 0 <= i < w.len() ==> 'A' <= #[trigger] w[i] <= 'Z',
    ensures
        reserved_emitted(w, span),
{
    lemma_upper_unescape(w, 0);
    assert(w.subrange(0, w.len() as int) =~= w);
    lemma_upper_escape(w);
    assert(seq!['"'] + w + seq!['"'] + Seq::<char>::empty() =~= seq!['"'] + w + seq!['"']);
    reveal(reserved_emitted);
}

/// Every word TINQL reserves, searched as a plain term, is emitted as a quoted phrase so that
/// TINQL reads it as a word and not as its keyword.
pub proof fn law_reserved_words_quoted(span: Span)
    ensures
        reserved_emitted("AND"@, span),
        reserved_emitted("OR"@, span),
        reserved_emitted("NOT"@, span),
        reserved_emitted("THEN"@, span),
        reserved_emitted("NEAR"@, span),
        reserved_emitted("WITHIN"@, span),
        reserved_emitted("ENCLOSES"@, span),
        reserved_emitted("ENCLOSED"@, span),
        reserved_emitted("BY"@, span),
        reserved_emitted("OVERLAPPING"@, span),
        reserved_emitted("BEFORE"@, span),
        reserved_emitted("AFTER"@, span),
        reserved_emitted("TO"@, span),
        reserved_emitted("IN"@, span),
        reserved_emitted("FIRST"@, span),
        reserved_emitted("LAST"@, span),
        reserved_emitted("MIDDLE"@, span),
        reserved_emitted("WORDS"@, span),
        reserved_emitted("CONTAINS"@, span),
        reserved_emitted("MATCHES"@, span),
        reserved_emitted("AT"@, span),
        reserved_emitted("LEAST"@, span),
        reserved_emitted("OF"@, span),
        reserved_emitted("ALL"@, span),
{
    assert(reserved_emitted("AND"@, span)) by {
        reveal_strlit("AND");
        lemma_reserved_quoted("AND"@, span);
    }
    assert(reserved_emitted("OR"@, span)) by {
        reveal_strlit("OR");
        lemma_reserved_quoted("OR"@, span);
    }
    assert(reserved_emitted("NOT"@, span)) by {
        reveal_strlit("NOT");
        lemma_reserved_quoted("NOT"@, span);
    }
    assert(reserved_emitted("THEN"@, span)) by {
        reveal_strlit("THEN");
        lemma_reserved_quoted("THEN"@, span);
    }
    assert(reserved_emitted("NEAR"@, span)) by {
        reveal_strlit("NEAR");
        lemma_reserved_quoted("NEAR"@, span);
    }
    assert(reserved_emitted("WITHIN"@, span)) by {
        reveal_strlit("WITHIN");
        lemma_reserved_quoted("WITHIN"@, span);
    }
    assert(reserved_emitted("ENCLOSES"@, span)) by {
        reveal_strlit("ENCLOSES");
        lemma_reserved_quoted("ENCLOSES"@, span);
    }
    assert(reserved_emitted("ENCLOSED"@, span)) by {
        reveal_strlit("ENCLOSED");
        lemma_reserved_quoted("ENCLOSED"@, span);
    }
    assert(reserved_emitted("BY"@, span)) by {
        reveal_strlit("BY");
        lemma_reserved_quoted("BY"@, span);
    }
    assert(reserved_emitted("OVERLAPPING"@, span)) by {
        reveal_strlit("OVERLAPPING");
        lemma_reserved_quoted("OVERLAPPING"@, span);
    }
    assert(reserved_emitted("BEFORE"@, span)) by {
        reveal_strlit("BEFORE");
        lemma_reserved_quoted("BEFORE"@, span);
    }
    assert(reserved_emitted("AFTER"@, span)) by {
        reveal_strlit("AFTER");
        lemma_reserved_quoted("AFTER"@, span);
    }
    assert(reserved_emitted("TO"@, span)) by {
        reveal_strlit("TO");
        lemma_reserved_quoted("TO"@, span);
    }
    assert(reserved_emitted("IN"@, span)) by {
        reveal_strlit("IN");
        lemma_reserved_quoted("IN"@, span);
    }
    assert(reserved_emitted("FIRST"@, span)) by {
        reveal_strlit("FIRST");
        lemma_reserved_quoted("FIRST"@, span);
    }
    assert(reserved_emitted("LAST"@, span)) by {
        reveal_strlit("LAST");
        lemma_reserved_quoted("LAST"@, span);
    }
    assert(reserved_emitted("MIDDLE"@, span)) by {
        reveal_strlit("MIDDLE");
        lemma_reserved_quoted("MIDDLE"@, span);
    }
    assert(reserved_emitted("WORDS"@, span)) by {
        reveal_strlit("WORDS");
        lemma_reserved_quoted("WORDS"@, span);
    }
    assert(reserved_emitted("CONTAINS"@, span)) by {
        reveal_strlit("CONTAINS");
        lemma_reserved_quoted("CONTAINS"@, span);
    }
    assert(reserved_emitted("MATCHES"@, span)) by {
        reveal_strlit("MATCHES");
        lemma_reserved_quoted("MATCHES"@, span);
    }
    assert(reserved_emitted("AT"@, span)) by {
        reveal_strlit("AT");
        lemma_reserved_quoted("AT"@, span);
    }
    assert(reserved_emitted("LEAST"@, span)) by {
        reveal_strlit("LEAST");
        lemma_reserved_quoted("LEAST"@, span);
    }
    assert(reserved_emitted("OF"@, span)) by {
        reveal_strlit("OF");
        lemma_reserved_quoted("OF"@, span);
    }
    assert(reserved_emitted("ALL"@, span)) by {
        reveal_strlit("ALL");
        lemma_reserved_quoted("ALL"@, span);
    }
}

} // verus!
