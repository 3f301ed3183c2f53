//! Canonical query text: explicit operators, the grouping as written.
use vstd::prelude::*;

use crate::ast::{Fuzzy, Node, NodeV, Span, lemma_nodes_view, nodes_view};
use crate::lexer::{
    digits_end, fuzzy_suffix, TokenKindV, TokenV, find_char, is_boundary, is_known_field, lex_from, lex_spec, lex_step, opt_seq, proximity_word,
    scan_word, word_step,
};
use crate::diagnostics::DiagnosticV;
use crate::text::{append_str, append_string, chars_eq_str, chars_of, contains_char, is_digit, is_white_space, decimal, push_char, u32_to_string};

verus! {

/// A backslash before every `\` and `"`.
pub open spec fn escape_quotes(s: Seq<char>) -> Seq<char>
    decreases s.len(),
{
    if s.len() == 0 {
        s
    } else {
        escape_quotes(s.drop_last()) + if s.last() == '\\' || s.last() == '"' {
            seq!['\\', s.last()]
        } else {
            seq![s.last()]
        }
    }
}

/// Characters a bare term writes with a backslash so they read back as part of the term.
pub open spec fn term_special(c: char) -> bool {
    c == ' ' || c == '(' || c == ')' || c == '[' || c == ']' || c == '"' || c == '~' || c == '^' || c == '\\'
}

/// A term's value as it is written back: the kept escapes `\*` / `\?` stay, and every other
/// character that would end or change the term gets a backslash.
pub open spec fn escape_term(v: Seq<char>, k: int) -> Seq<char>
    decreases v.len() - k,
{
    if k < 0 || k >= v.len() {
        Seq::empty()
    } else if v[k] == '\\' && k + 1 < v.len() && (v[k + 1] == '*' || v[k + 1] == '?') {
        seq!['\\', v[k + 1]] + escape_term(v, k + 2)
    } else if term_special(v[k]) {
        seq!['\\', v[k]] + escape_term(v, k + 1)
    } else {
        seq![v[k]] + escape_term(v, k + 1)
    }
}

/// Whether a term's escaped value, written bare, would read back as something else: a sign
/// (`-x`), a single-quoted phrase (`'x … '`), a match-all or an operator keyword (`*`, `AND`,
/// `NEAR/3`), or a field prefix that is stripped (`content:x`).
pub open spec fn reads_as_other(v: Seq<char>) -> bool {
    ||| v.len() > 0 && (v[0] == '+' || v[0] == '-' || v[0] == '\'')
    ||| v == "*"@ || v == "AND"@ || v == "OR"@ || v == "NOT"@
    ||| v.len() >= 4 && (v.take(4) == "NEAR"@ || v.take(4) == "THEN"@)
    ||| v.len() >= 8 && v.take(8) == "content:"@
    ||| v.len() >= 14 && v.take(14) == "content_exact:"@
}

/// A term's value as it is written back: escaped, and behind an ignored `content:` prefix
/// when it would otherwise read as something else.
pub open spec fn term_text(v: Seq<char>) -> Seq<char> {
    if reads_as_other(v) {
        "content:"@ + escape_term(v, 0)
    } else {
        escape_term(v, 0)
    }
}

/// The canonical text of a node.
pub open spec fn format_spec(n: NodeV) -> Seq<char>
    decreases n,
{
    match n {
        NodeV::Term { value, fuzzy, .. } => term_text(value) + match fuzzy {
            Some(f) => "~"@ + (match f.prefix {
                Some(p) => decimal(p as nat) + ":"@,
                None => Seq::empty(),
            }) + decimal(f.distance as nat),
            None => Seq::empty(),
        },
        NodeV::Phrase { text, slop, .. } => "\""@ + escape_quotes(text) + "\""@ + if slop > 0 {
            "~"@ + decimal(slop as nat)
        } else {
            Seq::empty()
        },
        NodeV::All { .. } => "*"@,
        NodeV::Group { child, .. } => "("@ + format_spec(*child) + ")"@,
        NodeV::Not { child, .. } => if *child is Proximity || *child is And || *child is Or {
            "NOT ("@ + format_spec(*child) + ")"@
        } else {
            "NOT "@ + format_spec(*child)
        },
        NodeV::Proximity { left, right, gap, ordered, .. } => (if *left is Proximity {
            "("@ + format_spec(*left) + ")"@
        } else {
            format_spec(*left)
        }) + (if ordered { " THEN/"@ } else { " NEAR/"@ }) + decimal(gap as nat) + " "@ + (if *right is Proximity {
            "("@ + format_spec(*right) + ")"@
        } else {
            format_spec(*right)
        }),
        NodeV::And { children, .. } => format_list(children, " AND "@),
        NodeV::Or { children, .. } => format_list(children, " OR "@),
        NodeV::Boost { factor, child, .. } => format_spec(*child) + "^"@ + factor,
    }
}

/// The canonical texts of `ns` joined by `sep`.
pub open spec fn format_list(ns: Seq<NodeV>, sep: Seq<char>) -> Seq<char>
    decreases ns,
{
    if ns.len() == 0 {
        Seq::empty()
    } else if ns.len() == 1 {
        format_spec(ns[0])
    } else {
        format_list(ns.subrange(0, ns.len() - 1), sep) + sep + format_spec(ns[ns.len() - 1])
    }
}

fn escape_term_exec(value: &String) -> (out: String)
    ensures
        out@ == escape_term(value@, 0),
{
    let cs = chars_of(value);
    let n = cs.len();
    let mut out = String::new();
    let mut k: usize = 0;
    assert(out@ + escape_term(cs@, 0) =~= escape_term(cs@, 0));
    while k < n
        invariant
            n == cs@.len(),
            cs@ == value@,
            k <= n + 1,
            out@ + escape_term(cs@, k as int) == escape_term(cs@, 0),
        decreases n + 1 - k,
    {
        let c = cs[k];
        let ghost before = out@;
        if c == '\\' && k + 1 < n && (cs[k + 1] == '*' || cs[k + 1] == '?') {
            push_char(&mut out, c);
            push_char(&mut out, cs[k + 1]);
            assert(before + escape_term(cs@, k as int) =~= out@ + escape_term(cs@, k + 2));
            k = k + 2;
        } else {
            if c == ' ' || c == '(' || c == ')' || c == '[' || c == ']' || c == '"' || c == '~' || c == '^' || c
                == '\\' {
                push_char(&mut out, '\\');
            }
            push_char(&mut out, c);
            assert(before + escape_term(cs@, k as int) =~= out@ + escape_term(cs@, k + 1));
            k = k + 1;
        }
    }
    assert(out@ + escape_term(cs@, k as int) =~= out@);
    out
}

fn reads_as_other_exec(value: &String) -> (b: bool)
    ensures
        b == reads_as_other(value@),
{
    let v = chars_of(value);
    let n = v.len();
    let first = n > 0 && (v[0] == '+' || v[0] == '-' || v[0] == '\'');
    let word = chars_eq_str(&v, 0, n, "*") || chars_eq_str(&v, 0, n, "AND") || chars_eq_str(&v, 0, n, "OR")
        || chars_eq_str(&v, 0, n, "NOT");
    let prox = n >= 4 && (chars_eq_str(&v, 0, 4, "NEAR") || chars_eq_str(&v, 0, 4, "THEN"));
    let field = (n >= 8 && chars_eq_str(&v, 0, 8, "content:")) || (n >= 14 && chars_eq_str(
        &v,
        0,
        14,
        "content_exact:",
    ));
    proof {
        assert(v@.subrange(0, n as int) =~= v@);
        if n >= 4 {
            assert(v@.subrange(0, 4) =~= v@.take(4));
        }
        if n >= 8 {
            assert(v@.subrange(0, 8) =~= v@.take(8));
        }
        if n >= 14 {
            assert(v@.subrange(0, 14) =~= v@.take(14));
        }
    }
    first || word || prox || field
}

fn term_text_exec(value: &String) -> (out: String)
    ensures
        out@ == term_text(value@),
{
    let escaped = escape_term_exec(value);
    if reads_as_other_exec(value) {
        let mut s = String::new();
        append_str(&mut s, "content:");
        append_string(&mut s, &escaped);
        assert(s@ =~= "content:"@ + escaped@);
        s
    } else {
        escaped
    }
}

fn escape_quotes_exec(text: &String) -> (out: String)
    ensures
        out@ == escape_quotes(text@),
{
    let cs = chars_of(text);
    let mut out = String::new();
    let mut i: usize = 0;
    while i < cs.len()
        invariant
            i <= cs@.len(),
            cs@ == text@,
            out@ == escape_quotes(cs@.take(i as int)),
        decreases cs@.len() - i,
    {
        let c = cs[i];
        assert(cs@.take(i + 1).drop_last() =~= cs@.take(i as int));
        if c == '\\' || c == '"' {
            push_char(&mut out, '\\');
        }
        push_char(&mut out, c);
        assert(out@ =~= escape_quotes(cs@.take(i + 1)));
        i = i + 1;
    }
    assert(cs@.take(cs@.len() as int) =~= cs@);
    out
}

/// Canonical text for a query: explicit operators, the grouping as written. A term value is
/// written with backslash escapes, and behind an ignored `content:` prefix when it would
/// otherwise read as a sign, a quote, `*`, an operator keyword or a field prefix
/// (`term_text`); a boost factor is written as it was typed (`apple^2.0` stays `apple^2.0`).
pub fn format_node(node: &Node) -> (s: String)
    ensures
        s@ == format_spec(node@),
    decreases node@,
{
    match node {
        Node::Term { value, fuzzy, .. } => {
            let mut s = term_text_exec(value);
            if let Some(f) = fuzzy {
                append_str(&mut s, "~");
                if let Some(p) = f.prefix {
                    let ps = u32_to_string(p);
                    append_string(&mut s, &ps);
                    append_str(&mut s, ":");
                }
                let ds = u32_to_string(f.distance);
                append_string(&mut s, &ds);
            }
            assert(s@ =~= format_spec(node@));
            s
        },
        Node::Phrase { text, slop, .. } => {
            let escaped = escape_quotes_exec(text);
            let mut s = String::new();
            append_str(&mut s, "\"");
            append_string(&mut s, &escaped);
            append_str(&mut s, "\"");
            if *slop > 0 {
                append_str(&mut s, "~");
                let d = u32_to_string(*slop);
                append_string(&mut s, &d);
            }
            assert(s@ =~= format_spec(node@));
            s
        },
        Node::All { .. } => String::from_str("*"),
        Node::Group { child, .. } => {
            let inner = format_node(child);
            let mut s = String::new();
            append_str(&mut s, "(");
            append_string(&mut s, &inner);
            append_str(&mut s, ")");
            assert(s@ =~= format_spec(node@));
            s
        },
        Node::Not { child, .. } => {
            let inner = format_node(child);
            let mut s = String::new();
            match &**child {
                Node::Proximity { .. } | Node::And { .. } | Node::Or { .. } => {
                    append_str(&mut s, "NOT (");
                    append_string(&mut s, &inner);
                    append_str(&mut s, ")");
                },
                _ => {
                    append_str(&mut s, "NOT ");
                    append_string(&mut s, &inner);
                },
            }
            assert(s@ =~= format_spec(node@));
            s
        },
        Node::Proximity { left, right, gap, ordered, .. } => {
            let l = format_node(left);
            let r = format_node(right);
            let mut s = String::new();
            if let Node::Proximity { .. } = &**left {
                append_str(&mut s, "(");
                append_string(&mut s, &l);
                append_str(&mut s, ")");
            } else {
                append_string(&mut s, &l);
            }
            if *ordered {
                append_str(&mut s, " THEN/");
            } else {
                append_str(&mut s, " NEAR/");
            }
            let g = u32_to_string(*gap);
            append_string(&mut s, &g);
            append_str(&mut s, " ");
            if let Node::Proximity { .. } = &**right {
                append_str(&mut s, "(");
                append_string(&mut s, &r);
                append_str(&mut s, ")");
            } else {
                append_string(&mut s, &r);
            }
            assert(s@ =~= format_spec(node@));
            s
        },
        Node::And { children, .. } => format_children(node, children, " AND "),
        Node::Or { children, .. } => format_children(node, children, " OR "),
        Node::Boost { factor, child, .. } => {
            let mut s = format_node(child);
            append_str(&mut s, "^");
            append_string(&mut s, factor);
            assert(s@ =~= format_spec(node@));
            s
        },
    }
}

fn format_children(node: &Node, children: &Vec<Node>, sep: &str) -> (s: String)
    requires
        node@ is And && node@->And_children == nodes_view(children@) || node@ is Or
            && node@->Or_children == nodes_view(children@),
    ensures
        s@ == format_list(nodes_view(children@), sep@),
    decreases node@, 0int,
{
    let ghost cv = nodes_view(children@);
    proof {
        lemma_nodes_view(children@);
        assert(cv.take(0) =~= Seq::<NodeV>::empty());
    }
    let mut s = String::new();
    let mut i: usize = 0;
    while i < children.len()
        invariant
            i <= children@.len(),
            cv == nodes_view(children@),
            cv.len() == children@.len(),
            forall|k: int| 0 <= k < children@.len() ==> #[trigger] cv[k] == children@[k]@,
            node@ is And && node@->And_children == cv || node@ is Or && node@->Or_children == cv,
            s@ == format_list(cv.take(i as int), sep@),
        decreases children@.len() - i,
    {
        let ghost t = cv.take(i + 1);
        proof {
            assert(t.subrange(0, t.len() - 1) =~= cv.take(i as int));
            assert(t[t.len() - 1] == children@[i as int]@);
            let nv = node@;
            if nv is And {
                assert(decreases_to!(nv => nv->And_children));
                assert(decreases_to!(nv->And_children => nv->And_children[i as int]));
            } else {
                assert(decreases_to!(nv => nv->Or_children));
                assert(decreases_to!(nv->Or_children => nv->Or_children[i as int]));
            }
        }
        let f = format_node(&children[i]);
        if i > 0 {
            append_str(&mut s, sep);
        }
        append_string(&mut s, &f);
        assert(s@ =~= format_list(t, sep@));
        i = i + 1;
    }
    assert(cv.take(children@.len() as int) =~= cv);
    s
}

} // verus!

verus! {

// ---------------------------------------------------------------------------
// Term values read back.
// ---------------------------------------------------------------------------

/// The values the lexer gives a word: no whitespace but an escaped space.
pub open spec fn word_value(v: Seq<char>) -> bool {
    forall|i: int| 0 <= i < v.len() ==> !is_white_space(#[trigger] v[i]) || v[i] == ' '
}

/// Scanning the escaped value from where it starts reads the whole of it back, stops where
/// it ends (before whatever boundary follows), and finds an escape exactly when the escaped
/// text has a backslash.
proof fn lemma_scan_escaped(x: Seq<char>, v: Seq<char>, j: int, y: Seq<char>)
    requires
        0 <= j <= v.len(),
        word_value(v),
        y.len() == 0 || is_boundary(y[0]),
    ensures
        scan_word(x + escape_term(v, j) + y, x.len() as int).end == x.len() + escape_term(v, j).len(),
        scan_word(x + escape_term(v, j) + y, x.len() as int).text == v.subrange(j, v.len() as int),
        scan_word(x + escape_term(v, j) + y, x.len() as int).escaped == contains_char(escape_term(v, j), '\\'),
    decreases v.len() - j,
{
    let e = escape_term(v, j);
    let cs = x + e + y;
    let k = x.len() as int;
    if j == v.len() {
        assert(e.len() == 0);
        if y.len() > 0 {
            assert(cs[k] == y[0]);
        }
        assert(v.subrange(j, v.len() as int) =~= Seq::<char>::empty());
    } else if v[j] == '\\' && j + 1 < v.len() && (v[j + 1] == '*' || v[j + 1] == '?') {
        let chunk = seq!['\\', v[j + 1]];
        let rest = escape_term(v, j + 2);
        assert(e == chunk + rest);
        lemma_scan_escaped(x + chunk, v, j + 2, y);
        assert((x + chunk) + rest + y =~= cs);
        assert(cs[k] == '\\' && cs[k + 1] == v[j + 1]);
        assert(v.subrange(j, v.len() as int) =~= seq![v[j], v[j + 1]] + v.subrange(j + 2, v.len() as int));
        assert(e[0] == '\\');
    } else if term_special(v[j]) {
        let chunk = seq!['\\', v[j]];
        let rest = escape_term(v, j + 1);
        assert(e == chunk + rest);
        lemma_scan_escaped(x + chunk, v, j + 1, y);
        assert((x + chunk) + rest + y =~= cs);
        assert(cs[k] == '\\' && cs[k + 1] == v[j]);
        assert(v.subrange(j, v.len() as int) =~= seq![v[j]] + v.subrange(j + 1, v.len() as int));
        assert(e[0] == '\\');
    } else {
        let chunk = seq![v[j]];
        let rest = escape_term(v, j + 1);
        assert(e == chunk + rest);
        lemma_scan_escaped(x + chunk, v, j + 1, y);
        assert((x + chunk) + rest + y =~= cs);
        assert(cs[k] == v[j]);
        assert(v.subrange(j, v.len() as int) =~= seq![v[j]] + v.subrange(j + 1, v.len() as int));
        assert(contains_char(e, '\\') == contains_char(rest, '\\')) by {
            if contains_char(e, '\\') {
                let i = choose|i: int| 0 <= i < e.len() && e[i] == '\\';
                assert(rest[i - 1] == e[i]);
            }
            if contains_char(rest, '\\') {
                let i = choose|i: int| 0 <= i < rest.len() && rest[i] == '\\';
                assert(e[i + 1] == rest[i]);
            }
        }
    }
}

/// A prefix of the escaped value without a backslash is the same prefix of the value.
proof fn lemma_escape_prefix(v: Seq<char>, j: int, n: int)
    requires
        0 <= j <= v.len(),
        0 <= n <= escape_term(v, j).len(),
        !contains_char(escape_term(v, j).take(n), '\\'),
    ensures
        j + n <= v.len(),
        escape_term(v, j).take(n) == v.subrange(j, j + n),
    decreases n,
{
    let e = escape_term(v, j);
    if n == 0 {
        assert(e.take(0) =~= v.subrange(j, j));
    } else {
        assert(e.take(n)[0] == e[0]);
        if v[j] == '\\' && j + 1 < v.len() && (v[j + 1] == '*' || v[j + 1] == '?') {
            assert(e[0] == '\\');
        } else if term_special(v[j]) {
            assert(e[0] == '\\');
        } else {
            let rest = escape_term(v, j + 1);
            assert(e == seq![v[j]] + rest);
            assert(!contains_char(rest.take(n - 1), '\\')) by {
                let rt = rest.take(n - 1);
                if contains_char(rt, '\\') {
                    let i = choose|i: int| 0 <= i < rt.len() && rt[i] == '\\';
                    assert(e.take(n)[i + 1] == rt[i]);
                }
            }
            lemma_escape_prefix(v, j + 1, n - 1);
            assert(e.take(n) =~= seq![v[j]] + rest.take(n - 1));
            assert(v.subrange(j, j + n) =~= seq![v[j]] + v.subrange(j + 1, j + n));
        }
    }
}

proof fn lemma_escape_len(v: Seq<char>, j: int)
    requires
        0 <= j <= v.len(),
    ensures
        escape_term(v, j).len() >= v.len() - j,
    decreases v.len() - j,
{
    if j < v.len() {
        if v[j] == '\\' && j + 1 < v.len() && (v[j + 1] == '*' || v[j + 1] == '?') {
            lemma_escape_len(v, j + 2);
        } else {
            lemma_escape_len(v, j + 1);
        }
    }
}

/// Plain characters at the front of a word are read as they are.
pub(crate) proof fn lemma_scan_plain(cs: Seq<char>, k: int, n: int)
    requires
        0 <= k,
        0 <= n,
        k + n <= cs.len(),
        forall|i: int|
            k <= i < k + n ==> !is_boundary(#[trigger] cs[i]) && cs[i] != '\\' && cs[i] != '*' && cs[i] != '?',
    ensures
        scan_word(cs, k).end == scan_word(cs, k + n).end,
        scan_word(cs, k).text == cs.subrange(k, k + n) + scan_word(cs, k + n).text,
        scan_word(cs, k).escaped == scan_word(cs, k + n).escaped,
    decreases n,
{
    if n == 0 {
        assert(cs.subrange(k, k) + scan_word(cs, k).text =~= scan_word(cs, k).text);
    } else {
        lemma_scan_plain(cs, k + 1, n - 1);
        assert(cs.subrange(k, k + n) =~= seq![cs[k]] + cs.subrange(k + 1, k + n));
        assert(!is_boundary(cs[k]));
    }
}

proof fn lemma_find_char(cs: Seq<char>, c: char, k: int, e: int)
    requires
        0 <= k <= e <= cs.len(),
    ensures
        k <= find_char(cs, c, k, e) <= e,
        find_char(cs, c, k, e) < e ==> cs[find_char(cs, c, k, e)] == c,
        forall|i: int| k <= i < find_char(cs, c, k, e) ==> cs[i] != c,
    decreases e - k,
{
    if k < e && cs[k] != c {
        lemma_find_char(cs, c, k + 1, e);
    }
}

pub(crate) proof fn lemma_routes_to_word(cs: Seq<char>)
    requires
        cs.len() > 0,
        !is_white_space(cs[0]),
        cs[0] != '(' && cs[0] != ')' && cs[0] != '[' && cs[0] != ']' && cs[0] != '"',
        cs[0] != '\'' && cs[0] != '^' && cs[0] != '~' && cs[0] != '+' && cs[0] != '-',
    ensures
        lex_step(cs, 0) == word_step(cs, 0),
{
}

proof fn lemma_lex_one_step(cs: Seq<char>)
    requires
        cs.len() > 0,
        lex_step(cs, 0).next == cs.len(),
    ensures
        lex_spec(cs).0 == opt_seq(lex_step(cs, 0).token),
{
    assert(lex_from(cs, cs.len() as int).0 =~= Seq::<TokenV>::empty());
    assert(lex_spec(cs).0 =~= opt_seq(lex_step(cs, 0).token) + lex_from(cs, cs.len() as int).0);
}

/// What a word step gives when the scan reads `v` from the first `e` characters and none of
/// the keyword or field forms applies.
#[verifier::spinoff_prover]
proof fn lemma_plain_word_step(cs: Seq<char>, v: Seq<char>, e: int)
    requires
        0 < e <= cs.len(),
        scan_word(cs, 0).end == e,
        scan_word(cs, 0).text == v,
        scan_word(cs, 0).escaped || (cs.subrange(0, e) != "*"@ && cs.subrange(0, e) != "AND"@ && cs.subrange(0, e)
            != "OR"@ && cs.subrange(0, e) != "NOT"@ && !proximity_word(cs, 0, e, "NEAR"@) && !proximity_word(
            cs,
            0,
            e,
            "THEN"@,
        )),
        !(find_char(cs, ':', 0, e) < e && is_known_field(cs.subrange(0, find_char(cs, ':', 0, e)))),
    ensures
        word_step(cs, 0).next == fuzzy_suffix(cs, e).0,
        word_step(cs, 0).token is Some,
        word_step(cs, 0).token->0.kind == (TokenKindV::Word {
            text: v,
            wildcard: scan_word(cs, 0).wildcard,
            fuzzy: fuzzy_suffix(cs, e).1,
        }),
{
}

/// What a word step gives on `content:` followed by a text the scan reads up to `e`.
#[verifier::spinoff_prover]
proof fn lemma_prefixed_word_step(cs: Seq<char>, v: Seq<char>, e: int)
    requires
        8 < e <= cs.len(),
        cs.subrange(0, 8) == "content:"@,
        scan_word(cs, 0).end == e,
        scan_word(cs, 0).text == "content:"@ + v,
    ensures
        word_step(cs, 0).next == fuzzy_suffix(cs, e).0,
        word_step(cs, 0).token is Some,
        word_step(cs, 0).token->0.kind == (TokenKindV::Word {
            text: v,
            wildcard: scan_word(cs, 0).wildcard,
            fuzzy: fuzzy_suffix(cs, e).1,
        }),
{
    reveal_strlit("content:");
    reveal_strlit("content");
    reveal_strlit("*");
    reveal_strlit("AND");
    reveal_strlit("OR");
    reveal_strlit("NOT");
    reveal_strlit("NEAR");
    reveal_strlit("THEN");
    let raw = cs.subrange(0, e);
    assert(raw[0] == 'c');
    assert(raw.subrange(0, 5)[0] == 'c');
    assert(("NEAR"@ + seq!['/'])[0] == 'N');
    assert(("THEN"@ + seq!['/'])[0] == 'T');
    assert(raw.subrange(0, 5) != "NEAR"@ + seq!['/']);
    assert(raw.subrange(0, 5) != "THEN"@ + seq!['/']);
    assert(raw.take(5) =~= raw.subrange(0, 5));
    assert(raw != "NEAR"@);
    assert(raw != "THEN"@);
    assert(raw != "*"@ && raw != "AND"@ && raw != "OR"@ && raw != "NOT"@);
    lemma_find_char(cs, ':', 0, e);
    assert forall|i: int| 0 <= i < 7 implies cs[i] != ':' by {
        assert(cs[i] == cs.subrange(0, 8)[i]);
    }
    assert(cs[7] == cs.subrange(0, 8)[7]);
    assert(find_char(cs, ':', 0, e) == 7);
    assert(cs.subrange(0, 7) =~= "content"@);
    assert(("content:"@ + v).skip(8) =~= v);
}

/// A prefixed term value followed by `y` (empty or starting at a boundary) is read as one word.
#[verifier::spinoff_prover]
#[verifier::rlimit(60)]
proof fn lemma_prefixed_term(v: Seq<char>, y: Seq<char>)
    requires
        v.len() > 0,
        word_value(v),
        reads_as_other(v),
        y.len() == 0 || is_boundary(y[0]),
    ensures
        lex_step(term_text(v) + y, 0) == word_step(term_text(v) + y, 0),
        word_step(term_text(v) + y, 0).next == fuzzy_suffix(term_text(v) + y, term_text(v).len() as int).0,
        word_step(term_text(v) + y, 0).token is Some,
        word_step(term_text(v) + y, 0).token->0.kind matches TokenKindV::Word { text, fuzzy, .. } && text == v
            && fuzzy == fuzzy_suffix(term_text(v) + y, term_text(v).len() as int).1,
{
    let e = escape_term(v, 0);
    let t = term_text(v);
    let cs = t + y;
    assert(v.subrange(0, v.len() as int) =~= v);
    let x = "content:"@;
    reveal_strlit("content:");
    lemma_scan_escaped(x, v, 0, y);
    assert(t == x + e);
    assert(cs == x + e + y);
    lemma_scan_plain(cs, 0, 8);
    assert(cs.subrange(0, 8) =~= x);
    assert(e.len() > 0) by {
        if e.len() == 0 {
            assert(scan_word(cs, 8).text.len() == 0);
        }
    }
    lemma_prefixed_word_step(cs, v, t.len() as int);
    lemma_routes_to_word(cs);
}

/// A bare term value followed by `y` (empty or starting at a boundary) is read as one word.
#[verifier::spinoff_prover]
#[verifier::rlimit(60)]
proof fn lemma_bare_term(v: Seq<char>, y: Seq<char>)
    requires
        v.len() > 0,
        word_value(v),
        !reads_as_other(v),
        y.len() == 0 || is_boundary(y[0]),
    ensures
        lex_step(term_text(v) + y, 0) == word_step(term_text(v) + y, 0),
        word_step(term_text(v) + y, 0).next == fuzzy_suffix(term_text(v) + y, term_text(v).len() as int).0,
        word_step(term_text(v) + y, 0).token is Some,
        word_step(term_text(v) + y, 0).token->0.kind matches TokenKindV::Word { text, fuzzy, .. } && text == v
            && fuzzy == fuzzy_suffix(term_text(v) + y, term_text(v).len() as int).1,
{
    let e = escape_term(v, 0);
    let t = term_text(v);
    let cs = t + y;
    let n = t.len() as int;
    assert(v.subrange(0, v.len() as int) =~= v);
    lemma_scan_escaped(Seq::empty(), v, 0, y);
    assert(Seq::<char>::empty() + e + y =~= cs);
    assert(t == e);
    assert(cs.subrange(0, n) =~= t);
    let w = scan_word(cs, 0);
    lemma_escape_len(v, 0);
    if !w.escaped {
        assert(e.take(e.len() as int) =~= e);
        lemma_escape_prefix(v, 0, e.len() as int);
        assert(t =~= v);
        reveal_strlit("NEAR");
        reveal_strlit("THEN");
        if t.len() >= 5 && (t.take(5) == "NEAR"@ + seq!['/'] || t.take(5) == "THEN"@ + seq!['/']) {
            assert(v.take(4) =~= t.take(5).take(4));
            assert(("NEAR"@ + seq!['/']).take(4) =~= "NEAR"@);
            assert(("THEN"@ + seq!['/']).take(4) =~= "THEN"@);
        }
        if t == "NEAR"@ || t == "THEN"@ {
            assert(v.take(4) =~= v);
        }
    }
    let colon = find_char(cs, ':', 0, n);
    lemma_find_char(cs, ':', 0, n);
    if colon < n && is_known_field(cs.subrange(0, colon)) {
        reveal_strlit("content:");
        reveal_strlit("content");
        reveal_strlit("content_exact");
        reveal_strlit("content_exact:");
        let f = cs.subrange(0, colon);
        assert(t[colon] == cs[colon]);
        assert(t.take(colon + 1) =~= f + seq![':']);
        assert(!contains_char(t.take(colon + 1), '\\')) by {
            let ct = t.take(colon + 1);
            if contains_char(ct, '\\') {
                let i = choose|i: int| 0 <= i < ct.len() && ct[i] == '\\';
                if i < colon {
                    assert(f[i] == ct[i]);
                }
            }
        }
        lemma_escape_prefix(v, 0, colon + 1);
        if f == "content"@ {
            assert(v.take(8) =~= v.subrange(0, 8));
            assert(v.take(8) =~= "content:"@);
        } else {
            assert(v.take(14) =~= v.subrange(0, 14));
            assert(v.take(14) =~= "content_exact:"@);
        }
        assert(false);
    }
    lemma_plain_word_step(cs, v, n);
    if v[0] == '\\' && 1 < v.len() && (v[1] == '*' || v[1] == '?') {
        assert(cs[0] == '\\');
    } else if term_special(v[0]) {
        assert(cs[0] == '\\');
    } else {
        assert(cs[0] == v[0]);
    }
    lemma_routes_to_word(cs);
}

proof fn lemma_term_then(v: Seq<char>, y: Seq<char>)
    requires
        v.len() > 0,
        word_value(v),
        y.len() == 0 || is_boundary(y[0]),
    ensures
        lex_step(term_text(v) + y, 0).next == fuzzy_suffix(term_text(v) + y, term_text(v).len() as int).0,
        lex_step(term_text(v) + y, 0).token is Some,
        lex_step(term_text(v) + y, 0).token->0.kind matches TokenKindV::Word { text, fuzzy, .. } && text == v
            && fuzzy == fuzzy_suffix(term_text(v) + y, term_text(v).len() as int).1,
{
    if reads_as_other(v) {
        lemma_prefixed_term(v, y);
    } else {
        lemma_bare_term(v, y);
    }
}

/// A term value written back by `format` reads back as exactly one word with that value:
/// the escapes and the `content:` prefix that `term_text` adds are undone by the lexer.
pub proof fn law_term_reads_back(v: Seq<char>)
    requires
        v.len() > 0,
        word_value(v),
    ensures
        lex_spec(term_text(v)).0.len() == 1,
        lex_spec(term_text(v)).0[0].kind matches TokenKindV::Word { text, fuzzy, .. } && text == v
            && fuzzy is None,
{
    let t = term_text(v);
    assert(t + Seq::<char>::empty() =~= t);
    lemma_term_then(v, Seq::empty());
    lemma_lex_one_step(t);
}

proof fn lemma_digits_end(cs: Seq<char>, k: int, m: int)
    requires
        0 <= k,
        0 <= m,
        k + m <= cs.len(),
        forall|i: int| k <= i < k + m ==> is_digit(#[trigger] cs[i]),
        k + m == cs.len() || !is_digit(cs[k + m]),
    ensures
        digits_end(cs, k) == k + m,
    decreases m,
{
    if m > 0 {
        lemma_digits_end(cs, k + 1, m - 1);
    }
}

/// The fuzzy suffix `format` writes after a term.
pub open spec fn fuzzy_written(f: Fuzzy) -> Seq<char> {
    "~"@ + (match f.prefix {
        Some(p) => decimal(p as nat) + ":"@,
        None => Seq::empty(),
    }) + decimal(f.distance as nat)
}

/// A fuzzy term written back by `format` reads back as one word with the same value, the same
/// distance and the same prefix.
pub proof fn law_fuzzy_term_reads_back(v: Seq<char>, wildcard: bool, f: Fuzzy, span: Span)
    requires
        v.len() > 0,
        word_value(v),
    ensures
        lex_spec(format_spec(NodeV::Term { value: v, wildcard, fuzzy: Some(f), span })).0.len() == 1,
        lex_spec(format_spec(NodeV::Term { value: v, wildcard, fuzzy: Some(f), span })).0[0].kind matches
            TokenKindV::Word { text, fuzzy, .. } && text == v && fuzzy == Some(f),
{
    let t = term_text(v);
    let cs = format_spec(NodeV::Term { value: v, wildcard, fuzzy: Some(f), span });
    reveal_strlit("~");
    reveal_strlit(":");
    let dd = decimal(f.distance as nat);
    crate::text::lemma_decimal_digits(f.distance as nat);
    let y = fuzzy_written(f);
    assert(cs =~= t + y);
    assert(y[0] == '~');
    lemma_term_then(v, y);
    let n = t.len() as int;
    assert(cs[n] == '~');
    match f.prefix {
        Some(p) => {
            let pd = decimal(p as nat);
            crate::text::lemma_decimal_digits(p as nat);
            assert(y =~= seq!['~'] + pd + seq![':'] + dd);
            assert forall|i: int| n + 1 <= i < n + 1 + pd.len() implies is_digit(#[trigger] cs[i]) by {
                assert(cs[i] == pd[i - n - 1]);
            }
            let e1 = n + 1 + pd.len();
            assert(cs[e1] == ':');
            lemma_digits_end(cs, n + 1, pd.len() as int);
            assert forall|i: int| e1 + 1 <= i < e1 + 1 + dd.len() implies is_digit(#[trigger] cs[i]) by {
                assert(cs[i] == dd[i - e1 - 1]);
            }
            assert(e1 + 1 + dd.len() == cs.len());
            lemma_digits_end(cs, e1 + 1, dd.len() as int);
            assert(cs.subrange(n + 1, e1) =~= pd);
            assert(cs.subrange(e1 + 1, cs.len() as int) =~= dd);
        },
        None => {
            assert(y =~= seq!['~'] + dd);
            assert forall|i: int| n + 1 <= i < n + 1 + dd.len() implies is_digit(#[trigger] cs[i]) by {
                assert(cs[i] == dd[i - n - 1]);
            }
            assert(n + 1 + dd.len() == cs.len());
            lemma_digits_end(cs, n + 1, dd.len() as int);
            assert(cs.subrange(n + 1, cs.len() as int) =~= dd);
        },
    }
    assert(fuzzy_suffix(cs, n) == (cs.len() as int, Some(f), Seq::<DiagnosticV>::empty()));
    lemma_lex_one_step(cs);
}

} // verus!
