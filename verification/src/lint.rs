//! Rules on a parsed query: unsupported or unsearchable terms, risky wildcards,
//! ambiguous AND/OR mixes, modifiers that do nothing.
use vstd::prelude::*;

use crate::ast::{
    children_spec,
    Fuzzy, Node, NodeV, Span, is_negation_spec, lemma_nodes_view, node_span, nodes_view, span_hull, unwrapped_spec,
};
use crate::diagnostics::{
    has_error,
    Diagnostic, DiagnosticList, DiagnosticSeverity, DiagnosticV, char_index_in, clamp_index, coded, range_in,
    range_spec, span_range, span_range_in, with_fix,
};
use crate::text::{
    SourceText, all_digits, append_str, append_string, boff, chars_eq_str, chars_of, decimal, is_ascii_alnum,
    digits_in, is_white_space, is_whitespace, str_chars, string_of, string_of_all, u32_to_string,
};
use crate::tinql::{is_tin_keyword, needs_quoting, needs_quoting_spec, tin_keyword};

verus! {

pub struct LintOptions {
    pub max_slop: u32,
    pub max_fuzzy_distance: u32,
}

impl Default for LintOptions {
    fn default() -> (o: Self)
        ensures
            o.max_slop == 20,
            o.max_fuzzy_distance == 2,
    {
        Self { max_slop: 20, max_fuzzy_distance: 2 }
    }
}

// ---------------------------------------------------------------------------
// The rules, as functions of the source and the tree.
// ---------------------------------------------------------------------------

/// A character the tokenizer keeps: an ASCII letter or digit, or any non-ASCII character.
pub open spec fn searchable_char(c: char) -> bool {
    is_ascii_alnum(c) || (c as u32) > 0x7F
}

/// True when the tokenizer would keep at least one token: any letter, digit,
/// or non-ASCII character (emoji and other scripts are searchable terms).
pub open spec fn searchable(s: Seq<char>) -> bool {
    exists|i: int| 0 <= i < s.len() && searchable_char(#[trigger] s[i])
}

pub open spec fn all_white(s: Seq<char>) -> bool {
    forall|i: int| 0 <= i < s.len() ==> is_white_space(#[trigger] s[i])
}

/// The characters within bytes `a..b` of the source (offsets moved back to character boundaries).
pub open spec fn byte_slice(cs: Seq<char>, a: int, b: int) -> Seq<char> {
    let i = clamp_index(cs, a, 0);
    let j = clamp_index(cs, b, 0);
    if i <= j {
        cs.subrange(i, j)
    } else {
        Seq::empty()
    }
}

pub open spec fn span_text(cs: Seq<char>, span: Span) -> Seq<char> {
    byte_slice(cs, span.start as int, span.end as int)
}

pub open spec fn node_error(cs: Seq<char>, code: Seq<char>, msg: Seq<char>, n: NodeV) -> DiagnosticV {
    coded(DiagnosticSeverity::Error, code, msg, span_range(cs, node_span(n)))
}

pub open spec fn node_warning(cs: Seq<char>, code: Seq<char>, msg: Seq<char>, n: NodeV) -> DiagnosticV {
    coded(DiagnosticSeverity::Warning, code, msg, span_range(cs, node_span(n)))
}

pub open spec fn unsearchable_diag(cs: Seq<char>, n: NodeV, text: Seq<char>) -> DiagnosticV {
    node_error(
        cs,
        "unsearchable-term"@,
        "\""@ + text + "\" contains no letters or digits, so it can never match a post"@,
        n,
    )
}

pub open spec fn ascii_upper(c: char) -> char {
    if 'a' <= c <= 'z' {
        ((c as u32) - 32) as char
    } else {
        c
    }
}

pub open spec fn upper(s: Seq<char>) -> Seq<char> {
    s.map_values(|c: char| ascii_upper(c))
}

/// An operator keyword, `NEAR/N` or `THEN/N`.
pub open spec fn is_operator_word(u: Seq<char>) -> bool {
    ||| u == "AND"@
    ||| u == "OR"@
    ||| u == "NOT"@
    ||| u.len() > 5 && (u.take(5) == "NEAR/"@ || u.take(5) == "THEN/"@) && all_digits(u.skip(5))
}

/// `and`, `Or`, `near/3` … : a word that only differs from an operator by case, and that operator.
pub open spec fn lowercase_operator_spec(v: Seq<char>) -> Option<Seq<char>> {
    let u = upper(v);
    if u == v {
        None
    } else if is_operator_word(u) {
        Some(u)
    } else {
        None
    }
}

/// What a wildcard term's characters amount to.
pub struct WildScan {
    /// literal characters (an escaped character counts once)
    pub total: nat,
    /// literal characters before the first wildcard
    pub prefix: nat,
    /// whether the first wildcard is `*` (none when there is no wildcard)
    pub first_star: Option<bool>,
}

pub open spec fn wild_scan(v: Seq<char>, k: int) -> WildScan
    decreases v.len() + 1 - k,
{
    if k < 0 || k >= v.len() {
        WildScan { total: 0, prefix: 0, first_star: None }
    } else if v[k] == '\\' {
        let r = wild_scan(v, k + 2);
        WildScan { total: r.total + 1, prefix: r.prefix + 1, first_star: r.first_star }
    } else if v[k] == '*' || v[k] == '?' {
        let r = wild_scan(v, k + 1);
        WildScan { total: r.total, prefix: 0, first_star: Some(v[k] == '*') }
    } else {
        let r = wild_scan(v, k + 1);
        WildScan { total: r.total + 1, prefix: r.prefix + 1, first_star: r.first_star }
    }
}

pub open spec fn wildcard_diags(cs: Seq<char>, n: NodeV, value: Seq<char>, fuzzy: bool) -> Seq<DiagnosticV> {
    let d0 = if fuzzy {
        seq![node_error(cs, "invalid-fuzzy"@, "A term cannot be both a wildcard and a fuzzy match"@, n)]
    } else {
        Seq::empty()
    };
    if needs_quoting_spec(value) {
        d0 + seq![
            node_error(
                cs,
                "invalid-wildcard"@,
                "Wildcard terms cannot contain spaces or the characters ( ) [ ] \" ~ ^ \\"@,
                n,
            ),
        ]
    } else {
        let w = wild_scan(value, 0);
        d0 + if w.total == 0 {
            seq![
                node_error(
                    cs,
                    "empty-wildcard"@,
                    "A wildcard needs at least one literal character, for example appl*"@,
                    n,
                ),
            ]
        } else if !searchable(value) {
            seq![unsearchable_diag(cs, n, value)]
        } else if w.prefix == 0 {
            seq![
                node_warning(
                    cs,
                    "leading-wildcard"@,
                    "A leading wildcard has to scan every indexed word and can be slow"@,
                    n,
                ),
            ]
        } else if w.prefix < 2 && w.first_star == Some(true) {
            seq![
                node_warning(
                    cs,
                    "short-wildcard"@,
                    "A one-character prefix before a wildcard matches a very large number of words"@,
                    n,
                ),
            ]
        } else {
            Seq::empty()
        }
    }
}

pub open spec fn term_diags(cs: Seq<char>, o: LintOptions, n: NodeV) -> Seq<DiagnosticV> {
    match n {
        NodeV::Term { value, wildcard, fuzzy, span } => if wildcard {
            wildcard_diags(cs, n, value, fuzzy is Some)
        } else if !searchable(value) {
            seq![unsearchable_diag(cs, n, value)]
        } else {
            let d1 = match fuzzy {
                Some(f) => (if needs_quoting_spec(value) {
                    seq![node_error(cs, "invalid-fuzzy"@, "Fuzzy matching only works on a single plain word"@, n)]
                } else {
                    Seq::empty()
                }) + if f.distance > o.max_fuzzy_distance {
                    seq![
                        node_error(
                            cs,
                            "fuzzy-too-large"@,
                            "Fuzzy distance ~"@ + decimal(f.distance as nat) + " exceeds the maximum of "@
                                + decimal(o.max_fuzzy_distance as nat),
                            n,
                        ),
                    ]
                } else {
                    Seq::empty()
                },
                None => Seq::empty(),
            };
            let d2 = match lowercase_operator_spec(value) {
                Some(op) => seq![
                    with_fix(
                        coded(
                            DiagnosticSeverity::Hint,
                            "lowercase-operator"@,
                            value + " is searched as a word; write "@ + op + " to use it as an operator"@,
                            span_range(cs, span),
                        ),
                        "Change to "@ + op,
                        span_range(cs, span),
                        op,
                    ),
                ],
                None => Seq::empty(),
            };
            let d3 = if tin_keyword(value) {
                seq![
                    coded(
                        DiagnosticSeverity::Info,
                        "literal-keyword"@,
                        value + " is searched as a literal word"@,
                        span_range(cs, span),
                    ),
                ]
            } else {
                Seq::empty()
            };
            d1 + d2 + d3
        },
        _ => Seq::empty(),
    }
}

/// Number of whitespace-separated words.
pub open spec fn word_count(s: Seq<char>) -> nat
    decreases s.len(),
{
    if s.len() == 0 {
        0
    } else {
        word_count(s.drop_last()) + if !is_white_space(s.last()) && (s.len() == 1 || is_white_space(
            s[s.len() - 2],
        )) {
            1nat
        } else {
            0nat
        }
    }
}

/// Index of the last `c` in `cs[i..j]`, or -1.
pub open spec fn last_index(cs: Seq<char>, c: char, i: int, j: int) -> int
    decreases j - i,
{
    if j <= i {
        -1
    } else if cs[j - 1] == c {
        j - 1
    } else {
        last_index(cs, c, i, j - 1)
    }
}

/// The range a "remove `~N`" fix deletes: from the last `~` in the phrase's text, else the whole phrase.
pub open spec fn slop_suffix(cs: Seq<char>, span: Span) -> crate::diagnostics::Range {
    let i = clamp_index(cs, span.start as int, 0);
    let j = clamp_index(cs, span.end as int, 0);
    let k = last_index(cs, '~', i, j);
    if k >= 0 {
        range_spec(cs, boff(cs, k) as int, span.end as int)
    } else {
        span_range(cs, span)
    }
}

pub open spec fn phrase_diags(cs: Seq<char>, o: LintOptions, n: NodeV) -> Seq<DiagnosticV> {
    match n {
        NodeV::Phrase { text, slop, span } => if all_white(text) {
            seq![node_error(cs, "empty-phrase"@, "Empty phrase"@, n)]
        } else if !searchable(text) {
            seq![unsearchable_diag(cs, n, text)]
        } else {
            (if slop > 0 && word_count(text) == 1 {
                seq![
                    with_fix(
                        coded(
                            DiagnosticSeverity::Warning,
                            "slop-no-effect"@,
                            "Proximity ~"@ + decimal(slop as nat) + " has no effect on a single-word phrase"@,
                            span_range(cs, span),
                        ),
                        "Remove ~"@ + decimal(slop as nat),
                        slop_suffix(cs, span),
                        Seq::empty(),
                    ),
                ]
            } else {
                Seq::empty()
            }) + (if slop > o.max_slop {
                seq![
                    node_error(
                        cs,
                        "slop-too-large"@,
                        "Proximity distance ~"@ + decimal(slop as nat) + " exceeds the maximum of "@
                            + decimal(o.max_slop as nat),
                        n,
                    ),
                ]
            } else {
                Seq::empty()
            }) + if crate::text::contains_char(text, '*') || crate::text::contains_char(text, '?') {
                seq![
                    node_warning(
                        cs,
                        "wildcard-in-phrase"@,
                        "* and ? inside quotes are matched literally, not as wildcards"@,
                        n,
                    ),
                ]
            } else {
                Seq::empty()
            }
        },
        _ => Seq::empty(),
    }
}

/// Whether the gap between `parts[i]` and `parts[i + 1]` is only whitespace and the
/// second is not a negation: an operator was most likely dropped there.
pub open spec fn missing_operator_at(cs: Seq<char>, parts: Seq<NodeV>, i: int) -> bool {
    &&& all_white(byte_slice(cs, node_span(parts[i]).end as int, node_span(parts[i + 1]).start as int))
    &&& !is_negation_spec(parts[i + 1])
}

/// The first `i >= k` where an operator is missing between `parts[i]` and `parts[i + 1]`, or -1.
pub open spec fn first_missing_operator(cs: Seq<char>, parts: Seq<NodeV>, k: int) -> int
    decreases parts.len() - k,
{
    if k < 0 || k + 1 >= parts.len() {
        -1
    } else if missing_operator_at(cs, parts, k) {
        k
    } else {
        first_missing_operator(cs, parts, k + 1)
    }
}

/// An AND directly under an OR relies on precedence: point at a dropped operator
/// when there is one, else ask for parentheses around the whole AND.
pub open spec fn mixed_diag(cs: Seq<char>, and_span: Span, parts: Seq<NodeV>) -> DiagnosticV {
    let i = first_missing_operator(cs, parts, 0);
    if i >= 0 {
        coded(
            DiagnosticSeverity::Error,
            "mixed-and-or"@,
            "Missing operator between "@ + span_text(cs, node_span(parts[i])) + " and "@ + span_text(
                cs,
                node_span(parts[i + 1]),
            ) + ": a space means AND, which is ambiguous inside an OR list; write OR or AND explicitly"@,
            span_range(cs, span_hull(node_span(parts[i]), node_span(parts[i + 1]))),
        )
    } else {
        coded(
            DiagnosticSeverity::Error,
            "mixed-and-or"@,
            "Mixing AND (or NOT) with OR at the same level relies on operator precedence; add parentheses to make the grouping explicit"@,
            span_range(cs, and_span),
        )
    }
}

/// The mixed-AND/OR errors of an OR's children.
pub open spec fn or_diags(cs: Seq<char>, children: Seq<NodeV>) -> Seq<DiagnosticV>
    decreases children.len(),
{
    if children.len() == 0 {
        Seq::empty()
    } else {
        or_diags(cs, children.drop_last()) + match children.last() {
            NodeV::And { children: parts, span } => seq![mixed_diag(cs, span, parts)],
            _ => Seq::empty(),
        }
    }
}

pub open spec fn negation_in_proximity(cs: Seq<char>, operand: NodeV) -> Seq<DiagnosticV> {
    if unwrapped_spec(operand) is Not {
        seq![
            node_error(
                cs,
                "negation-in-proximity"@,
                "NOT cannot be used inside NEAR/THEN; exclude the term with AND NOT outside the proximity expression"@,
                operand,
            ),
        ]
    } else {
        Seq::empty()
    }
}

/// The diagnostics of a tree: each node's own, then its children's, left to right.
pub open spec fn lint_node(cs: Seq<char>, o: LintOptions, n: NodeV) -> Seq<DiagnosticV>
    decreases n, 0int,
{
    match n {
        NodeV::Term { .. } => term_diags(cs, o, n),
        NodeV::Phrase { .. } => phrase_diags(cs, o, n),
        NodeV::All { .. } => seq![
            node_error(cs, "match-all"@, "Match-all (*) is not supported; add a search term"@, n),
        ],
        NodeV::Group { child, .. } => lint_node(cs, o, *child),
        NodeV::Not { child, .. } => lint_node(cs, o, *child),
        NodeV::Boost { child, .. } => lint_node(cs, o, *child),
        NodeV::Proximity { left, right, .. } => negation_in_proximity(cs, *left) + negation_in_proximity(
            cs,
            *right,
        ) + lint_node(cs, o, *left) + lint_node(cs, o, *right),
        NodeV::And { children, .. } => lint_nodes(cs, o, children),
        NodeV::Or { children, .. } => or_diags(cs, children) + lint_nodes(cs, o, children),
    }
}

pub open spec fn lint_nodes(cs: Seq<char>, o: LintOptions, s: Seq<NodeV>) -> Seq<DiagnosticV>
    decreases s, 1int,
{
    if s.len() == 0 {
        Seq::empty()
    } else {
        lint_node(cs, o, s[0]) + lint_nodes(cs, o, s.subrange(1, s.len() as int))
    }
}

} // verus!

verus! {

// ---------------------------------------------------------------------------
// Character scans.
// ---------------------------------------------------------------------------

fn is_searchable_char(c: char) -> (b: bool)
    ensures
        b == searchable_char(c),
{
    ('0' <= c && c <= '9') || ('a' <= c && c <= 'z') || ('A' <= c && c <= 'Z') || (c as u32) > 0x7F
}

/// Whether `cs[from..to]` holds a searchable character.
fn searchable_in(cs: &Vec<char>, from: usize, to: usize) -> (b: bool)
    requires
        from <= to <= cs@.len(),
    ensures
        b == searchable(cs@.subrange(from as int, to as int)),
{
    let ghost sub = cs@.subrange(from as int, to as int);
    let mut i = from;
    while i < to
        invariant
            from <= i <= to <= cs@.len(),
            sub == cs@.subrange(from as int, to as int),
            forall|k: int| from <= k < i ==> !searchable_char(#[trigger] cs@[k]),
        decreases to - i,
    {
        if is_searchable_char(cs[i]) {
            assert(sub[i - from] == cs@[i as int]);
            return true;
        }
        i = i + 1;
    }
    assert forall|k: int| 0 <= k < sub.len() implies !searchable_char(#[trigger] sub[k]) by {
        assert(sub[k] == cs@[from + k]);
    }
    false
}

/// True when the tokenizer would keep at least one token: any letter, digit,
/// or non-ASCII character (emoji and other scripts are searchable terms).
pub fn is_searchable(text: &str) -> (b: bool)
    ensures
        b == searchable(text@),
{
    let (cs, _n) = str_chars(text);
    proof {
        assert(cs@.subrange(0, cs@.len() as int) =~= cs@);
    }
    searchable_in(&cs, 0, cs.len())
}

/// Whether `cs[from..to]` is all whitespace.
fn white_in(cs: &Vec<char>, from: usize, to: usize) -> (b: bool)
    requires
        from <= to <= cs@.len(),
    ensures
        b == all_white(cs@.subrange(from as int, to as int)),
{
    let ghost sub = cs@.subrange(from as int, to as int);
    let mut i = from;
    while i < to
        invariant
            from <= i <= to <= cs@.len(),
            sub == cs@.subrange(from as int, to as int),
            forall|k: int| from <= k < i ==> is_white_space(#[trigger] cs@[k]),
        decreases to - i,
    {
        if !is_whitespace(cs[i]) {
            assert(sub[i - from] == cs@[i as int]);
            return false;
        }
        i = i + 1;
    }
    assert forall|k: int| 0 <= k < sub.len() implies is_white_space(#[trigger] sub[k]) by {
        assert(sub[k] == cs@[from + k]);
    }
    true
}

/// Whether `c` occurs in `cs`.
fn contains(cs: &Vec<char>, c: char) -> (b: bool)
    ensures
        b == crate::text::contains_char(cs@, c),
{
    let mut i: usize = 0;
    while i < cs.len()
        invariant
            i <= cs@.len(),
            forall|k: int| 0 <= k < i ==> cs@[k] != c,
        decreases cs@.len() - i,
    {
        if cs[i] == c {
            return true;
        }
        i = i + 1;
    }
    false
}

/// The source text between two byte offsets.
fn text_between(src: &SourceText, a: usize, b: usize) -> (s: String)
    requires
        src.wf(),
    ensures
        s@ == byte_slice(src.chars@, a as int, b as int),
{
    let (i, _bi) = char_index_in(src, a);
    let (j, _bj) = char_index_in(src, b);
    if i <= j {
        string_of(&src.chars, i, j)
    } else {
        String::new()
    }
}

/// Whether the source text between two byte offsets is all whitespace.
fn white_between(src: &SourceText, a: usize, b: usize) -> (w: bool)
    requires
        src.wf(),
    ensures
        w == all_white(byte_slice(src.chars@, a as int, b as int)),
{
    let (i, _bi) = char_index_in(src, a);
    let (j, _bj) = char_index_in(src, b);
    if i <= j {
        white_in(&src.chars, i, j)
    } else {
        true
    }
}

/// Whether two character vectors are equal.
fn chars_equal(a: &Vec<char>, b: &Vec<char>) -> (r: bool)
    ensures
        r == (a@ == b@),
{
    if a.len() != b.len() {
        return false;
    }
    let mut i: usize = 0;
    while i < a.len()
        invariant
            a@.len() == b@.len(),
            i <= a@.len(),
            forall|k: int| 0 <= k < i ==> a@[k] == b@[k],
        decreases a@.len() - i,
    {
        if a[i] != b[i] {
            return false;
        }
        i = i + 1;
    }
    assert(a@ =~= b@);
    true
}

fn upper_char(c: char) -> (u: char)
    ensures
        u == ascii_upper(c),
{
    if 'a' <= c && c <= 'z' {
        ((c as u32 - 32) as u8) as char
    } else {
        c
    }
}

/// `and`, `Or`, `near/3` … : a word that only differs from an operator by case, and that operator.
fn lowercase_operator(value: &String) -> (r: Option<String>)
    ensures
        match r {
            Some(s) => lowercase_operator_spec(value@) == Some(s@),
            None => lowercase_operator_spec(value@) is None,
        },
{
    let v = chars_of(value);
    let n = v.len();
    let mut u: Vec<char> = Vec::new();
    let mut i: usize = 0;
    while i < n
        invariant
            n == v@.len(),
            v@ == value@,
            i <= n,
            u@.len() == i,
            forall|k: int| 0 <= k < i ==> #[trigger] u@[k] == ascii_upper(v@[k]),
        decreases n - i,
    {
        u.push(upper_char(v[i]));
        i = i + 1;
    }
    let same = chars_equal(&u, &v);
    let ghost up = upper(v@);
    assert(u@ =~= up);
    if same {
        return None;
    }
    assert(up != v@) by {
        if up == v@ {
            assert(u@ =~= v@);
        }
    }
    let is_op = chars_eq_str(&u, 0, n, "AND") || chars_eq_str(&u, 0, n, "OR") || chars_eq_str(&u, 0, n, "NOT")
        || (n > 5 && (chars_eq_str(&u, 0, 5, "NEAR/") || chars_eq_str(&u, 0, 5, "THEN/")) && digits_in(&u, 5, n));
    proof {
        assert(u@.subrange(0, n as int) =~= u@);
        if n > 5 {
            assert(u@.subrange(0, 5) =~= u@.take(5));
            assert(u@.subrange(5, n as int) =~= u@.skip(5));
        }
    }
    if is_op {
        Some(string_of_all(&u))
    } else {
        None
    }
}

/// The literal and wildcard counts of a wildcard term, as `wild_scan` defines them.
fn scan_wildcards(v: &Vec<char>) -> (r: (usize, usize, Option<bool>))
    ensures
        r.0 == wild_scan(v@, 0).total,
        r.1 == wild_scan(v@, 0).prefix,
        r.2 == wild_scan(v@, 0).first_star,
{
    let n = v.len();
    let mut k: usize = 0;
    let mut total: usize = 0;
    let mut prefix: usize = 0;
    let mut first: Option<bool> = None;
    while k < n
        invariant
            n == v@.len(),
            k <= n,
            total <= k,
            prefix <= k,
            wild_scan(v@, 0).total == total + wild_scan(v@, k as int).total,
            first is None ==> wild_scan(v@, 0).prefix == prefix + wild_scan(v@, k as int).prefix
                && wild_scan(v@, 0).first_star == wild_scan(v@, k as int).first_star,
            first is Some ==> wild_scan(v@, 0).prefix == prefix && wild_scan(v@, 0).first_star == first,
        decreases n - k,
    {
        let c = v[k];
        let ghost k0 = k as int;
        if c == '\\' {
            let ghost r = wild_scan(v@, k0 + 2);
            assert(wild_scan(v@, k0) == (WildScan { total: r.total + 1, prefix: r.prefix + 1, first_star: r.first_star }));
            total = total + 1;
            if first.is_none() {
                prefix = prefix + 1;
            }
            k = k + 1;
            if k < n {
                k = k + 1;
            }
            assert(wild_scan(v@, k as int) == r);
        } else if c == '*' || c == '?' {
            assert(wild_scan(v@, k0).total == wild_scan(v@, k0 + 1).total);
            assert(wild_scan(v@, k0).prefix == 0);
            assert(wild_scan(v@, k0).first_star == Some(c == '*'));
            if first.is_none() {
                first = Some(c == '*');
            }
            k = k + 1;
        } else {
            let ghost r = wild_scan(v@, k0 + 1);
            assert(wild_scan(v@, k0) == (WildScan { total: r.total + 1, prefix: r.prefix + 1, first_star: r.first_star }));
            total = total + 1;
            if first.is_none() {
                prefix = prefix + 1;
            }
            k = k + 1;
        }
    }
    (total, prefix, first)
}

/// The number of whitespace-separated words of `cs`.
fn count_words(cs: &Vec<char>) -> (n: usize)
    ensures
        n == word_count(cs@),
{
    let len = cs.len();
    let mut n: usize = 0;
    let mut i: usize = 0;
    proof {
        assert(cs@.take(0) =~= Seq::<char>::empty());
    }
    while i < len
        invariant
            len == cs@.len(),
            i <= len,
            n <= i,
            n == word_count(cs@.take(i as int)),
        decreases len - i,
    {
        proof {
            assert(cs@.take(i + 1).drop_last() =~= cs@.take(i as int));
        }
        if !is_whitespace(cs[i]) && (i == 0 || is_whitespace(cs[i - 1])) {
            n = n + 1;
        }
        i = i + 1;
    }
    assert(cs@.take(len as int) =~= cs@);
    n
}

proof fn lemma_last_index(cs: Seq<char>, c: char, i: int, j: int)
    ensures
        last_index(cs, c, i, j) == -1 || i <= last_index(cs, c, i, j) < j,
    decreases j - i,
{
    if j > i && cs[j - 1] != c {
        lemma_last_index(cs, c, i, j - 1);
    }
}

/// The index of the last `c` in `cs[i..j]`.
fn find_last(cs: &Vec<char>, c: char, i: usize, j: usize) -> (r: Option<usize>)
    requires
        j <= cs@.len(),
    ensures
        match r {
            Some(k) => last_index(cs@, c, i as int, j as int) == k,
            None => last_index(cs@, c, i as int, j as int) == -1,
        },
{
    if j <= i {
        return None;
    }
    let mut m = j;
    while m > i
        invariant
            i <= m <= j <= cs@.len(),
            last_index(cs@, c, i as int, j as int) == last_index(cs@, c, i as int, m as int),
        decreases m,
    {
        if cs[m - 1] == c {
            return Some(m - 1);
        }
        m = m - 1;
    }
    None
}

proof fn lemma_lint_nodes_push(cs: Seq<char>, o: LintOptions, s: Seq<NodeV>, x: NodeV)
    ensures
        lint_nodes(cs, o, s.push(x)) == lint_nodes(cs, o, s) + lint_node(cs, o, x),
    decreases s.len(),
{
    if s.len() == 0 {
        assert(s.push(x).subrange(1, 1) =~= Seq::<NodeV>::empty());
        assert(lint_nodes(cs, o, Seq::<NodeV>::empty()) == Seq::<DiagnosticV>::empty());
        assert(lint_nodes(cs, o, s) == Seq::<DiagnosticV>::empty());
        assert(s.push(x)[0] == x);
        assert(lint_nodes(cs, o, s.push(x)) =~= lint_node(cs, o, x));
    } else {
        let t = s.subrange(1, s.len() as int);
        lemma_lint_nodes_push(cs, o, t, x);
        assert(s.push(x).subrange(1, s.len() + 1 as int) =~= t.push(x));
        assert(lint_nodes(cs, o, s.push(x)) =~= lint_nodes(cs, o, s) + lint_node(cs, o, x));
    }
}

/// The first pair of neighbouring parts with only whitespace between them, the second
/// not a negation: where an operator was most likely dropped.
fn find_missing_operator(src: &SourceText, parts: &Vec<Node>) -> (r: Option<usize>)
    requires
        src.wf(),
    ensures
        match r {
            Some(i) => first_missing_operator(src.chars@, nodes_view(parts@), 0) == i && i + 1 < parts@.len(),
            None => first_missing_operator(src.chars@, nodes_view(parts@), 0) == -1,
        },
{
    let ghost cs = src.chars@;
    let ghost ps = nodes_view(parts@);
    proof {
        lemma_nodes_view(parts@);
    }
    let n = parts.len();
    if n == 0 {
        return None;
    }
    let mut i: usize = 0;
    while i < n - 1
        invariant
            src.wf(),
            cs == src.chars@,
            n == parts@.len(),
            n > 0,
            i <= n - 1,
            ps.len() == n,
            forall|k: int| 0 <= k < n ==> #[trigger] ps[k] == parts@[k]@,
            ps == nodes_view(parts@),
            first_missing_operator(cs, ps, 0) == first_missing_operator(cs, ps, i as int),
        decreases n - 1 - i,
    {
        let a = parts[i].span();
        let b = parts[i + 1].span();
        if white_between(src, a.end, b.start) && !parts[i + 1].is_negation() {
            assert(missing_operator_at(cs, ps, i as int));
            assert(first_missing_operator(cs, ps, i as int) == i as int);
            return Some(i);
        }
        i = i + 1;
    }
    None
}

// ---------------------------------------------------------------------------
// The linter.
// ---------------------------------------------------------------------------

struct Linter<'a> {
    options: &'a LintOptions,
    diagnostics: DiagnosticList,
}

/// Lint a parsed query against its source text.
pub fn lint(source: &str, ast: &Node, options: &LintOptions) -> (l: DiagnosticList)
    ensures
        l@ == lint_node(source@, *options, ast@),
{
    let src = SourceText::new(source);
    let mut linter = Linter { options, diagnostics: DiagnosticList::new() };
    linter.visit(&src, ast, false);
    assert(linter.diagnostics@ =~= lint_node(source@, *options, ast@));
    linter.diagnostics
}

impl<'a> Linter<'a> {
    fn push(&mut self, diagnostic: Diagnostic)
        ensures
            final(self).diagnostics@ == old(self).diagnostics@.push(diagnostic@),
            final(self).options == old(self).options,
    {
        self.diagnostics.push(diagnostic);
    }

    fn error(&mut self, src: &SourceText, code: &str, message: String, node: &Node)
        requires
            src.wf(),
        ensures
            final(self).diagnostics@ == old(self).diagnostics@.push(
                node_error(src.chars@, code@, message@, node@),
            ),
            final(self).options == old(self).options,
    {
        let range = span_range_in(src, node.span());
        self.push(Diagnostic::error(message, range).with_code(code));
    }

    fn warning(&mut self, src: &SourceText, code: &str, message: String, node: &Node)
        requires
            src.wf(),
        ensures
            final(self).diagnostics@ == old(self).diagnostics@.push(
                node_warning(src.chars@, code@, message@, node@),
            ),
            final(self).options == old(self).options,
    {
        let range = span_range_in(src, node.span());
        self.push(Diagnostic::warning(message, range).with_code(code));
    }

    fn unsearchable(&mut self, src: &SourceText, node: &Node, text: &String)
        requires
            src.wf(),
        ensures
            final(self).diagnostics@ == old(self).diagnostics@.push(
                unsearchable_diag(src.chars@, node@, text@),
            ),
            final(self).options == old(self).options,
    {
        let mut m = String::new();
        append_str(&mut m, "\"");
        append_string(&mut m, text);
        append_str(&mut m, "\" contains no letters or digits, so it can never match a post");
        assert(m@ =~= "\""@ + text@ + "\" contains no letters or digits, so it can never match a post"@);
        self.error(src, "unsearchable-term", m, node);
    }

    fn visit(&mut self, src: &SourceText, node: &Node, in_proximity: bool)
        requires
            src.wf(),
        ensures
            final(self).diagnostics@ == old(self).diagnostics@ + lint_node(
                src.chars@,
                *old(self).options,
                node@,
            ),
            final(self).options == old(self).options,
        decreases node@,
    {
        let ghost cs = src.chars@;
        let ghost o = *self.options;
        let ghost d0 = self.diagnostics@;
        let inner_proximity = in_proximity || matches!(node, Node::Proximity { .. });
        match node {
            Node::Term { value, wildcard, fuzzy, span } => {
                self.term(src, node, value, *wildcard, *fuzzy, *span);
            },
            Node::Phrase { text, slop, span } => {
                self.phrase(src, node, text, *slop, *span);
            },
            Node::All { .. } => {
                self.error(src, "match-all",
                    String::from_str("Match-all (*) is not supported; add a search term"),
                    node,
                );
                assert(self.diagnostics@ =~= d0 + lint_node(cs, o, node@));
            },
            Node::Group { child, .. } => {
                self.visit(src, child, inner_proximity);
            },
            Node::Not { child, .. } => {
                self.visit(src, child, inner_proximity);
            },
            Node::Boost { child, .. } => {
                self.visit(src, child, inner_proximity);
            },
            Node::Proximity { left, right, .. } => {
                self.negation_in_proximity(src, left);
                self.negation_in_proximity(src, right);
                self.visit(src, left, inner_proximity);
                self.visit(src, right, inner_proximity);
                assert(self.diagnostics@ =~= d0 + lint_node(cs, o, node@));
            },
            Node::And { children, .. } => {
                proof {
                    lemma_nodes_view(children@);
                    assert(nodes_view(children@).take(0) =~= Seq::<NodeV>::empty());
                }
                let mut i: usize = 0;
                while i < children.len()
                    invariant
                        src.wf(),
                        cs == src.chars@,
                        o == *self.options,
                        i <= children@.len(),
                        nodes_view(children@).len() == children@.len(),
                        forall|k: int| 0 <= k < children@.len() ==> #[trigger] nodes_view(children@)[k] == children@[k]@,
                        self.diagnostics@ == d0 + lint_nodes(cs, o, nodes_view(children@).take(i as int)),
                        node@ is And,
                        node@->And_children == nodes_view(children@),
                    decreases children@.len() - i,
                {
                    proof {
                        lemma_lint_nodes_push(cs, o, nodes_view(children@).take(i as int), children@[i as int]@);
                        assert(nodes_view(children@).take(i + 1) =~= nodes_view(children@).take(i as int).push(children@[i as int]@));
                    }
                    proof {
                        let nv = node@;
                        assert(nv->And_children[i as int] == children@[i as int]@);
                        assert(decreases_to!(nv => nv->And_children));
                        assert(decreases_to!(nv->And_children => nv->And_children[i as int]));
                    }
                    self.visit(src, &children[i], inner_proximity);
                    assert(self.diagnostics@ =~= d0 + lint_nodes(cs, o, nodes_view(children@).take(i + 1)));
                    i = i + 1;
                }
                assert(nodes_view(children@).take(children@.len() as int) =~= nodes_view(children@));
            },
            Node::Or { children, .. } => {
                proof {
                    lemma_nodes_view(children@);
                    assert(nodes_view(children@).take(0) =~= Seq::<NodeV>::empty());
                }
                let mut j: usize = 0;
                while j < children.len()
                    invariant
                        src.wf(),
                        cs == src.chars@,
                        o == *self.options,
                        j <= children@.len(),
                        nodes_view(children@).len() == children@.len(),
                        forall|k: int| 0 <= k < children@.len() ==> #[trigger] nodes_view(children@)[k] == children@[k]@,
                        self.diagnostics@ == d0 + or_diags(cs, nodes_view(children@).take(j as int)),
                    decreases children@.len() - j,
                {
                    proof {
                        assert(nodes_view(children@).take(j + 1).drop_last() =~= nodes_view(children@).take(j as int));
                    }
                    match &children[j] {
                        Node::And { children: parts, span } => {
                            self.mixed_and_or(src, *span, parts);
                        },
                        _ => {},
                    }
                    assert(self.diagnostics@ =~= d0 + or_diags(cs, nodes_view(children@).take(j + 1)));
                    j = j + 1;
                }
                assert(nodes_view(children@).take(children@.len() as int) =~= nodes_view(children@));
                let ghost d1 = self.diagnostics@;
                let mut i: usize = 0;
                while i < children.len()
                    invariant
                        src.wf(),
                        cs == src.chars@,
                        o == *self.options,
                        i <= children@.len(),
                        nodes_view(children@).len() == children@.len(),
                        forall|k: int| 0 <= k < children@.len() ==> #[trigger] nodes_view(children@)[k] == children@[k]@,
                        self.diagnostics@ == d1 + lint_nodes(cs, o, nodes_view(children@).take(i as int)),
                        node@ is Or,
                        node@->Or_children == nodes_view(children@),
                    decreases children@.len() - i,
                {
                    proof {
                        lemma_lint_nodes_push(cs, o, nodes_view(children@).take(i as int), children@[i as int]@);
                        assert(nodes_view(children@).take(i + 1) =~= nodes_view(children@).take(i as int).push(children@[i as int]@));
                        let nv = node@;
                        assert(nv->Or_children[i as int] == children@[i as int]@);
                        assert(decreases_to!(nv => nv->Or_children));
                        assert(decreases_to!(nv->Or_children => nv->Or_children[i as int]));
                    }
                    self.visit(src, &children[i], inner_proximity);
                    assert(self.diagnostics@ =~= d1 + lint_nodes(cs, o, nodes_view(children@).take(i + 1)));
                    i = i + 1;
                }
                assert(nodes_view(children@).take(children@.len() as int) =~= nodes_view(children@));
                assert(self.diagnostics@ =~= d0 + lint_node(cs, o, node@));
            },
        }
    }

    fn term(&mut self, src: &SourceText, node: &Node, value: &String, wildcard: bool, fuzzy: Option<Fuzzy>, span: Span)
        requires
            src.wf(),
            node@ == (NodeV::Term { value: value@, wildcard, fuzzy, span }),
        ensures
            final(self).diagnostics@ == old(self).diagnostics@ + term_diags(
                src.chars@,
                *old(self).options,
                node@,
            ),
            final(self).options == old(self).options,
    {
        let ghost cs = src.chars@;
        let ghost o = *self.options;
        let ghost d0 = self.diagnostics@;
        if wildcard {
            self.wildcard(src, node, value, fuzzy.is_some());
            return;
        }
        let vc = chars_of(value);
        proof {
            assert(vc@.subrange(0, vc@.len() as int) =~= vc@);
        }
        if !searchable_in(&vc, 0, vc.len()) {
            self.unsearchable(src, node, value);
            assert(self.diagnostics@ =~= d0 + term_diags(cs, o, node@));
            return;
        }
        if let Some(f) = fuzzy {
            if needs_quoting(value.as_str()) {
                self.error(src, "invalid-fuzzy",
                    String::from_str("Fuzzy matching only works on a single plain word"),
                    node,
                );
            }
            if f.distance > self.options.max_fuzzy_distance {
                let mut m = String::new();
                append_str(&mut m, "Fuzzy distance ~");
                let a = u32_to_string(f.distance);
                append_string(&mut m, &a);
                append_str(&mut m, " exceeds the maximum of ");
                let b = u32_to_string(self.options.max_fuzzy_distance);
                append_string(&mut m, &b);
                self.error(src, "fuzzy-too-large", m, node);
            }
        }
        let ghost d2 = self.diagnostics@;
        if let Some(op) = lowercase_operator(value) {
            let range = span_range_in(src, span);
            let mut m = String::new();
            append_string(&mut m, value);
            append_str(&mut m, " is searched as a word; write ");
            append_string(&mut m, &op);
            append_str(&mut m, " to use it as an operator");
            let mut title = String::new();
            append_str(&mut title, "Change to ");
            append_string(&mut title, &op);
            self.push(Diagnostic::hint(m, range).with_code("lowercase-operator").with_fix(title, range, op));
        }
        if is_tin_keyword(value) {
            let range = span_range_in(src, span);
            let mut m = String::new();
            append_string(&mut m, value);
            append_str(&mut m, " is searched as a literal word");
            self.push(Diagnostic::info(m, range).with_code("literal-keyword"));
        }
        assert(self.diagnostics@ =~= d0 + term_diags(cs, o, node@));
    }

    fn wildcard(&mut self, src: &SourceText, node: &Node, value: &String, fuzzy: bool)
        requires
            src.wf(),
        ensures
            final(self).diagnostics@ == old(self).diagnostics@ + wildcard_diags(
                src.chars@,
                node@,
                value@,
                fuzzy,
            ),
            final(self).options == old(self).options,
    {
        let ghost cs = src.chars@;
        let ghost d0 = self.diagnostics@;
        if fuzzy {
            self.error(src, "invalid-fuzzy",
                String::from_str("A term cannot be both a wildcard and a fuzzy match"),
                node,
            );
        }
        if needs_quoting(value.as_str()) {
            self.error(src, "invalid-wildcard",
                String::from_str("Wildcard terms cannot contain spaces or the characters ( ) [ ] \" ~ ^ \\"),
                node,
            );
            assert(self.diagnostics@ =~= d0 + wildcard_diags(cs, node@, value@, fuzzy));
            return;
        }
        let vc = chars_of(value);
        let (total, prefix, first) = scan_wildcards(&vc);
        proof {
            assert(vc@.subrange(0, vc@.len() as int) =~= vc@);
        }
        if total == 0 {
            self.error(src, "empty-wildcard",
                String::from_str("A wildcard needs at least one literal character, for example appl*"),
                node,
            );
        } else if !searchable_in(&vc, 0, vc.len()) {
            self.unsearchable(src, node, value);
        } else if prefix == 0 {
            self.warning(src, "leading-wildcard",
                String::from_str("A leading wildcard has to scan every indexed word and can be slow"),
                node,
            );
        } else if prefix < 2 && first == Some(true) {
            self.warning(src, "short-wildcard",
                String::from_str("A one-character prefix before a wildcard matches a very large number of words"),
                node,
            );
        }
        assert(self.diagnostics@ =~= d0 + wildcard_diags(cs, node@, value@, fuzzy));
    }

    fn phrase(&mut self, src: &SourceText, node: &Node, text: &String, slop: u32, span: Span)
        requires
            src.wf(),
            node@ == (NodeV::Phrase { text: text@, slop, span }),
        ensures
            final(self).diagnostics@ == old(self).diagnostics@ + phrase_diags(
                src.chars@,
                *old(self).options,
                node@,
            ),
            final(self).options == old(self).options,
    {
        let ghost cs = src.chars@;
        let ghost o = *self.options;
        let ghost d0 = self.diagnostics@;
        let tc = chars_of(text);
        proof {
            assert(tc@.subrange(0, tc@.len() as int) =~= tc@);
        }
        if white_in(&tc, 0, tc.len()) {
            self.error(src, "empty-phrase", String::from_str("Empty phrase"), node);
            assert(self.diagnostics@ =~= d0 + phrase_diags(cs, o, node@));
            return;
        }
        if !searchable_in(&tc, 0, tc.len()) {
            self.unsearchable(src, node, text);
            assert(self.diagnostics@ =~= d0 + phrase_diags(cs, o, node@));
            return;
        }
        if slop > 0 && count_words(&tc) == 1 {
            let (i, bi) = char_index_in(src, span.start);
            let (j, _bj) = char_index_in(src, span.end);
            let suffix = match find_last(&src.chars, '~', i, j) {
                Some(k) => {
                    proof {
                        lemma_last_index(cs, '~', i as int, j as int);
                    }
                    let bk = src.byte_offset(i, bi, k);
                    range_in(src, bk, span.end)
                },
                None => span_range_in(src, span),
            };
            let range = span_range_in(src, span);
            let mut m = String::new();
            append_str(&mut m, "Proximity ~");
            let n = u32_to_string(slop);
            append_string(&mut m, &n);
            append_str(&mut m, " has no effect on a single-word phrase");
            let mut title = String::new();
            append_str(&mut title, "Remove ~");
            append_string(&mut title, &n);
            self.push(
                Diagnostic::warning(m, range).with_code("slop-no-effect").with_fix(title, suffix, String::new()),
            );
        }
        if slop > self.options.max_slop {
            let mut m = String::new();
            append_str(&mut m, "Proximity distance ~");
            let a = u32_to_string(slop);
            append_string(&mut m, &a);
            append_str(&mut m, " exceeds the maximum of ");
            let b = u32_to_string(self.options.max_slop);
            append_string(&mut m, &b);
            self.error(src, "slop-too-large", m, node);
        }
        if contains(&tc, '*') || contains(&tc, '?') {
            self.warning(src, "wildcard-in-phrase",
                String::from_str("* and ? inside quotes are matched literally, not as wildcards"),
                node,
            );
        }
        assert(self.diagnostics@ =~= d0 + phrase_diags(cs, o, node@));
    }

    /// NOT directly inside NEAR/THEN is an error.
    fn negation_in_proximity(&mut self, src: &SourceText, operand: &Node)
        requires
            src.wf(),
        ensures
            final(self).diagnostics@ == old(self).diagnostics@ + negation_in_proximity(src.chars@, operand@),
            final(self).options == old(self).options,
    {
        let ghost d0 = self.diagnostics@;
        if let Node::Not { .. } = operand.unwrapped() {
            self.error(src, "negation-in-proximity",
                String::from_str(
                    "NOT cannot be used inside NEAR/THEN; exclude the term with AND NOT outside the proximity expression",
                ),
                operand,
            );
        }
        assert(self.diagnostics@ =~= d0 + negation_in_proximity(src.chars@, operand@));
    }

    /// An AND directly under an OR relies on precedence. When the AND came from
    /// a bare space, the user most likely dropped an operator, so point at the
    /// gap and say so; otherwise ask for parentheses around the whole AND.
    fn mixed_and_or(&mut self, src: &SourceText, and_span: Span, parts: &Vec<Node>)
        requires
            src.wf(),
        ensures
            final(self).diagnostics@ == old(self).diagnostics@.push(
                mixed_diag(src.chars@, and_span, nodes_view(parts@)),
            ),
            final(self).options == old(self).options,
    {
        let ghost cs = src.chars@;
        let ghost ps = nodes_view(parts@);
        proof {
            lemma_nodes_view(parts@);
        }
        let found = find_missing_operator(src, parts);
        match found {
            Some(i) => {
                let n = parts.len();
                assert(i + 1 < n);
                let a = parts[i].span();
                let b = parts[i + 1].span();
                let left = text_between(src, a.start, a.end);
                let right = text_between(src, b.start, b.end);
                let mut m = String::new();
                append_str(&mut m, "Missing operator between ");
                append_string(&mut m, &left);
                append_str(&mut m, " and ");
                append_string(&mut m, &right);
                append_str(
                    &mut m,
                    ": a space means AND, which is ambiguous inside an OR list; write OR or AND explicitly",
                );
                let range = span_range_in(src, a.to(b));
                let d = Diagnostic::error(m, range).with_code("mixed-and-or");
                assert(d@ == mixed_diag(cs, and_span, ps));
                self.push(d);
            },
            None => {
                let range = span_range_in(src, and_span);
                self.push(
                    Diagnostic::error(
                        String::from_str(
                            "Mixing AND (or NOT) with OR at the same level relies on operator precedence; add parentheses to make the grouping explicit",
                        ),
                        range,
                    ).with_code("mixed-and-or"),
                );
            },
        }
    }
}

} // verus!

verus! {

// ---------------------------------------------------------------------------
// Limits.
// ---------------------------------------------------------------------------

/// Whether every limit of `a` is at most the same limit of `b`.
pub open spec fn limits_within(a: LintOptions, b: LintOptions) -> bool {
    a.max_slop <= b.max_slop && a.max_fuzzy_distance <= b.max_fuzzy_distance
}

pub proof fn lemma_has_error_concat(a: Seq<DiagnosticV>, b: Seq<DiagnosticV>)
    ensures
        has_error(a + b) == (has_error(a) || has_error(b)),
{
    if has_error(a + b) {
        let i = choose|i: int| 0 <= i < (a + b).len() && (a + b)[i].severity == DiagnosticSeverity::Error;
        if i < a.len() {
            assert(a[i] == (a + b)[i]);
        } else {
            assert(b[i - a.len()] == (a + b)[i]);
        }
    }
    if has_error(a) {
        let i = choose|i: int| 0 <= i < a.len() && a[i].severity == DiagnosticSeverity::Error;
        assert((a + b)[i] == a[i]);
    }
    if has_error(b) {
        let i = choose|i: int| 0 <= i < b.len() && b[i].severity == DiagnosticSeverity::Error;
        assert((a + b)[a.len() + i] == b[i]);
    }
}

proof fn lemma_one_error(d: DiagnosticV)
    ensures
        has_error(seq![d]) == (d.severity == DiagnosticSeverity::Error),
{
    if d.severity == DiagnosticSeverity::Error {
        assert(seq![d][0] == d);
    }
}

proof fn lemma_term_limits(cs: Seq<char>, o1: LintOptions, o2: LintOptions, n: NodeV)
    requires
        limits_within(o1, o2),
        has_error(term_diags(cs, o2, n)),
    ensures
        has_error(term_diags(cs, o1, n)),
{
    match n {
        NodeV::Term { value, wildcard, fuzzy, span } => {
            if !wildcard && searchable(value) && fuzzy is Some {
                let f = fuzzy->0;
                let q = if needs_quoting_spec(value) {
                    seq![node_error(cs, "invalid-fuzzy"@, "Fuzzy matching only works on a single plain word"@, n)]
                } else {
                    Seq::empty()
                };
                let big = |o: LintOptions|
                    if f.distance > o.max_fuzzy_distance {
                        seq![
                            node_error(
                                cs,
                                "fuzzy-too-large"@,
                                "Fuzzy distance ~"@ + decimal(f.distance as nat) + " exceeds the maximum of "@
                                    + decimal(o.max_fuzzy_distance as nat),
                                n,
                            ),
                        ]
                    } else {
                        Seq::empty()
                    };
                let d2 = match lowercase_operator_spec(value) {
                    Some(op) => seq![
                        with_fix(
                            coded(
                                DiagnosticSeverity::Hint,
                                "lowercase-operator"@,
                                value + " is searched as a word; write "@ + op + " to use it as an operator"@,
                                span_range(cs, span),
                            ),
                            "Change to "@ + op,
                            span_range(cs, span),
                            op,
                        ),
                    ],
                    None => Seq::empty(),
                };
                let d3 = if tin_keyword(value) {
                    seq![
                        coded(
                            DiagnosticSeverity::Info,
                            "literal-keyword"@,
                            value + " is searched as a literal word"@,
                            span_range(cs, span),
                        ),
                    ]
                } else {
                    Seq::empty()
                };
                assert(term_diags(cs, o2, n) == q + big(o2) + d2 + d3);
                assert(term_diags(cs, o1, n) == q + big(o1) + d2 + d3);
                lemma_has_error_concat(q + big(o2) + d2, d3);
                lemma_has_error_concat(q + big(o2), d2);
                lemma_has_error_concat(q, big(o2));
                lemma_has_error_concat(q + big(o1) + d2, d3);
                lemma_has_error_concat(q + big(o1), d2);
                lemma_has_error_concat(q, big(o1));
                if d2.len() > 0 {
                    lemma_one_error(d2[0]);
                    assert(d2 == seq![d2[0]]);
                }
                if d3.len() > 0 {
                    lemma_one_error(d3[0]);
                    assert(d3 == seq![d3[0]]);
                }
                if has_error(big(o2)) {
                    assert(f.distance > o1.max_fuzzy_distance);
                    lemma_one_error(big(o1)[0]);
                }
            }
        },
        _ => {},
    }
}

proof fn lemma_phrase_limits(cs: Seq<char>, o1: LintOptions, o2: LintOptions, n: NodeV)
    requires
        limits_within(o1, o2),
        has_error(phrase_diags(cs, o2, n)),
    ensures
        has_error(phrase_diags(cs, o1, n)),
{
    match n {
        NodeV::Phrase { text, slop, span } => {
            if !all_white(text) && searchable(text) {
                let a = if slop > 0 && word_count(text) == 1 {
                    seq![
                        with_fix(
                            coded(
                                DiagnosticSeverity::Warning,
                                "slop-no-effect"@,
                                "Proximity ~"@ + decimal(slop as nat) + " has no effect on a single-word phrase"@,
                                span_range(cs, span),
                            ),
                            "Remove ~"@ + decimal(slop as nat),
                            slop_suffix(cs, span),
                            Seq::empty(),
                        ),
                    ]
                } else {
                    Seq::empty()
                };
                let big = |o: LintOptions|
                    if slop > o.max_slop {
                        seq![
                            node_error(
                                cs,
                                "slop-too-large"@,
                                "Proximity distance ~"@ + decimal(slop as nat) + " exceeds the maximum of "@
                                    + decimal(o.max_slop as nat),
                                n,
                            ),
                        ]
                    } else {
                        Seq::empty()
                    };
                let c = if crate::text::contains_char(text, '*') || crate::text::contains_char(text, '?') {
                    seq![
                        node_warning(
                            cs,
                            "wildcard-in-phrase"@,
                            "* and ? inside quotes are matched literally, not as wildcards"@,
                            n,
                        ),
                    ]
                } else {
                    Seq::empty()
                };
                assert(phrase_diags(cs, o2, n) == a + big(o2) + c);
                assert(phrase_diags(cs, o1, n) == a + big(o1) + c);
                lemma_has_error_concat(a + big(o2), c);
                lemma_has_error_concat(a, big(o2));
                lemma_has_error_concat(a + big(o1), c);
                lemma_has_error_concat(a, big(o1));
                if a.len() > 0 {
                    lemma_one_error(a[0]);
                    assert(a == seq![a[0]]);
                }
                if c.len() > 0 {
                    lemma_one_error(c[0]);
                    assert(c == seq![c[0]]);
                }
                if has_error(big(o2)) {
                    lemma_one_error(big(o1)[0]);
                }
            }
        },
        _ => {},
    }
}

/// Raising limits only removes errors: every tree with an error under the higher limits
/// has one under the lower limits.
pub proof fn lemma_lint_limits(cs: Seq<char>, o1: LintOptions, o2: LintOptions, n: NodeV)
    requires
        limits_within(o1, o2),
        has_error(lint_node(cs, o2, n)),
    ensures
        has_error(lint_node(cs, o1, n)),
    decreases n, 0int,
{
    match n {
        NodeV::Term { .. } => lemma_term_limits(cs, o1, o2, n),
        NodeV::Phrase { .. } => lemma_phrase_limits(cs, o1, o2, n),
        NodeV::All { .. } => {},
        NodeV::Group { child, .. } => lemma_lint_limits(cs, o1, o2, *child),
        NodeV::Not { child, .. } => lemma_lint_limits(cs, o1, o2, *child),
        NodeV::Boost { child, .. } => lemma_lint_limits(cs, o1, o2, *child),
        NodeV::Proximity { left, right, .. } => {
            let np = negation_in_proximity(cs, *left) + negation_in_proximity(cs, *right);
            lemma_has_error_concat(np + lint_node(cs, o2, *left), lint_node(cs, o2, *right));
            lemma_has_error_concat(np, lint_node(cs, o2, *left));
            lemma_has_error_concat(np + lint_node(cs, o1, *left), lint_node(cs, o1, *right));
            lemma_has_error_concat(np, lint_node(cs, o1, *left));
            if has_error(lint_node(cs, o2, *left)) {
                lemma_lint_limits(cs, o1, o2, *left);
            }
            if has_error(lint_node(cs, o2, *right)) {
                lemma_lint_limits(cs, o1, o2, *right);
            }
        },
        NodeV::And { children, .. } => lemma_lint_nodes_limits(cs, o1, o2, children),
        NodeV::Or { children, .. } => {
            lemma_has_error_concat(or_diags(cs, children), lint_nodes(cs, o2, children));
            lemma_has_error_concat(or_diags(cs, children), lint_nodes(cs, o1, children));
            if has_error(lint_nodes(cs, o2, children)) {
                lemma_lint_nodes_limits(cs, o1, o2, children);
            }
        },
    }
}

proof fn lemma_lint_nodes_limits(cs: Seq<char>, o1: LintOptions, o2: LintOptions, s: Seq<NodeV>)
    requires
        limits_within(o1, o2),
        has_error(lint_nodes(cs, o2, s)),
    ensures
        has_error(lint_nodes(cs, o1, s)),
    decreases s, 1int,
{
    if s.len() > 0 {
        let t = s.subrange(1, s.len() as int);
        lemma_has_error_concat(lint_node(cs, o2, s[0]), lint_nodes(cs, o2, t));
        lemma_has_error_concat(lint_node(cs, o1, s[0]), lint_nodes(cs, o1, t));
        if has_error(lint_node(cs, o2, s[0])) {
            lemma_lint_limits(cs, o1, o2, s[0]);
        } else {
            lemma_lint_nodes_limits(cs, o1, o2, t);
        }
    }
}

} // verus!

verus! {

/// Whether some diagnostic is an error with the given code.
pub open spec fn has_coded_error(ds: Seq<DiagnosticV>, code: Seq<char>) -> bool {
    exists|i: int| 0 <= i < ds.len() && ds[i].severity == DiagnosticSeverity::Error && ds[i].code == Some(code)
}

proof fn lemma_coded_concat(a: Seq<DiagnosticV>, b: Seq<DiagnosticV>, code: Seq<char>)
    ensures
        has_coded_error(a + b, code) == (has_coded_error(a, code) || has_coded_error(b, code)),
{
    if has_coded_error(a + b, code) {
        let i = choose|i: int|
            0 <= i < (a + b).len() && (a + b)[i].severity == DiagnosticSeverity::Error && (a + b)[i].code == Some(
                code,
            );
        if i < a.len() {
            assert(a[i] == (a + b)[i]);
        } else {
            assert(b[i - a.len()] == (a + b)[i]);
        }
    }
    if has_coded_error(a, code) {
        let i = choose|i: int| 0 <= i < a.len() && a[i].severity == DiagnosticSeverity::Error && a[i].code == Some(code);
        assert((a + b)[i] == a[i]);
    }
    if has_coded_error(b, code) {
        let i = choose|i: int| 0 <= i < b.len() && b[i].severity == DiagnosticSeverity::Error && b[i].code == Some(code);
        assert((a + b)[a.len() + i] == b[i]);
    }
}

proof fn lemma_coded_one(d: DiagnosticV, code: Seq<char>)
    ensures
        has_coded_error(seq![d], code) == (d.severity == DiagnosticSeverity::Error && d.code == Some(code)),
{
    if d.severity == DiagnosticSeverity::Error && d.code == Some(code) {
        assert(seq![d][0] == d);
    }
}

proof fn lemma_coded_small(ds: Seq<DiagnosticV>, code: Seq<char>)
    requires
        ds.len() <= 1,
    ensures
        has_coded_error(ds, code) == (ds.len() == 1 && ds[0].severity == DiagnosticSeverity::Error && ds[0].code
            == Some(code)),
{
    if ds.len() == 1 {
        lemma_coded_one(ds[0], code);
        assert(ds == seq![ds[0]]);
    }
}

/// A searchable fuzzy term gets a `fuzzy-too-large` error exactly when its distance is above
/// the limit.
pub proof fn law_fuzzy_limit(cs: Seq<char>, o: LintOptions, value: Seq<char>, f: Fuzzy, span: Span)
    requires
        searchable(value),
    ensures
        has_coded_error(
            lint_node(cs, o, NodeV::Term { value, wildcard: false, fuzzy: Some(f), span }),
            "fuzzy-too-large"@,
        ) <==> f.distance > o.max_fuzzy_distance,
{
    let n = NodeV::Term { value, wildcard: false, fuzzy: Some(f), span };
    let code = "fuzzy-too-large"@;
    reveal_strlit("fuzzy-too-large");
    reveal_strlit("invalid-fuzzy");
    let q = if needs_quoting_spec(value) {
        seq![node_error(cs, "invalid-fuzzy"@, "Fuzzy matching only works on a single plain word"@, n)]
    } else {
        Seq::empty()
    };
    let big = if f.distance > o.max_fuzzy_distance {
        seq![
            node_error(
                cs,
                "fuzzy-too-large"@,
                "Fuzzy distance ~"@ + decimal(f.distance as nat) + " exceeds the maximum of "@ + decimal(
                    o.max_fuzzy_distance as nat,
                ),
                n,
            ),
        ]
    } else {
        Seq::empty()
    };
    let d2 = match lowercase_operator_spec(value) {
        Some(op) => seq![
            with_fix(
                coded(
                    DiagnosticSeverity::Hint,
                    "lowercase-operator"@,
                    value + " is searched as a word; write "@ + op + " to use it as an operator"@,
                    span_range(cs, span),
                ),
                "Change to "@ + op,
                span_range(cs, span),
                op,
            ),
        ],
        None => Seq::empty(),
    };
    let d3 = if tin_keyword(value) {
        seq![
            coded(
                DiagnosticSeverity::Info,
                "literal-keyword"@,
                value + " is searched as a literal word"@,
                span_range(cs, span),
            ),
        ]
    } else {
        Seq::empty()
    };
    assert(lint_node(cs, o, n) == q + big + d2 + d3);
    lemma_coded_concat(q + big + d2, d3, code);
    lemma_coded_concat(q + big, d2, code);
    lemma_coded_concat(q, big, code);
    lemma_coded_small(q, code);
    lemma_coded_small(big, code);
    lemma_coded_small(d2, code);
    lemma_coded_small(d3, code);
    assert("invalid-fuzzy"@ != code) by {
        assert("invalid-fuzzy"@.len() != code.len());
    }
}

/// A phrase that has a searchable word gets a `slop-too-large` error exactly when its slop is
/// above the limit.
pub proof fn law_slop_limit(cs: Seq<char>, o: LintOptions, text: Seq<char>, slop: u32, span: Span)
    requires
        !all_white(text),
        searchable(text),
    ensures
        has_coded_error(lint_node(cs, o, NodeV::Phrase { text, slop, span }), "slop-too-large"@) <==> slop
            > o.max_slop,
{
    let n = NodeV::Phrase { text, slop, span };
    let code = "slop-too-large"@;
    let a = if slop > 0 && word_count(text) == 1 {
        seq![
            with_fix(
                coded(
                    DiagnosticSeverity::Warning,
                    "slop-no-effect"@,
                    "Proximity ~"@ + decimal(slop as nat) + " has no effect on a single-word phrase"@,
                    span_range(cs, span),
                ),
                "Remove ~"@ + decimal(slop as nat),
                slop_suffix(cs, span),
                Seq::empty(),
            ),
        ]
    } else {
        Seq::empty()
    };
    let big = if slop > o.max_slop {
        seq![
            node_error(
                cs,
                "slop-too-large"@,
                "Proximity distance ~"@ + decimal(slop as nat) + " exceeds the maximum of "@ + decimal(
                    o.max_slop as nat,
                ),
                n,
            ),
        ]
    } else {
        Seq::empty()
    };
    let c = if crate::text::contains_char(text, '*') || crate::text::contains_char(text, '?') {
        seq![
            node_warning(
                cs,
                "wildcard-in-phrase"@,
                "* and ? inside quotes are matched literally, not as wildcards"@,
                n,
            ),
        ]
    } else {
        Seq::empty()
    };
    assert(lint_node(cs, o, n) == a + big + c);
    lemma_coded_concat(a + big, c, code);
    lemma_coded_concat(a, big, code);
    lemma_coded_small(a, code);
    lemma_coded_small(big, code);
    lemma_coded_small(c, code);
}

} // verus!

verus! {

proof fn lemma_lint_nodes_has(cs: Seq<char>, o: LintOptions, s: Seq<NodeV>, i: int)
    requires
        0 <= i < s.len(),
        has_error(lint_node(cs, o, s[i])),
    ensures
        has_error(lint_nodes(cs, o, s)),
    decreases s.len(),
{
    let t = s.subrange(1, s.len() as int);
    lemma_has_error_concat(lint_node(cs, o, s[0]), lint_nodes(cs, o, t));
    if i > 0 {
        assert(t[i - 1] == s[i]);
        lemma_lint_nodes_has(cs, o, t, i - 1);
    }
}

/// Linting is compositional: every node is linted inside its parent, so an error on any
/// child (a proximity operand, an AND or OR operand, what a group, negation or boost holds)
/// is an error of the parent.
pub proof fn law_lint_reaches_children(cs: Seq<char>, o: LintOptions, n: NodeV)
    ensures
        forall|i: int|
            0 <= i < children_spec(n).len() && has_error(lint_node(cs, o, #[trigger] children_spec(n)[i]))
                ==> has_error(lint_node(cs, o, n)),
{
    assert forall|i: int|
        0 <= i < children_spec(n).len() && has_error(lint_node(cs, o, #[trigger] children_spec(n)[i])) implies has_error(
        lint_node(cs, o, n),
    ) by {
        match n {
            NodeV::Proximity { left, right, .. } => {
                let np = negation_in_proximity(cs, *left) + negation_in_proximity(cs, *right);
                lemma_has_error_concat(np + lint_node(cs, o, *left), lint_node(cs, o, *right));
                lemma_has_error_concat(np, lint_node(cs, o, *left));
            },
            NodeV::And { children, .. } => {
                lemma_lint_nodes_has(cs, o, children, i);
            },
            NodeV::Or { children, .. } => {
                lemma_lint_nodes_has(cs, o, children, i);
                lemma_has_error_concat(or_diags(cs, children), lint_nodes(cs, o, children));
            },
            _ => {},
        }
    }
}

} // verus!

verus! {

/// `small` occurs in `big` as one contiguous run.
pub open spec fn holds_run(big: Seq<DiagnosticV>, small: Seq<DiagnosticV>) -> bool {
    exists|a: Seq<DiagnosticV>, b: Seq<DiagnosticV>| big == a + small + b
}

proof fn lemma_lint_nodes_run(cs: Seq<char>, o: LintOptions, s: Seq<NodeV>, i: int)
    requires
        0 <= i < s.len(),
    ensures
        holds_run(lint_nodes(cs, o, s), lint_node(cs, o, s[i])),
    decreases s.len(),
{
    let t = s.subrange(1, s.len() as int);
    let head = lint_node(cs, o, s[0]);
    let rest = lint_nodes(cs, o, t);
    if i == 0 {
        assert(lint_nodes(cs, o, s) == Seq::<DiagnosticV>::empty() + head + rest);
    } else {
        assert(t[i - 1] == s[i]);
        lemma_lint_nodes_run(cs, o, t, i - 1);
        let small = lint_node(cs, o, s[i]);
        let (a, b) = choose|a: Seq<DiagnosticV>, b: Seq<DiagnosticV>| rest == a + small + b;
        assert(lint_nodes(cs, o, s) == (head + a) + small + b);
    }
}

/// Linting is compositional: the diagnostics of every child (a proximity operand, an AND or
/// OR operand, what a group, negation or boost holds) appear, whole and in order, among those
/// of its parent.
pub proof fn law_lint_keeps_child_diagnostics(cs: Seq<char>, o: LintOptions, n: NodeV)
    ensures
        forall|i: int|
            0 <= i < children_spec(n).len() ==> holds_run(
                lint_node(cs, o, n),
                lint_node(cs, o, #[trigger] children_spec(n)[i]),
            ),
{
    assert forall|i: int| 0 <= i < children_spec(n).len() implies holds_run(
        lint_node(cs, o, n),
        lint_node(cs, o, #[trigger] children_spec(n)[i]),
    ) by {
        let e = Seq::<DiagnosticV>::empty();
        match n {
            NodeV::Group { child, .. } => {
                assert(lint_node(cs, o, n) == e + lint_node(cs, o, *child) + e);
            },
            NodeV::Not { child, .. } => {
                assert(lint_node(cs, o, n) == e + lint_node(cs, o, *child) + e);
            },
            NodeV::Boost { child, .. } => {
                assert(lint_node(cs, o, n) == e + lint_node(cs, o, *child) + e);
            },
            NodeV::Proximity { left, right, .. } => {
                let np = negation_in_proximity(cs, *left) + negation_in_proximity(cs, *right);
                let l = lint_node(cs, o, *left);
                let r = lint_node(cs, o, *right);
                if i == 0 {
                    assert(lint_node(cs, o, n) == np + l + r);
                } else {
                    assert(lint_node(cs, o, n) == (np + l) + r + e);
                }
            },
            NodeV::And { children, .. } => {
                lemma_lint_nodes_run(cs, o, children, i);
            },
            NodeV::Or { children, .. } => {
                lemma_lint_nodes_run(cs, o, children, i);
                let small = lint_node(cs, o, children[i]);
                let (a, b) = choose|a: Seq<DiagnosticV>, b: Seq<DiagnosticV>|
                    lint_nodes(cs, o, children) == a + small + b;
                assert(lint_node(cs, o, n) == (or_diags(cs, children) + a) + small + b);
            },
            _ => {},
        }
    }
}

} // verus!
