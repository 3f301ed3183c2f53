//! Parser, linter and TINQL emitter for boolean search queries.
use vstd::prelude::*;

pub mod ast;
pub mod text;
pub mod diagnostics;
pub mod lexer;
pub mod parser;
pub mod lint;
pub mod format;
pub mod tinql;

pub use ast::{Fuzzy, Node, QueryStats, Span};
pub use diagnostics::{Diagnostic, DiagnosticList, DiagnosticSeverity, Fix, Position, Range};
pub use format::format_node;
pub use lint::{LintOptions, lint};
pub use parser::{ImplicitOp, Parsed, parse as parse_query};
pub use tinql::{Analysis, TinqlOptions, TinqlOutput, analyze, to_tinql as emit_tinql};

use crate::ast::stats_spec;
use crate::diagnostics::{has_error, insert_stable, is_sorted, lemma_insert_stable_has, lemma_sort_stable_sorted, sort_stable};
use crate::format::format_spec;
use crate::tinql::{analysis_ast, analysis_diags, analysis_tinql, opt_string_view};

verus! {

/// Result of parsing a query, as handed to JavaScript
pub struct ParseOutput {
    /// Whether the query is valid (no error diagnostics)
    pub ok: bool,
    /// The syntax tree as JSON; nodes carry byte spans
    pub ast: Option<String>,
    /// Diagnostics from parsing, linting and emission checks, ordered by position
    pub diagnostics: DiagnosticList,
    /// Query statistics
    pub stats: Option<QueryStats>,
}

/// The options a call runs with: the given ones, else the defaults.
pub open spec fn options_or_default(options: Option<TinqlOptions>) -> TinqlOptions {
    match options {
        Some(o) => o,
        None => TinqlOptions { conjunction_mode: None, max_slop: None, max_fuzzy_distance: None },
    }
}

fn resolve(options: Option<TinqlOptions>) -> (o: TinqlOptions)
    ensures
        o == options_or_default(options),
{
    match options {
        Some(o) => o,
        None => TinqlOptions::default(),
    }
}

/// What `format` returns: the canonical text when the query has no error.
pub open spec fn format_result(cs: Seq<char>, o: TinqlOptions) -> Option<Seq<char>> {
    if has_error(analysis_diags(cs, o)) {
        None
    } else {
        match analysis_ast(cs, o) {
            Some(n) => Some(format_spec(n)),
            None => None,
        }
    }
}

/// Validate a boolean query and return only diagnostics.
pub fn validate(query: String, options: Option<TinqlOptions>) -> (d: DiagnosticList)
    ensures
        d@ == analysis_diags(query@, options_or_default(options)),
{
    let o = resolve(options);
    analyze(query.as_str(), &o).diagnostics
}

/// Check if a query string is valid (no error diagnostics).
pub fn is_valid(query: String, options: Option<TinqlOptions>) -> (b: bool)
    ensures
        b == !has_error(analysis_diags(query@, options_or_default(options))),
{
    let o = resolve(options);
    analyze(query.as_str(), &o).is_ok()
}

/// Get statistics about a query without returning the full AST.
pub fn get_stats(query: String, options: Option<TinqlOptions>) -> (s: Option<QueryStats>)
    ensures
        s == (match analysis_ast(query@, options_or_default(options)) {
            Some(n) => Some(stats_spec(n)),
            None => None,
        }),
{
    let o = resolve(options);
    analyze(query.as_str(), &o).stats
}

/// Rewrite a query in canonical form: explicit AND/OR/NOT, the grouping as written.
/// Returns `None` when the query has errors.
pub fn format(query: String, options: Option<TinqlOptions>) -> (r: Option<String>)
    ensures
        opt_string_view(r) == format_result(query@, options_or_default(options)),
{
    let o = resolve(options);
    let analysis = analyze(query.as_str(), &o);
    if analysis.is_ok() {
        match analysis.ast {
            Some(ast) => Some(format_node(&ast)),
            None => None,
        }
    } else {
        None
    }
}

/// Transpile a boolean query to a TINQL string for `content ==> $1`.
///
/// Parses and lints the query (same pipeline as `validate`), then emits one
/// TINQL string with explicit parentheses, `AND NOT` for negation and
/// `* AND NOT (…)` for negation-only queries. Returns `ok: false` with
/// diagnostics when the query has any error.
pub fn to_tinql(query: String, options: Option<TinqlOptions>) -> (out: TinqlOutput)
    ensures
        out.ok == (!has_error(analysis_diags(query@, options_or_default(options))) && analysis_tinql(
            query@,
            options_or_default(options),
        ) is Some),
        opt_string_view(out.tinql) == analysis_tinql(query@, options_or_default(options)),
        out.diagnostics@ == analysis_diags(query@, options_or_default(options)),
        out.ok == !has_error(out.diagnostics@),
        (out.tinql is Some) == out.ok,
{
    let o = resolve(options);
    emit_tinql(query.as_str(), &o)
}

/// Every function runs the same pipeline, so a query `validate` accepts is guaranteed
/// to transpile, and vice versa: a query has no error diagnostic exactly when it has
/// a TINQL text.
pub proof fn law_valid_iff_transpiles(cs: Seq<char>, o: TinqlOptions)
    ensures
        !has_error(analysis_diags(cs, o)) <==> analysis_tinql(cs, o) is Some,
{
    if analysis_ast(cs, o) is None {
        law_no_tree_is_an_error(cs, o);
    }
}

/// A query with no search terms is always an error.
pub proof fn law_no_tree_is_an_error(cs: Seq<char>, o: TinqlOptions)
    requires
        analysis_ast(cs, o) is None,
    ensures
        has_error(analysis_diags(cs, o)),
{
    let ds = crate::parser::parse_spec(cs, crate::tinql::implicit_of(o)).1;
    let x = crate::tinql::empty_query_diag(cs);
    assert(ds.push(x).drop_last() =~= ds);
    lemma_insert_stable_has(sort_stable(ds), x);
    let r = analysis_diags(cs, o);
    let i = choose|i: int| 0 <= i < insert_stable(sort_stable(ds), x).len() && #[trigger] insert_stable(
        sort_stable(ds),
        x,
    )[i] == x;
    assert(r[i].severity == DiagnosticSeverity::Error);
}

/// `format` gives a canonical text exactly for the queries that are valid.
pub proof fn law_format_iff_valid(cs: Seq<char>, o: TinqlOptions)
    ensures
        format_result(cs, o) is Some <==> !has_error(analysis_diags(cs, o)),
{
    law_valid_iff_transpiles(cs, o);
}

/// The diagnostics of every query are ordered by position: earlier start first, then
/// earlier end, then the more severe first.
pub proof fn law_diagnostics_ordered(cs: Seq<char>, o: TinqlOptions)
    ensures
        is_sorted(analysis_diags(cs, o)),
{
    let (ast, ds) = crate::parser::parse_spec(cs, crate::tinql::implicit_of(o));
    if ast is Some {
        lemma_sort_stable_sorted(ds + crate::lint::lint_node(cs, crate::tinql::lint_options_of(o), ast->0));
    } else {
        lemma_sort_stable_sorted(ds.push(crate::tinql::empty_query_diag(cs)));
    }
}

/// Raising `max_slop` or `max_fuzzy_distance` (with the same conjunction mode) never turns
/// a valid query invalid, and never changes its TINQL.
pub proof fn law_larger_limits_keep_valid(cs: Seq<char>, o1: TinqlOptions, o2: TinqlOptions)
    requires
        o1.conjunction_mode == o2.conjunction_mode,
        o1.max_slop.unwrap_or(20) <= o2.max_slop.unwrap_or(20),
        o1.max_fuzzy_distance.unwrap_or(2) <= o2.max_fuzzy_distance.unwrap_or(2),
        !has_error(analysis_diags(cs, o1)),
    ensures
        !has_error(analysis_diags(cs, o2)),
        analysis_tinql(cs, o2) == analysis_tinql(cs, o1),
{
    let implicit = crate::tinql::implicit_of(o1);
    let (ast, ds) = crate::parser::parse_spec(cs, implicit);
    if ast is None {
        law_no_tree_is_an_error(cs, o1);
    } else {
        let a = ast->0;
        let l1 = crate::tinql::lint_options_of(o1);
        let l2 = crate::tinql::lint_options_of(o2);
        let d1 = crate::lint::lint_node(cs, l1, a);
        let d2 = crate::lint::lint_node(cs, l2, a);
        crate::diagnostics::lemma_sort_has_error(ds + d1);
        crate::diagnostics::lemma_sort_has_error(ds + d2);
        crate::lint::lemma_has_error_concat(ds, d1);
        crate::lint::lemma_has_error_concat(ds, d2);
        if has_error(d2) {
            crate::lint::lemma_lint_limits(cs, l1, l2, a);
        }
    }
}

} // verus!
