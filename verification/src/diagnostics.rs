//! Diagnostics: severities, source positions and ranges, fixes, and the ordered list.
use vstd::prelude::*;

use crate::ast::Span;
use crate::text::{SourceText, boff, byte_len, count_char, utf16_width, char_utf8_width, char_utf16_width, lemma_boff_step, lemma_boff_bound, lemma_byte_len_take_mono};

verus! {

/// Diagnostic severity levels
#[derive(Debug, Clone, Copy, PartialEq, Eq, Structural)]
pub enum DiagnosticSeverity {
    Hint,
    Info,
    Warning,
    Error,
}

/// The protocol number of a severity (1 hint, 2 info, 4 warning, 8 error).
pub open spec fn severity_rank(s: DiagnosticSeverity) -> u8 {
    match s {
        DiagnosticSeverity::Hint => 1,
        DiagnosticSeverity::Info => 2,
        DiagnosticSeverity::Warning => 4,
        DiagnosticSeverity::Error => 8,
    }
}

impl DiagnosticSeverity {
    /// The protocol number of this severity (1 hint, 2 info, 4 warning, 8 error).
    pub fn rank(&self) -> (r: u8)
        ensures
            r == severity_rank(*self),
    {
        match self {
            DiagnosticSeverity::Hint => 1,
            DiagnosticSeverity::Info => 2,
            DiagnosticSeverity::Warning => 4,
            DiagnosticSeverity::Error => 8,
        }
    }
}

/// A position in the source text (0-indexed)
#[derive(Debug, Clone, Copy, PartialEq, Eq, Structural)]
pub struct Position {
    /// Line number (0-indexed)
    pub line: u32,
    /// Column within the line in UTF-16 code units (0-indexed), as editors count it
    pub column: u32,
    /// Byte offset in the UTF-8 source string
    pub offset: u32,
}

/// Index of the last character that ends at or before byte `o`, searching from `i`:
/// the character count of the longest prefix whose UTF-8 length is at most `o`.
pub open spec fn clamp_index(cs: Seq<char>, o: int, i: int) -> int
    decreases cs.len() - i,
{
    if 0 <= i < cs.len() && boff(cs, i + 1) <= o {
        clamp_index(cs, o, i + 1)
    } else {
        i
    }
}

/// UTF-16 length of the text after the last line feed.
pub open spec fn column_of(cs: Seq<char>) -> nat
    decreases cs.len(),
{
    if cs.len() == 0 {
        0
    } else if cs.last() == '\n' {
        0
    } else {
        column_of(cs.drop_last()) + utf16_width(cs.last())
    }
}

/// The position of byte `offset`, clamped to the source and moved back to a character
/// boundary: its line (line feeds before it), UTF-16 column and byte offset.
#[verifier::opaque]
pub open spec fn position_spec(cs: Seq<char>, offset: int) -> Position {
    let k = clamp_index(cs, offset, 0);
    Position {
        line: count_char(cs.take(k), '\n') as u32,
        column: column_of(cs.take(k)) as u32,
        offset: boff(cs, k) as u32,
    }
}

pub proof fn lemma_clamp_index(cs: Seq<char>, o: int, i: int)
    requires
        0 <= i <= cs.len(),
        boff(cs, i) <= o || i == 0,
    ensures
        i <= clamp_index(cs, o, i) <= cs.len(),
        boff(cs, clamp_index(cs, o, i)) <= o || clamp_index(cs, o, i) == 0,
        clamp_index(cs, o, i) < cs.len() ==> boff(cs, clamp_index(cs, o, i) + 1) > o,
    decreases cs.len() - i,
{
    if i < cs.len() && boff(cs, i + 1) <= o {
        lemma_clamp_index(cs, o, i + 1);
    }
}

proof fn lemma_column_le_bytes(cs: Seq<char>)
    ensures
        column_of(cs) <= byte_len(cs),
    decreases cs.len(),
{
    if cs.len() > 0 {
        lemma_column_le_bytes(cs.drop_last());
    }
}

proof fn lemma_count_le_len(cs: Seq<char>, c: char)
    ensures
        count_char(cs, c) <= cs.len(),
    decreases cs.len(),
{
    if cs.len() > 0 {
        lemma_count_le_len(cs.drop_last(), c);
    }
}

/// Every character boundary at or before byte `o` comes no later than `clamp_index(cs, o, 0)`.
proof fn lemma_clamp_greatest(cs: Seq<char>, o: int, k: int)
    requires
        0 <= k <= cs.len(),
        boff(cs, k) <= o || k == 0,
    ensures
        k <= clamp_index(cs, o, 0),
{
    let c = clamp_index(cs, o, 0);
    lemma_clamp_index(cs, o, 0);
    if k > c {
        lemma_byte_len_take_mono(cs, c + 1, k);
    }
}

/// A position's offset is the greatest character boundary of the source at or before the
/// requested byte (the start when there is none), never past the end.
pub proof fn law_position_at_boundary(cs: Seq<char>, offset: int)
    requires
        byte_len(cs) <= u32::MAX,
    ensures
        exists|k: int| 0 <= k <= cs.len() && position_spec(cs, offset).offset == boff(cs, k),
        position_spec(cs, offset).offset <= byte_len(cs),
        position_spec(cs, offset).offset <= offset || position_spec(cs, offset).offset == 0,
        forall|k: int|
            0 <= k <= cs.len() && #[trigger] boff(cs, k) <= offset ==> boff(cs, k) <= position_spec(
                cs,
                offset,
            ).offset,
{
    reveal(position_spec);
    let c = clamp_index(cs, offset, 0);
    lemma_clamp_index(cs, offset, 0);
    lemma_boff_bound(cs, c);
    if c == 0 {
        assert(cs.take(0) =~= Seq::<char>::empty());
    }
    assert forall|k: int| 0 <= k <= cs.len() && #[trigger] boff(cs, k) <= offset implies boff(cs, k)
        <= position_spec(cs, offset).offset by {
        lemma_clamp_greatest(cs, offset, k);
        lemma_byte_len_take_mono(cs, k, c);
    }
}

/// Positions never move backwards: a later byte gets a position at or after an earlier one's.
proof fn lemma_position_mono(cs: Seq<char>, o1: int, o2: int)
    requires
        byte_len(cs) <= u32::MAX,
        o1 <= o2,
    ensures
        position_spec(cs, o1).offset <= position_spec(cs, o2).offset,
{
    reveal(position_spec);
    let c1 = clamp_index(cs, o1, 0);
    let c2 = clamp_index(cs, o2, 0);
    lemma_clamp_index(cs, o1, 0);
    lemma_clamp_index(cs, o2, 0);
    lemma_clamp_greatest(cs, o2, c1);
    lemma_boff_bound(cs, c1);
    lemma_boff_bound(cs, c2);
    lemma_byte_len_take_mono(cs, c1, c2);
}

/// A range never ends before it starts, and both ends lie within the source.
pub proof fn law_range_in_order(cs: Seq<char>, start: int, end: int)
    requires
        byte_len(cs) <= u32::MAX,
    ensures
        range_spec(cs, start, end).start.offset <= range_spec(cs, start, end).end.offset <= byte_len(cs),
{
    let e = if end >= start { end } else { start };
    lemma_position_mono(cs, start, e);
    law_position_at_boundary(cs, e);
}

impl Position {
    pub fn from_offset(source: &str, offset: usize) -> (p: Position)
        ensures
            p == position_spec(source@, offset as int),
    {
        let src = SourceText::new(source);
        position_in(&src, offset)
    }
}

/// `Position::from_offset` on an already decoded source.
pub fn position_in(src: &SourceText, offset: usize) -> (p: Position)
    requires
        src.wf(),
    ensures
        p == position_spec(src.chars@, offset as int),
{
    let ghost cs = src.chars@;
    let n = src.chars.len();
    let mut i: usize = 0;
    let mut b: usize = 0;
    let mut line: usize = 0;
    let mut column: usize = 0;
    proof {
        assert(cs.take(0) =~= Seq::<char>::empty());
    }
    while i < n
        invariant
            n == cs.len(),
            src.wf(),
            cs == src.chars@,
            i <= n,
            b == boff(cs, i as int),
            b <= offset || i == 0,
            clamp_index(cs, offset as int, 0) == clamp_index(cs, offset as int, i as int),
            line == count_char(cs.take(i as int), '\n'),
            column == column_of(cs.take(i as int)),
        ensures
            i <= n,
            b == boff(cs, i as int),
            clamp_index(cs, offset as int, 0) == clamp_index(cs, offset as int, i as int),
            line == count_char(cs.take(i as int), '\n'),
            column == column_of(cs.take(i as int)),
            i < n ==> boff(cs, i + 1) > offset,
        decreases n - i,
    {
        let c = src.chars[i];
        let w = char_utf8_width(c);
        proof {
            lemma_boff_step(cs, i as int);
            lemma_boff_bound(cs, i + 1);
        }
        if b + w > offset {
            break;
        }
        proof {
            assert(cs.take(i + 1).drop_last() =~= cs.take(i as int));
            lemma_count_le_len(cs.take(i as int), '\n');
            lemma_column_le_bytes(cs.take(i + 1));
        }
        b = b + w;
        if c == '\n' {
            line = line + 1;
            column = 0;
        } else {
            let u = char_utf16_width(c);
            column = column + u as usize;
        }
        i = i + 1;
    }
    assert(clamp_index(cs, offset as int, i as int) == i);
    reveal(position_spec);
    Position { line: line as u32, column: column as u32, offset: b as u32 }
}

#[derive(Debug, Clone, Copy, PartialEq, Eq, Structural)]
pub struct Range {
    /// Start position (inclusive)
    pub start: Position,
    /// End position (exclusive)
    pub end: Position,
}

/// The range from byte `start` to byte `end` (an end before the start is taken as the start).
pub open spec fn range_spec(cs: Seq<char>, start: int, end: int) -> Range {
    Range {
        start: position_spec(cs, start),
        end: position_spec(cs, if end >= start { end } else { start }),
    }
}

pub open spec fn span_range(cs: Seq<char>, span: Span) -> Range {
    range_spec(cs, span.start as int, span.end as int)
}

impl Range {
    pub fn from_offsets(source: &str, start: usize, end: usize) -> (r: Range)
        ensures
            r == range_spec(source@, start as int, end as int),
    {
        let src = SourceText::new(source);
        range_in(&src, start, end)
    }

    pub fn from_span(source: &str, span: Span) -> (r: Range)
        ensures
            r == span_range(source@, span),
    {
        Self::from_offsets(source, span.start, span.end)
    }

    pub fn whole(source: &str) -> (r: Range)
        ensures
            r == range_spec(source@, 0, byte_len(source@) as int),
    {
        let src = SourceText::new(source);
        range_in(&src, 0, src.len)
    }
}

/// `Range::from_offsets` on an already decoded source.
pub fn range_in(src: &SourceText, start: usize, end: usize) -> (r: Range)
    requires
        src.wf(),
    ensures
        r == range_spec(src.chars@, start as int, end as int),
{
    let e = if end >= start {
        end
    } else {
        start
    };
    Range { start: position_in(src, start), end: position_in(src, e) }
}

/// `Range::from_span` on an already decoded source.
pub fn span_range_in(src: &SourceText, span: Span) -> (r: Range)
    requires
        src.wf(),
    ensures
        r == span_range(src.chars@, span),
{
    range_in(src, span.start, span.end)
}

/// The character that byte `offset` falls in (clamped to the text) and its byte offset.
pub fn char_index_in(src: &SourceText, offset: usize) -> (r: (usize, usize))
    requires
        src.wf(),
    ensures
        r.0 == clamp_index(src.chars@, offset as int, 0),
        r.0 <= src.chars@.len(),
        r.1 == boff(src.chars@, r.0 as int),
{
    let ghost cs = src.chars@;
    let n = src.chars.len();
    let mut i: usize = 0;
    let mut b: usize = 0;
    while i < n
        invariant
            n == cs.len(),
            src.wf(),
            cs == src.chars@,
            i <= n,
            b == boff(cs, i as int),
            b <= offset || i == 0,
            clamp_index(cs, offset as int, 0) == clamp_index(cs, offset as int, i as int),
        ensures
            i <= n,
            b == boff(cs, i as int),
            clamp_index(cs, offset as int, 0) == clamp_index(cs, offset as int, i as int),
            i < n ==> boff(cs, i + 1) > offset,
        decreases n - i,
    {
        let w = char_utf8_width(src.chars[i]);
        proof {
            lemma_boff_step(cs, i as int);
            lemma_boff_bound(cs, i + 1);
        }
        if b + w > offset {
            break;
        }
        b = b + w;
        i = i + 1;
    }
    (i, b)
}

/// A text edit an editor can apply to resolve the diagnostic
#[derive(Debug, Clone)]
pub struct Fix {
    /// Short action label, e.g. "Insert AND"
    pub title: String,
    /// Text to replace (empty range = insertion)
    pub range: Range,
    /// Replacement text (empty = deletion)
    pub replacement: String,
}

/// A fix as values.
pub struct FixV {
    pub title: Seq<char>,
    pub range: Range,
    pub replacement: Seq<char>,
}

impl View for Fix {
    type V = FixV;

    open spec fn view(&self) -> FixV {
        FixV { title: self.title@, range: self.range, replacement: self.replacement@ }
    }
}

/// Diagnostic message with location and severity info
#[derive(Debug, Clone)]
pub struct Diagnostic {
    pub message: String,
    pub severity: DiagnosticSeverity,
    pub range: Range,
    /// Stable machine-readable rule id (e.g. `mixed-and-or`)
    pub code: Option<String>,
    pub source: Option<String>,
    /// Longer explanation or a suggested fix
    pub related_info: Option<String>,
    /// Machine-applicable repair, when the fix is unambiguous
    pub fix: Option<Fix>,
}

/// A diagnostic as values.
pub struct DiagnosticV {
    pub message: Seq<char>,
    pub severity: DiagnosticSeverity,
    pub range: Range,
    pub code: Option<Seq<char>>,
    pub source: Option<Seq<char>>,
    pub related_info: Option<Seq<char>>,
    pub fix: Option<FixV>,
}

pub open spec fn opt_view(o: Option<String>) -> Option<Seq<char>> {
    match o {
        Some(s) => Some(s@),
        None => None,
    }
}

impl View for Diagnostic {
    type V = DiagnosticV;

    open spec fn view(&self) -> DiagnosticV {
        DiagnosticV {
            message: self.message@,
            severity: self.severity,
            range: self.range,
            code: opt_view(self.code),
            source: opt_view(self.source),
            related_info: opt_view(self.related_info),
            fix: match self.fix {
                Some(f) => Some(f@),
                None => None,
            },
        }
    }
}

/// The `source` every diagnostic of this library carries.
pub open spec fn source_name() -> Seq<char> {
    "alidade-query-parser"@
}

/// A fresh diagnostic: no code, no related info, no fix.
pub open spec fn diag(severity: DiagnosticSeverity, message: Seq<char>, range: Range) -> DiagnosticV {
    DiagnosticV {
        message,
        severity,
        range,
        code: None,
        source: Some(source_name()),
        related_info: None,
        fix: None,
    }
}

pub open spec fn with_code(d: DiagnosticV, code: Seq<char>) -> DiagnosticV {
    DiagnosticV { code: Some(code), ..d }
}

pub open spec fn with_related(d: DiagnosticV, info: Seq<char>) -> DiagnosticV {
    DiagnosticV { related_info: Some(info), ..d }
}

pub open spec fn with_fix(d: DiagnosticV, title: Seq<char>, range: Range, replacement: Seq<char>) -> DiagnosticV {
    DiagnosticV { fix: Some(FixV { title, range, replacement }), ..d }
}

/// A diagnostic of the given severity and code.
pub open spec fn coded(severity: DiagnosticSeverity, code: Seq<char>, message: Seq<char>, range: Range) -> DiagnosticV {
    with_code(diag(severity, message, range), code)
}

impl Diagnostic {
    fn new(severity: DiagnosticSeverity, message: String, range: Range) -> (d: Diagnostic)
        ensures
            d@ == diag(severity, message@, range),
    {
        Diagnostic {
            message,
            severity,
            range,
            code: None,
            source: Some(String::from_str("alidade-query-parser")),
            related_info: None,
            fix: None,
        }
    }

    pub fn error(message: String, range: Range) -> (d: Diagnostic)
        ensures
            d@ == diag(DiagnosticSeverity::Error, message@, range),
    {
        Self::new(DiagnosticSeverity::Error, message, range)
    }

    pub fn warning(message: String, range: Range) -> (d: Diagnostic)
        ensures
            d@ == diag(DiagnosticSeverity::Warning, message@, range),
    {
        Self::new(DiagnosticSeverity::Warning, message, range)
    }

    pub fn info(message: String, range: Range) -> (d: Diagnostic)
        ensures
            d@ == diag(DiagnosticSeverity::Info, message@, range),
    {
        Self::new(DiagnosticSeverity::Info, message, range)
    }

    pub fn hint(message: String, range: Range) -> (d: Diagnostic)
        ensures
            d@ == diag(DiagnosticSeverity::Hint, message@, range),
    {
        Self::new(DiagnosticSeverity::Hint, message, range)
    }

    pub fn with_code(self, code: &str) -> (d: Diagnostic)
        ensures
            d@ == with_code(self@, code@),
    {
        let mut d = self;
        d.code = Some(String::from_str(code));
        d
    }

    pub fn with_related_info(self, info: &str) -> (d: Diagnostic)
        ensures
            d@ == with_related(self@, info@),
    {
        let mut d = self;
        d.related_info = Some(String::from_str(info));
        d
    }

    pub fn with_fix(self, title: String, range: Range, replacement: String) -> (d: Diagnostic)
        ensures
            d@ == with_fix(self@, title@, range, replacement@),
    {
        let mut d = self;
        d.fix = Some(Fix { title, range, replacement });
        d
    }
}

#[derive(Debug, Clone)]
pub struct DiagnosticList {
    pub items: Vec<Diagnostic>,
}

pub open spec fn diags_view(items: Seq<Diagnostic>) -> Seq<DiagnosticV> {
    items.map_values(|d: Diagnostic| d@)
}

impl View for DiagnosticList {
    type V = Seq<DiagnosticV>;

    open spec fn view(&self) -> Seq<DiagnosticV> {
        diags_view(self.items@)
    }
}

/// Whether some diagnostic is an error.
pub open spec fn has_error(ds: Seq<DiagnosticV>) -> bool {
    exists|i: int| 0 <= i < ds.len() && ds[i].severity == DiagnosticSeverity::Error
}

/// Sort key: earlier start first, then earlier end, then the more severe first.
pub open spec fn key_le(a: DiagnosticV, b: DiagnosticV) -> bool {
    ||| a.range.start.offset < b.range.start.offset
    ||| a.range.start.offset == b.range.start.offset && a.range.end.offset < b.range.end.offset
    ||| a.range.start.offset == b.range.start.offset && a.range.end.offset == b.range.end.offset
        && severity_rank(a.severity) >= severity_rank(b.severity)
}

/// Stable insertion of `x` into `s`: after every element whose key is not above its own.
pub open spec fn insert_stable(s: Seq<DiagnosticV>, x: DiagnosticV) -> Seq<DiagnosticV>
    decreases s.len(),
{
    if s.len() == 0 {
        seq![x]
    } else if key_le(s.last(), x) {
        s.push(x)
    } else {
        insert_stable(s.drop_last(), x).push(s.last())
    }
}

/// Stable sort by `key_le`: each element inserted in turn, in list order.
pub open spec fn sort_stable(s: Seq<DiagnosticV>) -> Seq<DiagnosticV>
    decreases s.len(),
{
    if s.len() == 0 {
        s
    } else {
        insert_stable(sort_stable(s.drop_last()), s.last())
    }
}

pub open spec fn is_sorted(s: Seq<DiagnosticV>) -> bool {
    forall|i: int, j: int| 0 <= i < j < s.len() ==> key_le(s[i], s[j])
}

proof fn lemma_key_le_total(a: DiagnosticV, b: DiagnosticV)
    ensures
        key_le(a, b) || key_le(b, a),
{
}

proof fn lemma_key_le_trans(a: DiagnosticV, b: DiagnosticV, c: DiagnosticV)
    requires
        key_le(a, b),
        key_le(b, c),
    ensures
        key_le(a, c),
{
}

proof fn lemma_insert_stable(s: Seq<DiagnosticV>, x: DiagnosticV)
    ensures
        insert_stable(s, x).len() == s.len() + 1,
        forall|i: int|
            0 <= i < s.len() + 1 ==> #[trigger] insert_stable(s, x)[i] == x || exists|j: int|
                0 <= j < s.len() && s[j] == insert_stable(s, x)[i],
        is_sorted(s) ==> is_sorted(insert_stable(s, x)),
    decreases s.len(),
{
    if s.len() == 0 {
    } else if key_le(s.last(), x) {
        let r = s.push(x);
        assert forall|i: int| 0 <= i < s.len() + 1 implies #[trigger] r[i] == x || exists|j: int|
            0 <= j < s.len() && s[j] == r[i] by {
            if i < s.len() {
                assert(s[i] == r[i]);
            }
        }
        if is_sorted(s) {
            assert forall|i: int, j: int| 0 <= i < j < r.len() implies key_le(r[i], r[j]) by {
                if j == s.len() {
                    if i < s.len() - 1 {
                        lemma_key_le_trans(s[i], s.last(), x);
                    }
                }
            }
        }
    } else {
        let t = s.drop_last();
        lemma_insert_stable(t, x);
        let q = insert_stable(t, x);
        let r = q.push(s.last());
        assert(insert_stable(s, x) == r);
        assert forall|i: int| 0 <= i < s.len() + 1 implies #[trigger] r[i] == x || exists|j: int|
            0 <= j < s.len() && s[j] == r[i] by {
            if i < s.len() {
                assert(q[i] == r[i]);
                if q[i] != x {
                    let j = choose|j: int| 0 <= j < t.len() && t[j] == q[i];
                    assert(s[j] == r[i]);
                }
            } else {
                assert(s[s.len() - 1] == r[i]);
            }
        }
        if is_sorted(s) {
            lemma_key_le_total(s.last(), x);
            assert(is_sorted(t)) by {
                assert forall|i: int, j: int| 0 <= i < j < t.len() implies key_le(t[i], t[j]) by {
                    assert(t[i] == s[i] && t[j] == s[j]);
                }
            }
            assert forall|i: int, j: int| 0 <= i < j < r.len() implies key_le(r[i], r[j]) by {
                if j == s.len() {
                    assert(q[i] == r[i]);
                    if q[i] != x {
                        let k = choose|k: int| 0 <= k < t.len() && t[k] == q[i];
                        assert(s[k] == q[i]);
                    }
                } else {
                    assert(q[i] == r[i] && q[j] == r[j]);
                }
            }
        }
    }
}

proof fn lemma_insert_stable_multiset(s: Seq<DiagnosticV>, x: DiagnosticV)
    ensures
        insert_stable(s, x).to_multiset() =~= s.to_multiset().insert(x),
    decreases s.len(),
{
    broadcast use vstd::seq_lib::group_to_multiset_ensures;

    if s.len() == 0 {
        assert(seq![x] =~= s.push(x));
    } else if key_le(s.last(), x) {
    } else {
        let t = s.drop_last();
        lemma_insert_stable_multiset(t, x);
        assert(t.push(s.last()) =~= s);
        assert(insert_stable(t, x).push(s.last()).to_multiset() =~= insert_stable(t, x).to_multiset().insert(
            s.last(),
        ));
        assert(s.to_multiset() =~= t.to_multiset().insert(s.last()));
    }
}

/// Sorting keeps every diagnostic, each as often as before: it only reorders.
pub proof fn law_sort_keeps_items(s: Seq<DiagnosticV>)
    ensures
        sort_stable(s).to_multiset() =~= s.to_multiset(),
    decreases s.len(),
{
    broadcast use vstd::seq_lib::group_to_multiset_ensures;

    if s.len() > 0 {
        let t = s.drop_last();
        law_sort_keeps_items(t);
        lemma_insert_stable_multiset(sort_stable(t), s.last());
        assert(t.push(s.last()) =~= s);
    }
}

/// Sorting a list that is already ordered changes nothing.
pub proof fn law_sorted_is_fixed(s: Seq<DiagnosticV>)
    requires
        is_sorted(s),
    ensures
        sort_stable(s) == s,
    decreases s.len(),
{
    if s.len() > 0 {
        let t = s.drop_last();
        assert(is_sorted(t)) by {
            assert forall|i: int, j: int| 0 <= i < j < t.len() implies key_le(t[i], t[j]) by {
                assert(t[i] == s[i] && t[j] == s[j]);
            }
        }
        law_sorted_is_fixed(t);
        if t.len() > 0 {
            assert(key_le(t.last(), s.last()));
        }
        assert(t.push(s.last()) =~= s);
    }
}

/// Sorting twice gives what sorting once gave.
pub proof fn law_sort_idempotent(s: Seq<DiagnosticV>)
    ensures
        sort_stable(sort_stable(s)) == sort_stable(s),
{
    lemma_sort_stable_sorted(s);
    law_sorted_is_fixed(sort_stable(s));
}

/// Stable insertion keeps the inserted diagnostic.
pub proof fn lemma_insert_stable_has(s: Seq<DiagnosticV>, x: DiagnosticV)
    ensures
        exists|i: int| 0 <= i < insert_stable(s, x).len() && #[trigger] insert_stable(s, x)[i] == x,
    decreases s.len(),
{
    if s.len() == 0 {
        assert(insert_stable(s, x)[0] == x);
    } else if key_le(s.last(), x) {
        assert(insert_stable(s, x)[s.len() as int] == x);
    } else {
        let t = s.drop_last();
        lemma_insert_stable_has(t, x);
        let i = choose|i: int| 0 <= i < insert_stable(t, x).len() && #[trigger] insert_stable(t, x)[i] == x;
        assert(insert_stable(s, x)[i] == x);
    }
}

/// Whether two diagnostics have the same sort key: start, end and severity.
pub open spec fn same_key(a: DiagnosticV, b: DiagnosticV) -> bool {
    &&& a.range.start.offset == b.range.start.offset
    &&& a.range.end.offset == b.range.end.offset
    &&& a.severity == b.severity
}

/// The diagnostics of `s` whose sort key is `k`'s, in list order.
pub open spec fn with_key(s: Seq<DiagnosticV>, k: DiagnosticV) -> Seq<DiagnosticV>
    decreases s.len(),
{
    if s.len() == 0 {
        s
    } else {
        with_key(s.drop_last(), k) + if same_key(s.last(), k) {
            seq![s.last()]
        } else {
            Seq::empty()
        }
    }
}

proof fn lemma_insert_stable_with_key(t: Seq<DiagnosticV>, x: DiagnosticV, k: DiagnosticV)
    ensures
        with_key(insert_stable(t, x), k) == with_key(t, k) + if same_key(x, k) {
            seq![x]
        } else {
            Seq::<DiagnosticV>::empty()
        },
    decreases t.len(),
{
    if t.len() == 0 {
        assert(seq![x].drop_last() =~= t);
        assert(with_key(insert_stable(t, x), k) =~= with_key(t, k) + if same_key(x, k) {
            seq![x]
        } else {
            Seq::<DiagnosticV>::empty()
        });
    } else if key_le(t.last(), x) {
        assert(t.push(x).drop_last() =~= t);
    } else {
        let u = t.drop_last();
        lemma_insert_stable_with_key(u, x, k);
        let r = insert_stable(u, x);
        assert(r.push(t.last()).drop_last() =~= r);
        assert(!(same_key(x, k) && same_key(t.last(), k)));
        assert(with_key(insert_stable(t, x), k) =~= with_key(t, k) + if same_key(x, k) {
            seq![x]
        } else {
            Seq::<DiagnosticV>::empty()
        });
    }
}

/// Sorting is stable: the diagnostics that share a sort key (start, end and severity)
/// keep their relative order.
pub proof fn law_sort_stable(s: Seq<DiagnosticV>, k: DiagnosticV)
    ensures
        with_key(sort_stable(s), k) == with_key(s, k),
    decreases s.len(),
{
    if s.len() > 0 {
        law_sort_stable(s.drop_last(), k);
        lemma_insert_stable_with_key(sort_stable(s.drop_last()), s.last(), k);
    }
}

/// Sorting neither adds nor removes errors.
pub proof fn lemma_sort_has_error(s: Seq<DiagnosticV>)
    ensures
        has_error(sort_stable(s)) == has_error(s),
{
    broadcast use vstd::seq_lib::group_to_multiset_ensures;

    let r = sort_stable(s);
    law_sort_keeps_items(s);
    if has_error(s) {
        let j = choose|j: int| 0 <= j < s.len() && s[j].severity == DiagnosticSeverity::Error;
        assert(s.contains(s[j]));
        assert(r.to_multiset().count(s[j]) > 0);
        assert(r.contains(s[j]));
        let i = choose|i: int| 0 <= i < r.len() && r[i] == s[j];
        assert(r[i].severity == DiagnosticSeverity::Error);
    }
    if has_error(r) {
        let j = choose|j: int| 0 <= j < r.len() && r[j].severity == DiagnosticSeverity::Error;
        assert(r.contains(r[j]));
        assert(s.to_multiset().count(r[j]) > 0);
        assert(s.contains(r[j]));
        let i = choose|i: int| 0 <= i < s.len() && s[i] == r[j];
        assert(s[i].severity == DiagnosticSeverity::Error);
    }
}

/// Sorting by position leaves the list ordered: earlier start first, then earlier end,
/// then the more severe first.
pub proof fn lemma_sort_stable_sorted(s: Seq<DiagnosticV>)
    ensures
        is_sorted(sort_stable(s)),
        sort_stable(s).len() == s.len(),
    decreases s.len(),
{
    if s.len() > 0 {
        lemma_sort_stable_sorted(s.drop_last());
        lemma_insert_stable(sort_stable(s.drop_last()), s.last());
    }
}

impl DiagnosticList {
    pub fn new() -> (l: DiagnosticList)
        ensures
            l@ == Seq::<DiagnosticV>::empty(),
    {
        DiagnosticList { items: Vec::new() }
    }

    pub fn push(&mut self, diagnostic: Diagnostic)
        ensures
            final(self)@ == old(self)@.push(diagnostic@),
    {
        self.items.push(diagnostic);
        assert(diags_view(self.items@) =~= diags_view(old(self).items@).push(diagnostic@));
    }

    pub fn extend(&mut self, diagnostics: Vec<Diagnostic>)
        ensures
            final(self)@ == old(self)@ + diags_view(diagnostics@),
    {
        let mut other = diagnostics;
        self.items.append(&mut other);
        assert(diags_view(self.items@) =~= diags_view(old(self).items@) + diags_view(diagnostics@));
    }

    pub(crate) fn len(&self) -> (n: usize)
        ensures
            n == self@.len(),
    {
        self.items.len()
    }

    pub fn is_empty(&self) -> (b: bool)
        ensures
            b == (self@.len() == 0),
    {
        self.items.len() == 0
    }

    pub fn has_errors(&self) -> (b: bool)
        ensures
            b == has_error(self@),
    {
        let mut i: usize = 0;
        while i < self.items.len()
            invariant
                i <= self.items@.len(),
                forall|k: int| 0 <= k < i ==> self@[k].severity != DiagnosticSeverity::Error,
            decreases self.items@.len() - i,
        {
            if self.items[i].severity == DiagnosticSeverity::Error {
                assert(self@[i as int].severity == DiagnosticSeverity::Error);
                return true;
            }
            i = i + 1;
        }
        false
    }

    /// The diagnostics of severity `severity`, in list order.
    fn of_severity(&self, severity: DiagnosticSeverity) -> (v: Vec<&Diagnostic>)
        ensures
            v@.map_values(|d: &Diagnostic| d@) == self@.filter(|d: DiagnosticV| d.severity == severity),
    {
        let mut v: Vec<&Diagnostic> = Vec::new();
        let mut i: usize = 0;
        while i < self.items.len()
            invariant
                i <= self.items@.len(),
                v@.map_values(|d: &Diagnostic| d@) == self@.take(i as int).filter(
                    |d: DiagnosticV| d.severity == severity,
                ),
            decreases self.items@.len() - i,
        {
            assert(self@.take(i + 1).drop_last() =~= self@.take(i as int));
            reveal_with_fuel(Seq::filter, 1);
            if self.items[i].severity == severity {
                v.push(&self.items[i]);
            }
            assert(v@.map_values(|d: &Diagnostic| d@) =~= self@.take(i + 1).filter(
                |d: DiagnosticV| d.severity == severity,
            ));
            i = i + 1;
        }
        assert(self@.take(self.items@.len() as int) =~= self@);
        v
    }

    /// The errors, in list order.
    pub fn errors(&self) -> (v: Vec<&Diagnostic>)
        ensures
            v@.map_values(|d: &Diagnostic| d@) == self@.filter(
                |d: DiagnosticV| d.severity == DiagnosticSeverity::Error,
            ),
    {
        self.of_severity(DiagnosticSeverity::Error)
    }

    /// The warnings, in list order.
    pub fn warnings(&self) -> (v: Vec<&Diagnostic>)
        ensures
            v@.map_values(|d: &Diagnostic| d@) == self@.filter(
                |d: DiagnosticV| d.severity == DiagnosticSeverity::Warning,
            ),
    {
        self.of_severity(DiagnosticSeverity::Warning)
    }

    /// The codes of the diagnostics that have one, in list order.
    pub fn codes(&self) -> (v: Vec<&str>)
        ensures
            v@.map_values(|c: &str| c@) == self@.filter_map(|d: DiagnosticV| d.code),
    {
        let mut v: Vec<&str> = Vec::new();
        let mut i: usize = 0;
        while i < self.items.len()
            invariant
                i <= self.items@.len(),
                v@.map_values(|c: &str| c@) == self@.take(i as int).filter_map(
                    |d: DiagnosticV| d.code,
                ),
            decreases self.items@.len() - i,
        {
            assert(self@.take(i + 1).drop_last() =~= self@.take(i as int));
            reveal_with_fuel(Seq::filter_map, 1);
            match &self.items[i].code {
                Some(c) => {
                    v.push(c.as_str());
                },
                None => {},
            }
            assert(v@.map_values(|c: &str| c@) =~= self@.take(i + 1).filter_map(
                |d: DiagnosticV| d.code,
            ));
            i = i + 1;
        }
        assert(self@.take(self.items@.len() as int) =~= self@);
        v
    }

    /// Order by position so editors and tests see a stable list.
    pub fn sort(&mut self)
        ensures
            final(self)@ == sort_stable(old(self)@),
            is_sorted(final(self)@),
    {
        proof {
            lemma_sort_stable_sorted(old(self)@);
        }
        let mut rest: Vec<Diagnostic> = Vec::new();
        std::mem::swap(&mut rest, &mut self.items);
        let ghost all = diags_view(rest@);
        let total = rest.len();
        assert(all.len() == rest@.len());
        let mut sorted: Vec<Diagnostic> = Vec::new();
        let mut taken: usize = 0;
        while rest.len() > 0
            invariant
                all == old(self)@,
                all.len() <= usize::MAX,
                diags_view(rest@) == all.skip(taken as int),
                taken <= all.len(),
                diags_view(sorted@) == sort_stable(all.take(taken as int)),
            decreases rest@.len(),
        {
            let ghost old_rest = rest@;
            assert(diags_view(old_rest)[0] == old_rest[0]@);
            assert(diags_view(old_rest).len() == old_rest.len());
            assert(taken < all.len());
            assert(all.skip(taken as int)[0] == all[taken as int]);
            let x = rest.remove(0);
            assert(all[taken as int] == x@);
            let ghost prev = diags_view(sorted@);
            let mut k = sorted.len();
            assert(prev.take(k as int) =~= prev);
            assert(prev.skip(k as int) =~= Seq::<DiagnosticV>::empty());
            assert(insert_stable(prev, x@) =~= insert_stable(prev.take(k as int), x@) + prev.skip(k as int));
            while k > 0 && !key_le_exec(&sorted[k - 1], &x)
                invariant
                    k <= sorted@.len(),
                    diags_view(sorted@) == prev,
                    insert_stable(prev, x@) == insert_stable(prev.take(k as int), x@) + prev.skip(
                        k as int,
                    ),
                decreases k,
            {
                assert(prev.take(k as int).drop_last() =~= prev.take(k - 1));
                assert(prev.take(k as int).last() == prev[k - 1]);
                assert(prev.skip(k - 1) =~= seq![prev[k - 1]] + prev.skip(k as int));
                assert(insert_stable(prev.take(k - 1), x@).push(prev[k - 1]) + prev.skip(k as int)
                    =~= insert_stable(prev.take(k - 1), x@) + prev.skip(k - 1));
                k = k - 1;
            }
            proof {
                if k > 0 {
                    assert(prev.take(k as int).last() == prev[k - 1]);
                }
                assert(insert_stable(prev.take(k as int), x@) =~= prev.take(k as int).push(x@));
            }
            sorted.insert(k, x);
            assert(diags_view(sorted@) =~= prev.take(k as int).push(x@) + prev.skip(k as int));
            assert(all.take(taken + 1).drop_last() =~= all.take(taken as int));
            assert(all.skip(taken + 1) =~= all.skip(taken as int).drop_first());
            assert(diags_view(rest@) =~= all.skip(taken + 1));
            taken = taken + 1;
        }
        assert(all.take(taken as int) =~= all);
        self.items = sorted;
    }
}

fn key_le_exec(a: &Diagnostic, b: &Diagnostic) -> (r: bool)
    ensures
        r == key_le(a@, b@),
{
    if a.range.start.offset < b.range.start.offset {
        true
    } else if a.range.start.offset > b.range.start.offset {
        false
    } else if a.range.end.offset < b.range.end.offset {
        true
    } else if a.range.end.offset > b.range.end.offset {
        false
    } else {
        a.severity.rank() >= b.severity.rank()
    }
}

} // verus!
