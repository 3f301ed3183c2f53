use vstd::prelude::*;

verus! {

/// Byte range in the source query (start inclusive, end exclusive).
#[derive(Debug, Clone, Copy, PartialEq, Eq, Structural)]
pub struct Span {
    pub start: usize,
    pub end: usize,
}

/// The smallest range that covers both `a` and `b`.
pub open spec fn span_hull(a: Span, b: Span) -> Span {
    Span {
        start: if a.start <= b.start { a.start } else { b.start },
        end: if a.end >= b.end { a.end } else { b.end },
    }
}

/// `a.to(b)` covers both spans and is the smallest span that does; the order does not matter.
pub proof fn law_span_hull(a: Span, b: Span, c: Span)
    ensures
        span_hull(a, b) == span_hull(b, a),
        span_hull(a, b).start <= a.start && a.end <= span_hull(a, b).end,
        span_hull(a, b).start <= b.start && b.end <= span_hull(a, b).end,
        c.start <= a.start && c.start <= b.start && a.end <= c.end && b.end <= c.end ==> c.start
            <= span_hull(a, b).start && span_hull(a, b).end <= c.end,
        span_hull(a, a) == a,
{
}

impl Span {
    pub fn new(start: usize, end: usize) -> (s: Span)
        ensures
            s == (Span { start, end }),
    {
        Span { start, end }
    }

    pub fn to(self, other: Span) -> (s: Span)
        ensures
            s == span_hull(self, other),
    {
        Span {
            start: if self.start <= other.start { self.start } else { other.start },
            end: if self.end >= other.end { self.end } else { other.end },
        }
    }
}

} // verus!

verus! {

/// Fuzzy modifier on a term: `term~N` or `term~P:N`.
#[derive(Debug, Clone, Copy, PartialEq, Eq, Structural)]
pub struct Fuzzy {
    pub distance: u32,
    pub prefix: Option<u32>,
}

} // verus!

verus! {

/// Query syntax tree. Every node carries the byte span it was parsed from.
#[derive(Debug, PartialEq)]
pub enum Node {
    /// Bare word. `wildcard` is set when the value holds an unescaped `*`/`?`;
    /// escaped ones stay as `\*` / `\?` in `value`.
    Term { value: String, wildcard: bool, fuzzy: Option<Fuzzy>, span: Span },
    /// Quoted phrase with its raw inner text and optional `~N` slop.
    Phrase { text: String, slop: u32, span: Span },
    /// Standalone `*`.
    All { span: Span },
    /// Parenthesised sub-expression.
    Group { child: Box<Node>, span: Span },
    /// `NOT x` / `-x`.
    Not { child: Box<Node>, span: Span },
    /// `a NEAR/N b` (unordered) or `a THEN/N b` (ordered).
    Proximity { left: Box<Node>, right: Box<Node>, gap: u32, ordered: bool, span: Span },
    And { children: Vec<Node>, span: Span },
    Or { children: Vec<Node>, span: Span },
    /// `x^N`; parsed for compatibility, ignored by the emitter. `factor` keeps the number as
    /// it was typed (`2.0`, `.5`, `02`): it is not read as a floating-point value, so it is
    /// not normalised (`2.0` stays `2.0` where a float would print `2`).
    Boost { factor: String, child: Box<Node>, span: Span },
}

/// A syntax tree as values.
pub enum NodeV {
    Term { value: Seq<char>, wildcard: bool, fuzzy: Option<Fuzzy>, span: Span },
    Phrase { text: Seq<char>, slop: u32, span: Span },
    All { span: Span },
    Group { child: Box<NodeV>, span: Span },
    Not { child: Box<NodeV>, span: Span },
    Proximity { left: Box<NodeV>, right: Box<NodeV>, gap: u32, ordered: bool, span: Span },
    And { children: Seq<NodeV>, span: Span },
    Or { children: Seq<NodeV>, span: Span },
    Boost { factor: Seq<char>, child: Box<NodeV>, span: Span },
}

pub open spec fn node_view(n: Node) -> NodeV
    decreases n, 0int,
{
    match n {
        Node::Term { value, wildcard, fuzzy, span } => NodeV::Term { value: value@, wildcard, fuzzy, span },
        Node::Phrase { text, slop, span } => NodeV::Phrase { text: text@, slop, span },
        Node::All { span } => NodeV::All { span },
        Node::Group { child, span } => NodeV::Group { child: Box::new(node_view(*child)), span },
        Node::Not { child, span } => NodeV::Not { child: Box::new(node_view(*child)), span },
        Node::Proximity { left, right, gap, ordered, span } => NodeV::Proximity {
            left: Box::new(node_view(*left)),
            right: Box::new(node_view(*right)),
            gap,
            ordered,
            span,
        },
        Node::And { children, span } => NodeV::And { children: nodes_view(children@), span },
        Node::Or { children, span } => NodeV::Or { children: nodes_view(children@), span },
        Node::Boost { factor, child, span } => NodeV::Boost {
            factor: factor@,
            child: Box::new(node_view(*child)),
            span,
        },
    }
}

pub open spec fn nodes_view(s: Seq<Node>) -> Seq<NodeV>
    decreases s, 1int,
{
    if s.len() == 0 {
        Seq::empty()
    } else {
        seq![node_view(s[0])] + nodes_view(s.subrange(1, s.len() as int))
    }
}

impl View for Node {
    type V = NodeV;

    open spec fn view(&self) -> NodeV {
        node_view(*self)
    }
}

} // verus!

verus! {

pub open spec fn node_span(n: NodeV) -> Span {
    match n {
        NodeV::Term { span, .. } => span,
        NodeV::Phrase { span, .. } => span,
        NodeV::All { span } => span,
        NodeV::Group { span, .. } => span,
        NodeV::Not { span, .. } => span,
        NodeV::Proximity { span, .. } => span,
        NodeV::And { span, .. } => span,
        NodeV::Or { span, .. } => span,
        NodeV::Boost { span, .. } => span,
    }
}

/// The node with any wrapping groups and boosts peeled off.
pub open spec fn unwrapped_spec(n: NodeV) -> NodeV
    decreases n,
{
    match n {
        NodeV::Group { child, .. } => unwrapped_spec(*child),
        NodeV::Boost { child, .. } => unwrapped_spec(*child),
        _ => n,
    }
}

pub open spec fn is_negation_spec(n: NodeV) -> bool {
    unwrapped_spec(n) is Not
}

/// The direct sub-nodes, left to right.
pub open spec fn children_spec(n: NodeV) -> Seq<NodeV> {
    match n {
        NodeV::Group { child, .. } => seq![*child],
        NodeV::Not { child, .. } => seq![*child],
        NodeV::Boost { child, .. } => seq![*child],
        NodeV::Proximity { left, right, .. } => seq![*left, *right],
        NodeV::And { children, .. } => children,
        NodeV::Or { children, .. } => children,
        _ => Seq::empty(),
    }
}

pub proof fn lemma_nodes_view(s: Seq<Node>)
    ensures
        nodes_view(s).len() == s.len(),
        forall|i: int| 0 <= i < s.len() ==> #[trigger] nodes_view(s)[i] == s[i]@,
    decreases s.len(),
{
    if s.len() > 0 {
        lemma_nodes_view(s.subrange(1, s.len() as int));
        assert forall|i: int| 0 <= i < s.len() implies #[trigger] nodes_view(s)[i] == s[i]@ by {
            if i > 0 {
                assert(s.subrange(1, s.len() as int)[i - 1] == s[i]);
            }
        }
    }
}

pub proof fn lemma_nodes_view_push(s: Seq<Node>, n: Node)
    ensures
        nodes_view(s.push(n)) == nodes_view(s).push(n@),
{
    lemma_nodes_view(s.push(n));
    lemma_nodes_view(s);
    assert(nodes_view(s.push(n)) =~= nodes_view(s).push(n@));
}

impl Node {
    pub fn span(&self) -> (s: Span)
        ensures
            s == node_span(self@),
    {
        match self {
            Node::Term { span, .. } => *span,
            Node::Phrase { span, .. } => *span,
            Node::All { span } => *span,
            Node::Group { span, .. } => *span,
            Node::Not { span, .. } => *span,
            Node::Proximity { span, .. } => *span,
            Node::And { span, .. } => *span,
            Node::Or { span, .. } => *span,
            Node::Boost { span, .. } => *span,
        }
    }

    /// The node with any wrapping groups and boosts peeled off.
    pub fn unwrapped(&self) -> (r: &Node)
        ensures
            r@ == unwrapped_spec(self@),
        decreases self,
    {
        match self {
            Node::Group { child, .. } => child.unwrapped(),
            Node::Boost { child, .. } => child.unwrapped(),
            _ => self,
        }
    }

    pub fn is_negation(&self) -> (b: bool)
        ensures
            b == is_negation_spec(self@),
    {
        match self.unwrapped() {
            Node::Not { .. } => true,
            _ => false,
        }
    }

    pub fn children(&self) -> (v: Vec<&Node>)
        ensures
            v@.len() == children_spec(self@).len(),
            forall|i: int| 0 <= i < v@.len() ==> (#[trigger] v@[i])@ == children_spec(self@)[i],
    {
        let mut v: Vec<&Node> = Vec::new();
        match self {
            Node::Term { .. } | Node::Phrase { .. } | Node::All { .. } => {},
            Node::Group { child, .. } | Node::Not { child, .. } | Node::Boost { child, .. } => {
                v.push(&**child);
            },
            Node::Proximity { left, right, .. } => {
                v.push(&**left);
                v.push(&**right);
            },
            Node::And { children, .. } | Node::Or { children, .. } => {
                proof {
                    lemma_nodes_view(children@);
                }
                let mut i: usize = 0;
                while i < children.len()
                    invariant
                        i <= children@.len(),
                        v@.len() == i,
                        forall|k: int| 0 <= k < i ==> (#[trigger] v@[k])@ == children@[k]@,
                    decreases children@.len() - i,
                {
                    v.push(&children[i]);
                    i = i + 1;
                }
            },
        }
        v
    }
}

} // verus!

verus! {

/// Summary statistics about a parsed query
#[derive(Debug, Clone, Copy, PartialEq, Eq, Structural)]
pub struct QueryStats {
    /// Number of terms and phrases
    pub term_count: u32,
    /// Maximum nesting depth
    pub max_depth: u32,
    /// Whether the query contains a match-all (*)
    pub has_match_all: bool,
    /// Whether the query contains any boosted terms
    pub has_boost: bool,
    /// Whether the query contains any negations
    pub has_negation: bool,
    /// Whether the query contains any phrase queries
    pub has_phrase: bool,
    /// Whether the query contains any wildcard terms
    pub has_wildcard: bool,
    /// Whether the query contains any fuzzy terms
    pub has_fuzzy: bool,
    /// Whether the query contains any NEAR/THEN proximity operators
    pub has_proximity: bool,
}

pub open spec fn empty_stats() -> QueryStats {
    QueryStats {
        term_count: 0,
        max_depth: 0,
        has_match_all: false,
        has_boost: false,
        has_negation: false,
        has_phrase: false,
        has_wildcard: false,
        has_fuzzy: false,
        has_proximity: false,
    }
}

impl Default for QueryStats {
    fn default() -> (s: Self)
        ensures
            s == empty_stats(),
    {
        QueryStats {
            term_count: 0,
            max_depth: 0,
            has_match_all: false,
            has_boost: false,
            has_negation: false,
            has_phrase: false,
            has_wildcard: false,
            has_fuzzy: false,
            has_proximity: false,
        }
    }
}

/// One more, held at `u32::MAX`.
pub open spec fn inc_sat(x: u32) -> u32 {
    if x < u32::MAX {
        (x + 1) as u32
    } else {
        x
    }
}

/// The statistics after visiting one node at `depth`, before its children.
pub open spec fn note_node(n: NodeV, s: QueryStats, depth: u32) -> QueryStats {
    let s = QueryStats { max_depth: if s.max_depth >= depth { s.max_depth } else { depth }, ..s };
    match n {
        NodeV::Term { wildcard, fuzzy, .. } => QueryStats {
            term_count: inc_sat(s.term_count),
            has_wildcard: s.has_wildcard || wildcard,
            has_fuzzy: s.has_fuzzy || fuzzy is Some,
            ..s
        },
        NodeV::Phrase { .. } => QueryStats { term_count: inc_sat(s.term_count), has_phrase: true, ..s },
        NodeV::All { .. } => QueryStats { has_match_all: true, ..s },
        NodeV::Not { .. } => QueryStats { has_negation: true, ..s },
        NodeV::Proximity { .. } => QueryStats { has_proximity: true, ..s },
        NodeV::Boost { .. } => QueryStats { has_boost: true, ..s },
        _ => s,
    }
}

/// The statistics after visiting a node at `depth` and, one level deeper, its children in order.
pub open spec fn collect_spec(n: NodeV, s: QueryStats, depth: u32) -> QueryStats
    decreases n,
{
    let s1 = note_node(n, s, depth);
    let d = inc_sat(depth);
    match n {
        NodeV::Group { child, .. } => collect_spec(*child, s1, d),
        NodeV::Not { child, .. } => collect_spec(*child, s1, d),
        NodeV::Boost { child, .. } => collect_spec(*child, s1, d),
        NodeV::Proximity { left, right, .. } => collect_spec(*right, collect_spec(*left, s1, d), d),
        NodeV::And { children, .. } => collect_list(children, s1, d),
        NodeV::Or { children, .. } => collect_list(children, s1, d),
        _ => s1,
    }
}

pub open spec fn collect_list(ns: Seq<NodeV>, s: QueryStats, depth: u32) -> QueryStats
    decreases ns,
{
    if ns.len() == 0 {
        s
    } else {
        collect_spec(ns[ns.len() - 1], collect_list(ns.subrange(0, ns.len() - 1), s, depth), depth)
    }
}

/// The statistics of a tree whose root is at depth 1.
pub open spec fn stats_spec(n: NodeV) -> QueryStats {
    collect_spec(n, empty_stats(), 1)
}

impl QueryStats {
    pub fn from_node(node: &Node) -> (s: Self)
        ensures
            s == stats_spec(node@),
    {
        let mut stats = QueryStats::default();
        Self::collect(node, &mut stats, 1);
        stats
    }

    fn collect(node: &Node, stats: &mut QueryStats, depth: u32)
        ensures
            *final(stats) == collect_spec(node@, *old(stats), depth),
        decreases node@, 1int,
    {
        if stats.max_depth < depth {
            stats.max_depth = depth;
        }
        match node {
            Node::Term { wildcard, fuzzy, .. } => {
                stats.term_count = stats.term_count.saturating_add(1);
                stats.has_wildcard = stats.has_wildcard || *wildcard;
                stats.has_fuzzy = stats.has_fuzzy || fuzzy.is_some();
            },
            Node::Phrase { .. } => {
                stats.term_count = stats.term_count.saturating_add(1);
                stats.has_phrase = true;
            },
            Node::All { .. } => stats.has_match_all = true,
            Node::Not { .. } => stats.has_negation = true,
            Node::Proximity { .. } => stats.has_proximity = true,
            Node::Boost { .. } => stats.has_boost = true,
            Node::Group { .. } | Node::And { .. } | Node::Or { .. } => {},
        }
        assert(*stats == note_node(node@, *old(stats), depth));
        let d = depth.saturating_add(1);
        match node {
            Node::Group { child, .. } => Self::collect(child, stats, d),
            Node::Not { child, .. } => Self::collect(child, stats, d),
            Node::Boost { child, .. } => Self::collect(child, stats, d),
            Node::Proximity { left, right, .. } => {
                Self::collect(left, stats, d);
                Self::collect(right, stats, d);
            },
            Node::And { children, .. } => Self::collect_all(node, children, stats, d),
            Node::Or { children, .. } => Self::collect_all(node, children, stats, d),
            _ => {},
        }
    }

    fn collect_all(node: &Node, children: &Vec<Node>, stats: &mut QueryStats, depth: u32)
        requires
            node@ is And && node@->And_children == nodes_view(children@) || node@ is Or
                && node@->Or_children == nodes_view(children@),
        ensures
            *final(stats) == collect_list(nodes_view(children@), *old(stats), depth),
        decreases node@, 0int,
    {
        let ghost cv = nodes_view(children@);
        proof {
            lemma_nodes_view(children@);
            assert(cv.take(0) =~= Seq::<NodeV>::empty());
        }
        let mut i: usize = 0;
        while i < children.len()
            invariant
                i <= children@.len(),
                cv == nodes_view(children@),
                cv.len() == children@.len(),
                forall|k: int| 0 <= k < children@.len() ==> #[trigger] cv[k] == children@[k]@,
                node@ is And && node@->And_children == cv || node@ is Or && node@->Or_children == cv,
                *stats == collect_list(cv.take(i as int), *old(stats), depth),
            decreases children@.len() - i,
        {
            let ghost t = cv.take(i + 1);
            proof {
                assert(t.subrange(0, t.len() - 1) =~= cv.take(i as int));
                assert(t[t.len() - 1] == children@[i as int]@);
                let nv = node@;
                if nv is And {
                    assert(decreases_to!(nv => nv->And_children));
                    assert(decreases_to!(nv->And_children => nv->And_children[i as int]));
                } else {
                    assert(decreases_to!(nv => nv->Or_children));
                    assert(decreases_to!(nv->Or_children => nv->Or_children[i as int]));
                }
            }
            Self::collect(&children[i], stats, depth);
            i = i + 1;
        }
        assert(cv.take(children@.len() as int) =~= cv);
    }
}

} // verus!

verus! {

impl Clone for Node {
    fn clone(&self) -> (res: Self)
        ensures
            res@ == self@,
        decreases self@, 1int,
    {
        match self {
            Node::Term { value, wildcard, fuzzy, span } => Node::Term {
                value: value.clone(),
                wildcard: *wildcard,
                fuzzy: *fuzzy,
                span: *span,
            },
            Node::Phrase { text, slop, span } => Node::Phrase { text: text.clone(), slop: *slop, span: *span },
            Node::All { span } => Node::All { span: *span },
            Node::Group { child, span } => {
                proof {
                    assert(self@->Group_child == child@);
                }
                Node::Group { child: Box::new((**child).clone()), span: *span }
            },
            Node::Not { child, span } => {
                proof {
                    assert(self@->Not_child == child@);
                }
                Node::Not { child: Box::new((**child).clone()), span: *span }
            },
            Node::Proximity { left, right, gap, ordered, span } => {
                proof {
                    assert(self@->Proximity_left == left@);
                    assert(self@->Proximity_right == right@);
                }
                Node::Proximity {
                    left: Box::new((**left).clone()),
                    right: Box::new((**right).clone()),
                    gap: *gap,
                    ordered: *ordered,
                    span: *span,
                }
            },
            Node::And { children, span } => Node::And { children: clone_children(self, children), span: *span },
            Node::Or { children, span } => Node::Or { children: clone_children(self, children), span: *span },
            Node::Boost { factor, child, span } => {
                proof {
                    assert(self@->Boost_child == child@);
                }
                Node::Boost { factor: factor.clone(), child: Box::new((**child).clone()), span: *span }
            },
        }
    }
}

fn clone_children(node: &Node, children: &Vec<Node>) -> (v: Vec<Node>)
    requires
        node@ is And && node@->And_children == nodes_view(children@) || node@ is Or
            && node@->Or_children == nodes_view(children@),
    ensures
        nodes_view(v@) == nodes_view(children@),
    decreases node@, 0int,
{
    let ghost cv = nodes_view(children@);
    proof {
        lemma_nodes_view(children@);
    }
    let mut v: Vec<Node> = Vec::new();
    let mut i: usize = 0;
    while i < children.len()
        invariant
            i <= children@.len(),
            cv == nodes_view(children@),
            cv.len() == children@.len(),
            forall|k: int| 0 <= k < children@.len() ==> #[trigger] cv[k] == children@[k]@,
            node@ is And && node@->And_children == cv || node@ is Or && node@->Or_children == cv,
            v@.len() == i,
            forall|k: int| 0 <= k < i ==> (#[trigger] v@[k])@ == children@[k]@,
        decreases children@.len() - i,
    {
        proof {
            let nv = node@;
            if nv is And {
                assert(decreases_to!(nv => nv->And_children));
                assert(decreases_to!(nv->And_children => nv->And_children[i as int]));
            } else {
                assert(decreases_to!(nv => nv->Or_children));
                assert(decreases_to!(nv->Or_children => nv->Or_children[i as int]));
            }
        }
        let c = children[i].clone();
        v.push(c);
        i = i + 1;
    }
    proof {
        lemma_nodes_view(v@);
        assert(nodes_view(v@) =~= cv);
    }
    v
}

} // verus!

verus! {

/// The number of levels of a tree: 1 for a leaf, one more than its tallest child otherwise.
pub open spec fn height(n: NodeV) -> nat
    decreases n,
{
    match n {
        NodeV::Group { child, .. } => 1 + height(*child),
        NodeV::Not { child, .. } => 1 + height(*child),
        NodeV::Boost { child, .. } => 1 + height(*child),
        NodeV::Proximity { left, right, .. } => 1 + if height(*left) >= height(*right) {
            height(*left)
        } else {
            height(*right)
        },
        NodeV::And { children, .. } => 1 + heights(children),
        NodeV::Or { children, .. } => 1 + heights(children),
        _ => 1,
    }
}

/// The tallest height among `s`, 0 when `s` is empty.
pub open spec fn heights(s: Seq<NodeV>) -> nat
    decreases s,
{
    if s.len() == 0 {
        0
    } else {
        let a = heights(s.subrange(0, s.len() - 1));
        let b = height(s[s.len() - 1]);
        if a >= b {
            a
        } else {
            b
        }
    }
}

/// The number of terms and phrases in a tree.
pub open spec fn term_total(n: NodeV) -> nat
    decreases n,
{
    match n {
        NodeV::Term { .. } => 1,
        NodeV::Phrase { .. } => 1,
        NodeV::Group { child, .. } => term_total(*child),
        NodeV::Not { child, .. } => term_total(*child),
        NodeV::Boost { child, .. } => term_total(*child),
        NodeV::Proximity { left, right, .. } => term_total(*left) + term_total(*right),
        NodeV::And { children, .. } => term_totals(children),
        NodeV::Or { children, .. } => term_totals(children),
        _ => 0,
    }
}

pub open spec fn term_totals(s: Seq<NodeV>) -> nat
    decreases s,
{
    if s.len() == 0 {
        0
    } else {
        term_totals(s.subrange(0, s.len() - 1)) + term_total(s[s.len() - 1])
    }
}

pub open spec fn max_nat(a: int, b: int) -> int {
    if a >= b {
        a
    } else {
        b
    }
}

proof fn lemma_height_pos(n: NodeV)
    ensures
        height(n) >= 1,
{
}

proof fn lemma_collect_depth(n: NodeV, s: QueryStats, d: u32)
    requires
        d >= 1,
        d + height(n) - 1 <= u32::MAX,
        s.term_count + term_total(n) <= u32::MAX,
    ensures
        collect_spec(n, s, d).max_depth == max_nat(s.max_depth as int, d + height(n) - 1),
        collect_spec(n, s, d).term_count == s.term_count + term_total(n),
    decreases n, 1int,
{
    let s1 = note_node(n, s, d);
    match n {
        NodeV::Group { child, .. } => lemma_height_pos(*child),
        NodeV::Not { child, .. } => lemma_height_pos(*child),
        NodeV::Boost { child, .. } => lemma_height_pos(*child),
        NodeV::Proximity { left, right, .. } => {
            lemma_height_pos(*left);
            lemma_height_pos(*right);
        },
        _ => {},
    }
    assert(s1.max_depth as int == max_nat(s.max_depth as int, d as int));
    assert(s1.term_count + term_total(n) == s.term_count + term_total(n) || n is Term || n is Phrase);
    match n {
        NodeV::Group { child, .. } => {
            assert(inc_sat(d) == d + 1);
            lemma_collect_depth(*child, s1, inc_sat(d));
            assert(collect_spec(n, s, d) == collect_spec(*child, s1, inc_sat(d)));
        },
        NodeV::Not { child, .. } => {
            assert(inc_sat(d) == d + 1);
            lemma_collect_depth(*child, s1, inc_sat(d));
            assert(collect_spec(n, s, d) == collect_spec(*child, s1, inc_sat(d)));
        },
        NodeV::Boost { child, .. } => {
            assert(inc_sat(d) == d + 1);
            lemma_collect_depth(*child, s1, inc_sat(d));
            assert(collect_spec(n, s, d) == collect_spec(*child, s1, inc_sat(d)));
        },
        NodeV::Proximity { left, right, .. } => {
            lemma_collect_depth(*left, s1, inc_sat(d));
            lemma_collect_depth(*right, collect_spec(*left, s1, inc_sat(d)), inc_sat(d));
        },
        NodeV::And { children, .. } => {
            lemma_collect_list_depth(children, s1, inc_sat(d));
        },
        NodeV::Or { children, .. } => {
            lemma_collect_list_depth(children, s1, inc_sat(d));
        },
        _ => {},
    }
}

proof fn lemma_collect_list_depth(ns: Seq<NodeV>, s: QueryStats, d: u32)
    requires
        d >= 1,
        d + heights(ns) - 1 <= u32::MAX,
        s.term_count + term_totals(ns) <= u32::MAX,
    ensures
        collect_list(ns, s, d).max_depth == if ns.len() == 0 {
            s.max_depth as int
        } else {
            max_nat(s.max_depth as int, d + heights(ns) - 1)
        },
        collect_list(ns, s, d).term_count == s.term_count + term_totals(ns),
    decreases ns, 0int,
{
    if ns.len() > 0 {
        let t = ns.subrange(0, ns.len() - 1);
        lemma_collect_list_depth(t, s, d);
        lemma_collect_depth(ns[ns.len() - 1], collect_list(t, s, d), d);
    }
}

/// A query's statistics count its levels and its terms: `max_depth` is the height of the
/// tree (a leaf alone is 1, every operand one level below its operator, proximity operands
/// included) and `term_count` the number of terms and phrases, for trees whose counts fit
/// in a `u32`.
pub proof fn law_stats_count_tree(n: NodeV)
    requires
        height(n) <= u32::MAX,
        term_total(n) <= u32::MAX,
    ensures
        stats_spec(n).max_depth == height(n),
        stats_spec(n).term_count == term_total(n),
{
    lemma_collect_depth(n, empty_stats(), 1);
}

} // verus!
