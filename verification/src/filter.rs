//! The filter engine: named boolean expression trees with regex leaves,
//! compiled into one shared append-only arena and evaluated against strings.
//!
//! A `Not` in the source expression is not a node of its own: it toggles the
//! `negate` flag that is propagated down to the nodes built beneath it, so a
//! doubled `Not` cancels. Every node applies its own `negate` flag to its
//! result (`value XOR negate`).

use vstd::prelude::*;

verus! {

broadcast use vstd::std_specs::vec::group_vec_axioms;

// ---------------------------------------------------------------------------
// Trusted boundary: the regex crate
// ---------------------------------------------------------------------------

#[verifier::external_type_specification]
#[verifier::external_body]
pub struct ExRegex(regex::Regex);

/// Whether `regex::Regex::new` accepts this pattern (with the default size
/// limit). The outcome depends on the pattern alone.
pub uninterp spec fn rx_valid(pattern: Seq<char>) -> bool;

/// What `regex::Regex::is_match` returns for a pattern and a haystack. The
/// outcome depends on the two strings alone.
pub uninterp spec fn rx_match(pattern: Seq<char>, text: Seq<char>) -> bool;

/// A compiled regex together with the pattern it was compiled from. The
/// private field keeps values of this type constructible only through
/// `regex_new`, so the compiled automaton always belongs to `pattern`.
pub struct CompiledRegex {
    pattern: String,
    rx: regex::Regex,
}

/// A compiled regex is abstracted by the pattern it was compiled from.
impl View for CompiledRegex {
    type V = Seq<char>;

    closed spec fn view(&self) -> Seq<char> {
        self.pattern@
    }
}

impl CompiledRegex {
    /// The pattern this regex was compiled from.
    pub fn pattern(&self) -> (p: &str)
        ensures
            p@ == self@,
    {
        self.pattern.as_str()
    }
}

/// Relies on `regex::Regex::new`: it succeeds exactly when the pattern is a
/// valid regex within the default size limit, and the compiled value keeps
/// the pattern it was built from.
#[verifier::external_body]
fn regex_new(pattern: &str) -> (r: Option<CompiledRegex>)
    ensures
        r is Some <==> rx_valid(pattern@),
        r matches Some(c) ==> c@ == pattern@,
{
    match regex::Regex::new(pattern) {
        Ok(rx) => Some(CompiledRegex { pattern: pattern.to_string(), rx }),
        Err(_) => None,
    }
}

/// Relies on `regex::Regex::is_match`: true exactly when the regex matches
/// anywhere in the haystack; the result is a function of the compiled
/// pattern and the haystack alone.
#[verifier::external_body]
fn regex_is_match(c: &CompiledRegex, text: &str) -> (b: bool)
    ensures
        b == rx_match(c@, text@),
{
    c.rx.is_match(text)
}

// ---------------------------------------------------------------------------
// Node data
// ---------------------------------------------------------------------------

/// Extension type standing for a negation flag on a node.
#[derive(Debug, Clone, Copy, PartialEq, Eq, Structural)]
pub enum BoolExt {
    True,
    False,
}

impl BoolExt {
    /// The flag as a spec-level boolean.
    pub open spec fn spec_bool(self) -> bool {
        self is True
    }

    pub fn as_bool(&self) -> (b: bool)
        ensures
            b == self.spec_bool(),
    {
        match self {
            BoolExt::True => true,
            BoolExt::False => false,
        }
    }

    pub fn from_bool(b: bool) -> (r: Self)
        ensures
            r.spec_bool() == b,
    {
        if b {
            BoolExt::True
        } else {
            BoolExt::False
        }
    }
}

/// What a node computes: a regex leaf, a conjunction, or a disjunction.
pub enum NodeType {
    Regex(CompiledRegex),
    And,
    Or,
}

/// The payload of one arena node: its kind and its negation flag.
pub struct FilterData {
    pub ty: NodeType,
    pub negate: BoolExt,
}

impl FilterData {
    pub fn new(ty: NodeType, negate: bool) -> (r: Self)
        ensures
            r.ty == ty,
            r.negate.spec_bool() == negate,
    {
        FilterData { ty, negate: BoolExt::from_bool(negate) }
    }
}

/// One node of the shared arena: its payload and the indices of its children
/// (empty for regex leaves). Children always sit at smaller indices, so the
/// arena is a DAG ordered by construction.
pub struct Node {
    pub datum: FilterData,
    pub edges: Vec<usize>,
}

// ---------------------------------------------------------------------------
// Mathematical model
// ---------------------------------------------------------------------------

/// Spec-level node kind: a regex leaf carries only its pattern.
pub enum NodeTypeV {
    Regex(Seq<char>),
    And,
    Or,
}

/// Spec-level node.
pub struct NodeV {
    pub ty: NodeTypeV,
    pub negate: bool,
    pub edges: Seq<int>,
}

pub open spec fn node_ty_view(t: NodeType) -> NodeTypeV {
    match t {
        NodeType::Regex(c) => NodeTypeV::Regex(c@),
        NodeType::And => NodeTypeV::And,
        NodeType::Or => NodeTypeV::Or,
    }
}

pub open spec fn node_view(n: Node) -> NodeV {
    NodeV {
        ty: node_ty_view(n.datum.ty),
        negate: n.datum.negate.spec_bool(),
        edges: n.edges@.map_values(|e: usize| e as int),
    }
}

pub open spec fn arena_view(ns: Seq<Node>) -> Seq<NodeV> {
    ns.map_values(|n: Node| node_view(n))
}

/// Well-formedness of an arena: every edge points strictly below its node,
/// so indices dereferenced during evaluation are always present.
pub open spec fn arena_wf(nodes: Seq<NodeV>) -> bool {
    forall|i: int, j: int|
        0 <= i < nodes.len() && 0 <= j < nodes[i].edges.len() ==> 0 <= #[trigger] nodes[i].edges[j]
            < i
}

/// The value of node `i` on `text`: a regex leaf matches, a conjunction
/// requires every child, a disjunction requires some child; each node then
/// applies its own negation flag. An `And` with no children is `true`, an
/// `Or` with no children is `false`.
pub open spec fn eval_node(nodes: Seq<NodeV>, i: int, text: Seq<char>) -> bool
    decreases i, 1int, 0int,
{
    if 0 <= i < nodes.len() {
        let n = nodes[i];
        match n.ty {
            NodeTypeV::Regex(p) => rx_match(p, text) != n.negate,
            NodeTypeV::And => eval_all(nodes, n.edges, 0, i, text) != n.negate,
            NodeTypeV::Or => eval_any(nodes, n.edges, 0, i, text) != n.negate,
        }
    } else {
        false
    }
}

/// Conjunction of the nodes `edges[k..]`, all of which must sit below `bound`.
pub open spec fn eval_all(
    nodes: Seq<NodeV>,
    edges: Seq<int>,
    k: int,
    bound: int,
    text: Seq<char>,
) -> bool
    decreases bound, 0int, edges.len() - k,
{
    if k < 0 || k >= edges.len() {
        true
    } else if 0 <= edges[k] < bound {
        eval_node(nodes, edges[k], text) && eval_all(nodes, edges, k + 1, bound, text)
    } else {
        false
    }
}

/// Disjunction of the nodes `edges[k..]`, all of which must sit below `bound`.
pub open spec fn eval_any(
    nodes: Seq<NodeV>,
    edges: Seq<int>,
    k: int,
    bound: int,
    text: Seq<char>,
) -> bool
    decreases bound, 0int, edges.len() - k,
{
    if k < 0 || k >= edges.len() {
        false
    } else if 0 <= edges[k] < bound {
        eval_node(nodes, edges[k], text) || eval_any(nodes, edges, k + 1, bound, text)
    } else {
        true
    }
}

// ---------------------------------------------------------------------------
// Executable evaluation
// ---------------------------------------------------------------------------

/// Evaluate the tree rooted at `store[i]` against `text`, by recursive
/// traversal of the shared DAG. Conjunctions stop at the first false child
/// and disjunctions at the first true one; the result is unchanged because
/// regex evaluation has no effect on anything.
pub fn recursive_match(store: &Vec<Node>, i: usize, text: &str) -> (b: bool)
    requires
        arena_wf(arena_view(store@)),
        i < store@.len(),
    ensures
        b == eval_node(arena_view(store@), i as int, text@),
    decreases i,
{
    let ghost nv = arena_view(store@);
    let node = &store[i];
    assert(nv[i as int] == node_view(store@[i as int]));
    let neg = node.datum.negate.as_bool();
    match &node.datum.ty {
        NodeType::Regex(c) => {
            let m = regex_is_match(c, text);
            m != neg
        },
        NodeType::And => {
            let ghost ev = node_view(store@[i as int]).edges;
            let mut k: usize = 0;
            let mut all: bool = true;
            while k < node.edges.len()
                invariant_except_break
                    all,
                    arena_wf(nv),
                    i < store@.len(),
                    nv == arena_view(store@),
                    node == store@[i as int],
                    ev == node_view(store@[i as int]).edges,
                    k <= ev.len(),
                    ev.len() == node.edges@.len(),
                    eval_all(nv, ev, 0, i as int, text@) == eval_all(
                        nv,
                        ev,
                        k as int,
                        i as int,
                        text@,
                    ),
                ensures
                    all == eval_all(nv, ev, 0, i as int, text@),
                decreases ev.len() - k,
            {
                let e = node.edges[k];
                assert(ev[k as int] == e as int);
                assert(0 <= nv[i as int].edges[k as int] < i);
                let c = recursive_match(store, e, text);
                if !c {
                    all = false;
                    break ;
                }
                k = k + 1;
            }
            all != neg
        },
        NodeType::Or => {
            let ghost ev = node_view(store@[i as int]).edges;
            let mut k: usize = 0;
            let mut any: bool = false;
            while k < node.edges.len()
                invariant_except_break
                    !any,
                    arena_wf(nv),
                    i < store@.len(),
                    nv == arena_view(store@),
                    node == store@[i as int],
                    ev == node_view(store@[i as int]).edges,
                    k <= ev.len(),
                    ev.len() == node.edges@.len(),
                    eval_any(nv, ev, 0, i as int, text@) == eval_any(
                        nv,
                        ev,
                        k as int,
                        i as int,
                        text@,
                    ),
                ensures
                    any == eval_any(nv, ev, 0, i as int, text@),
                decreases ev.len() - k,
            {
                let e = node.edges[k];
                assert(ev[k as int] == e as int);
                assert(0 <= nv[i as int].edges[k as int] < i);
                let c = recursive_match(store, e, text);
                if c {
                    any = true;
                    break ;
                }
                k = k + 1;
            }
            any != neg
        },
    }
}

// ---------------------------------------------------------------------------
// Source expressions
// ---------------------------------------------------------------------------

/// One expression of the configuration: a conjunction, a disjunction, a
/// negation (which is not a node: it flips the flag propagated to what is
/// below it), or a regex pattern.
pub enum FilterSeed {
    And(Vec<FilterSeed>),
    Or(Vec<FilterSeed>),
    Not(Vec<FilterSeed>),
    Regex(String),
}

/// The value of a seed list read as a conjunction, under negation flag `neg`.
pub open spec fn and_eval(seeds: Seq<FilterSeed>, neg: bool, text: Seq<char>) -> bool
    decreases seeds, 0int,
{
    if seeds.len() == 0 {
        true
    } else {
        and_contrib(seeds[0], neg, text) && and_eval(seeds.drop_first(), neg, text)
    }
}

/// What one seed contributes to an enclosing conjunction: a `Not` splices its
/// children into that same conjunction under the flipped flag.
pub open spec fn and_contrib(seed: FilterSeed, neg: bool, text: Seq<char>) -> bool
    decreases seed, 1int,
{
    match seed {
        FilterSeed::Regex(p) => rx_match(p@, text) != neg,
        FilterSeed::And(v) => and_eval(v@, neg, text) != neg,
        FilterSeed::Or(v) => or_eval(v@, neg, text) != neg,
        FilterSeed::Not(v) => and_eval(v@, !neg, text),
    }
}

/// The value of a seed list read as a disjunction, under negation flag `neg`.
pub open spec fn or_eval(seeds: Seq<FilterSeed>, neg: bool, text: Seq<char>) -> bool
    decreases seeds, 0int,
{
    if seeds.len() == 0 {
        false
    } else {
        or_contrib(seeds[0], neg, text) || or_eval(seeds.drop_first(), neg, text)
    }
}

/// What one seed contributes to an enclosing disjunction.
pub open spec fn or_contrib(seed: FilterSeed, neg: bool, text: Seq<char>) -> bool
    decreases seed, 1int,
{
    match seed {
        FilterSeed::Regex(p) => rx_match(p@, text) != neg,
        FilterSeed::And(v) => and_eval(v@, neg, text) != neg,
        FilterSeed::Or(v) => or_eval(v@, neg, text) != neg,
        FilterSeed::Not(v) => or_eval(v@, !neg, text),
    }
}

/// Every regex pattern in the list compiles.
pub open spec fn seeds_valid(seeds: Seq<FilterSeed>) -> bool
    decreases seeds, 0int,
{
    if seeds.len() == 0 {
        true
    } else {
        seed_valid(seeds[0]) && seeds_valid(seeds.drop_first())
    }
}

/// Every regex pattern in the seed compiles.
pub open spec fn seed_valid(seed: FilterSeed) -> bool
    decreases seed, 1int,
{
    match seed {
        FilterSeed::Regex(p) => rx_valid(p@),
        FilterSeed::And(v) => seeds_valid(v@),
        FilterSeed::Or(v) => seeds_valid(v@),
        FilterSeed::Not(v) => seeds_valid(v@),
    }
}

// ---------------------------------------------------------------------------
// Framing: evaluation only reads the arena prefix below the node
// ---------------------------------------------------------------------------

/// Appending nodes to the arena never changes the value of an existing node.
pub proof fn lemma_eval_node_prefix(ns1: Seq<NodeV>, ns2: Seq<NodeV>, i: int, text: Seq<char>)
    requires
        ns1.len() <= ns2.len(),
        forall|j: int| 0 <= j < ns1.len() ==> ns1[j] == ns2[j],
        i < ns1.len(),
    ensures
        eval_node(ns2, i, text) == eval_node(ns1, i, text),
    decreases i, 1int, 0int,
{
    if 0 <= i {
        let n = ns1[i];
        match n.ty {
            NodeTypeV::Regex(_) => {},
            NodeTypeV::And => {
                lemma_eval_all_prefix(ns1, ns2, n.edges, 0, i, text);
            },
            NodeTypeV::Or => {
                lemma_eval_any_prefix(ns1, ns2, n.edges, 0, i, text);
            },
        }
    }
}

proof fn lemma_eval_all_prefix(
    ns1: Seq<NodeV>,
    ns2: Seq<NodeV>,
    edges: Seq<int>,
    k: int,
    bound: int,
    text: Seq<char>,
)
    requires
        ns1.len() <= ns2.len(),
        forall|j: int| 0 <= j < ns1.len() ==> ns1[j] == ns2[j],
        bound <= ns1.len(),
    ensures
        eval_all(ns2, edges, k, bound, text) == eval_all(ns1, edges, k, bound, text),
    decreases bound, 0int, edges.len() - k,
{
    if 0 <= k < edges.len() {
        if 0 <= edges[k] < bound {
            lemma_eval_node_prefix(ns1, ns2, edges[k], text);
            lemma_eval_all_prefix(ns1, ns2, edges, k + 1, bound, text);
        }
    }
}

proof fn lemma_eval_any_prefix(
    ns1: Seq<NodeV>,
    ns2: Seq<NodeV>,
    edges: Seq<int>,
    k: int,
    bound: int,
    text: Seq<char>,
)
    requires
        ns1.len() <= ns2.len(),
        forall|j: int| 0 <= j < ns1.len() ==> ns1[j] == ns2[j],
        bound <= ns1.len(),
    ensures
        eval_any(ns2, edges, k, bound, text) == eval_any(ns1, edges, k, bound, text),
    decreases bound, 0int, edges.len() - k,
{
    if 0 <= k < edges.len() {
        if 0 <= edges[k] < bound {
            lemma_eval_node_prefix(ns1, ns2, edges[k], text);
            lemma_eval_any_prefix(ns1, ns2, edges, k + 1, bound, text);
        }
    }
}

/// Evaluating an edge list is insensitive to raising the bound or extending
/// the arena, as long as every edge lies under the old bound.
proof fn lemma_eval_all_grow(
    ns1: Seq<NodeV>,
    ns2: Seq<NodeV>,
    edges: Seq<int>,
    k: int,
    b1: int,
    b2: int,
    text: Seq<char>,
)
    requires
        ns1.len() <= ns2.len(),
        forall|j: int| 0 <= j < ns1.len() ==> ns1[j] == ns2[j],
        b1 <= b2,
        b1 <= ns1.len(),
        forall|j: int| k <= j < edges.len() ==> 0 <= #[trigger] edges[j] < b1,
    ensures
        eval_all(ns2, edges, k, b2, text) == eval_all(ns1, edges, k, b1, text),
    decreases edges.len() - k,
{
    if 0 <= k < edges.len() {
        lemma_eval_node_prefix(ns1, ns2, edges[k], text);
        lemma_eval_all_grow(ns1, ns2, edges, k + 1, b1, b2, text);
    } else if k < 0 {
        lemma_eval_all_grow(ns1, ns2, edges, 0, b1, b2, text);
        assert(eval_all(ns2, edges, k, b2, text) == eval_all(ns1, edges, k, b1, text));
    }
}

proof fn lemma_eval_any_grow(
    ns1: Seq<NodeV>,
    ns2: Seq<NodeV>,
    edges: Seq<int>,
    k: int,
    b1: int,
    b2: int,
    text: Seq<char>,
)
    requires
        ns1.len() <= ns2.len(),
        forall|j: int| 0 <= j < ns1.len() ==> ns1[j] == ns2[j],
        b1 <= b2,
        b1 <= ns1.len(),
        forall|j: int| k <= j < edges.len() ==> 0 <= #[trigger] edges[j] < b1,
    ensures
        eval_any(ns2, edges, k, b2, text) == eval_any(ns1, edges, k, b1, text),
    decreases edges.len() - k,
{
    if 0 <= k < edges.len() {
        lemma_eval_node_prefix(ns1, ns2, edges[k], text);
        lemma_eval_any_grow(ns1, ns2, edges, k + 1, b1, b2, text);
    } else if k < 0 {
        lemma_eval_any_grow(ns1, ns2, edges, 0, b1, b2, text);
        assert(eval_any(ns2, edges, k, b2, text) == eval_any(ns1, edges, k, b1, text));
    }
}

// ---------------------------------------------------------------------------
// Splitting an edge list
// ---------------------------------------------------------------------------

proof fn lemma_eval_all_offset(
    ns: Seq<NodeV>,
    e1: Seq<int>,
    e2: Seq<int>,
    j: int,
    bound: int,
    text: Seq<char>,
)
    requires
        0 <= j,
    ensures
        eval_all(ns, e1 + e2, e1.len() + j, bound, text) == eval_all(ns, e2, j, bound, text),
    decreases e2.len() - j,
{
    if j < e2.len() {
        assert((e1 + e2)[e1.len() + j] == e2[j]);
        lemma_eval_all_offset(ns, e1, e2, j + 1, bound, text);
    }
}

proof fn lemma_eval_any_offset(
    ns: Seq<NodeV>,
    e1: Seq<int>,
    e2: Seq<int>,
    j: int,
    bound: int,
    text: Seq<char>,
)
    requires
        0 <= j,
    ensures
        eval_any(ns, e1 + e2, e1.len() + j, bound, text) == eval_any(ns, e2, j, bound, text),
    decreases e2.len() - j,
{
    if j < e2.len() {
        assert((e1 + e2)[e1.len() + j] == e2[j]);
        lemma_eval_any_offset(ns, e1, e2, j + 1, bound, text);
    }
}

/// A concatenated edge list evaluates as the conjunction (resp. disjunction)
/// of its two halves.
proof fn lemma_eval_all_concat(
    ns: Seq<NodeV>,
    e1: Seq<int>,
    e2: Seq<int>,
    k: int,
    bound: int,
    text: Seq<char>,
)
    requires
        0 <= k <= e1.len(),
    ensures
        eval_all(ns, e1 + e2, k, bound, text) == (eval_all(ns, e1, k, bound, text) && eval_all(
            ns,
            e2,
            0,
            bound,
            text,
        )),
    decreases e1.len() - k,
{
    if k == e1.len() {
        lemma_eval_all_offset(ns, e1, e2, 0, bound, text);
    } else {
        assert((e1 + e2)[k] == e1[k]);
        lemma_eval_all_concat(ns, e1, e2, k + 1, bound, text);
    }
}

proof fn lemma_eval_any_concat(
    ns: Seq<NodeV>,
    e1: Seq<int>,
    e2: Seq<int>,
    k: int,
    bound: int,
    text: Seq<char>,
)
    requires
        0 <= k <= e1.len(),
    ensures
        eval_any(ns, e1 + e2, k, bound, text) == (eval_any(ns, e1, k, bound, text) || eval_any(
            ns,
            e2,
            0,
            bound,
            text,
        )),
    decreases e1.len() - k,
{
    if k == e1.len() {
        lemma_eval_any_offset(ns, e1, e2, 0, bound, text);
    } else {
        assert((e1 + e2)[k] == e1[k]);
        lemma_eval_any_concat(ns, e1, e2, k + 1, bound, text);
    }
}

// ---------------------------------------------------------------------------
// Seed-list lemmas
// ---------------------------------------------------------------------------

proof fn lemma_and_eval_push(s: Seq<FilterSeed>, x: FilterSeed, neg: bool, text: Seq<char>)
    ensures
        and_eval(s.push(x), neg, text) == (and_eval(s, neg, text) && and_contrib(x, neg, text)),
    decreases s.len(),
{
    if s.len() == 0 {
        assert(s.push(x)[0] == x);
        assert(s.push(x).drop_first() =~= Seq::<FilterSeed>::empty());
        assert(and_eval(s.push(x), neg, text) == (and_contrib(x, neg, text) && and_eval(
            s.push(x).drop_first(),
            neg,
            text,
        )));
        assert(and_eval(Seq::<FilterSeed>::empty(), neg, text));
    } else {
        assert(s.push(x)[0] == s[0]);
        assert(s.push(x).drop_first() =~= s.drop_first().push(x));
        lemma_and_eval_push(s.drop_first(), x, neg, text);
        assert(and_eval(s.push(x), neg, text) == (and_contrib(s[0], neg, text) && and_eval(
            s.push(x).drop_first(),
            neg,
            text,
        )));
        assert(and_eval(s, neg, text) == (and_contrib(s[0], neg, text) && and_eval(
            s.drop_first(),
            neg,
            text,
        )));
    }
}

proof fn lemma_or_eval_push(s: Seq<FilterSeed>, x: FilterSeed, neg: bool, text: Seq<char>)
    ensures
        or_eval(s.push(x), neg, text) == (or_eval(s, neg, text) || or_contrib(x, neg, text)),
    decreases s.len(),
{
    if s.len() == 0 {
        assert(s.push(x)[0] == x);
        assert(s.push(x).drop_first() =~= Seq::<FilterSeed>::empty());
        assert(or_eval(s.push(x), neg, text) == (or_contrib(x, neg, text) || or_eval(
            s.push(x).drop_first(),
            neg,
            text,
        )));
        assert(!or_eval(Seq::<FilterSeed>::empty(), neg, text));
    } else {
        assert(s.push(x)[0] == s[0]);
        assert(s.push(x).drop_first() =~= s.drop_first().push(x));
        lemma_or_eval_push(s.drop_first(), x, neg, text);
        assert(or_eval(s.push(x), neg, text) == (or_contrib(s[0], neg, text) || or_eval(
            s.push(x).drop_first(),
            neg,
            text,
        )));
        assert(or_eval(s, neg, text) == (or_contrib(s[0], neg, text) || or_eval(
            s.drop_first(),
            neg,
            text,
        )));
    }
}

proof fn lemma_seeds_valid_index(s: Seq<FilterSeed>)
    ensures
        seeds_valid(s) == (forall|k: int| 0 <= k < s.len() ==> seed_valid(#[trigger] s[k])),
    decreases s.len(),
{
    if s.len() > 0 {
        lemma_seeds_valid_index(s.drop_first());
        assert(forall|k: int|
            0 <= k < s.drop_first().len() ==> #[trigger] s.drop_first()[k] == s[k + 1]);
        if seed_valid(s[0]) && (forall|k: int|
            0 <= k < s.drop_first().len() ==> seed_valid(#[trigger] s.drop_first()[k])) {
            assert(forall|k: int| 0 <= k < s.len() ==> seed_valid(#[trigger] s[k])) by {
                assert(forall|k: int|
                    1 <= k < s.len() ==> #[trigger] s[k] == s.drop_first()[k - 1]);
            }
        }
    }
}

// ---------------------------------------------------------------------------
// Compilation
// ---------------------------------------------------------------------------

/// The spec-level edge list of an exec edge vector.
pub open spec fn edges_view(edges: Seq<usize>) -> Seq<int> {
    edges.map_values(|e: usize| e as int)
}

/// A one-element edge list evaluates, as conjunction or disjunction, to the
/// value of its single node.
proof fn lemma_eval_singleton(ns: Seq<NodeV>, ev: Seq<int>, idx: int, bound: int, text: Seq<char>)
    requires
        ev.len() == 1,
        ev[0] == idx,
        0 <= idx < bound,
    ensures
        eval_all(ns, ev, 0, bound, text) == eval_node(ns, idx, text),
        eval_any(ns, ev, 0, bound, text) == eval_node(ns, idx, text),
{
    assert(eval_all(ns, ev, 1, bound, text));
    assert(!eval_any(ns, ev, 1, bound, text));
}

/// Compile one seed into the arena under negation flag `neg`, returning the
/// indices it contributes to the enclosing node (several for a spliced
/// `Not`, one otherwise).
fn init_seed(arena: &mut Vec<Node>, negate: bool, seed: &FilterSeed) -> (r: Result<
    Vec<usize>,
    crate::load::LoadError,
>)
    requires
        arena_wf(arena_view(old(arena)@)),
    ensures
        arena_wf(arena_view(final(arena)@)),
        final(arena)@.len() >= old(arena)@.len(),
        forall|j: int| 0 <= j < old(arena)@.len() ==> final(arena)@[j] == old(arena)@[j],
        r matches Ok(edges) ==> {
            &&& forall|j: int| 0 <= j < edges@.len() ==> (#[trigger] edges@[j] as int)
                < final(arena)@.len()
            &&& forall|text: Seq<char>|
                eval_all(
                    arena_view(final(arena)@),
                    edges_view(edges@),
                    0,
                    final(arena)@.len() as int,
                    text,
                ) == and_contrib(*seed, negate, text)
            &&& forall|text: Seq<char>|
                eval_any(
                    arena_view(final(arena)@),
                    edges_view(edges@),
                    0,
                    final(arena)@.len() as int,
                    text,
                ) == or_contrib(*seed, negate, text)
        },
        r is Ok <==> seed_valid(*seed),
        r matches Err(e) ==> e matches crate::load::LoadError::InvalidRegex(p) && !rx_valid(p@),
    decreases *seed, 1int,
{
    match seed {
        FilterSeed::Regex(p) => {
            match regex_new(p.as_str()) {
                Some(c) => {
                    let idx = arena.len();
                    let ghost ns0 = arena_view(arena@);
                    arena.push(
                        Node { datum: FilterData::new(NodeType::Regex(c), negate), edges: Vec::new() },
                    );
                    let ghost ns1 = arena_view(arena@);
                    let mut out: Vec<usize> = Vec::new();
                    out.push(idx);
                    proof {
                        assert(ns1.len() == ns0.len() + 1);
                        assert(forall|j: int| 0 <= j < ns0.len() ==> ns1[j] == ns0[j]);
                        assert(ns1[idx as int].ty matches NodeTypeV::Regex(q) && q == p@);
                        assert(ns1[idx as int].negate == negate);
                        assert(ns1[idx as int].edges.len() == 0);
                        assert(arena_wf(ns1));
                        assert(edges_view(out@) =~= seq![idx as int]);
                        assert forall|text: Seq<char>|
                            eval_all(ns1, edges_view(out@), 0, ns1.len() as int, text)
                                == and_contrib(*seed, negate, text) && eval_any(
                                ns1,
                                edges_view(out@),
                                0,
                                ns1.len() as int,
                                text,
                            ) == or_contrib(*seed, negate, text) by {
                            lemma_eval_singleton(
                                ns1,
                                edges_view(out@),
                                idx as int,
                                ns1.len() as int,
                                text,
                            );
                            assert(and_contrib(*seed, negate, text) == (rx_match(p@, text)
                                != negate));
                            assert(or_contrib(*seed, negate, text) == (rx_match(p@, text)
                                != negate));
                            assert(eval_node(ns1, idx as int, text) == (rx_match(p@, text)
                                != negate));
                        }
                    }
                    Ok(out)
                },
                None => Err(crate::load::LoadError::InvalidRegex(p.clone())),
            }
        },
        FilterSeed::Not(v) => {
            let r = init_list(arena, !negate, v);
            match r {
                Ok(edges) => {
                    proof {
                        assert(forall|text: Seq<char>|
                            and_contrib(*seed, negate, text) == and_eval(v@, !negate, text));
                        assert(forall|text: Seq<char>|
                            or_contrib(*seed, negate, text) == or_eval(v@, !negate, text));
                    }
                    Ok(edges)
                },
                Err(e) => Err(e),
            }
        },
        FilterSeed::And(v) => {
            match init_list(arena, negate, v) {
                Ok(children) => {
                    let idx = arena.len();
                    let ghost ns0 = arena_view(arena@);
                    let ghost cv = edges_view(children@);
                    arena.push(
                        Node { datum: FilterData::new(NodeType::And, negate), edges: children },
                    );
                    let ghost ns1 = arena_view(arena@);
                    let mut out: Vec<usize> = Vec::new();
                    out.push(idx);
                    proof {
                        assert(ns1.len() == ns0.len() + 1);
                        assert(forall|j: int| 0 <= j < ns0.len() ==> ns1[j] == ns0[j]);
                        assert(ns1[idx as int].ty is And);
                        assert(ns1[idx as int].negate == negate);
                        assert(ns1[idx as int].edges == cv);
                        assert(arena_wf(ns1));
                        assert(edges_view(out@) =~= seq![idx as int]);
                        assert forall|text: Seq<char>|
                            eval_all(ns1, edges_view(out@), 0, ns1.len() as int, text)
                                == and_contrib(*seed, negate, text) && eval_any(
                                ns1,
                                edges_view(out@),
                                0,
                                ns1.len() as int,
                                text,
                            ) == or_contrib(*seed, negate, text) by {
                            lemma_eval_singleton(
                                ns1,
                                edges_view(out@),
                                idx as int,
                                ns1.len() as int,
                                text,
                            );
                            lemma_eval_all_grow(ns0, ns1, cv, 0, idx as int, idx as int, text);
                            assert(and_contrib(*seed, negate, text) == (and_eval(v@, negate, text)
                                != negate));
                            assert(or_contrib(*seed, negate, text) == (and_eval(v@, negate, text)
                                != negate));
                            assert(eval_node(ns1, idx as int, text) == (eval_all(
                                ns1,
                                cv,
                                0,
                                idx as int,
                                text,
                            ) != negate));
                        }
                    }
                    Ok(out)
                },
                Err(e) => Err(e),
            }
        },
        FilterSeed::Or(v) => {
            match init_list(arena, negate, v) {
                Ok(children) => {
                    let idx = arena.len();
                    let ghost ns0 = arena_view(arena@);
                    let ghost cv = edges_view(children@);
                    arena.push(
                        Node { datum: FilterData::new(NodeType::Or, negate), edges: children },
                    );
                    let ghost ns1 = arena_view(arena@);
                    let mut out: Vec<usize> = Vec::new();
                    out.push(idx);
                    proof {
                        assert(ns1.len() == ns0.len() + 1);
                        assert(forall|j: int| 0 <= j < ns0.len() ==> ns1[j] == ns0[j]);
                        assert(ns1[idx as int].ty is Or);
                        assert(ns1[idx as int].negate == negate);
                        assert(ns1[idx as int].edges == cv);
                        assert(arena_wf(ns1));
                        assert(edges_view(out@) =~= seq![idx as int]);
                        assert forall|text: Seq<char>|
                            eval_all(ns1, edges_view(out@), 0, ns1.len() as int, text)
                                == and_contrib(*seed, negate, text) && eval_any(
                                ns1,
                                edges_view(out@),
                                0,
                                ns1.len() as int,
                                text,
                            ) == or_contrib(*seed, negate, text) by {
                            lemma_eval_singleton(
                                ns1,
                                edges_view(out@),
                                idx as int,
                                ns1.len() as int,
                                text,
                            );
                            lemma_eval_any_grow(ns0, ns1, cv, 0, idx as int, idx as int, text);
                            assert(and_contrib(*seed, negate, text) == (or_eval(v@, negate, text)
                                != negate));
                            assert(or_contrib(*seed, negate, text) == (or_eval(v@, negate, text)
                                != negate));
                            assert(eval_node(ns1, idx as int, text) == (eval_any(
                                ns1,
                                cv,
                                0,
                                idx as int,
                                text,
                            ) != negate));
                        }
                    }
                    Ok(out)
                },
                Err(e) => Err(e),
            }
        },
    }
}

/// Compile a seed list into the arena, returning the concatenation of each
/// seed's contributed indices.
fn init_list(arena: &mut Vec<Node>, negate: bool, seeds: &Vec<FilterSeed>) -> (r: Result<
    Vec<usize>,
    crate::load::LoadError,
>)
    requires
        arena_wf(arena_view(old(arena)@)),
    ensures
        arena_wf(arena_view(final(arena)@)),
        final(arena)@.len() >= old(arena)@.len(),
        forall|j: int| 0 <= j < old(arena)@.len() ==> final(arena)@[j] == old(arena)@[j],
        r matches Ok(edges) ==> {
            &&& forall|j: int| 0 <= j < edges@.len() ==> (#[trigger] edges@[j] as int)
                < final(arena)@.len()
            &&& forall|text: Seq<char>|
                eval_all(
                    arena_view(final(arena)@),
                    edges_view(edges@),
                    0,
                    final(arena)@.len() as int,
                    text,
                ) == and_eval(seeds@, negate, text)
            &&& forall|text: Seq<char>|
                eval_any(
                    arena_view(final(arena)@),
                    edges_view(edges@),
                    0,
                    final(arena)@.len() as int,
                    text,
                ) == or_eval(seeds@, negate, text)
        },
        r is Ok <==> seeds_valid(seeds@),
        r matches Err(e) ==> e matches crate::load::LoadError::InvalidRegex(p) && !rx_valid(p@),
    decreases seeds@, 0int,
{
    let ghost arena0 = arena@;
    let mut out: Vec<usize> = Vec::new();
    let mut k: usize = 0;
    while k < seeds.len()
        invariant
            arena0 == old(arena)@,
            arena_wf(arena_view(arena@)),
            arena@.len() >= arena0.len(),
            forall|j: int| 0 <= j < arena0.len() ==> arena@[j] == arena0[j],
            k <= seeds@.len(),
            forall|j: int| 0 <= j < k ==> seed_valid(#[trigger] seeds@[j]),
            forall|j: int| 0 <= j < out@.len() ==> (#[trigger] out@[j] as int) < arena@.len(),
            forall|text: Seq<char>|
                eval_all(arena_view(arena@), edges_view(out@), 0, arena@.len() as int, text)
                    == and_eval(seeds@.subrange(0, k as int), negate, text),
            forall|text: Seq<char>|
                eval_any(arena_view(arena@), edges_view(out@), 0, arena@.len() as int, text)
                    == or_eval(seeds@.subrange(0, k as int), negate, text),
        decreases seeds@.len() - k,
    {
        proof {
            assert(decreases_to!(seeds@ => seeds@[k as int]));
        }
        let ghost ns_a = arena_view(arena@);
        let ghost len_a = arena@.len() as int;
        let ghost out_a = edges_view(out@);
        let seed = &seeds[k];
        let r = init_seed(arena, negate, seed);
        match r {
            Ok(mut extra) => {
                let ghost ns_b = arena_view(arena@);
                let ghost len_b = arena@.len() as int;
                let ghost extra_v = edges_view(extra@);
                out.append(&mut extra);
                proof {
                    assert(edges_view(out@) =~= out_a + extra_v);
                    assert(seeds@.subrange(0, (k + 1) as int) =~= seeds@.subrange(
                        0,
                        k as int,
                    ).push(seeds@[k as int]));
                    assert forall|text: Seq<char>|
                        eval_all(ns_b, edges_view(out@), 0, len_b, text) == and_eval(
                            seeds@.subrange(0, (k + 1) as int),
                            negate,
                            text,
                        ) by {
                        lemma_eval_all_grow(ns_a, ns_b, out_a, 0, len_a, len_b, text);
                        lemma_eval_all_concat(ns_b, out_a, extra_v, 0, len_b, text);
                        lemma_and_eval_push(
                            seeds@.subrange(0, k as int),
                            seeds@[k as int],
                            negate,
                            text,
                        );
                    }
                    assert forall|text: Seq<char>|
                        eval_any(ns_b, edges_view(out@), 0, len_b, text) == or_eval(
                            seeds@.subrange(0, (k + 1) as int),
                            negate,
                            text,
                        ) by {
                        lemma_eval_any_grow(ns_a, ns_b, out_a, 0, len_a, len_b, text);
                        lemma_eval_any_concat(ns_b, out_a, extra_v, 0, len_b, text);
                        lemma_or_eval_push(
                            seeds@.subrange(0, k as int),
                            seeds@[k as int],
                            negate,
                            text,
                        );
                    }
                }
                k = k + 1;
            },
            Err(e) => {
                proof {
                    lemma_seeds_valid_index(seeds@);
                }
                return Err(e);
            },
        }
    }
    proof {
        assert(seeds@.subrange(0, seeds@.len() as int) =~= seeds@);
        lemma_seeds_valid_index(seeds@);
    }
    Ok(out)
}

/// Compile a whole seed list into one tree root: an empty list becomes an
/// always-true `And` root, a single contribution becomes the root itself,
/// and several contributions hang off a fresh `And` root.
pub fn init_tree(arena: &mut Vec<Node>, seeds: &Vec<FilterSeed>) -> (r: Result<
    usize,
    crate::load::LoadError,
>)
    requires
        arena_wf(arena_view(old(arena)@)),
    ensures
        arena_wf(arena_view(final(arena)@)),
        final(arena)@.len() >= old(arena)@.len(),
        forall|j: int| 0 <= j < old(arena)@.len() ==> final(arena)@[j] == old(arena)@[j],
        r matches Ok(root) ==> (root as int) < final(arena)@.len() && forall|text: Seq<char>|
            eval_node(arena_view(final(arena)@), root as int, text) == and_eval(seeds@, false, text),
        r is Ok <==> seeds_valid(seeds@),
        r matches Err(e) ==> e matches crate::load::LoadError::InvalidRegex(p) && !rx_valid(p@),
{
    let edges = match init_list(arena, false, seeds) {
        Ok(edges) => edges,
        Err(e) => {
            return Err(e);
        },
    };
    let ghost ns0 = arena_view(arena@);
    let ghost len0 = arena@.len() as int;
    let ghost ev = edges_view(edges@);
    if edges.len() == 1 {
        let root = edges[0];
        proof {
            assert forall|text: Seq<char>|
                eval_node(ns0, root as int, text) == and_eval(seeds@, false, text) by {
                assert(eval_all(ns0, ev, 0, len0, text) == (eval_node(ns0, ev[0], text)
                    && eval_all(ns0, ev, 1, len0, text)));
            }
        }
        Ok(root)
    } else {
        let idx = arena.len();
        arena.push(Node { datum: FilterData::new(NodeType::And, false), edges });
        let ghost ns1 = arena_view(arena@);
        proof {
            assert(ns1.len() == ns0.len() + 1);
            assert(forall|j: int| 0 <= j < ns0.len() ==> ns1[j] == ns0[j]);
            assert(ns1[idx as int].ty is And);
            assert(ns1[idx as int].negate == false);
            assert(ns1[idx as int].edges == ev);
            assert(arena_wf(ns1));
            assert forall|text: Seq<char>|
                eval_node(ns1, idx as int, text) == and_eval(seeds@, false, text) by {
                lemma_eval_all_grow(ns0, ns1, ev, 0, idx as int, idx as int, text);
            }
        }
        Ok(idx)
    }
}

// ---------------------------------------------------------------------------
// FilterSet
// ---------------------------------------------------------------------------

/// The names of a configuration, in order.
pub open spec fn input_names(filters: Seq<(String, Vec<FilterSeed>)>) -> Seq<Seq<char>> {
    filters.map_values(|p: (String, Vec<FilterSeed>)| p.0@)
}

/// No two entries share a name.
pub open spec fn names_distinct(ns: Seq<Seq<char>>) -> bool {
    forall|i: int, j: int| 0 <= i < j < ns.len() ==> ns[i] != ns[j]
}

/// Every seed list of the configuration has only valid regex patterns.
pub open spec fn filters_valid(filters: Seq<(String, Vec<FilterSeed>)>) -> bool {
    forall|k: int| 0 <= k < filters.len() ==> seeds_valid((#[trigger] filters[k]).1@)
}

/// The first entry carrying `name`, or `-1` when none does.
pub closed spec fn find_root(s: Seq<(String, usize)>, name: Seq<char>) -> int
    decreases s.len(),
{
    if s.len() == 0 {
        -1
    } else if s[0].0@ == name {
        0
    } else {
        let r = find_root(s.drop_first(), name);
        if r < 0 {
            -1
        } else {
            r + 1
        }
    }
}

/// `find_root` finds exactly the first entry with the given name.
proof fn lemma_find_root(s: Seq<(String, usize)>, name: Seq<char>)
    ensures
        -1 <= find_root(s, name) < s.len(),
        (exists|k: int| 0 <= k < s.len() && (#[trigger] s[k]).0@ == name) <==> 0 <= find_root(
            s,
            name,
        ),
        0 <= find_root(s, name) ==> (#[trigger] s[find_root(s, name)]).0@ == name,
    decreases s.len(),
{
    if s.len() > 0 {
        if s[0].0@ == name {
        } else {
            lemma_find_root(s.drop_first(), name);
            let r = find_root(s.drop_first(), name);
            if 0 <= r {
                assert(s.drop_first()[r] == s[r + 1]);
            } else {
                if exists|k: int| 0 <= k < s.len() && (#[trigger] s[k]).0@ == name {
                    let k = choose|k: int| 0 <= k < s.len() && (#[trigger] s[k]).0@ == name;
                    assert(k != 0);
                    assert(s.drop_first()[k - 1] == s[k]);
                    assert(false);
                }
            }
        }
    }
}

/// A mapping from filter names to roots in one shared arena of compiled
/// nodes. Built once from the configuration; immutable afterwards.
pub struct FilterSet {
    store: Vec<Node>,
    named_set: Vec<(String, usize)>,
}

impl FilterSet {
    /// The arena is well formed, every root is present, and names are unique.
    pub closed spec fn wf(self) -> bool {
        &&& arena_wf(arena_view(self.store@))
        &&& forall|k: int|
            0 <= k < self.named_set@.len() ==> ((#[trigger] self.named_set@[k]).1 as int)
                < self.store@.len()
        &&& names_distinct(self.names())
    }

    /// The filter names, in configuration order.
    pub closed spec fn names(self) -> Seq<Seq<char>> {
        self.named_set@.map_values(|p: (String, usize)| p.0@)
    }

    /// Whether a filter of this name exists.
    pub open spec fn has_name(self, name: Seq<char>) -> bool {
        exists|k: int| 0 <= k < self.names().len() && self.names()[k] == name
    }

    /// The value of the named filter on `text`.
    pub closed spec fn spec_is_match(self, name: Seq<char>, text: Seq<char>) -> bool {
        eval_node(
            arena_view(self.store@),
            self.named_set@[find_root(self.named_set@, name)].1 as int,
            text,
        )
    }

    /// The named filter at entry `k` evaluates as the tree its root points
    /// at: name lookup is unambiguous because names are unique.
    proof fn lemma_spec_is_match_at(self, k: int, text: Seq<char>)
        requires
            self.wf(),
            0 <= k < self.named_set@.len(),
        ensures
            self.spec_is_match(self.named_set@[k].0@, text) == eval_node(
                arena_view(self.store@),
                self.named_set@[k].1 as int,
                text,
            ),
    {
        let name = self.named_set@[k].0@;
        assert(self.names()[k] == name);
        lemma_find_root(self.named_set@, name);
        let kc = find_root(self.named_set@, name);
        assert(0 <= kc < self.named_set@.len() && self.named_set@[kc].0@ == name);
        assert(self.names()[kc] == name);
        if kc != k {
            if kc < k {
                assert(self.names()[kc] != self.names()[k]);
            } else {
                assert(self.names()[k] != self.names()[kc]);
            }
            assert(false);
        }
    }

    /// Compile a configuration: one tree per named filter, all in one arena.
    /// Fails exactly on a duplicate name or an invalid regex pattern.
    pub fn try_new(filters: Vec<(String, Vec<FilterSeed>)>) -> (r: Result<
        FilterSet,
        crate::load::LoadError,
    >)
        ensures
            r is Ok <==> names_distinct(input_names(filters@)) && filters_valid(filters@),
            r matches Ok(fs) ==> {
                &&& fs.wf()
                &&& fs.names() == input_names(filters@)
                &&& forall|k: int, text: Seq<char>|
                    0 <= k < filters@.len() ==> #[trigger] fs.spec_is_match(
                        filters@[k].0@,
                        text,
                    ) == and_eval(filters@[k].1@, false, text)
            },
            r matches Err(e) ==> match e {
                crate::load::LoadError::DuplicateRootName(n) => !names_distinct(
                    input_names(filters@),
                ),
                crate::load::LoadError::InvalidRegex(p) => !rx_valid(p@),
                _ => false,
            },
    {
        let mut store: Vec<Node> = Vec::new();
        let mut named_set: Vec<(String, usize)> = Vec::new();
        let mut k: usize = 0;
        while k < filters.len()
            invariant
                arena_wf(arena_view(store@)),
                k <= filters@.len(),
                named_set@.len() == k,
                forall|j: int|
                    0 <= j < k ==> (#[trigger] named_set@[j]).0@ == filters@[j].0@ && (
                    named_set@[j].1 as int) < store@.len(),
                forall|i1: int, i2: int|
                    0 <= i1 < i2 < k ==> (#[trigger] named_set@[i1]).0@ != (
                    #[trigger] named_set@[i2]).0@,
                forall|j: int| 0 <= j < k ==> seeds_valid((#[trigger] filters@[j]).1@),
                forall|j: int, text: Seq<char>|
                    0 <= j < k ==> #[trigger] eval_node(
                        arena_view(store@),
                        named_set@[j].1 as int,
                        text,
                    ) == and_eval(filters@[j].1@, false, text),
            decreases filters@.len() - k,
        {
            let entry = &filters[k];
            // reject a name that an earlier entry already used
            let mut j: usize = 0;
            while j < named_set.len()
                invariant
                    j <= named_set@.len(),
                    k < filters@.len(),
                    forall|i: int| 0 <= i < k ==> (#[trigger] named_set@[i]).0@ == filters@[i].0@,
                    named_set@.len() == k,
                    entry == filters@[k as int],
                    forall|i: int| 0 <= i < j ==> (#[trigger] named_set@[i]).0@ != entry.0@,
                decreases named_set@.len() - j,
            {
                if crate::text::str_eq(named_set[j].0.as_str(), entry.0.as_str()) {
                    proof {
                        assert(input_names(filters@)[j as int] == input_names(
                            filters@,
                        )[k as int]);
                        assert(!names_distinct(input_names(filters@)));
                    }
                    return Err(crate::load::LoadError::DuplicateRootName(entry.0.clone()));
                }
                j = j + 1;
            }
            let ghost store_a = store@;
            let root = match init_tree(&mut store, &entry.1) {
                Ok(root) => root,
                Err(e) => {
                    proof {
                        assert(!seeds_valid(filters@[k as int].1@));
                        assert(!filters_valid(filters@));
                    }
                    return Err(e);
                },
            };
            named_set.push((entry.0.clone(), root));
            proof {
                let ns_a = arena_view(store_a);
                let ns_b = arena_view(store@);
                assert(forall|i: int| 0 <= i < ns_a.len() ==> ns_a[i] == ns_b[i]);
                assert forall|jj: int, text: Seq<char>| 0 <= jj < k + 1 implies #[trigger] eval_node(
                    ns_b,
                    named_set@[jj].1 as int,
                    text,
                ) == and_eval(filters@[jj].1@, false, text) by {
                    if jj < k {
                        lemma_eval_node_prefix(ns_a, ns_b, named_set@[jj].1 as int, text);
                    }
                }
                assert(forall|i1: int, i2: int|
                    0 <= i1 < i2 < k + 1 ==> (#[trigger] named_set@[i1]).0@ != (
                    #[trigger] named_set@[i2]).0@);
            }
            k = k + 1;
        }
        proof {
            assert(input_names(filters@) =~= named_set@.map_values(|p: (String, usize)| p.0@));
        }
        let fs = FilterSet { store, named_set };
        proof {
            assert(forall|i: int|
                0 <= i < fs.named_set@.len() ==> #[trigger] fs.names()[i] == fs.named_set@[i].0@);
            assert(names_distinct(fs.names()));
            assert(fs.wf());
            assert forall|k0: int, text: Seq<char>| 0 <= k0 < filters@.len() implies #[trigger] fs
                .spec_is_match(filters@[k0].0@, text) == and_eval(
                filters@[k0].1@,
                false,
                text,
            ) by {
                assert(fs.named_set@[k0].0@ == filters@[k0].0@);
                fs.lemma_spec_is_match_at(k0, text);
            }
            assert(fs.names() =~= input_names(filters@));
        }
        Ok(fs)
    }

    /// Compile a configuration; alias of `try_new` under the engine's older
    /// entry-point name.
    pub fn new_filter(filters: Vec<(String, Vec<FilterSeed>)>) -> (r: Result<
        FilterSet,
        crate::load::LoadError,
    >)
        ensures
            r is Ok <==> names_distinct(input_names(filters@)) && filters_valid(filters@),
            r matches Ok(fs) ==> {
                &&& fs.wf()
                &&& fs.names() == input_names(filters@)
                &&& forall|k: int, text: Seq<char>|
                    0 <= k < filters@.len() ==> #[trigger] fs.spec_is_match(
                        filters@[k].0@,
                        text,
                    ) == and_eval(filters@[k].1@, false, text)
            },
    {
        Self::try_new(filters)
    }

    /// Evaluate the named filter against `text`. Callers validate names at
    /// configuration time; an unknown name is outside the contract.
    pub fn is_match_with(&self, name: &str, text: &str) -> (b: bool)
        requires
            self.wf(),
            self.has_name(name@),
        ensures
            b == self.spec_is_match(name@, text@),
    {
        let mut j: usize = 0;
        while j < self.named_set.len()
            invariant
                self.wf(),
                self.has_name(name@),
                j <= self.named_set@.len(),
                forall|i: int| 0 <= i < j ==> (#[trigger] self.named_set@[i]).0@ != name@,
            decreases self.named_set@.len() - j,
        {
            if crate::text::str_eq(self.named_set[j].0.as_str(), name) {
                let b = recursive_match(&self.store, self.named_set[j].1, text);
                proof {
                    self.lemma_spec_is_match_at(j as int, text@);
                }
                return b;
            }
            j = j + 1;
        }
        proof {
            let kc = choose|kc: int|
                0 <= kc < self.names().len() && #[trigger] self.names()[kc] == name@;
            assert(self.named_set@[kc].0@ == name@);
            assert(false);
        }
        false
    }

    /// Whether a filter of this name exists, decided at run time.
    pub fn contains_name(&self, name: &str) -> (b: bool)
        ensures
            b == self.has_name(name@),
    {
        let mut j: usize = 0;
        while j < self.named_set.len()
            invariant
                j <= self.named_set@.len(),
                forall|i: int| 0 <= i < j ==> (#[trigger] self.named_set@[i]).0@ != name@,
            decreases self.named_set@.len() - j,
        {
            if crate::text::str_eq(self.named_set[j].0.as_str(), name) {
                proof {
                    assert(self.names()[j as int] == name@);
                }
                return true;
            }
            j = j + 1;
        }
        proof {
            assert forall|k: int| 0 <= k < self.names().len() implies #[trigger] self.names()[k]
                != name@ by {
                assert(self.names()[k] == self.named_set@[k].0@);
            }
        }
        false
    }

    /// The logical AND over every named filter.
    pub fn is_match_all(&self, text: &str) -> (b: bool)
        requires
            self.wf(),
        ensures
            b == (forall|k: int|
                0 <= k < self.names().len() ==> self.spec_is_match(
                    #[trigger] self.names()[k],
                    text@,
                )),
    {
        let ghost nv = arena_view(self.store@);
        let mut j: usize = 0;
        while j < self.named_set.len()
            invariant_except_break
                self.wf(),
                nv == arena_view(self.store@),
                j <= self.named_set@.len(),
                forall|i: int|
                    0 <= i < j ==> eval_node(nv, (#[trigger] self.named_set@[i]).1 as int, text@),
            ensures
                (j == self.named_set@.len() && forall|i: int|
                    0 <= i < j ==> eval_node(
                        nv,
                        (#[trigger] self.named_set@[i]).1 as int,
                        text@,
                    )) || (j < self.named_set@.len() && !eval_node(
                    nv,
                    self.named_set@[j as int].1 as int,
                    text@,
                )),
            decreases self.named_set@.len() - j,
        {
            if !recursive_match(&self.store, self.named_set[j].1, text) {
                break ;
            }
            j = j + 1;
        }
        proof {
            assert forall|k: int| 0 <= k < self.names().len() implies self.spec_is_match(
                #[trigger] self.names()[k],
                text@,
            ) == eval_node(nv, self.named_set@[k].1 as int, text@) by {
                assert(self.names()[k] == self.named_set@[k].0@);
                self.lemma_spec_is_match_at(k, text@);
            }
            if j < self.named_set@.len() {
                assert(!self.spec_is_match(self.names()[j as int], text@));
            }
        }
        j == self.named_set.len()
    }
}

// ---------------------------------------------------------------------------
// Laws of the evaluation semantics
// ---------------------------------------------------------------------------

/// Negation is involutive: an expression wrapped in two `not` layers
/// contributes to any enclosing conjunction or disjunction exactly what the
/// bare expression contributes, under any propagated flag.
pub proof fn lemma_not_involutive(
    e: FilterSeed,
    outer: Vec<FilterSeed>,
    inner: Vec<FilterSeed>,
    neg: bool,
    text: Seq<char>,
)
    requires
        outer@ == seq![FilterSeed::Not(inner)],
        inner@ == seq![e],
    ensures
        and_contrib(FilterSeed::Not(outer), neg, text) == and_contrib(e, neg, text),
        or_contrib(FilterSeed::Not(outer), neg, text) == or_contrib(e, neg, text),
{
    assert(outer@.drop_first() =~= Seq::<FilterSeed>::empty());
    assert(inner@.drop_first() =~= Seq::<FilterSeed>::empty());
    assert(and_eval(outer@, !neg, text) == (and_contrib(FilterSeed::Not(inner), !neg, text)
        && and_eval(outer@.drop_first(), !neg, text)));
    assert(and_eval(inner@, neg, text) == (and_contrib(e, neg, text) && and_eval(
        inner@.drop_first(),
        neg,
        text,
    )));
    assert(or_eval(outer@, !neg, text) == (or_contrib(FilterSeed::Not(inner), !neg, text)
        || or_eval(outer@.drop_first(), !neg, text)));
    assert(or_eval(inner@, neg, text) == (or_contrib(e, neg, text) || or_eval(
        inner@.drop_first(),
        neg,
        text,
    )));
}

/// Conjunctions short-circuit: as soon as one child of an `And` node is
/// false, the whole child list evaluates to false, whatever the children
/// after it evaluate to.
pub proof fn lemma_and_short_circuit(
    nodes: Seq<NodeV>,
    edges: Seq<int>,
    j: int,
    k: int,
    bound: int,
    text: Seq<char>,
)
    requires
        0 <= j <= k < edges.len(),
        0 <= edges[k] < bound,
        !eval_node(nodes, edges[k], text),
    ensures
        !eval_all(nodes, edges, j, bound, text),
    decreases k - j,
{
    if j < k {
        lemma_and_short_circuit(nodes, edges, j + 1, k, bound, text);
    }
}

/// Disjunctions short-circuit dually: one true child settles the list.
pub proof fn lemma_or_short_circuit(
    nodes: Seq<NodeV>,
    edges: Seq<int>,
    j: int,
    k: int,
    bound: int,
    text: Seq<char>,
)
    requires
        0 <= j <= k < edges.len(),
        eval_node(nodes, edges[k], text),
        forall|i: int| j <= i < edges.len() ==> 0 <= #[trigger] edges[i] < bound,
    ensures
        eval_any(nodes, edges, j, bound, text),
    decreases k - j,
{
    if j < k {
        lemma_or_short_circuit(nodes, edges, j + 1, k, bound, text);
    }
}

} // verus!
