//! The mathematical meaning of a graph state.
//!
//! A graph state is a sequence of [`Cell`]s. Three spec functions give it
//! meaning:
//! - [`denote_node`]: the value a from-scratch evaluation of a node would
//!   produce right now, reading only input values;
//! - [`node_reads`]: the references a node's computation reads right now,
//!   in read order (dynamic: a conditional reads only its taken branch);
//! - [`depends_on`]: whether a node transitively reads another right now.
//!
//! [`graph_wf`] is the engine's central invariant: among other things, every
//! clean derived cell caches exactly its denotation and records exactly its
//! current reads.

use vstd::prelude::*;
use crate::expr::Expr;

verus! {

/// Per-node record held by the arena: the cached value, the dirty flag, the
/// computation (`None` for an input node), the references read during the
/// most recent evaluation, and how many times the computation has run.
pub struct Cell {
    /// Cached value: authoritative for an input node, the result of the most
    /// recent evaluation for a derived node.
    pub value: u64,
    /// Whether the cached value of a derived node is possibly stale. Input
    /// nodes are never dirty: a write notifies dependents before returning.
    pub dirty: bool,
    /// The computation of a derived node; `None` marks an input node.
    pub expr: Option<Expr>,
    /// References read during the most recent evaluation, in read order.
    pub deps: Vec<usize>,
    /// How many times this node's computation has been evaluated.
    pub evals: u64,
}

impl Cell {
    /// An input (base) node, mutated directly through `set`.
    pub open spec fn is_base(self) -> bool {
        self.expr is None
    }

    /// A derived node, recomputed from its expression when read while dirty.
    pub open spec fn is_derived(self) -> bool {
        self.expr is Some
    }

    /// The recorded dependency references, as a sequence.
    pub open spec fn deps_seq(self) -> Seq<usize> {
        self.deps@
    }
}

/// The value `e` evaluates to from scratch in state `g`, given that every
/// reference in `e` is below `bound`: a read of an input node yields its
/// stored value, a read of a derived node yields that node's own
/// denotation. References at or above `bound` (never reachable in a
/// well-formed graph) denote zero.
pub open spec fn denote_expr(g: Seq<Cell>, bound: int, e: Expr) -> u64
    decreases bound, e.size(),
{
    match e {
        Expr::Const(c) => c,
        Expr::Get(r) => {
            if 0 <= (r as int) && (r as int) < bound && (r as int) < g.len() {
                match g[r as int].expr {
                    Option::None => g[r as int].value,
                    Option::Some(e2) => denote_expr(g, r as int, e2),
                }
            } else {
                0
            }
        },
        Expr::Add(a, b) => vstd::wrapping::u64_specs::wrapping_add(
            denote_expr(g, bound, *a),
            denote_expr(g, bound, *b),
        ),
        Expr::Mul(a, b) => vstd::wrapping::u64_specs::wrapping_mul(
            denote_expr(g, bound, *a),
            denote_expr(g, bound, *b),
        ),
        Expr::IfPos(c, t, e2) => {
            if denote_expr(g, bound, *c) != 0 {
                denote_expr(g, bound, *t)
            } else {
                denote_expr(g, bound, *e2)
            }
        },
    }
}

/// The value node `i` holds from the point of view of the current inputs:
/// what a from-scratch evaluation of its computation chain would produce.
pub open spec fn denote_node(g: Seq<Cell>, i: int) -> u64 {
    if 0 <= i && i < g.len() {
        match g[i].expr {
            Option::None => g[i].value,
            Option::Some(e) => denote_expr(g, i, e),
        }
    } else {
        0
    }
}

/// The references `e` reads right now, in read order. A read of a derived
/// node contributes that node's reference only: what the read node reads in
/// turn belongs to its own record. A conditional contributes its condition's
/// reads and the reads of the taken branch only.
pub open spec fn reads_expr(g: Seq<Cell>, bound: int, e: Expr) -> Seq<usize>
    decreases e.size(),
{
    match e {
        Expr::Const(_) => Seq::empty(),
        Expr::Get(r) => seq![r],
        Expr::Add(a, b) => reads_expr(g, bound, *a) + reads_expr(g, bound, *b),
        Expr::Mul(a, b) => reads_expr(g, bound, *a) + reads_expr(g, bound, *b),
        Expr::IfPos(c, t, e2) => reads_expr(g, bound, *c) + (if denote_expr(g, bound, *c) != 0 {
            reads_expr(g, bound, *t)
        } else {
            reads_expr(g, bound, *e2)
        }),
    }
}

/// The references node `i` reads right now: what a fresh evaluation of its
/// computation would record. Empty for an input node.
pub open spec fn node_reads(g: Seq<Cell>, i: int) -> Seq<usize> {
    if 0 <= i && i < g.len() {
        match g[i].expr {
            Option::None => Seq::empty(),
            Option::Some(e) => reads_expr(g, i, e),
        }
    } else {
        Seq::empty()
    }
}

/// Node `i` transitively reads node `b` under the current inputs: some
/// reference `i` reads right now is `b` or itself transitively reads `b`.
pub open spec fn depends_on(g: Seq<Cell>, i: int, b: int) -> bool
    decreases i,
{
    0 <= i && i < g.len() && exists|j: int|
        0 <= j && j < i && #[trigger] node_reads(g, i).contains(j as usize) && (j == b
            || depends_on(g, j, b))
}

/// Well-formedness of one cell within state `g`.
///
/// - A derived cell's expression only references older nodes, so the
///   dependency relation is acyclic by construction.
/// - An input cell is never dirty and records no reads.
/// - Recorded reads always reference older nodes.
/// - A clean derived cell is fresh: its cached value is exactly its
///   denotation, its recorded reads are exactly its current reads, and
///   every node it reads is itself clean.
pub open spec fn cell_wf(g: Seq<Cell>, i: int) -> bool {
    let c = g[i];
    &&& (c.expr matches Option::Some(e) ==> e.refs_below(i))
    &&& (c.is_base() ==> !c.dirty && c.deps_seq().len() == 0)
    &&& (forall|k: int|
        0 <= k && k < c.deps_seq().len() ==> (#[trigger] c.deps_seq()[k] as int) < i)
    &&& (c.is_derived() && !c.dirty ==> {
        &&& c.value == denote_node(g, i)
        &&& c.deps_seq() == node_reads(g, i)
        &&& (forall|k: int|
            0 <= k && k < node_reads(g, i).len() ==> !g[#[trigger] node_reads(g, i)[k] as int].dirty)
    })
}

/// Well-formedness of a whole graph state: every cell is well formed.
pub open spec fn graph_wf(g: Seq<Cell>) -> bool {
    forall|i: int| 0 <= i && i < g.len() ==> #[trigger] cell_wf(g, i)
}

/// The fields of a cell that its denotation can observe are equal: the
/// computation, and, for an input node, the stored value. Dirty flags,
/// cached derived values, recorded reads and evaluation counts are
/// invisible to denotations.
pub open spec fn skel_eq(c1: Cell, c2: Cell) -> bool {
    &&& c1.expr == c2.expr
    &&& (c1.is_base() ==> c1.value == c2.value)
}

/// `n + 1`, saturating at the largest counter value.
pub open spec fn sat_inc(n: u64) -> u64 {
    if n < u64::MAX {
        (n + 1) as u64
    } else {
        n
    }
}

/// How one cell may change during demand-driven evaluation: not at all, or,
/// if it was dirty, it may become clean with its evaluation counter bumped
/// once. Its computation never changes, and a clean cell is never touched.
pub open spec fn cell_evolves(c1: Cell, c2: Cell) -> bool {
    &&& c2.expr == c1.expr
    &&& (!c1.dirty ==> c2 == c1)
    &&& (c1.dirty ==> (c2 == c1 || (!c2.dirty && c2.evals == sat_inc(c1.evals))))
}

/// How a graph state may change during demand-driven evaluation: cell by
/// cell, per [`cell_evolves`]. In particular no cell is ever dirtied, no
/// input value changes, and every cell's evaluation counter is bumped at
/// most once.
pub open spec fn evolves_to(g1: Seq<Cell>, g2: Seq<Cell>) -> bool {
    &&& g1.len() == g2.len()
    &&& (forall|i: int| 0 <= i && i < g1.len() ==> cell_evolves(#[trigger] g1[i], #[trigger] g2[i]))
}

/// Two states that agree everywhere except possibly on the stored value of
/// the input node `b`: the shape of a graph just after a write, before its
/// dependents are marked.
pub open spec fn same_but_input(g1: Seq<Cell>, g2: Seq<Cell>, b: int) -> bool {
    &&& g1.len() == g2.len()
    &&& 0 <= b && b < g1.len()
    &&& g1[b].is_base() && g2[b].is_base()
    &&& (forall|j: int| 0 <= j && j < g1.len() && j != b ==> skel_eq(#[trigger] g1[j], g2[j]))
}

/// Membership in a concatenation is membership in either part.
pub proof fn lemma_concat_contains<A>(s1: Seq<A>, s2: Seq<A>, x: A)
    ensures
        (s1 + s2).contains(x) <==> s1.contains(x) || s2.contains(x),
{
    if (s1 + s2).contains(x) {
        let k = choose|k: int| 0 <= k && k < (s1 + s2).len() && (s1 + s2)[k] == x;
        if k < s1.len() {
            assert(s1[k] == x);
        } else {
            assert(s2[k - s1.len()] == x);
        }
    }
    if s1.contains(x) {
        let k = choose|k: int| 0 <= k && k < s1.len() && s1[k] == x;
        assert((s1 + s2)[k] == x);
    }
    if s2.contains(x) {
        let k = choose|k: int| 0 <= k && k < s2.len() && s2[k] == x;
        assert((s1 + s2)[k + s1.len()] == x);
    }
}

/// Every reference a bounded expression reads is itself below the bound.
pub proof fn lemma_reads_below(g: Seq<Cell>, bound: int, e: Expr)
    requires
        e.refs_below(bound),
    ensures
        forall|j: usize| #[trigger] reads_expr(g, bound, e).contains(j) ==> (j as int) < bound,
        forall|k: int|
            0 <= k && k < reads_expr(g, bound, e).len() ==> (#[trigger] reads_expr(g, bound, e)[k]
                as int) < bound,
    decreases e.size(),
{
    match e {
        Expr::Const(_) => {},
        Expr::Get(r) => {},
        Expr::Add(a, b) => {
            lemma_reads_below(g, bound, *a);
            lemma_reads_below(g, bound, *b);
            assert forall|j: usize| #[trigger] reads_expr(g, bound, e).contains(j) implies (
            j as int) < bound by {
                lemma_concat_contains(
                    reads_expr(g, bound, *a),
                    reads_expr(g, bound, *b),
                    j,
                );
            }
        },
        Expr::Mul(a, b) => {
            lemma_reads_below(g, bound, *a);
            lemma_reads_below(g, bound, *b);
            assert forall|j: usize| #[trigger] reads_expr(g, bound, e).contains(j) implies (
            j as int) < bound by {
                lemma_concat_contains(
                    reads_expr(g, bound, *a),
                    reads_expr(g, bound, *b),
                    j,
                );
            }
        },
        Expr::IfPos(c, t, e2) => {
            lemma_reads_below(g, bound, *c);
            lemma_reads_below(g, bound, *t);
            lemma_reads_below(g, bound, *e2);
            let taken = if denote_expr(g, bound, *c) != 0 {
                reads_expr(g, bound, *t)
            } else {
                reads_expr(g, bound, *e2)
            };
            assert forall|j: usize| #[trigger] reads_expr(g, bound, e).contains(j) implies (
            j as int) < bound by {
                lemma_concat_contains(reads_expr(g, bound, *c), taken, j);
            }
        },
    }
    assert forall|k: int| 0 <= k && k < reads_expr(g, bound, e).len() implies (
    #[trigger] reads_expr(g, bound, e)[k] as int) < bound by {
        assert(reads_expr(g, bound, e).contains(reads_expr(g, bound, e)[k]));
    }
}

/// Denotations and read sets only look at the denotation-visible fields of
/// the cells below the bound: two states that agree there give every
/// bounded expression the same value and the same reads.
pub proof fn lemma_denote_congruence(g1: Seq<Cell>, g2: Seq<Cell>, bound: int, e: Expr)
    requires
        g1.len() == g2.len() || (bound <= g1.len() && bound <= g2.len()),
        forall|j: int|
            0 <= j && j < bound && j < g1.len() && j < g2.len() ==> skel_eq(
                #[trigger] g1[j],
                g2[j],
            ),
    ensures
        denote_expr(g1, bound, e) == denote_expr(g2, bound, e),
        reads_expr(g1, bound, e) == reads_expr(g2, bound, e),
    decreases bound, e.size(),
{
    match e {
        Expr::Const(_) => {},
        Expr::Get(r) => {
            let ri = r as int;
            if ri < bound && ri < g1.len() {
                assert(skel_eq(g1[ri], g2[ri]));
                match g1[ri].expr {
                    Option::None => {},
                    Option::Some(e2) => {
                        lemma_denote_congruence(g1, g2, ri, e2);
                    },
                }
            }
        },
        Expr::Add(a, b) => {
            lemma_denote_congruence(g1, g2, bound, *a);
            lemma_denote_congruence(g1, g2, bound, *b);
        },
        Expr::Mul(a, b) => {
            lemma_denote_congruence(g1, g2, bound, *a);
            lemma_denote_congruence(g1, g2, bound, *b);
        },
        Expr::IfPos(c, t, e2) => {
            lemma_denote_congruence(g1, g2, bound, *c);
            lemma_denote_congruence(g1, g2, bound, *t);
            lemma_denote_congruence(g1, g2, bound, *e2);
        },
    }
}

/// Node-level corollary of [`lemma_denote_congruence`].
pub proof fn lemma_denote_node_congruence(g1: Seq<Cell>, g2: Seq<Cell>, i: int)
    requires
        g1.len() == g2.len() || (0 <= i && i < g1.len() && i < g2.len()),
        forall|j: int|
            0 <= j && j <= i && j < g1.len() ==> skel_eq(#[trigger] g1[j], g2[j]),
    ensures
        denote_node(g1, i) == denote_node(g2, i),
        node_reads(g1, i) == node_reads(g2, i),
{
    if 0 <= i && i < g1.len() {
        assert(skel_eq(g1[i], g2[i]));
        match g1[i].expr {
            Option::None => {},
            Option::Some(e) => {
                lemma_denote_congruence(g1, g2, i, e);
            },
        }
    }
}

/// During evaluation no denotation-visible field changes, so every
/// denotation and every read set stays the same.
pub proof fn lemma_evolves_preserves_denote(g1: Seq<Cell>, g2: Seq<Cell>)
    requires
        graph_wf(g1),
        evolves_to(g1, g2),
    ensures
        forall|bound: int, e: Expr|
            #![trigger denote_expr(g2, bound, e)]
            #![trigger reads_expr(g2, bound, e)]
            denote_expr(g1, bound, e) == denote_expr(g2, bound, e) && reads_expr(g1, bound, e)
                == reads_expr(g2, bound, e),
        forall|i: int|
            #![trigger denote_node(g2, i)]
            #![trigger node_reads(g2, i)]
            denote_node(g1, i) == denote_node(g2, i) && node_reads(g1, i) == node_reads(g2, i),
{
    assert forall|j: int| 0 <= j && j < g1.len() implies skel_eq(#[trigger] g1[j], g2[j]) by {
        assert(cell_wf(g1, j));
        assert(cell_evolves(g1[j], g2[j]));
    }
    assert forall|bound: int, e: Expr|
        #![trigger denote_expr(g2, bound, e)]
        #![trigger reads_expr(g2, bound, e)]
        denote_expr(g1, bound, e) == denote_expr(g2, bound, e) && reads_expr(g1, bound, e)
            == reads_expr(g2, bound, e) by {
        lemma_denote_congruence(g1, g2, bound, e);
    }
    assert forall|i: int|
        #![trigger denote_node(g2, i)]
        #![trigger node_reads(g2, i)]
        denote_node(g1, i) == denote_node(g2, i) && node_reads(g1, i) == node_reads(g2, i) by {
        lemma_denote_node_congruence(g1, g2, i);
    }
}

/// Evaluation steps compose: the overall change from a nested evaluation is
/// again an evaluation-shaped change.
pub proof fn lemma_evolves_trans(g1: Seq<Cell>, g2: Seq<Cell>, g3: Seq<Cell>)
    requires
        evolves_to(g1, g2),
        evolves_to(g2, g3),
    ensures
        evolves_to(g1, g3),
{
    assert forall|i: int| 0 <= i && i < g1.len() implies cell_evolves(
        #[trigger] g1[i],
        #[trigger] g3[i],
    ) by {
        assert(cell_evolves(g1[i], g2[i]));
        assert(cell_evolves(g2[i], g3[i]));
    }
}

/// A node can only transitively read strictly older nodes.
pub proof fn lemma_depends_gt(g: Seq<Cell>, i: int, b: int)
    requires
        depends_on(g, i, b),
    ensures
        b < i,
        0 <= b,
    decreases i,
{
    let j = choose|j: int|
        0 <= j && j < i && #[trigger] node_reads(g, i).contains(j as usize) && (j == b
            || depends_on(g, j, b));
    if j != b {
        lemma_depends_gt(g, j, b);
    }
}

/// Appending a cell changes no existing cell's denotation, reads or
/// well-formedness.
pub proof fn lemma_push_preserves(g1: Seq<Cell>, g2: Seq<Cell>)
    requires
        graph_wf(g1),
        g2.len() == g1.len() + 1,
        forall|i: int| 0 <= i && i < g1.len() ==> #[trigger] g2[i] == g1[i],
    ensures
        forall|i: int|
            #![trigger denote_node(g2, i)]
            #![trigger node_reads(g2, i)]
            0 <= i && i < g1.len() ==> denote_node(g2, i) == denote_node(g1, i) && node_reads(
                g2,
                i,
            ) == node_reads(g1, i),
        forall|i: int| 0 <= i && i < g1.len() ==> #[trigger] cell_wf(g2, i),
{
    assert forall|i: int|
        #![trigger denote_node(g2, i)]
        #![trigger node_reads(g2, i)]
        0 <= i && i < g1.len() implies denote_node(g2, i) == denote_node(g1, i) && node_reads(
        g2,
        i,
    ) == node_reads(g1, i) by {
        assert forall|j: int| 0 <= j && j <= i && j < g2.len() implies skel_eq(
            #[trigger] g2[j],
            g1[j],
        ) by {
            assert(g2[j] == g1[j]);
        }
        lemma_denote_node_congruence(g2, g1, i);
    }
    assert forall|i: int| 0 <= i && i < g1.len() implies #[trigger] cell_wf(g2, i) by {
        assert(cell_wf(g1, i));
        let c = g1[i];
        if c.is_derived() && !c.dirty {
            assert(denote_node(g2, i) == denote_node(g1, i));
            assert(node_reads(g2, i) == node_reads(g1, i));
            assert forall|k: int|
                0 <= k && k < node_reads(g2, i).len() implies !g2[(#[trigger] node_reads(
                g2,
                i,
            )[k]) as int].dirty by {
                assert(c.expr matches Option::Some(e) && e.refs_below(i));
                lemma_reads_below(g1, i, c.expr->0);
                let j = node_reads(g1, i)[k] as int;
                assert(!g1[j].dirty);
                assert(g2[j] == g1[j]);
            }
        }
    }
}

/// If an expression does not read the written input, directly or through
/// any node it reads, then writing that input changes neither the
/// expression's value nor its reads.
pub proof fn lemma_write_congruence_expr(g1: Seq<Cell>, g2: Seq<Cell>, b: int, bound: int, e: Expr)
    requires
        graph_wf(g1),
        same_but_input(g1, g2, b),
        bound <= g1.len(),
        e.refs_below(bound),
        forall|j: usize|
            #[trigger] reads_expr(g1, bound, e).contains(j) ==> (j as int) != b && !depends_on(
                g1,
                j as int,
                b,
            ),
    ensures
        denote_expr(g2, bound, e) == denote_expr(g1, bound, e),
        reads_expr(g2, bound, e) == reads_expr(g1, bound, e),
    decreases bound, e.size(),
{
    match e {
        Expr::Const(_) => {},
        Expr::Get(r) => {
            let ri = r as int;
            let s = reads_expr(g1, bound, e);
            assert(s[0] == r);
            assert(s.contains(r));
            assert(ri != b && !depends_on(g1, ri, b));
            assert(skel_eq(g1[ri], g2[ri]));
            match g1[ri].expr {
                Option::None => {},
                Option::Some(e2) => {
                    assert(cell_wf(g1, ri));
                    assert(e2.refs_below(ri));
                    lemma_reads_below(g1, ri, e2);
                    assert(node_reads(g1, ri) == reads_expr(g1, ri, e2));
                    assert forall|j: usize|
                        #[trigger] reads_expr(g1, ri, e2).contains(j) implies (j as int) != b
                        && !depends_on(g1, j as int, b) by {
                        assert((j as int) < ri);
                        assert(node_reads(g1, ri).contains(j));
                        if (j as int) == b || depends_on(g1, j as int, b) {
                            let jj = j as int;
                            assert((jj as usize) == j);
                            assert(node_reads(g1, ri).contains(jj as usize));
                            assert(depends_on(g1, ri, b));
                        }
                    }
                    lemma_write_congruence_expr(g1, g2, b, ri, e2);
                },
            }
        },
        Expr::Add(a, b2) => {
            assert forall|j: usize| #[trigger] reads_expr(g1, bound, *a).contains(j) implies (
            j as int) != b && !depends_on(g1, j as int, b) by {
                lemma_concat_contains(reads_expr(g1, bound, *a), reads_expr(g1, bound, *b2), j);
                assert(reads_expr(g1, bound, e) == reads_expr(g1, bound, *a) + reads_expr(
                    g1,
                    bound,
                    *b2,
                ));
                assert(reads_expr(g1, bound, e).contains(j));
            }
            assert forall|j: usize| #[trigger] reads_expr(g1, bound, *b2).contains(j) implies (
            j as int) != b && !depends_on(g1, j as int, b) by {
                lemma_concat_contains(reads_expr(g1, bound, *a), reads_expr(g1, bound, *b2), j);
                assert(reads_expr(g1, bound, e) == reads_expr(g1, bound, *a) + reads_expr(
                    g1,
                    bound,
                    *b2,
                ));
                assert(reads_expr(g1, bound, e).contains(j));
            }
            lemma_write_congruence_expr(g1, g2, b, bound, *a);
            lemma_write_congruence_expr(g1, g2, b, bound, *b2);
        },
        Expr::Mul(a, b2) => {
            assert forall|j: usize| #[trigger] reads_expr(g1, bound, *a).contains(j) implies (
            j as int) != b && !depends_on(g1, j as int, b) by {
                lemma_concat_contains(reads_expr(g1, bound, *a), reads_expr(g1, bound, *b2), j);
                assert(reads_expr(g1, bound, e) == reads_expr(g1, bound, *a) + reads_expr(
                    g1,
                    bound,
                    *b2,
                ));
                assert(reads_expr(g1, bound, e).contains(j));
            }
            assert forall|j: usize| #[trigger] reads_expr(g1, bound, *b2).contains(j) implies (
            j as int) != b && !depends_on(g1, j as int, b) by {
                lemma_concat_contains(reads_expr(g1, bound, *a), reads_expr(g1, bound, *b2), j);
                assert(reads_expr(g1, bound, e) == reads_expr(g1, bound, *a) + reads_expr(
                    g1,
                    bound,
                    *b2,
                ));
                assert(reads_expr(g1, bound, e).contains(j));
            }
            lemma_write_congruence_expr(g1, g2, b, bound, *a);
            lemma_write_congruence_expr(g1, g2, b, bound, *b2);
        },
        Expr::IfPos(c, t, e2) => {
            let taken = if denote_expr(g1, bound, *c) != 0 {
                reads_expr(g1, bound, *t)
            } else {
                reads_expr(g1, bound, *e2)
            };
            assert forall|j: usize| #[trigger] reads_expr(g1, bound, *c).contains(j) implies (
            j as int) != b && !depends_on(g1, j as int, b) by {
                lemma_concat_contains(reads_expr(g1, bound, *c), taken, j);
                assert(reads_expr(g1, bound, e) == reads_expr(g1, bound, *c) + taken);
                assert(reads_expr(g1, bound, e).contains(j));
            }
            assert forall|j: usize| #[trigger] taken.contains(j) implies (j as int) != b
                && !depends_on(g1, j as int, b) by {
                lemma_concat_contains(reads_expr(g1, bound, *c), taken, j);
                assert(reads_expr(g1, bound, e) == reads_expr(g1, bound, *c) + taken);
                assert(reads_expr(g1, bound, e).contains(j));
            }
            lemma_write_congruence_expr(g1, g2, b, bound, *c);
            if denote_expr(g1, bound, *c) != 0 {
                lemma_write_congruence_expr(g1, g2, b, bound, *t);
            } else {
                lemma_write_congruence_expr(g1, g2, b, bound, *e2);
            }
        },
    }
}

/// Node-level corollary of [`lemma_write_congruence_expr`]: a node that does
/// not transitively read the written input keeps its denotation and reads.
pub proof fn lemma_write_congruence_node(g1: Seq<Cell>, g2: Seq<Cell>, b: int, i: int)
    requires
        graph_wf(g1),
        same_but_input(g1, g2, b),
        0 <= i && i < g1.len(),
        i != b,
        !depends_on(g1, i, b),
    ensures
        denote_node(g2, i) == denote_node(g1, i),
        node_reads(g2, i) == node_reads(g1, i),
{
    assert(skel_eq(g1[i], g2[i]));
    match g1[i].expr {
        Option::None => {},
        Option::Some(e) => {
            assert(cell_wf(g1, i));
            assert(e.refs_below(i));
            lemma_reads_below(g1, i, e);
            assert(node_reads(g1, i) == reads_expr(g1, i, e));
            assert forall|j: usize| #[trigger] reads_expr(g1, i, e).contains(j) implies (
            j as int) != b && !depends_on(g1, j as int, b) by {
                assert((j as int) < i);
                assert(node_reads(g1, i).contains(j));
                if (j as int) == b || depends_on(g1, j as int, b) {
                    let jj = j as int;
                    assert((jj as usize) == j);
                    assert(node_reads(g1, i).contains(jj as usize));
                    assert(depends_on(g1, i, b));
                }
            }
            lemma_write_congruence_expr(g1, g2, b, i, e);
        },
    }
}

} // verus!
