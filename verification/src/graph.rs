//! The executable engine: the arena of cells, the handles, the evaluator
//! and the invalidation walk.

use vstd::prelude::*;
use vstd::pervasive::VecAdditionalExecFns;
use crate::expr::Expr;
use crate::semantics::{Cell, cell_wf, denote_expr, denote_node, depends_on, evolves_to, graph_wf,
    lemma_concat_contains, lemma_denote_congruence, lemma_denote_node_congruence,
    lemma_depends_gt, lemma_evolves_preserves_denote, lemma_evolves_trans, lemma_push_preserves,
    lemma_reads_below, lemma_write_congruence_node, node_reads, reads_expr, same_but_input,
    sat_inc, skel_eq, cell_evolves};

verus! {

/// Why a call failed: the reference did not resolve in this graph, either
/// because it names no cell or because a settable handle named a cell that
/// is not an input node. This happens only when a handle is used against a
/// graph that does not own it.
///
/// No other failure exists. A cyclic dependency cannot be built, because a
/// computation is only accepted when every reference in it names an
/// already-registered node, so every dependency edge points to an older
/// node; and a computation is a total expression, so an evaluation cannot
/// fail half way and poison the cache.
#[derive(Clone, Copy, PartialEq, Eq, Structural, Debug)]
pub enum EngineError {
    InvalidReference,
}

/// The graph: sole owner of every node's cell, in one growable, append-only
/// arena indexed by stable references.
pub struct Graph {
    cells: Vec<Cell>,
}

impl View for Graph {
    type V = Seq<Cell>;

    closed spec fn view(&self) -> Seq<Cell> {
        self.cells@
    }
}

/// A read-only handle to one node: a stable reference into the owning
/// graph's arena. Handles are cheap to copy; several may name the same cell.
#[derive(Clone, Copy)]
pub struct Node {
    idx: usize,
}

impl Node {
    /// The reference this handle carries.
    pub closed spec fn id(self) -> int {
        self.idx as int
    }

    /// An expression that reads this node.
    pub fn read(&self) -> (e: Expr)
        ensures
            e matches Expr::Get(r) && (r as int) == self.id(),
    {
        Expr::Get(self.idx)
    }
}

/// A handle to an input node: a [`Node`] that additionally allows writes.
#[derive(Clone, Copy)]
pub struct SettableNode {
    inner: Node,
}

impl Node {
    /// Returns the node's current value, recomputing it first if it is
    /// dirty, or reports an invalid reference (leaving the graph untouched)
    /// when the handle does not resolve in `g`.
    ///
    /// The returned value is exactly what a from-scratch re-evaluation of
    /// the node's computation chain would produce from the current input
    /// values. On a clean node nothing at all is recomputed; on a dirty one
    /// every cell is recomputed at most once, only dirty cells are touched,
    /// and afterwards the node is clean with its recorded reads equal to
    /// its current reads.
    pub fn get(&self, g: &mut Graph) -> (res: Result<u64, EngineError>)
        requires
            old(g).wf(),
        ensures
            final(g).wf(),
            res is Ok <==> self.id() < old(g)@.len(),
            res is Err ==> final(g)@ == old(g)@ && res == Err::<u64, EngineError>(
                EngineError::InvalidReference,
            ),
            res matches Ok(v) ==> {
                &&& v == denote_node(old(g)@, self.id())
                &&& v == denote_node(final(g)@, self.id())
                &&& evolves_to(old(g)@, final(g)@)
                &&& !final(g)@[self.id()].dirty
                &&& final(g)@[self.id()].deps@ == node_reads(final(g)@, self.id())
                &&& (!old(g)@[self.id()].dirty ==> final(g)@ == old(g)@)
                &&& (forall|i: int|
                    0 <= i && i < old(g)@.len() ==> (#[trigger] final(g)@[i].evals as int)
                        <= old(g)@[i].evals + 1)
                &&& (forall|i: int|
                    0 <= i && i < old(g)@.len() && !old(g)@[i].dirty ==> #[trigger] final(g)@[i]
                        == old(g)@[i])
                &&& (forall|i: int|
                    0 <= i && i < old(g)@.len() ==> #[trigger] denote_node(final(g)@, i)
                        == denote_node(old(g)@, i))
            },
    {
        let idx = self.idx;
        if idx >= g.cells.len() {
            return Err(EngineError::InvalidReference);
        }
        proof {
            assert(cell_wf(g@, idx as int));
        }
        if g.cells[idx].dirty {
            g.eval_node(idx);
        }
        let v = g.cells[idx].value;
        proof {
            let gi = old(g)@;
            let ii = idx as int;
            if gi[ii].dirty {
                lemma_evolves_preserves_denote(gi, g@);
                assert(node_reads(g@, ii) == node_reads(gi, ii));
                assert forall|i: int|
                    0 <= i && i < gi.len() implies (#[trigger] g@[i].evals as int) <= gi[i].evals
                    + 1 by {
                    assert(cell_evolves(gi[i], g@[i]));
                }
                assert forall|i: int|
                    0 <= i && i < gi.len() && !gi[i].dirty implies #[trigger] g@[i] == gi[i] by {
                    assert(cell_evolves(gi[i], g@[i]));
                }
            } else {
                assert(g@ == gi);
                assert forall|i: int| 0 <= i && i < gi.len() implies cell_evolves(
                    #[trigger] gi[i],
                    #[trigger] g@[i],
                ) by {}
                if gi[ii].is_derived() {
                    assert(v == denote_node(gi, ii));
                    assert(g@[ii].deps@ == node_reads(g@, ii));
                } else {
                    assert(denote_node(gi, ii) == gi[ii].value);
                    assert(node_reads(gi, ii) == Seq::<usize>::empty());
                    assert(g@[ii].deps@ =~= node_reads(g@, ii));
                }
            }
        }
        Ok(v)
    }
}

impl SettableNode {
    /// The reference this handle carries.
    pub closed spec fn id(self) -> int {
        self.inner.id()
    }

    /// Same as [`Node::get`]: a settable node is also a node.
    pub fn get(&self, g: &mut Graph) -> (res: Result<u64, EngineError>)
        requires
            old(g).wf(),
        ensures
            final(g).wf(),
            res is Ok <==> self.id() < old(g)@.len(),
            res is Err ==> final(g)@ == old(g)@ && res == Err::<u64, EngineError>(
                EngineError::InvalidReference,
            ),
            res matches Ok(v) ==> {
                &&& v == denote_node(old(g)@, self.id())
                &&& v == denote_node(final(g)@, self.id())
                &&& evolves_to(old(g)@, final(g)@)
                &&& !final(g)@[self.id()].dirty
                &&& final(g)@[self.id()].deps@ == node_reads(final(g)@, self.id())
                &&& (!old(g)@[self.id()].dirty ==> final(g)@ == old(g)@)
                &&& (forall|i: int|
                    0 <= i && i < old(g)@.len() ==> (#[trigger] final(g)@[i].evals as int)
                        <= old(g)@[i].evals + 1)
                &&& (forall|i: int|
                    0 <= i && i < old(g)@.len() && !old(g)@[i].dirty ==> #[trigger] final(g)@[i]
                        == old(g)@[i])
                &&& (forall|i: int|
                    0 <= i && i < old(g)@.len() ==> #[trigger] denote_node(final(g)@, i)
                        == denote_node(old(g)@, i))
            },
    {
        self.inner.get(g)
    }

    /// Overwrites the input node's value unconditionally, then marks dirty
    /// every derived node that transitively reads it — and no other: a node
    /// that does not read the written input keeps both its clean flag and
    /// its denotation. Nothing is recomputed and no evaluation counter
    /// moves. Reports an invalid reference (leaving the graph untouched)
    /// when the handle does not resolve to an input node of `g`.
    pub fn set(&self, g: &mut Graph, value: u64) -> (res: Result<(), EngineError>)
        requires
            old(g).wf(),
        ensures
            final(g).wf(),
            res is Ok <==> (self.id() < old(g)@.len() && old(g)@[self.id()].is_base()),
            res is Err ==> final(g)@ == old(g)@ && res == Err::<(), EngineError>(
                EngineError::InvalidReference,
            ),
            res is Ok ==> {
                &&& final(g)@.len() == old(g)@.len()
                &&& final(g)@[self.id()].value == value
                &&& (forall|i: int|
                    0 <= i && i < old(g)@.len() ==> {
                        &&& (#[trigger] final(g)@[i]).expr == old(g)@[i].expr
                        &&& final(g)@[i].deps@ == old(g)@[i].deps@
                        &&& final(g)@[i].evals == old(g)@[i].evals
                        &&& (i != self.id() ==> final(g)@[i].value == old(g)@[i].value)
                        &&& final(g)@[i].dirty == (old(g)@[i].dirty || depends_on(
                            old(g)@,
                            i,
                            self.id(),
                        ))
                    })
                &&& (forall|i: int|
                    0 <= i && i < old(g)@.len() && i != self.id() && !depends_on(
                        old(g)@,
                        i,
                        self.id(),
                    ) ==> #[trigger] denote_node(final(g)@, i) == denote_node(old(g)@, i))
            },
    {
        let idx = self.inner.idx;
        if idx >= g.cells.len() {
            return Err(EngineError::InvalidReference);
        }
        if g.cells[idx].expr.is_some() {
            return Err(EngineError::InvalidReference);
        }
        let ghost gpre = g@;
        let evals0 = g.cells[idx].evals;
        g.cells.set(
            idx,
            Cell { value, dirty: false, expr: Option::None, deps: Vec::new(), evals: evals0 },
        );
        proof {
            assert(cell_wf(gpre, idx as int));
            assert(g@[idx as int].deps@ =~= gpre[idx as int].deps@);
        }
        g.mark_dependents(idx, Ghost(gpre));
        proof {
            let bi = idx as int;
            let gf = g@;
            assert(same_but_input(gpre, gf, bi));
            assert(!depends_on(gpre, bi, bi));
            assert forall|i: int|
                0 <= i && i < gpre.len() && i != bi && !depends_on(gpre, i, bi) implies #[trigger]
            denote_node(gf, i) == denote_node(gpre, i) by {
                lemma_write_congruence_node(gpre, gf, bi, i);
            }
        }
        Ok(())
    }

    /// This handle as a plain read-only node handle.
    pub fn node(&self) -> (n: Node)
        ensures
            n.id() == self.id(),
    {
        self.inner
    }

    /// An expression that reads this node.
    pub fn read(&self) -> (e: Expr)
        ensures
            e matches Expr::Get(r) && (r as int) == self.id(),
    {
        self.inner.read()
    }
}

impl Graph {
    /// The engine's invariant; established by [`Graph::new`] and preserved
    /// by every operation.
    pub open spec fn wf(self) -> bool {
        graph_wf(self@)
    }

    /// Creates an empty graph.
    pub fn new() -> (g: Graph)
        ensures
            g.wf(),
            g@.len() == 0,
    {
        Graph { cells: Vec::new() }
    }

    /// Registers a new input node holding `value`. The node is clean and its
    /// value is authoritative until the next `set`. No existing cell changes.
    pub fn initial(&mut self, value: u64) -> (n: SettableNode)
        requires
            old(self).wf(),
        ensures
            final(self).wf(),
            n.id() == old(self)@.len(),
            final(self)@.len() == old(self)@.len() + 1,
            forall|i: int| 0 <= i && i < old(self)@.len() ==> final(self)@[i] == old(self)@[i],
            final(self)@[n.id()].value == value,
            final(self)@[n.id()].is_base(),
            !final(self)@[n.id()].dirty,
            final(self)@[n.id()].deps@ == Seq::<usize>::empty(),
            final(self)@[n.id()].evals == 0,
            forall|i: int|
                0 <= i && i < old(self)@.len() ==> #[trigger] denote_node(final(self)@, i)
                    == denote_node(old(self)@, i),
    {
        let idx = self.cells.len();
        self.cells.push(
            Cell { value, dirty: false, expr: Option::None, deps: Vec::new(), evals: 0 },
        );
        proof {
            lemma_push_preserves(old(self)@, self@);
            assert(cell_wf(self@, idx as int));
        }
        SettableNode { inner: Node { idx } }
    }

    /// Recomputes the dirty derived node `r`: runs its expression under a
    /// fresh recording of reads (recursively recomputing any dirty node it
    /// reads), then installs the value, the recorded reads, and the clean
    /// flag. Every touched cell was dirty and is recomputed at most once.
    fn eval_node(&mut self, r: usize)
        requires
            old(self).wf(),
            (r as int) < old(self)@.len(),
            old(self)@[r as int].is_derived(),
            old(self)@[r as int].dirty,
        ensures
            final(self).wf(),
            evolves_to(old(self)@, final(self)@),
            forall|i: int|
                (r as int) < i && i < old(self)@.len() ==> final(self)@[i] == old(self)@[i],
            !final(self)@[r as int].dirty,
            final(self)@[r as int].value == denote_node(old(self)@, r as int),
            final(self)@[r as int].deps@ == node_reads(old(self)@, r as int),
            final(self)@[r as int].evals == sat_inc(old(self)@[r as int].evals),
        decreases r, 1nat, 0nat,
    {
        let ghost g0 = self@;
        let e = match &self.cells[r].expr {
            Option::Some(ex) => ex.duplicate(),
            Option::None => {
                proof {
                    assert(false);
                }
                Expr::Const(0)
            },
        };
        proof {
            assert(g0[r as int].expr == Option::Some(e));
            assert(cell_wf(g0, r as int));
            assert(e.refs_below(r as int));
        }
        let mut new_reads: Vec<usize> = Vec::new();
        let v = self.eval_expr(&e, &mut new_reads, Ghost(r as int));
        let ghost g1 = self@;
        let evals0 = self.cells[r].evals;
        let new_evals = if evals0 < u64::MAX {
            evals0 + 1
        } else {
            evals0
        };
        proof {
            assert(g1[r as int] == g0[r as int]);
            assert(new_reads@ =~= reads_expr(g0, r as int, e));
        }
        self.cells.set(
            r,
            Cell { value: v, dirty: false, expr: Option::Some(e), deps: new_reads, evals: new_evals },
        );
        proof {
            let ri = r as int;
            let g2 = self@;
            assert(g2 == g1.update(ri, g2[ri]));
            // The final write is itself an evaluation-shaped step.
            assert forall|i: int| 0 <= i && i < g1.len() implies cell_evolves(
                #[trigger] g1[i],
                #[trigger] g2[i],
            ) by {
                if i != ri {
                    assert(g2[i] == g1[i]);
                }
            }
            assert(evolves_to(g1, g2));
            lemma_evolves_trans(g0, g1, g2);
            // Denotations and reads are unchanged through both steps.
            lemma_evolves_preserves_denote(g0, g1);
            assert forall|j: int| 0 <= j && j < g1.len() implies skel_eq(
                #[trigger] g1[j],
                g2[j],
            ) by {}
            lemma_denote_congruence(g1, g2, ri, e);
            assert(denote_expr(g2, ri, e) == denote_expr(g0, ri, e));
            assert(reads_expr(g2, ri, e) == reads_expr(g0, ri, e));
            assert(denote_node(g2, ri) == denote_expr(g2, ri, e));
            assert(node_reads(g2, ri) == reads_expr(g2, ri, e));
            assert(denote_node(g0, ri) == denote_expr(g0, ri, e));
            assert(node_reads(g0, ri) == reads_expr(g0, ri, e));
            lemma_reads_below(g0, ri, e);
            // Well-formedness of every cell in the final state.
            assert forall|i: int| 0 <= i && i < g2.len() implies #[trigger] cell_wf(g2, i) by {
                lemma_denote_node_congruence(g1, g2, i);
                if i == ri {
                    assert forall|k: int|
                        0 <= k && k < node_reads(g2, ri).len() implies !g2[(
                    #[trigger] node_reads(g2, ri)[k]) as int].dirty by {
                        let j = node_reads(g2, ri)[k];
                        assert(reads_expr(g0, ri, e).contains(j));
                        assert((j as int) < ri);
                        assert(!g1[j as int].dirty);
                        assert(g2[j as int] == g1[j as int]);
                    }
                } else {
                    assert(cell_wf(g1, i));
                    if g1[i].is_derived() && !g1[i].dirty {
                        assert forall|k: int|
                            0 <= k && k < node_reads(g2, i).len() implies !g2[(
                        #[trigger] node_reads(g2, i)[k]) as int].dirty by {
                            let j = node_reads(g2, i)[k] as int;
                            assert(node_reads(g1, i)[k] == node_reads(g2, i)[k]);
                            assert(!g1[j].dirty);
                            if j != ri {
                                assert(g2[j] == g1[j]);
                            }
                        }
                    }
                }
            }
        }
    }

    /// Evaluates `e` from scratch, recording every reference it reads in
    /// `reads`, and recursively recomputing any dirty derived node it
    /// reads. Returns exactly the denotation of `e` in the entry state.
    fn eval_expr(&mut self, e: &Expr, reads: &mut Vec<usize>, Ghost(bound): Ghost<int>) -> (v: u64)
        requires
            old(self).wf(),
            e.refs_below(bound),
            bound <= old(self)@.len(),
        ensures
            final(self).wf(),
            evolves_to(old(self)@, final(self)@),
            forall|i: int|
                bound <= i && i < old(self)@.len() ==> final(self)@[i] == old(self)@[i],
            v == denote_expr(old(self)@, bound, *e),
            final(reads)@ == old(reads)@ + reads_expr(old(self)@, bound, *e),
            forall|j: usize|
                #[trigger] reads_expr(old(self)@, bound, *e).contains(j) ==> !final(self)@[(
                j as int)].dirty,
        decreases bound, 0nat, e.size(),
    {
        let ghost ge = self@;
        match e {
            Expr::Const(c) => {
                proof {
                    assert(reads@ =~= old(reads)@ + reads_expr(ge, bound, *e));
                }
                *c
            },
            Expr::Get(r) => {
                let ri = *r;
                reads.push(ri);
                proof {
                    assert(reads@ =~= old(reads)@ + reads_expr(ge, bound, *e));
                    assert(cell_wf(ge, ri as int));
                }
                if self.cells[ri].dirty {
                    self.eval_node(ri);
                }
                let v = self.cells[ri].value;
                proof {
                    let s = reads_expr(ge, bound, *e);
                    assert(s == seq![ri]);
                    assert forall|j: usize| #[trigger] s.contains(j) implies !self@[(
                    j as int)].dirty by {
                        assert(j == ri);
                    }
                    if ge[ri as int].dirty {
                        assert(v == denote_node(ge, ri as int));
                    } else {
                        assert(self@ == ge);
                        assert forall|i: int| 0 <= i && i < ge.len() implies cell_evolves(
                            #[trigger] ge[i],
                            #[trigger] self@[i],
                        ) by {}
                        if ge[ri as int].is_derived() {
                            assert(v == denote_node(ge, ri as int));
                        } else {
                            assert(denote_node(ge, ri as int) == ge[ri as int].value);
                        }
                    }
                }
                v
            },
            Expr::Add(a, b) => {
                let v1 = self.eval_expr(a, reads, Ghost(bound));
                let ghost g1 = self@;
                let v2 = self.eval_expr(b, reads, Ghost(bound));
                proof {
                    self.lemma_binop_step(ge, g1, **a, **b, reads_expr(ge, bound, *e), bound);
                    assert(reads@ =~= old(reads)@ + reads_expr(ge, bound, *e));
                }
                v1.wrapping_add(v2)
            },
            Expr::Mul(a, b) => {
                let v1 = self.eval_expr(a, reads, Ghost(bound));
                let ghost g1 = self@;
                let v2 = self.eval_expr(b, reads, Ghost(bound));
                proof {
                    self.lemma_binop_step(ge, g1, **a, **b, reads_expr(ge, bound, *e), bound);
                    assert(reads@ =~= old(reads)@ + reads_expr(ge, bound, *e));
                }
                v1.wrapping_mul(v2)
            },
            Expr::IfPos(c, t, e2) => {
                let cv = self.eval_expr(c, reads, Ghost(bound));
                let ghost g1 = self@;
                let v = if cv != 0 {
                    self.eval_expr(t, reads, Ghost(bound))
                } else {
                    self.eval_expr(e2, reads, Ghost(bound))
                };
                proof {
                    let taken = if denote_expr(ge, bound, **c) != 0 {
                        **t
                    } else {
                        **e2
                    };
                    self.lemma_binop_step(ge, g1, **c, taken, reads_expr(ge, bound, *e), bound);
                    assert(reads@ =~= old(reads)@ + reads_expr(ge, bound, *e));
                }
                v
            },
        }
    }

    /// Registers a new derived node computing `e`, after checking that `e`
    /// only references nodes this graph already owns; otherwise nothing
    /// changes and the reference is reported invalid.
    ///
    /// The expression is evaluated once immediately, seeding the cached
    /// value and the recorded dependency set; the node itself starts dirty,
    /// so its first read recomputes it. No existing cell changes except
    /// that dirty nodes read by the eager evaluation become clean; no
    /// existing denotation changes.
    pub fn compute(&mut self, e: Expr) -> (res: Result<Node, EngineError>)
        requires
            old(self).wf(),
        ensures
            final(self).wf(),
            res is Ok <==> e.refs_below(old(self)@.len() as int),
            res is Err ==> final(self)@ == old(self)@ && res == Err::<Node, EngineError>(
                EngineError::InvalidReference,
            ),
            res matches Ok(n) ==> {
                &&& n.id() == old(self)@.len()
                &&& final(self)@.len() == old(self)@.len() + 1
                &&& evolves_to(old(self)@, final(self)@.take(old(self)@.len() as int))
                &&& final(self)@[n.id()].expr == Option::Some(e)
                &&& final(self)@[n.id()].dirty
                &&& final(self)@[n.id()].value == denote_node(final(self)@, n.id())
                &&& final(self)@[n.id()].deps@ == node_reads(final(self)@, n.id())
                &&& final(self)@[n.id()].evals == 1
                &&& (forall|i: int|
                    0 <= i && i < old(self)@.len() ==> #[trigger] denote_node(final(self)@, i)
                        == denote_node(old(self)@, i))
            },
    {
        let n = self.cells.len();
        if !e.refs_ok(n) {
            return Err(EngineError::InvalidReference);
        }
        let ghost g0 = self@;
        let mut new_reads: Vec<usize> = Vec::new();
        let v = self.eval_expr(&e, &mut new_reads, Ghost(n as int));
        let ghost g1 = self@;
        proof {
            assert(new_reads@ =~= reads_expr(g0, n as int, e));
        }
        self.cells.push(
            Cell { value: v, dirty: true, expr: Option::Some(e), deps: new_reads, evals: 1 },
        );
        proof {
            let ni = n as int;
            let g2 = self@;
            assert(g2.take(ni) =~= g1);
            lemma_push_preserves(g1, g2);
            lemma_evolves_preserves_denote(g0, g1);
            // The new cell is well formed: it is dirty, so only the shape
            // clauses matter.
            lemma_reads_below(g0, ni, e);
            assert(cell_wf(g2, ni));
            assert forall|i: int| 0 <= i && i < g2.len() implies #[trigger] cell_wf(g2, i) by {}
            // Its seeded value and reads match its denotation in the final
            // state.
            assert forall|j: int| 0 <= j && j <= ni && j < g1.len() implies skel_eq(
                #[trigger] g1[j],
                g2[j],
            ) by {}
            lemma_denote_congruence(g1, g2, ni, e);
            assert(denote_node(g2, ni) == denote_expr(g2, ni, e));
            assert(node_reads(g2, ni) == reads_expr(g2, ni, e));
            assert forall|i: int|
                0 <= i && i < g0.len() implies #[trigger] denote_node(g2, i) == denote_node(
                g0,
                i,
            ) by {
                assert(denote_node(g2, i) == denote_node(g1, i));
                assert(denote_node(g1, i) == denote_node(g0, i));
            }
        }
        Ok(Node { idx: n })
    }

    /// How many times the node's computation has run, or `None` when the
    /// handle does not resolve in this graph. An input node's count is
    /// always zero.
    pub fn eval_count(&self, n: &Node) -> (res: Option<u64>)
        ensures
            res is Some <==> n.id() < self@.len(),
            res matches Some(c) ==> c == self@[n.id()].evals,
    {
        if n.idx < self.cells.len() {
            Option::Some(self.cells[n.idx].evals)
        } else {
            Option::None
        }
    }

    /// Whether the node is currently marked dirty, or `None` when the
    /// handle does not resolve in this graph.
    pub fn is_dirty(&self, n: &Node) -> (res: Option<bool>)
        ensures
            res is Some <==> n.id() < self@.len(),
            res matches Some(d) ==> d == self@[n.id()].dirty,
    {
        if n.idx < self.cells.len() {
            Option::Some(self.cells[n.idx].dirty)
        } else {
            Option::None
        }
    }

    /// Does any recorded dependency of node `i` name `b`, or name a cell
    /// that is currently dirty?
    fn deps_hit(&self, i: usize, b: usize) -> (hit: bool)
        requires
            (i as int) < self@.len(),
            forall|k: int|
                0 <= k && k < self@[i as int].deps@.len() ==> (#[trigger] self@[i as int].deps@[k]
                    as int) < (i as int),
        ensures
            hit == exists|k: int|
                0 <= k && k < self@[i as int].deps@.len() && ((#[trigger] self@[i as int].deps@[k])
                    == b || self@[self@[i as int].deps@[k] as int].dirty),
    {
        let deps_len = self.cells[i].deps.len();
        let mut k: usize = 0;
        while k < deps_len
            invariant
                (i as int) < self@.len(),
                deps_len == self@[i as int].deps@.len(),
                k <= deps_len,
                forall|m: int|
                    0 <= m && m < self@[i as int].deps@.len() ==> (#[trigger] self@[i as
                        int].deps@[m] as int) < (i as int),
                forall|m: int|
                    0 <= m && m < k ==> !((#[trigger] self@[i as int].deps@[m]) == b || self@[self@[
                        i as int].deps@[m] as int].dirty),
            decreases deps_len - k,
        {
            let j = self.cells[i].deps[k];
            if j == b || self.cells[j].dirty {
                return true;
            }
            k += 1;
        }
        false
    }

    /// The invalidation walk after a write to the input node `b`: marks
    /// dirty exactly the clean derived nodes that transitively read `b` in
    /// the pre-write state `gpre`, walking the recorded dependency edges in
    /// the reverse direction (from the written node outward to its
    /// dependents). A single ascending pass suffices because every
    /// dependency edge points to an older node, and it never needs to look
    /// past a node that was already dirty, because no clean node records a
    /// dirty dependency.
    fn mark_dependents(&mut self, b: usize, Ghost(gpre): Ghost<Seq<Cell>>)
        requires
            graph_wf(gpre),
            old(self)@.len() == gpre.len(),
            (b as int) < gpre.len(),
            gpre[b as int].is_base(),
            forall|i: int|
                0 <= i && i < gpre.len() && i != (b as int) ==> #[trigger] old(self)@[i] == gpre[i],
            old(self)@[b as int].expr == gpre[b as int].expr,
            old(self)@[b as int].dirty == gpre[b as int].dirty,
            old(self)@[b as int].deps@ == gpre[b as int].deps@,
            old(self)@[b as int].evals == gpre[b as int].evals,
        ensures
            final(self).wf(),
            final(self)@.len() == old(self)@.len(),
            forall|i: int|
                0 <= i && i < old(self)@.len() ==> {
                    &&& (#[trigger] final(self)@[i]).expr == old(self)@[i].expr
                    &&& final(self)@[i].value == old(self)@[i].value
                    &&& final(self)@[i].deps@ == old(self)@[i].deps@
                    &&& final(self)@[i].evals == old(self)@[i].evals
                    &&& final(self)@[i].dirty == (old(self)@[i].dirty || depends_on(
                        gpre,
                        i,
                        b as int,
                    ))
                },
    {
        let ghost g0 = self@;
        let ghost bi = b as int;
        proof {
            assert forall|k: int| 0 <= k && k <= bi implies !depends_on(gpre, k, bi) by {
                if depends_on(gpre, k, bi) {
                    lemma_depends_gt(gpre, k, bi);
                }
            }
        }
        let n = self.cells.len();
        let mut i: usize = b + 1;
        while i < n
            invariant
                graph_wf(gpre),
                self@.len() == n,
                n == gpre.len(),
                (b as int) == bi,
                bi < n,
                gpre[bi].is_base(),
                bi + 1 <= i as int,
                i as int <= n,
                forall|k: int|
                    0 <= k && k < n && k != bi ==> #[trigger] g0[k] == gpre[k],
                g0[bi].expr == gpre[bi].expr,
                g0[bi].dirty == gpre[bi].dirty,
                g0[bi].deps@ == gpre[bi].deps@,
                g0[bi].evals == gpre[bi].evals,
                forall|k: int|
                    0 <= k && k < n ==> {
                        &&& (#[trigger] self@[k]).expr == g0[k].expr
                        &&& self@[k].value == g0[k].value
                        &&& self@[k].deps@ == g0[k].deps@
                        &&& self@[k].evals == g0[k].evals
                    },
                forall|k: int|
                    0 <= k && k < i as int && k < n ==> (#[trigger] self@[k]).dirty == (
                    g0[k].dirty || depends_on(gpre, k, bi)),
                forall|k: int|
                    i as int <= k && k < n ==> (#[trigger] self@[k]).dirty == g0[k].dirty,
            decreases n - i,
        {
            let ghost cur = self@;
            let ghost ii = i as int;
            let is_derived = self.cells[i].expr.is_some();
            let is_clean = !self.cells[i].dirty;
            proof {
                assert(cell_wf(gpre, ii));
            }
            if is_derived && is_clean {
                proof {
                    // This node is clean in the pre-write state, so its
                    // recorded dependencies are exactly its current reads
                    // and each of them was clean before the write.
                    assert(g0[ii] == gpre[ii]);
                    assert(cur[ii].deps@ == gpre[ii].deps_seq());
                    assert(gpre[ii].deps_seq() == node_reads(gpre, ii));
                    assert forall|k: int|
                        0 <= k && k < self@[ii].deps@.len() implies (#[trigger] self@[ii].deps@[k]
                        as int) < ii by {}
                }
                if self.deps_hit(i, b) {
                    proof {
                        // A recorded dependency is the written node or a
                        // node this walk has already marked: either way the
                        // node transitively reads the written input.
                        let k = choose|k: int|
                            0 <= k && k < cur[ii].deps@.len() && ((#[trigger] cur[ii].deps@[k])
                                == b || cur[cur[ii].deps@[k] as int].dirty);
                        let j = cur[ii].deps@[k];
                        let jj = j as int;
                        assert(node_reads(gpre, ii)[k] == j);
                        assert(node_reads(gpre, ii).contains(jj as usize));
                        assert(jj < ii);
                        assert(!gpre[jj].dirty);
                        if j != b {
                            assert(cur[jj].dirty);
                            assert(g0[jj] == gpre[jj]);
                            assert(depends_on(gpre, jj, bi));
                        }
                        assert(depends_on(gpre, ii, bi));
                    }
                    let mut tmp = Cell {
                        value: 0,
                        dirty: false,
                        expr: Option::None,
                        deps: Vec::new(),
                        evals: 0,
                    };
                    self.cells.set_and_swap(i, &mut tmp);
                    tmp.dirty = true;
                    self.cells.set_and_swap(i, &mut tmp);
                    proof {
                        assert(self@[ii].dirty);
                    }
                } else {
                    proof {
                        // No recorded dependency hits, so the node does not
                        // transitively read the written input.
                        if depends_on(gpre, ii, bi) {
                            let jj = choose|jj: int|
                                0 <= jj && jj < ii && #[trigger] node_reads(gpre, ii).contains(
                                    jj as usize,
                                ) && (jj == bi || depends_on(gpre, jj, bi));
                            let ks = choose|ks: int|
                                0 <= ks && ks < node_reads(gpre, ii).len() && node_reads(
                                    gpre,
                                    ii,
                                )[ks] == (jj as usize);
                            assert(cur[ii].deps@[ks] == (jj as usize));
                            if jj != bi {
                                assert(!gpre[jj].dirty);
                                assert(g0[jj] == gpre[jj]);
                                assert(cur[jj].dirty);
                            }
                            assert(false);
                        }
                    }
                }
            } else {
                proof {
                    if gpre[ii].is_base() {
                        assert(node_reads(gpre, ii) == Seq::<usize>::empty());
                        assert(!depends_on(gpre, ii, bi));
                    }
                }
            }
            i += 1;
        }
        proof {
            let gf = self@;
            // Every cell of the final state is well formed.
            assert(same_but_input(gpre, gf, bi));
            assert forall|k: int| 0 <= k && k < n implies #[trigger] cell_wf(gf, k) by {
                assert(cell_wf(gpre, k));
                if gf[k].is_derived() && !gf[k].dirty {
                    assert(!g0[k].dirty && !depends_on(gpre, k, bi));
                    assert(k != bi);
                    assert(gpre[k] == g0[k]);
                    lemma_write_congruence_node(gpre, gf, bi, k);
                    assert(gf[k].value == denote_node(gf, k));
                    assert(gf[k].deps_seq() == node_reads(gf, k));
                    assert forall|m: int|
                        0 <= m && m < node_reads(gf, k).len() implies !gf[(#[trigger] node_reads(
                        gf,
                        k,
                    )[m]) as int].dirty by {
                        let j = node_reads(gf, k)[m];
                        let jj = j as int;
                        assert(node_reads(gpre, k)[m] == j);
                        assert(gpre[k].deps_seq()[m] == j);
                        assert(jj < k);
                        assert(!gpre[jj].dirty);
                        assert(node_reads(gpre, k).contains(jj as usize));
                        if depends_on(gpre, jj, bi) {
                            assert(depends_on(gpre, k, bi));
                        }
                        if jj == bi {
                            assert(!depends_on(gpre, bi, bi));
                            assert(gf[jj].dirty == (g0[jj].dirty || false));
                        } else {
                            assert(g0[jj] == gpre[jj]);
                        }
                    }
                }
            }
        }
    }

    /// Shared sequencing argument for the two-step cases of
    /// [`Graph::eval_expr`]: after evaluating `ea` (taking the state from
    /// `ge` to `g1`) and then `eb` (taking it to the current state), the
    /// second result and reads still match the entry state `ge`, the two
    /// steps compose, and every reference in `whole = reads of ea + reads
    /// of eb` names a now-clean cell.
    proof fn lemma_binop_step(
        &self,
        ge: Seq<Cell>,
        g1: Seq<Cell>,
        ea: Expr,
        eb: Expr,
        whole: Seq<usize>,
        bound: int,
    )
        requires
            graph_wf(ge),
            graph_wf(g1),
            self.wf(),
            evolves_to(ge, g1),
            evolves_to(g1, self@),
            bound <= ge.len(),
            ea.refs_below(bound),
            eb.refs_below(bound),
            whole == reads_expr(ge, bound, ea) + reads_expr(ge, bound, eb),
            forall|j: usize|
                #[trigger] reads_expr(ge, bound, ea).contains(j) ==> !g1[(j as int)].dirty,
            forall|j: usize|
                #[trigger] reads_expr(g1, bound, eb).contains(j) ==> !self@[(j as int)].dirty,
        ensures
            evolves_to(ge, self@),
            denote_expr(g1, bound, eb) == denote_expr(ge, bound, eb),
            reads_expr(g1, bound, eb) == reads_expr(ge, bound, eb),
            forall|j: usize| #[trigger] whole.contains(j) ==> !self@[(j as int)].dirty,
    {
        lemma_evolves_trans(ge, g1, self@);
        lemma_evolves_preserves_denote(ge, g1);
        assert(denote_expr(g1, bound, eb) == denote_expr(ge, bound, eb));
        assert(reads_expr(g1, bound, eb) == reads_expr(ge, bound, eb));
        lemma_reads_below(ge, bound, ea);
        assert forall|j: usize| #[trigger] whole.contains(j) implies !self@[(j as int)].dirty by {
            lemma_concat_contains(reads_expr(ge, bound, ea), reads_expr(ge, bound, eb), j);
            if reads_expr(ge, bound, ea).contains(j) {
                assert(!g1[j as int].dirty);
                assert((j as int) < bound);
                assert(cell_evolves(g1[j as int], self@[j as int]));
            } else {
                assert(reads_expr(g1, bound, eb).contains(j));
            }
        }
    }
}

} // verus!
