//! The language in which a derived node's computation is written.
//!
//! A computation does not capture arbitrary code: it is an expression that
//! declares which other nodes it may read, through the [`Expr::Get`]
//! leaves. Which reads actually happen can still depend on the values read,
//! through [`Expr::IfPos`], so dependency sets are dynamic.

use vstd::prelude::*;

verus! {

/// A computation producing a `u64` by reading other nodes of the same graph.
///
/// Arithmetic wraps around modulo `2^64`, so every expression denotes a
/// total function of the values it reads.
pub enum Expr {
    /// A literal.
    Const(u64),
    /// Read the node with the given reference; the read is recorded as a
    /// dependency of the enclosing computation.
    Get(usize),
    /// Wrapping sum of the two operands.
    Add(Box<Expr>, Box<Expr>),
    /// Wrapping product of the two operands.
    Mul(Box<Expr>, Box<Expr>),
    /// Evaluate the first operand; if it is nonzero evaluate the second,
    /// otherwise the third. Only the taken branch is read.
    IfPos(Box<Expr>, Box<Expr>, Box<Expr>),
}

impl Expr {
    /// Structural size, used as a termination measure.
    pub open spec fn size(self) -> nat
        decreases self,
    {
        match self {
            Expr::Const(_) => 1,
            Expr::Get(_) => 1,
            Expr::Add(a, b) => 1 + a.size() + b.size(),
            Expr::Mul(a, b) => 1 + a.size() + b.size(),
            Expr::IfPos(c, t, e) => 1 + c.size() + t.size() + e.size(),
        }
    }

    /// Every node reference occurring in the expression is below `bound`.
    pub open spec fn refs_below(self, bound: int) -> bool
        decreases self,
    {
        match self {
            Expr::Const(_) => true,
            Expr::Get(r) => (r as int) < bound,
            Expr::Add(a, b) => a.refs_below(bound) && b.refs_below(bound),
            Expr::Mul(a, b) => a.refs_below(bound) && b.refs_below(bound),
            Expr::IfPos(c, t, e) => c.refs_below(bound) && t.refs_below(bound) && e.refs_below(
                bound,
            ),
        }
    }

    /// Decides [`Expr::refs_below`].
    pub fn refs_ok(&self, bound: usize) -> (ok: bool)
        ensures
            ok == self.refs_below(bound as int),
        decreases self,
    {
        match self {
            Expr::Const(_) => true,
            Expr::Get(r) => *r < bound,
            Expr::Add(a, b) => a.refs_ok(bound) && b.refs_ok(bound),
            Expr::Mul(a, b) => a.refs_ok(bound) && b.refs_ok(bound),
            Expr::IfPos(c, t, e) => c.refs_ok(bound) && t.refs_ok(bound) && e.refs_ok(bound),
        }
    }

    /// A literal expression.
    pub fn constant(c: u64) -> (e: Expr)
        ensures
            e == Expr::Const(c),
    {
        Expr::Const(c)
    }

    /// The wrapping sum of two expressions.
    pub fn add(a: Expr, b: Expr) -> (e: Expr)
        ensures
            e == Expr::Add(Box::new(a), Box::new(b)),
    {
        Expr::Add(Box::new(a), Box::new(b))
    }

    /// The wrapping product of two expressions.
    pub fn mul(a: Expr, b: Expr) -> (e: Expr)
        ensures
            e == Expr::Mul(Box::new(a), Box::new(b)),
    {
        Expr::Mul(Box::new(a), Box::new(b))
    }

    /// A conditional: `t` when `c` is nonzero, `f` otherwise; only the
    /// taken branch is read.
    pub fn if_pos(c: Expr, t: Expr, f: Expr) -> (e: Expr)
        ensures
            e == Expr::IfPos(Box::new(c), Box::new(t), Box::new(f)),
    {
        Expr::IfPos(Box::new(c), Box::new(t), Box::new(f))
    }

    /// A deep copy, equal to the original.
    pub fn duplicate(&self) -> (r: Expr)
        ensures
            r == *self,
        decreases self,
    {
        match self {
            Expr::Const(c) => Expr::Const(*c),
            Expr::Get(r) => Expr::Get(*r),
            Expr::Add(a, b) => Expr::Add(Box::new(a.duplicate()), Box::new(b.duplicate())),
            Expr::Mul(a, b) => Expr::Mul(Box::new(a.duplicate()), Box::new(b.duplicate())),
            Expr::IfPos(c, t, e) => Expr::IfPos(
                Box::new(c.duplicate()),
                Box::new(t.duplicate()),
                Box::new(e.duplicate()),
            ),
        }
    }
}

} // verus!
