//! A relation expression marked as optimized.
use vstd::prelude::*;

verus! {

/// An expression that claims to have been optimized.
#[derive(Clone, Debug, PartialEq, Eq, Hash)]
pub struct OptimizedMirRelationExpr<E>(pub E);

impl<E> OptimizedMirRelationExpr<E> {
    /// Declares that `expr` is optimized, without running it through an
    /// optimizer: for expressions that are plainly optimal.
    pub fn declare_optimized(expr: E) -> (r: OptimizedMirRelationExpr<E>)
        ensures
            r.0 == expr,
    {
        OptimizedMirRelationExpr(expr)
    }

    /// The expression inside.
    pub fn as_inner(&self) -> (r: &E)
        ensures
            *r == self.0,
    {
        &self.0
    }

    /// Mutable access to the expression inside. Callers must keep it optimized.
    pub fn as_inner_mut(&mut self) -> (r: &mut E)
        ensures
            *r == old(self).0,
            *final(r) == final(self).0,
    {
        &mut self.0
    }

    /// The expression inside, taken out.
    pub fn into_inner(self) -> (r: E)
        ensures
            r == self.0,
    {
        self.0
    }
}

impl<E> core::ops::Deref for OptimizedMirRelationExpr<E> {
    type Target = E;

    fn deref(&self) -> (r: &E)
        ensures
            *r == self.0,
    {
        &self.0
    }
}

} // verus!
