use vstd::prelude::*;

use crate::var::Var;
use crate::var_set::VarSet;

verus! {

/// A knowledge base: a partial truth assignment over variables, as a pair of
/// variable sets recording the variables forced true and forced false.
///
/// Soundness of simplification requires the two sets to be disjoint; that is
/// the caller's responsibility and is not enforced here.
#[derive(Clone, Copy, Debug)]
pub struct Kb {
    pub vars_true: VarSet,
    pub vars_fals: VarSet,
}

impl Kb {
    /// What the knowledge base asserts of `var`: forced true, forced false
    /// (looked up only when not forced true), or unknown.
    pub open spec fn spec_test_var(self, var: Var) -> Option<bool> {
        if self.vars_true.spec_contains(var) {
            Some(true)
        } else if self.vars_fals.spec_contains(var) {
            Some(false)
        } else {
            None
        }
    }

    /// Looks `var` up: `Some(true)` when forced true, `Some(false)` when
    /// forced false, `None` when the knowledge base knows nothing of it.
    pub fn test_var(&self, var: Var) -> (r: Option<bool>)
        ensures
            r == self.spec_test_var(var),
    {
        if self.vars_true.contains(var) {
            Some(true)
        } else if self.vars_fals.contains(var) {
            Some(false)
        } else {
            None
        }
    }
}

} // verus!
