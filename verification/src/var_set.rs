use vstd::prelude::*;

use crate::var::Var;
use crate::var::VAR_CAPACITY;

verus! {

/// A set of variables, represented as one membership bit per possible index
/// in a single `u64` word: bit `i` is set exactly when the variable with
/// index `i` is a member.
#[derive(Clone, Copy, PartialEq, Eq, Structural, Debug)]
pub struct VarSet {
    bit_set: u64,
}

/// Destructive ascending iteration over a [`VarSet`]: each step removes and
/// returns the lowest-indexed member of `remaining`.
pub struct VarSetIter {
    pub remaining: VarSet,
}

impl Default for VarSet {
    /// The empty set.
    fn default() -> (r: Self)
        ensures
            r.spec_bits() == 0,
            forall|v: Var| !r.spec_contains(v),
    {
        let r = Self { bit_set: 0 };
        proof {
            assert(forall|j: u64| j < 64 ==> (0u64 >> j) & 1 != 1) by (bit_vector);
        }
        r
    }
}

impl VarSet {
    /// The raw membership mask.
    pub closed spec fn spec_bits(self) -> u64 {
        self.bit_set
    }

    /// Membership: the bit at the variable's index is set.
    pub open spec fn spec_contains(self, var: Var) -> bool {
        var.wf() && (self.spec_bits() >> (var.spec_index() as u64)) & 1 == 1
    }

    /// The one-element set holding `var`.
    pub fn singleton(var: Var) -> (r: Self)
        ensures
            r.spec_bits() == 1u64 << (var.spec_index() as u64),
            forall|w: Var| r.spec_contains(w)
                <==> (w.wf() && w.spec_index() == var.spec_index()),
    {
        proof {
            use_type_invariant(var);
        }
        let r = Self { bit_set: 1u64 << (var.index() as u64) };
        proof {
            let i = var.spec_index() as u64;
            assert(forall|j: u64|
                j < 64 ==> ((((1u64 << i) >> j) & 1 == 1) <==> i == j)) by (bit_vector)
                requires
                    i < 64,
            ;
        }
        r
    }

    /// Starts destructive ascending iteration over the members.
    pub fn into_iter(self) -> (r: VarSetIter)
        ensures
            r.remaining == self,
    {
        VarSetIter { remaining: self }
    }

    /// Removes and returns the lowest-indexed member, or `None` when the set
    /// is empty (in which case the set is left unchanged).
    pub fn take(&mut self) -> (r: Option<Var>)
        ensures
            match r {
                None => {
                    &&& *final(self) == *old(self)
                    &&& forall|v: Var| !old(self).spec_contains(v)
                },
                Some(v) => {
                    &&& v.wf()
                    &&& old(self).spec_contains(v)
                    &&& forall|w: Var|
                        w.wf() && w.spec_index() < v.spec_index()
                            ==> !old(self).spec_contains(w)
                    &&& forall|w: Var|
                        final(self).spec_contains(w)
                            <==> (old(self).spec_contains(w)
                                && w.spec_index() != v.spec_index())
                },
            },
    {
        let trailing = self.bit_set.trailing_zeros() as u8;
        proof {
            vstd::std_specs::bits::axiom_u64_trailing_zeros(self.spec_bits());
        }
        if trailing < VAR_CAPACITY {
            let var = Var::new(trailing).unwrap();
            self.remove(var);
            Some(var)
        } else {
            None
        }
    }

    /// Builds the set holding exactly the variables of the given list.
    pub fn from_iter(vars: Vec<Var>) -> (r: Self)
        ensures
            forall|v: Var| r.spec_contains(v) <==> vars@.contains(v),
    {
        let mut me = Self::default();
        let mut k: usize = 0;
        while k < vars.len()
            invariant
                k <= vars.len(),
                forall|v: Var|
                    me.spec_contains(v)
                        <==> exists|j: int| 0 <= j < k && vars@[j] == v,
            decreases vars.len() - k,
        {
            let x = vars[k];
            proof {
                use_type_invariant(x);
            }
            me.add(x);
            proof {
                assert forall|v: Var|
                    me.spec_contains(v)
                        <==> exists|j: int| 0 <= j < k + 1 && vars@[j] == v
                by {
                    if me.spec_contains(v) {
                        if v.wf() && v.spec_index() == x.spec_index() {
                            Var::lemma_index_injective(v, x);
                            assert(vars@[k as int] == v);
                        }
                    }
                    if exists|j: int| 0 <= j < k + 1 && vars@[j] == v {
                        let j = choose|j: int| 0 <= j < k + 1 && vars@[j] == v;
                        if j == k {
                            assert(v == x);
                        }
                    }
                }
            }
            k += 1;
        }
        me
    }

    /// Membership test, expressed through the removal primitive: a variable
    /// is a member exactly when removing it changes the set.
    pub fn contains(self, var: Var) -> (r: bool)
        ensures
            r == self.spec_contains(var),
    {
        proof {
            use_type_invariant(var);
            let bits = self.spec_bits();
            let i = var.spec_index() as u64;
            assert(((bits & !(1u64 << i)) != bits) == ((bits >> i) & 1 == 1)) by (bit_vector)
                requires
                    i < 64,
            ;
        }
        self != self.removed(var)
    }

    /// Subset test: `self` minus `other` is empty.
    pub fn is_subset(self, other: Self) -> (r: bool)
        ensures
            r == forall|v: Var| self.spec_contains(v) ==> other.spec_contains(v),
    {
        let d = self.differed(other);
        let r = d == Self::default();
        proof {
            let c = d.spec_bits();
            if c == 0 {
                assert(forall|j: u64| j < 64 ==> (c >> j) & 1 != 1) by (bit_vector)
                    requires
                        c == 0,
                ;
                assert(forall|v: Var| self.spec_contains(v) ==> other.spec_contains(v));
            } else {
                vstd::std_specs::bits::axiom_u64_trailing_zeros(c);
                let j = vstd::std_specs::bits::u64_trailing_zeros(c);
                let v = Var::spec_new(j as u8);
                Var::lemma_spec_new(j as u8);
                assert((c >> (j as u64)) & 1 == 1);
                assert(d.spec_contains(v));
                assert(self.spec_contains(v) && !other.spec_contains(v));
            }
        }
        r
    }

    /// Adds `var` to the set in place.
    pub fn add(&mut self, var: Var)
        ensures
            forall|w: Var|
                final(self).spec_contains(w)
                    <==> (old(self).spec_contains(w)
                        || (w.wf() && w.spec_index() == var.spec_index())),
    {
        *self = self.added(var)
    }

    /// Removes `var` from the set in place.
    pub fn remove(&mut self, var: Var)
        ensures
            forall|w: Var|
                final(self).spec_contains(w)
                    <==> (old(self).spec_contains(w)
                        && w.spec_index() != var.spec_index()),
    {
        *self = self.removed(var)
    }

    /// The set with `var` added.
    pub fn added(self, var: Var) -> (r: Self)
        ensures
            r.spec_bits() == self.spec_bits() | (1u64 << (var.spec_index() as u64)),
            forall|w: Var|
                r.spec_contains(w)
                    <==> (self.spec_contains(w)
                        || (w.wf() && w.spec_index() == var.spec_index())),
    {
        proof {
            use_type_invariant(var);
            let bits = self.spec_bits();
            let i = var.spec_index() as u64;
            assert(forall|j: u64|
                j < 64 ==> ((((bits | (1u64 << i)) >> j) & 1 == 1)
                    <==> ((bits >> j) & 1 == 1 || i == j))) by (bit_vector)
                requires
                    i < 64,
            ;
        }
        self.unified(Self::singleton(var))
    }

    /// The set with `var` removed.
    pub fn removed(self, var: Var) -> (r: Self)
        ensures
            r.spec_bits() == self.spec_bits() & !(1u64 << (var.spec_index() as u64)),
            forall|w: Var|
                r.spec_contains(w)
                    <==> (self.spec_contains(w) && w.spec_index() != var.spec_index()),
    {
        proof {
            use_type_invariant(var);
            let bits = self.spec_bits();
            let i = var.spec_index() as u64;
            assert(forall|j: u64|
                j < 64 ==> ((((bits & !(1u64 << i)) >> j) & 1 == 1)
                    <==> ((bits >> j) & 1 == 1 && i != j))) by (bit_vector)
                requires
                    i < 64,
            ;
        }
        self.differed(Self::singleton(var))
    }

    /// Set difference: the members of `self` that are not members of `other`.
    pub fn differed(self, other: Self) -> (r: Self)
        ensures
            r.spec_bits() == self.spec_bits() & !other.spec_bits(),
            forall|w: Var|
                r.spec_contains(w)
                    <==> (self.spec_contains(w) && !other.spec_contains(w)),
    {
        let r = Self { bit_set: self.bit_set & !other.bit_set };
        proof {
            let a = self.spec_bits();
            let b = other.spec_bits();
            assert(forall|j: u64|
                j < 64 ==> ((((a & !b) >> j) & 1 == 1)
                    <==> ((a >> j) & 1 == 1 && !((b >> j) & 1 == 1)))) by (bit_vector);
        }
        r
    }

    /// Set union.
    pub fn unified(self, other: Self) -> (r: Self)
        ensures
            r.spec_bits() == self.spec_bits() | other.spec_bits(),
            forall|w: Var|
                r.spec_contains(w)
                    <==> (self.spec_contains(w) || other.spec_contains(w)),
    {
        let r = Self { bit_set: self.bit_set | other.bit_set };
        proof {
            let a = self.spec_bits();
            let b = other.spec_bits();
            assert(forall|j: u64|
                j < 64 ==> ((((a | b) >> j) & 1 == 1)
                    <==> ((a >> j) & 1 == 1 || (b >> j) & 1 == 1))) by (bit_vector);
        }
        r
    }

    /// Set intersection.
    pub fn intersected(self, other: Self) -> (r: Self)
        ensures
            r.spec_bits() == self.spec_bits() & other.spec_bits(),
            forall|w: Var|
                r.spec_contains(w)
                    <==> (self.spec_contains(w) && other.spec_contains(w)),
    {
        let r = Self { bit_set: self.bit_set & other.bit_set };
        proof {
            let a = self.spec_bits();
            let b = other.spec_bits();
            assert(forall|j: u64|
                j < 64 ==> ((((a & b) >> j) & 1 == 1)
                    <==> ((a >> j) & 1 == 1 && (b >> j) & 1 == 1))) by (bit_vector);
        }
        r
    }
}

impl VarSetIter {
    /// Removes and returns the lowest-indexed variable still to be visited.
    pub fn next(&mut self) -> (r: Option<Var>)
        ensures
            match r {
                None => {
                    &&& *final(self) == *old(self)
                    &&& forall|v: Var| !old(self).remaining.spec_contains(v)
                },
                Some(v) => {
                    &&& v.wf()
                    &&& old(self).remaining.spec_contains(v)
                    &&& forall|w: Var|
                        w.wf() && w.spec_index() < v.spec_index()
                            ==> !old(self).remaining.spec_contains(w)
                    &&& forall|w: Var|
                        final(self).remaining.spec_contains(w)
                            <==> (old(self).remaining.spec_contains(w)
                                && w.spec_index() != v.spec_index())
                },
            },
    {
        self.remaining.take()
    }
}

} // verus!
