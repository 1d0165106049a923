use vstd::prelude::*;

verus! {

/// An in-place work queue over one owned growable sequence, conceptually
/// partitioned into two contiguous regions: a *processed* prefix, already in
/// final form and in stable order, and an *unprocessed* suffix whose internal
/// order is insignificant.
///
/// The queue supports taking an element out of the unprocessed region in
/// O(1), appending new unprocessed work (to requeue expansion results), and
/// appending finished results to the processed region. `new` establishes
/// [`VecMutQ::wf`] and every method preserves it.
pub struct VecMutQ<T> {
    vec: Vec<T>,
    processed_before: usize,
}

impl<T> VecMutQ<T> {
    /// The processed/unprocessed boundary never passes the end of the vector.
    pub closed spec fn wf(self) -> bool {
        self.processed_before <= self.vec.len()
    }

    /// The processed region: a stable-order prefix of final results.
    pub closed spec fn processed(self) -> Seq<T> {
        self.vec@.subrange(0, self.processed_before as int)
    }

    /// The unprocessed region: the remaining suffix of pending work.
    pub closed spec fn unprocessed(self) -> Seq<T> {
        self.vec@.subrange(self.processed_before as int, self.vec@.len() as int)
    }

    /// Wraps a sequence for rewriting; everything starts out unprocessed.
    pub fn new(vec: Vec<T>) -> (r: Self)
        ensures
            r.wf(),
            r.processed() == Seq::<T>::empty(),
            r.unprocessed() == vec@,
    {
        let r = Self { vec, processed_before: 0 };
        proof {
            assert(r.processed() =~= Seq::<T>::empty());
            assert(r.unprocessed() =~= r.vec@);
        }
        r
    }

    /// Removes and returns one element of the unprocessed region in O(1), or
    /// `None` when no unprocessed work remains. The last unprocessed element
    /// is swapped into the vacated slot, so the region's internal order is
    /// not preserved; its elements are.
    pub fn take_unprocessed(&mut self) -> (r: Option<T>)
        requires
            old(self).wf(),
        ensures
            final(self).wf(),
            match r {
                None => {
                    &&& *final(self) == *old(self)
                    &&& old(self).unprocessed().len() == 0
                },
                Some(x) => {
                    &&& old(self).unprocessed().len() > 0
                    &&& x == old(self).unprocessed()[0]
                    &&& final(self).processed() == old(self).processed()
                    &&& final(self).unprocessed().len() == old(self).unprocessed().len() - 1
                    &&& forall|k: int|
                        0 <= k < final(self).unprocessed().len()
                            ==> final(self).unprocessed()[k] == (if k == 0 {
                                old(self).unprocessed().last()
                            } else {
                                old(self).unprocessed()[k]
                            })
                },
            },
    {
        if self.processed_before < self.vec.len() {
            let x = self.vec.swap_remove(self.processed_before);
            proof {
                assert(self.processed() =~= old(self).processed());
                assert forall|k: int| 0 <= k < self.unprocessed().len()
                    implies self.unprocessed()[k] == (if k == 0 {
                        old(self).unprocessed().last()
                    } else {
                        old(self).unprocessed()[k]
                    }) by {
                    let pb = self.processed_before as int;
                    assert(self.unprocessed()[k] == self.vec@[pb + k]);
                }
            }
            Some(x)
        } else {
            None
        }
    }

    /// Appends `t` to the end of the unprocessed region; used to requeue
    /// expansion results for another pass.
    pub fn add_unprocessed(&mut self, t: T)
        requires
            old(self).wf(),
        ensures
            final(self).wf(),
            final(self).processed() == old(self).processed(),
            final(self).unprocessed() == old(self).unprocessed().push(t),
    {
        self.vec.push(t);
        proof {
            assert(self.processed() =~= old(self).processed());
            assert(self.unprocessed() =~= old(self).unprocessed().push(t));
        }
    }

    /// Appends each element of `ts`, in order, to the processed region.
    pub fn extend_processed(&mut self, ts: Vec<T>)
        requires
            old(self).wf(),
        ensures
            final(self).wf(),
            final(self).processed() == old(self).processed() + ts@,
            final(self).unprocessed() == old(self).unprocessed(),
    {
        let mut ts = ts;
        let ghost all = ts@;
        proof {
            assert(old(self).processed() + all.subrange(0, 0) =~= old(self).processed());
            assert(ts@ =~= all.subrange(0, all.len() as int));
        }
        while ts.len() > 0
            invariant
                self.wf(),
                ts@.len() <= all.len(),
                ts@ == all.subrange(all.len() - ts@.len(), all.len() as int),
                self.processed() == old(self).processed()
                    + all.subrange(0, all.len() - ts@.len()),
                self.unprocessed() == old(self).unprocessed(),
            decreases ts.len(),
        {
            let ghost k = all.len() - ts@.len();
            let x = ts.remove(0);
            proof {
                assert(x == all[k]);
                assert(ts@ =~= all.subrange(all.len() - ts@.len(), all.len() as int));
            }
            self.add_processed(x);
            proof {
                assert((old(self).processed() + all.subrange(0, k)).push(all[k])
                    =~= old(self).processed() + all.subrange(0, k + 1));
            }
        }
        proof {
            assert(all.subrange(0, all.len() as int) =~= all);
        }
    }

    /// Appends `t` at the boundary slot, extending the processed region by
    /// one and leaving the unprocessed region's contents unchanged.
    pub fn add_processed(&mut self, t: T)
        requires
            old(self).wf(),
        ensures
            final(self).wf(),
            final(self).processed() == old(self).processed().push(t),
            final(self).unprocessed() == old(self).unprocessed(),
    {
        self.vec.insert(self.processed_before, t);
        let n = self.vec.len();
        proof {
            assert(self.processed_before < n);
        }
        self.processed_before = self.processed_before + 1;
        proof {
            assert(self.processed() =~= old(self).processed().push(t));
            assert(self.unprocessed() =~= old(self).unprocessed());
        }
    }

    /// Hands the rewritten sequence back: the processed results in order,
    /// followed by whatever was left unprocessed.
    pub fn into_vec(self) -> (r: Vec<T>)
        requires
            self.wf(),
        ensures
            r@ == self.processed() + self.unprocessed(),
    {
        proof {
            assert(self.processed() + self.unprocessed() =~= self.vec@);
        }
        self.vec
    }

    /// Maps every element of `vec` through `func`, in place and in order:
    /// each element is taken out, transformed once, and put back as final.
    pub fn in_place_endo_map<F: Fn(T) -> T>(vec: &mut Vec<T>, func: F)
        requires
            forall|i: int| 0 <= i < old(vec)@.len() ==> call_requires(func, (old(vec)@[i],)),
        ensures
            final(vec)@.len() == old(vec)@.len(),
            forall|i: int|
                0 <= i < final(vec)@.len() ==> call_ensures(func, (old(vec)@[i],), final(vec)@[i]),
    {
        let ghost orig = vec@;
        let mut i: usize = 0;
        while i < vec.len()
            invariant
                i <= vec@.len(),
                vec@.len() == orig.len(),
                forall|j: int| 0 <= j < i ==> call_ensures(func, (orig[j],), vec@[j]),
                forall|j: int| i <= j < orig.len() ==> vec@[j] == orig[j],
                forall|j: int| 0 <= j < orig.len() ==> call_requires(func, (orig[j],)),
            decreases vec@.len() - i,
        {
            let x = vec.remove(i);
            proof {
                assert(x == orig[i as int]);
                assert(call_requires(func, (orig[i as int],)));
            }
            let y = func(x);
            vec.insert(i, y);
            i += 1;
        }
    }
}

} // verus!
