use vstd::prelude::*;

use crate::kb::Kb;
use crate::nary::model::FormulaView;
use crate::var::Var;
use crate::vec_mut_q::VecMutQ;

verus! {

/// A Boolean formula built from the single n-ary NOR connective: either a
/// variable leaf or a NOR over zero or more owned sub-formulas.
///
/// Its mathematical value is a [`FormulaView`]; `normify` reduces a formula
/// to the canonical representative of its equivalence class.
#[derive(Debug)]
pub enum Formula {
    Var { var: Var },
    Nor { formulae: Vec<Formula> },
}

impl Formula {
    /// The mathematical value of this tree.
    pub open spec fn deep(self) -> FormulaView
        decreases self,
            via Self::deep_decreases
    {
        match self {
            Formula::Var { var } => FormulaView::Var { var },
            Formula::Nor { formulae } => FormulaView::Nor { fs: Self::deep_seq(formulae@) },
        }
    }

    /// The mathematical values of a sequence of trees, in order.
    pub open spec fn deep_seq(fs: Seq<Formula>) -> Seq<FormulaView>
        decreases fs,
            via Self::deep_seq_decreases
    {
        if fs.len() == 0 {
            Seq::empty()
        } else {
            seq![fs[0].deep()] + Self::deep_seq(fs.drop_first())
        }
    }

    #[via_fn]
    proof fn deep_decreases(self) {
        match self {
            Formula::Var { .. } => {},
            Formula::Nor { formulae } => {
                assert(decreases_to!(self => formulae));
                assert(decreases_to!(formulae => formulae@));
            },
        }
    }

    #[via_fn]
    proof fn deep_seq_decreases(fs: Seq<Formula>) {
        if fs.len() > 0 {
            assert(decreases_to!(fs => fs[0]));
            assert(decreases_to!(fs => fs.subrange(1, fs.len() as int)));
            assert(fs.drop_first() == fs.subrange(1, fs.len() as int));
        }
    }
}

impl View for Formula {
    type V = FormulaView;

    open spec fn view(&self) -> FormulaView {
        self.deep()
    }
}

/// The three outcomes of comparing two formulas in the canonical order.
#[derive(Clone, Copy, PartialEq, Eq, Structural, Debug)]
pub enum Cmp {
    Less,
    Equal,
    Greater,
}

impl Formula {
    /// The values of a sequence of trees, element by element.
    pub proof fn lemma_deep_seq(fs: Seq<Formula>)
        ensures
            Formula::deep_seq(fs).len() == fs.len(),
            forall|i: int| 0 <= i < fs.len() ==> Formula::deep_seq(fs)[i] == (#[trigger] fs[i])@,
        decreases fs.len(),
    {
        if fs.len() > 0 {
            let d = fs.drop_first();
            Self::lemma_deep_seq(d);
            assert forall|i: int|
                0 <= i < fs.len() implies Formula::deep_seq(fs)[i] == (#[trigger] fs[i])@ by {
                if i > 0 {
                    assert(d[i - 1] == fs[i]);
                    assert(Formula::deep_seq(fs)[i] == Formula::deep_seq(d)[i - 1]);
                }
            }
        }
    }

    /// Compares two formulas in the total order that canonical child lists
    /// are sorted by.
    pub fn cmp_formula(a: &Formula, b: &Formula) -> (c: Cmp)
        ensures
            (c == Cmp::Less) == a@.lt(b@),
            (c == Cmp::Equal) == (a@ == b@),
            (c == Cmp::Greater) == b@.lt(a@),
        decreases a@.size() + b@.size(),
    {
        proof {
            FormulaView::lemma_lt_irrefl(a@);
            FormulaView::lemma_lt_connected(a@, b@);
            if a@.lt(b@) && b@.lt(a@) {
                FormulaView::lemma_lt_trans(a@, b@, a@);
            }
        }
        match (a, b) {
            (Formula::Var { var: x }, Formula::Var { var: y }) => {
                proof {
                    Var::lemma_index_injective(*x, *y);
                }
                let xi = x.index();
                let yi = y.index();
                if xi < yi {
                    Cmp::Less
                } else if xi == yi {
                    Cmp::Equal
                } else {
                    Cmp::Greater
                }
            },
            (Formula::Var { .. }, Formula::Nor { .. }) => Cmp::Less,
            (Formula::Nor { .. }, Formula::Var { .. }) => Cmp::Greater,
            (Formula::Nor { formulae: s }, Formula::Nor { formulae: t }) => {
                let ghost sv = Formula::deep_seq(s@);
                let ghost tv = Formula::deep_seq(t@);
                proof {
                    Self::lemma_deep_seq(s@);
                    Self::lemma_deep_seq(t@);
                    assert(a@->fs == sv && b@->fs == tv);
                }
                let mut i: usize = 0;
                loop
                    invariant
                        i <= s.len(),
                        i <= t.len(),
                        sv == Formula::deep_seq(s@),
                        tv == Formula::deep_seq(t@),
                        sv.len() == s@.len(),
                        tv.len() == t@.len(),
                        a@ == (FormulaView::Nor { fs: sv }),
                        b@ == (FormulaView::Nor { fs: tv }),
                        forall|k: int| 0 <= k < i ==> sv[k] == tv[k],
                    decreases s@.len() - i,
                {
                    proof {
                        Self::lemma_deep_seq(s@);
                        Self::lemma_deep_seq(t@);
                    }
                    if i < s.len() && i < t.len() {
                        proof {
                            FormulaView::lemma_size_seq_elem(sv, i as int);
                            FormulaView::lemma_size_seq_elem(tv, i as int);
                            FormulaView::lemma_size_pos(sv[i as int]);
                            FormulaView::lemma_size_pos(tv[i as int]);
                            assert(s@[i as int]@ == sv[i as int]);
                            assert(t@[i as int]@ == tv[i as int]);
                            assert(a@.size() == 1 + FormulaView::size_seq(sv));
                            assert(b@.size() == 1 + FormulaView::size_seq(tv));
                        }
                        let c = Self::cmp_formula(&s[i], &t[i]);
                        proof {
                            FormulaView::lemma_lt_seq_common_prefix(sv, tv, i as int);
                            FormulaView::lemma_lt_seq_common_prefix(tv, sv, i as int);
                        }
                        match c {
                            Cmp::Equal => {
                                i = i + 1;
                            },
                            Cmp::Less => {
                                proof {
                                    let ss = sv.skip(i as int);
                                    let tt = tv.skip(i as int);
                                    assert(ss[0] == sv[i as int] && tt[0] == tv[i as int]);
                                    assert(FormulaView::lt_seq(ss, tt));
                                    FormulaView::lemma_lt_irrefl(sv[i as int]);
                                    assert(!FormulaView::lt_seq(tt, ss));
                                    assert(sv[i as int] != tv[i as int]);
                                    assert(sv != tv);
                                }
                                return Cmp::Less;
                            },
                            Cmp::Greater => {
                                proof {
                                    let ss = sv.skip(i as int);
                                    let tt = tv.skip(i as int);
                                    assert(ss[0] == sv[i as int] && tt[0] == tv[i as int]);
                                    assert(FormulaView::lt_seq(tt, ss));
                                    FormulaView::lemma_lt_irrefl(sv[i as int]);
                                    assert(!FormulaView::lt_seq(ss, tt));
                                    assert(sv[i as int] != tv[i as int]);
                                    assert(sv != tv);
                                }
                                return Cmp::Greater;
                            },
                        }
                    } else {
                        proof {
                            FormulaView::lemma_lt_seq_common_prefix(sv, tv, i as int);
                            FormulaView::lemma_lt_seq_common_prefix(tv, sv, i as int);
                        }
                        if s.len() == t.len() {
                            proof {
                                assert(sv =~= tv);
                            }
                            return Cmp::Equal;
                        } else if s.len() < t.len() {
                            proof {
                                let ss = sv.skip(i as int);
                                let tt = tv.skip(i as int);
                                assert(ss.len() == 0 && tt.len() > 0);
                                assert(FormulaView::lt_seq(ss, tt));
                                assert(!FormulaView::lt_seq(tt, ss));
                                assert(sv.len() != tv.len());
                            }
                            return Cmp::Less;
                        } else {
                            proof {
                                let ss = sv.skip(i as int);
                                let tt = tv.skip(i as int);
                                assert(tt.len() == 0 && ss.len() > 0);
                                assert(FormulaView::lt_seq(tt, ss));
                                assert(!FormulaView::lt_seq(ss, tt));
                                assert(sv.len() != tv.len());
                            }
                            return Cmp::Greater;
                        }
                    }
                }
            },
        }
    }

    /// Whether this formula is exactly the canonical true formula.
    pub fn is_top(&self) -> (r: bool)
        ensures
            r == (self@ == FormulaView::top()),
    {
        match self {
            Formula::Nor { formulae } => {
                proof {
                    Self::lemma_deep_seq(formulae@);
                }
                if formulae.len() == 0 {
                    proof {
                        assert(self@->fs =~= FormulaView::top()->fs);
                    }
                    true
                } else {
                    false
                }
            },
            Formula::Var { .. } => false,
        }
    }

    /// Whether this formula is exactly the canonical false formula.
    pub fn is_bottom(&self) -> (r: bool)
        ensures
            r == (self@ == FormulaView::bottom()),
    {
        match self {
            Formula::Nor { formulae } => {
                proof {
                    Self::lemma_deep_seq(formulae@);
                }
                if formulae.len() == 1 {
                    let r = formulae[0].is_top();
                    proof {
                        if r {
                            assert(self@->fs =~= FormulaView::bottom()->fs);
                        } else {
                            assert(self@->fs[0] != FormulaView::bottom()->fs[0]);
                        }
                    }
                    r
                } else {
                    false
                }
            },
            Formula::Var { .. } => false,
        }
    }
}

impl PartialEq for Formula {
    /// Structural equality, decided through the canonical comparison.
    fn eq(&self, other: &Self) -> (r: bool) {
        matches!(Formula::cmp_formula(self, other), Cmp::Equal)
    }
}

impl Eq for Formula {}

impl vstd::std_specs::cmp::PartialEqSpecImpl for Formula {
    open spec fn obeys_eq_spec() -> bool {
        true
    }

    open spec fn eq_spec(&self, other: &Formula) -> bool {
        self@ == other@
    }
}

/// The values of the processed region of a normalizer work queue.
spec fn proc_views(q: VecMutQ<Formula>) -> Seq<FormulaView> {
    Formula::deep_seq(q.processed())
}

/// The values of the unprocessed region of a normalizer work queue.
spec fn unproc_views(q: VecMutQ<Formula>) -> Seq<FormulaView> {
    Formula::deep_seq(q.unprocessed())
}

impl Formula {
    /// Splits off the double-negation shape: for a NOR of exactly one NOR,
    /// hands back the grandchild's own child list (to be spliced into the
    /// enclosing NOR); any other formula comes back unchanged.
    pub fn nor_not_to_or(self) -> (r: Result<Vec<Formula>, Formula>)
        ensures
            match r {
                Ok(gs) => self@.splice_shape() && Formula::deep_seq(gs@) == self@.splice_inner(),
                Err(f) => f@ == self@ && !self@.splice_shape(),
            },
    {
        match self {
            x @ Formula::Var { .. } => Err(x),
            Formula::Nor { formulae: mut f1 } => {
                proof {
                    Self::lemma_deep_seq(f1@);
                }
                if f1.len() == 1 && matches!(&f1[0], Formula::Nor { .. }) {
                    let only = match f1.pop() {
                        Some(only) => only,
                        None => {
                            proof {
                                assert(false);
                            }
                            return Err(Formula::Nor { formulae: f1 });
                        },
                    };
                    match only {
                        Formula::Nor { formulae: f2 } => {
                            proof {
                                assert(Formula::deep_seq(f1@.push(only))[0] == only@);
                            }
                            Ok(f2)
                        },
                        x @ Formula::Var { .. } => {
                            proof {
                                assert(false);
                            }
                            Err(x)
                        },
                    }
                } else {
                    let r = Formula::Nor { formulae: f1 };
                    proof {
                        if f1@.len() == 1 {
                            assert(Formula::deep_seq(f1@)[0] == f1@[0]@);
                        }
                    }
                    Err(r)
                }
            },
        }
    }

    /// Inserts `x` into a vector whose values are strictly sorted, keeping
    /// them strictly sorted; a formula already present is dropped.
    fn insert_sorted_vec(res: &mut Vec<Formula>, x: Formula)
        requires
            FormulaView::sorted_strict(Formula::deep_seq(old(res)@)),
        ensures
            FormulaView::sorted_strict(Formula::deep_seq(final(res)@)),
            forall|y: FormulaView|
                #[trigger] Formula::deep_seq(final(res)@).contains(y)
                    <==> (Formula::deep_seq(old(res)@).contains(y) || y == x@),
    {
        let ghost r0 = Formula::deep_seq(old(res)@);
        let ghost xv = x@;
        proof {
            Self::lemma_deep_seq(res@);
        }
        let mut j: usize = 0;
        while j < res.len() && matches!(Formula::cmp_formula(&res[j], &x), Cmp::Less)
            invariant
                j <= res@.len(),
                res@ == old(res)@,
                forall|k: int| 0 <= k < j ==> (#[trigger] r0[k]).lt(xv),
                r0 == Formula::deep_seq(res@),
                xv == x@,
            decreases res@.len() - j,
        {
            proof {
                Self::lemma_deep_seq(res@);
            }
            j = j + 1;
        }
        proof {
            Self::lemma_deep_seq(res@);
        }
        if j < res.len() && matches!(Formula::cmp_formula(&res[j], &x), Cmp::Equal) {
            // already present: drop the duplicate
            proof {
                assert(r0[j as int] == xv);
                assert(r0.contains(xv));
                assert(Formula::deep_seq(res@) =~= r0);
            }
        } else {
            proof {
                if j < res@.len() {
                    FormulaView::lemma_lt_connected(r0[j as int], xv);
                    assert(xv.lt(r0[j as int]));
                }
            }
            res.insert(j, x);
            proof {
                Self::lemma_deep_seq(res@);
                let r1 = Formula::deep_seq(res@);
                assert(res@.len() == old(res)@.len() + 1);
                assert forall|k: int| 0 <= k < r1.len() implies r1[k] == (if k < j {
                    r0[k]
                } else if k == j {
                    xv
                } else {
                    r0[k - 1]
                }) by {
                    if k < j {
                        assert(res@[k] == old(res)@[k]);
                    } else if k == j {
                        assert(res@[k] == x);
                    } else {
                        assert(res@[k] == old(res)@[k - 1]);
                    }
                }
                assert forall|p: int, w: int| 0 <= p < w < r1.len() implies r1[p].lt(r1[w]) by {
                    let a = if p < j { r0[p] } else if p == j { xv } else { r0[p - 1] };
                    let b = if w < j { r0[w] } else if w == j { xv } else { r0[w - 1] };
                    assert(r1[p] == a && r1[w] == b);
                    if p < j && w == j {
                        assert(a.lt(b));
                    } else if p == j && w > j {
                        if j < r0.len() {
                            if w - 1 == j {
                                assert(a.lt(b));
                            } else {
                                assert(r0[j as int].lt(r0[w - 1]));
                                FormulaView::lemma_lt_trans(xv, r0[j as int], r0[w - 1]);
                            }
                        }
                    } else if p < j && w > j {
                        assert(a.lt(b));
                    }
                }
                assert forall|y: FormulaView|
                    #[trigger] r1.contains(y) <==> (r0.contains(y) || y == xv) by {
                    if r1.contains(y) {
                        let k = choose|k: int| 0 <= k < r1.len() && r1[k] == y;
                        if k < j {
                            assert(r0[k] == y);
                        } else if k > j {
                            assert(r0[k - 1] == y);
                        }
                    }
                    if r0.contains(y) {
                        let k = choose|k: int| 0 <= k < r0.len() && r0[k] == y;
                        if k < j {
                            assert(r1[k] == y);
                        } else {
                            assert(r1[k + 1] == y);
                        }
                    }
                    if y == xv {
                        assert(r1[j as int] == y);
                    }
                }
            }
        }
    }

    /// Sorts a vector of formulas into the canonical order, dropping
    /// duplicates: the result's values are strictly sorted and are exactly
    /// the values that occurred.
    fn sort_dedup_vec(v: Vec<Formula>) -> (r: Vec<Formula>)
        ensures
            FormulaView::sorted_strict(Formula::deep_seq(r@)),
            forall|y: FormulaView|
                #[trigger] Formula::deep_seq(r@).contains(y)
                    <==> Formula::deep_seq(v@).contains(y),
    {
        let ghost v0 = Formula::deep_seq(v@);
        let mut v = v;
        let mut res: Vec<Formula> = Vec::new();
        proof {
            Self::lemma_deep_seq(res@);
            assert(Formula::deep_seq(res@) =~= Seq::<FormulaView>::empty());
        }
        while v.len() > 0
            invariant
                FormulaView::sorted_strict(Formula::deep_seq(res@)),
                forall|y: FormulaView|
                    (#[trigger] Formula::deep_seq(res@).contains(y)
                        || Formula::deep_seq(v@).contains(y)) <==> v0.contains(y),
            decreases v@.len(),
        {
            let ghost vpre = v@;
            let x = match v.pop() {
                Some(x) => x,
                None => {
                    proof {
                        assert(false);
                    }
                    return res;
                },
            };
            let ghost rpre = Formula::deep_seq(res@);
            Self::insert_sorted_vec(&mut res, x);
            proof {
                Self::lemma_deep_seq(vpre);
                Self::lemma_deep_seq(v@);
                let uv = Formula::deep_seq(v@);
                let upre = Formula::deep_seq(vpre);
                assert(v@ == vpre.drop_last());
                assert forall|y: FormulaView|
                    (#[trigger] Formula::deep_seq(res@).contains(y)
                        || Formula::deep_seq(v@).contains(y)) <==> v0.contains(y) by {
                    if Formula::deep_seq(res@).contains(y) {
                        if !rpre.contains(y) {
                            assert(y == x@);
                            assert(upre[vpre.len() - 1] == x@);
                            assert(upre.contains(y));
                        }
                    }
                    if uv.contains(y) {
                        let k = choose|k: int| 0 <= k < uv.len() && uv[k] == y;
                        assert(upre[k] == vpre.drop_last()[k]@);
                        assert(vpre.drop_last()[k] == vpre[k]);
                        assert(upre[k] == y);
                        assert(upre.contains(y));
                    }
                    if v0.contains(y) {
                        if rpre.contains(y) {
                            assert(Formula::deep_seq(res@).contains(y));
                        } else {
                            assert(upre.contains(y));
                            let k = choose|k: int| 0 <= k < upre.len() && upre[k] == y;
                            if k == vpre.len() - 1 {
                                assert(y == x@);
                                assert(Formula::deep_seq(res@).contains(y));
                            } else {
                                assert(uv[k] == v@[k]@);
                                assert(v@[k] == vpre[k]);
                                assert(uv[k] == y);
                                assert(uv.contains(y));
                            }
                        }
                    }
                }
            }
        }
        proof {
            Self::lemma_deep_seq(v@);
        }
        res
    }

    /// Whether any element's value is the canonical true formula.
    fn contains_top_vec(v: &Vec<Formula>) -> (r: bool)
        ensures
            r == Formula::deep_seq(v@).contains(FormulaView::top()),
    {
        let ghost w = Formula::deep_seq(v@);
        let mut found = false;
        let mut i: usize = 0;
        proof {
            Self::lemma_deep_seq(v@);
        }
        while i < v.len()
            invariant
                i <= v@.len(),
                w == Formula::deep_seq(v@),
                w.len() == v@.len(),
                forall|k: int| 0 <= k < v@.len() ==> w[k] == (#[trigger] v@[k])@,
                found == exists|k: int| 0 <= k < i && w[k] == FormulaView::top(),
            decreases v@.len() - i,
        {
            if v[i].is_top() {
                found = true;
                proof {
                    assert(w[i as int] == FormulaView::top());
                }
            }
            i = i + 1;
        }
        proof {
            if found {
                let k = choose|k: int| 0 <= k < v@.len() && w[k] == FormulaView::top();
                assert(w.contains(FormulaView::top()));
            }
            if w.contains(FormulaView::top()) {
                let k = choose|k: int| 0 <= k < w.len() && w[k] == FormulaView::top();
            }
        }
        found
    }

    /// Keeps, in order, exactly the elements whose value is not the
    /// canonical false formula.
    fn filter_bottom_vec(v: Vec<Formula>) -> (r: Vec<Formula>)
        ensures
            Formula::deep_seq(r@) == FormulaView::filter_bottom(Formula::deep_seq(v@)),
    {
        let ghost w = Formula::deep_seq(v@);
        let mut v = v;
        let mut out: Vec<Formula> = Vec::new();
        proof {
            Self::lemma_deep_seq(out@);
            Self::lemma_deep_seq(v@);
            assert(Formula::deep_seq(out@) =~= Seq::<FormulaView>::empty());
            assert(Seq::<FormulaView>::empty() + FormulaView::filter_bottom(w) =~= FormulaView::filter_bottom(w));
        }
        while v.len() > 0
            invariant
                FormulaView::filter_bottom(w)
                    == Formula::deep_seq(out@)
                        + FormulaView::filter_bottom(Formula::deep_seq(v@)),
            decreases v@.len(),
        {
            let ghost vpre = v@;
            let ghost opre = Formula::deep_seq(out@);
            let x = v.remove(0);
            proof {
                Self::lemma_deep_seq(vpre);
                Self::lemma_deep_seq(v@);
                assert(v@ == vpre.remove(0));
                let upre = Formula::deep_seq(vpre);
                let uv = Formula::deep_seq(v@);
                assert(upre.len() > 0);
                assert(upre[0] == x@);
                assert forall|k: int| 0 <= k < uv.len() implies uv[k] == upre.drop_first()[k] by {
                    assert(uv[k] == v@[k]@);
                    assert(v@[k] == vpre[k + 1]);
                }
                assert(uv =~= upre.drop_first());
            }
            let keep = !x.is_bottom();
            if keep {
                let ghost xv = x@;
                let ghost opre_vec = out@;
                out.push(x);
                proof {
                    Self::lemma_deep_seq(out@);
                    Self::lemma_deep_seq(opre_vec);
                    let onew = Formula::deep_seq(out@);
                    assert forall|k: int| 0 <= k < onew.len() implies onew[k] == (if k
                        < opre.len() {
                        opre[k]
                    } else {
                        xv
                    }) by {
                        assert(onew[k] == out@[k]@);
                        if k < opre.len() {
                            assert(out@[k] == opre_vec[k]);
                            assert(opre[k] == opre_vec[k]@);
                        } else {
                            assert(out@[k] == x);
                        }
                    }
                    assert(onew =~= opre.push(xv));
                    let upre = Formula::deep_seq(vpre);
                    let uv = Formula::deep_seq(v@);
                    assert(FormulaView::filter_bottom(upre)
                        == seq![upre[0]] + FormulaView::filter_bottom(uv));
                    assert(opre.push(xv) + FormulaView::filter_bottom(uv)
                        =~= opre + (seq![xv] + FormulaView::filter_bottom(uv)));
                }
            } else {
                proof {
                    let upre = Formula::deep_seq(vpre);
                    let uv = Formula::deep_seq(v@);
                    assert(FormulaView::filter_bottom(upre) == FormulaView::filter_bottom(uv));
                }
            }
        }
        proof {
            Self::lemma_deep_seq(v@);
            assert(Formula::deep_seq(v@) =~= Seq::<FormulaView>::empty());
            assert(FormulaView::filter_bottom(Seq::<FormulaView>::empty())
                =~= Seq::<FormulaView>::empty());
            assert(Formula::deep_seq(out@) + Seq::<FormulaView>::empty()
                =~= Formula::deep_seq(out@));
        }
        out
    }
}

impl Formula {
    /// The canonical true formula: the NOR of nothing.
    pub fn top() -> (r: Self)
        ensures
            r@ == FormulaView::top(),
    {
        let r = Formula::Nor { formulae: Vec::new() };
        proof {
            assert(r@->fs =~= FormulaView::top()->fs);
        }
        r
    }

    /// The canonical false formula: `not(top())`.
    pub fn bottom() -> (r: Self)
        ensures
            r@ == FormulaView::bottom(),
    {
        let r = Self::top().not();
        proof {
            assert(r@->fs =~= FormulaView::bottom()->fs);
        }
        r
    }

    /// Negation: the NOR of the one formula.
    pub fn not(self) -> (r: Self)
        ensures
            r@ == (FormulaView::Nor { fs: seq![self@] }),
    {
        let ghost s = self@;
        let mut formulae = Vec::new();
        formulae.push(self);
        let r = Formula::Nor { formulae };
        proof {
            reveal_with_fuel(Formula::deep_seq, 2);
            assert(formulae@[0]@ == s);
            assert(Formula::deep_seq(formulae@.drop_first()) =~= Seq::<FormulaView>::empty());
            assert(r@->fs =~= seq![s]);
        }
        r
    }

    /// Canonicalizes the formula: children are normalized bottom-up through
    /// an in-place work queue, double negations are spliced away, the child
    /// list is sorted and deduplicated, any `top` child collapses the NOR to
    /// `bottom`, and `bottom` children are dropped. The result is the
    /// canonical representative [`FormulaView::norm`] of the input's value.
    #[verifier::loop_isolation(false)]
    pub fn normify(self) -> (r: Self)
        ensures
            r@ == self@.norm(),
        decreases self@.size(),
    {
        let ghost whole = self@;
        match self {
            x @ Formula::Var { .. } => x,
            Formula::Nor { formulae } => {
                let ghost cs = Formula::deep_seq(formulae@);
                let ghost s0size = whole.size();
                let ghost nc = FormulaView::norm_children(cs);
                proof {
                    Self::lemma_deep_seq(formulae@);
                    assert(whole == (FormulaView::Nor { fs: cs }));
                    assert(s0size == 1 + FormulaView::size_seq(cs));
                }
                let mut q = VecMutQ::new(formulae);
                proof {
                    assert(proc_views(q) =~= Seq::<FormulaView>::empty());
                    assert(unproc_views(q) == cs);
                    assert forall|k: int|
                        0 <= k < unproc_views(q).len()
                            implies (#[trigger] unproc_views(q)[k]).size() < s0size by {
                        FormulaView::lemma_size_seq_elem(cs, k);
                    }
                }
                let mut done = false;
                while !done
                    invariant
                        q.wf(),
                        nc == FormulaView::norm_children(cs),
                        FormulaView::is_normal_seq(proc_views(q)),
                        forall|x: FormulaView|
                            #![all_triggers]
                            (proc_views(q).contains(x)
                                || FormulaView::norm_children(unproc_views(q)).contains(x))
                                <==> nc.contains(x),
                        forall|k: int|
                            0 <= k < unproc_views(q).len()
                                ==> (#[trigger] unproc_views(q)[k]).size() < s0size,
                        done ==> q.unprocessed().len() == 0,
                    decreases q.unprocessed().len() + (if done { 0int } else { 1int }),
                {
                    let ghost qp = q;
                    let ghost upre = unproc_views(qp);
                    let ghost ppre = proc_views(qp);
                    match q.take_unprocessed() {
                        None => {
                            done = true;
                        },
                        Some(f) => {
                            proof {
                                Self::lemma_deep_seq(qp.unprocessed());
                                Self::lemma_deep_seq(q.unprocessed());
                                assert(f@ == upre[0]);
                                assert(upre[0].size() < s0size);
                                assert(f@.size() < whole.size());
                            }
                            let nf = f.normify();
                            let ghost n = nf@;
                            proof {
                                FormulaView::lemma_norm_normal(f@);
                                FormulaView::lemma_expansion_normal(n);
                                FormulaView::lemma_is_normal_seq_index(ppre);
                            }
                            let ghost expn = n.expansion();
                            // a spliced grandchild list comes out of a formula
                            // that was itself just normalized, so its entries
                            // are already canonical and non-splice-shaped:
                            // they can join the processed region directly
                            // instead of going round the queue again
                            match nf.nor_not_to_or() {
                                Ok(gs) => {
                                    let ghost gsv = Formula::deep_seq(gs@);
                                    proof {
                                        assert(gsv == expn);
                                    }
                                    q.extend_processed(gs);
                                    proof {
                                        Self::lemma_deep_seq(q.processed());
                                        Self::lemma_deep_seq(qp.processed());
                                        Self::lemma_deep_seq(gs@);
                                        assert forall|k: int|
                                            0 <= k < proc_views(q).len()
                                                implies proc_views(q)[k] == (if k < ppre.len() {
                                                ppre[k]
                                            } else {
                                                gsv[k - ppre.len()]
                                            }) by {
                                            if k < ppre.len() {
                                                assert(q.processed()[k] == qp.processed()[k]);
                                            } else {
                                                assert(q.processed()[k] == gs@[k - ppre.len()]);
                                            }
                                        }
                                        assert(proc_views(q) =~= ppre + gsv);
                                    }
                                },
                                Err(g) => {
                                    proof {
                                        assert(g@ == n);
                                        assert(expn =~= seq![n]);
                                    }
                                    q.add_processed(g);
                                    proof {
                                        Self::lemma_deep_seq(q.processed());
                                        Self::lemma_deep_seq(qp.processed());
                                        assert forall|k: int|
                                            0 <= k < proc_views(q).len()
                                                implies proc_views(q)[k] == (if k < ppre.len() {
                                                ppre[k]
                                            } else {
                                                n
                                            }) by {
                                            if k < ppre.len() {
                                                assert(q.processed()[k] == qp.processed()[k]);
                                            } else {
                                                assert(q.processed()[k] == g);
                                            }
                                        }
                                        assert(proc_views(q) =~= ppre + seq![n]);
                                    }
                                },
                            }
                            proof {
                                let pnew = proc_views(q);
                                let unew = unproc_views(q);
                                Self::lemma_deep_seq(q.unprocessed());
                                Self::lemma_deep_seq(qp.unprocessed());
                                assert(pnew == ppre + expn);
                                // the unprocessed region lost its head; the views
                                // that remain are exactly the old tail
                                assert(unew.len() == upre.len() - 1);
                                assert forall|k: int|
                                    0 <= k < unew.len() implies unew[k] == (if k == 0 {
                                        upre[upre.len() - 1]
                                    } else {
                                        upre[k]
                                    }) by {
                                    assert(unew[k] == q.unprocessed()[k]@);
                                    if k == 0 {
                                        assert(q.unprocessed()[0] == qp.unprocessed().last());
                                    } else {
                                        assert(q.unprocessed()[k] == qp.unprocessed()[k]);
                                    }
                                }
                                // sizes are inherited
                                assert forall|k: int|
                                    0 <= k < unew.len()
                                        implies (#[trigger] unew[k]).size() < s0size by {
                                    if k == 0 {
                                        assert(upre[upre.len() - 1].size() < s0size);
                                    } else {
                                        assert(upre[k].size() < s0size);
                                    }
                                }
                                // the processed region stays canonical
                                FormulaView::lemma_is_normal_seq_index(pnew);
                                assert forall|k: int|
                                    0 <= k < pnew.len()
                                        implies (#[trigger] pnew[k]).is_normal()
                                            && !pnew[k].splice_shape() by {
                                    if k < ppre.len() {
                                        assert(pnew[k] == ppre[k]);
                                    } else {
                                        assert(pnew[k] == expn[k - ppre.len()]);
                                    }
                                }
                                // membership bookkeeping
                                FormulaView::lemma_norm_children_member(upre);
                                FormulaView::lemma_norm_children_member(unew);
                                assert(upre[0].norm() == n) by {
                                    FormulaView::lemma_norm_normal(upre[0]);
                                }
                                assert forall|x: FormulaView|
                                    #![all_triggers]
                                    (pnew.contains(x)
                                        || FormulaView::norm_children(unew).contains(x))
                                        <==> nc.contains(x) by {
                                    if pnew.contains(x) {
                                        let k = choose|k: int|
                                            0 <= k < pnew.len() && pnew[k] == x;
                                        if k < ppre.len() {
                                            assert(ppre[k] == x);
                                            assert(ppre.contains(x));
                                        } else {
                                            assert(expn[k - ppre.len()] == x);
                                            assert(upre[0].norm().expansion().contains(x));
                                            assert(FormulaView::norm_children(upre).contains(x));
                                        }
                                        assert(nc.contains(x));
                                    }
                                    if FormulaView::norm_children(unew).contains(x) {
                                        let k = choose|k: int|
                                            0 <= k < unew.len()
                                                && (#[trigger] unew[k].norm().expansion()).contains(x);
                                        let i = if k == 0 { upre.len() - 1 } else { k };
                                        assert(unew[k] == upre[i]);
                                        assert(upre[i].norm().expansion().contains(x));
                                        assert(FormulaView::norm_children(upre).contains(x));
                                        assert(nc.contains(x));
                                    }
                                    if nc.contains(x) {
                                        if ppre.contains(x) {
                                            let k = choose|k: int|
                                                0 <= k < ppre.len() && ppre[k] == x;
                                            assert(pnew[k] == x);
                                            assert(pnew.contains(x));
                                        } else {
                                            assert(FormulaView::norm_children(upre).contains(x));
                                            let i = choose|i: int|
                                                0 <= i < upre.len()
                                                    && (#[trigger] upre[i].norm().expansion()).contains(x);
                                            if i == 0 {
                                                let m = choose|m: int|
                                                    0 <= m < expn.len() && expn[m] == x;
                                                assert(pnew[ppre.len() + m] == x);
                                                assert(pnew.contains(x));
                                            } else {
                                                let k = if i == upre.len() - 1 { 0int } else { i };
                                                assert(unew[k] == upre[i]);
                                                assert(unew[k].norm().expansion().contains(x));
                                                assert(FormulaView::norm_children(unew).contains(x));
                                            }
                                        }
                                    }
                                }
                            }
                        },
                    }
                }
                let ghost qfin = q;
                let v = q.into_vec();
                proof {
                    assert(qfin.unprocessed().len() == 0);
                    assert(v@ =~= qfin.processed());
                    assert(Formula::deep_seq(v@) == proc_views(qfin));
                    Self::lemma_deep_seq(qfin.unprocessed());
                    assert(unproc_views(qfin).len() == 0);
                    assert(FormulaView::norm_children(unproc_views(qfin))
                        =~= Seq::<FormulaView>::empty());
                    assert forall|x: FormulaView|
                        #[trigger] Formula::deep_seq(v@).contains(x) <==> nc.contains(x) by {
                        assert(!FormulaView::norm_children(unproc_views(qfin)).contains(x));
                    }
                }
                let sorted = Self::sort_dedup_vec(v);
                let ghost sd = Formula::deep_seq(sorted@);
                proof {
                    FormulaView::lemma_sort_dedup(nc);
                    assert forall|x: FormulaView|
                        #[trigger] sd.contains(x) <==> FormulaView::sort_dedup(nc).contains(x) by {}
                    FormulaView::lemma_sorted_unique(sd, FormulaView::sort_dedup(nc));
                    assert(sd == FormulaView::sort_dedup(nc));
                }
                if Self::contains_top_vec(&sorted) {
                    let r = Formula::bottom();
                    proof {
                        assert(sd.contains(FormulaView::top()));
                        assert(nc.contains(FormulaView::top()));
                        assert(whole.norm() == FormulaView::finish(nc));
                        assert(r@ == whole.norm());
                    }
                    r
                } else {
                    let out = Self::filter_bottom_vec(sorted);
                    let r = Formula::Nor { formulae: out };
                    proof {
                        assert(!nc.contains(FormulaView::top()));
                        assert(Formula::deep_seq(out@) == FormulaView::filter_bottom(sd));
                        assert(whole.norm() == FormulaView::finish(nc));
                        assert(r@ == (FormulaView::Nor {
                            fs: FormulaView::filter_bottom(FormulaView::sort_dedup(nc)),
                        }));
                        assert(r@ == whole.norm());
                    }
                    r
                }
            },
        }
    }

    /// Renders the formula for tracing: a variable as `v` and its index, a
    /// NOR as the bracketed, comma-separated list of its rendered children.
    #[verifier::loop_isolation(false)]
    pub fn render(&self) -> (r: String)
        ensures
            r@ == self@.spec_render(),
        decreases self@.size(),
    {
        match self {
            Formula::Var { var } => var.render(),
            Formula::Nor { formulae } => {
                let ghost fsv = Formula::deep_seq(formulae@);
                proof {
                    Self::lemma_deep_seq(formulae@);
                    reveal_strlit("[");
                    reveal_strlit("]");
                    reveal_strlit(", ");
                }
                let mut s = <String as vstd::string::StringExecFns>::from_str("[");
                proof {
                    assert(s@ =~= seq!['[']);
                }
                let mut i: usize = 0;
                while i < formulae.len()
                    invariant
                        i <= formulae@.len(),
                        s@ + FormulaView::render_list(fsv, i as int)
                            == seq!['['] + FormulaView::render_list(fsv, 0),
                    decreases formulae@.len() - i,
                {
                    let ghost spre = s@;
                    if i > 0 {
                        vstd::string::StringExecFns::append(&mut s, ", ");
                    }
                    proof {
                        FormulaView::lemma_size_seq_elem(fsv, i as int);
                        assert(formulae@[i as int]@ == fsv[i as int]);
                        assert(self@.size() == 1 + FormulaView::size_seq(fsv));
                    }
                    let part = formulae[i].render();
                    vstd::string::StringExecFns::append(&mut s, part.as_str());
                    proof {
                        let sep: Seq<char> = if i > 0 {
                            seq![',', ' ']
                        } else {
                            Seq::empty()
                        };
                        assert(FormulaView::render_list(fsv, i as int)
                            == sep + fsv[i as int].spec_render()
                                + FormulaView::render_list(fsv, i as int + 1));
                        assert(s@ =~= spre + sep + fsv[i as int].spec_render());
                        assert(s@ + FormulaView::render_list(fsv, i as int + 1)
                            =~= spre + FormulaView::render_list(fsv, i as int));
                    }
                    i = i + 1;
                }
                proof {
                    assert(FormulaView::render_list(fsv, i as int) =~= Seq::<char>::empty());
                    assert(s@ =~= seq!['['] + FormulaView::render_list(fsv, 0));
                }
                vstd::string::StringExecFns::append(&mut s, "]");
                proof {
                    assert(s@ =~= self@.spec_render());
                }
                s
            },
        }
    }

    /// The leaf formula for a variable.
    pub fn var(var: Var) -> (r: Self)
        ensures
            r@ == (FormulaView::Var { var }),
    {
        Formula::Var { var }
    }

    /// The n-ary NOR of a list of formulas.
    pub fn n_nor(formulae: Vec<Self>) -> (r: Self)
        ensures
            r@ == (FormulaView::Nor { fs: Formula::deep_seq(formulae@) }),
    {
        Formula::Nor { formulae }
    }

    /// The n-ary OR: the negated NOR of the list.
    pub fn n_or(formulae: Vec<Self>) -> (r: Self)
        ensures
            r@ == (FormulaView::Nor { fs: Formula::deep_seq(formulae@) }).neg(),
    {
        Self::n_nor(formulae).not()
    }

    /// The n-ary AND: the NOR of the negated list.
    pub fn n_and(formulae: Vec<Self>) -> (r: Self)
        ensures
            r@ == (FormulaView::Nor {
                fs: FormulaView::neg_seq(Formula::deep_seq(formulae@)),
            }),
    {
        let ghost cs = Formula::deep_seq(formulae@);
        let mut formulae = formulae;
        let mut negated: Vec<Formula> = Vec::new();
        proof {
            Self::lemma_deep_seq(negated@);
            Self::lemma_deep_seq(formulae@);
            assert(Formula::deep_seq(negated@) =~= Seq::<FormulaView>::empty());
        }
        while formulae.len() > 0
            invariant
                Formula::deep_seq(negated@).len() + Formula::deep_seq(formulae@).len()
                    == cs.len(),
                forall|k: int|
                    0 <= k < Formula::deep_seq(negated@).len()
                        ==> Formula::deep_seq(negated@)[k] == (#[trigger] cs[k]).neg(),
                forall|k: int|
                    0 <= k < Formula::deep_seq(formulae@).len()
                        ==> Formula::deep_seq(formulae@)[k]
                            == cs[k + Formula::deep_seq(negated@).len()],
            decreases formulae@.len(),
        {
            let ghost fpre = formulae@;
            let ghost npre = negated@;
            let f = formulae.remove(0);
            let g = f.not();
            negated.push(g);
            proof {
                Self::lemma_deep_seq(fpre);
                Self::lemma_deep_seq(formulae@);
                Self::lemma_deep_seq(npre);
                Self::lemma_deep_seq(negated@);
                let done = Formula::deep_seq(npre).len() as int;
                assert(f@ == Formula::deep_seq(fpre)[0]);
                assert(Formula::deep_seq(fpre)[0] == cs[done]);
                assert forall|k: int|
                    0 <= k < Formula::deep_seq(negated@).len()
                        implies Formula::deep_seq(negated@)[k] == (#[trigger] cs[k]).neg() by {
                    assert(Formula::deep_seq(negated@)[k] == negated@[k]@);
                    if k < done {
                        assert(negated@[k] == npre[k]);
                        assert(npre[k]@ == Formula::deep_seq(npre)[k]);
                    } else {
                        assert(negated@[k] == g);
                    }
                }
                assert forall|k: int|
                    0 <= k < Formula::deep_seq(formulae@).len()
                        implies Formula::deep_seq(formulae@)[k]
                            == cs[k + Formula::deep_seq(negated@).len()] by {
                    assert(Formula::deep_seq(formulae@)[k] == formulae@[k]@);
                    assert(formulae@[k] == fpre[k + 1]);
                    assert(fpre[k + 1]@ == Formula::deep_seq(fpre)[k + 1]);
                }
            }
        }
        let r = Formula::Nor { formulae: negated };
        proof {
            Self::lemma_deep_seq(negated@);
            assert(r@->fs =~= FormulaView::neg_seq(cs));
        }
        r
    }

    /// The n-ary NAND: the negated n-ary AND.
    pub fn n_nand(formulae: Vec<Self>) -> (r: Self)
        ensures
            r@ == (FormulaView::Nor {
                fs: FormulaView::neg_seq(Formula::deep_seq(formulae@)),
            }).neg(),
    {
        Self::n_and(formulae).not()
    }

    /// Conjunction of two formulas.
    pub fn and(self, other: Self) -> (r: Self)
        ensures
            r@ == (FormulaView::Nor { fs: seq![self@.neg(), other@.neg()] }),
    {
        let ghost a = self@;
        let ghost b = other@;
        let mut formulae = Vec::new();
        formulae.push(self);
        formulae.push(other);
        let ghost pair = formulae@;
        proof {
            Self::lemma_deep_seq(pair);
            assert(pair.len() == 2);
            assert(pair[0]@ == a && pair[1]@ == b);
            assert(Formula::deep_seq(pair) =~= seq![a, b]);
            assert(FormulaView::neg_seq(seq![a, b]) =~= seq![a.neg(), b.neg()]);
        }
        let r = Self::n_and(formulae);
        r
    }

    /// Binary NOR of two formulas.
    pub fn nor(self, other: Self) -> (r: Self)
        ensures
            r@ == (FormulaView::Nor { fs: seq![self@, other@] }),
    {
        let ghost a = self@;
        let ghost b = other@;
        let mut formulae = Vec::new();
        formulae.push(self);
        formulae.push(other);
        let ghost pair = formulae@;
        proof {
            Self::lemma_deep_seq(pair);
            assert(pair.len() == 2);
            assert(pair[0]@ == a && pair[1]@ == b);
            assert(Formula::deep_seq(pair) =~= seq![a, b]);
        }
        let r = Self::n_nor(formulae);
        r
    }

    /// Disjunction of two formulas.
    pub fn or(self, other: Self) -> (r: Self)
        ensures
            r@ == (FormulaView::Nor { fs: seq![self@, other@] }).neg(),
    {
        let ghost a = self@;
        let ghost b = other@;
        let mut formulae = Vec::new();
        formulae.push(self);
        formulae.push(other);
        let ghost pair = formulae@;
        proof {
            Self::lemma_deep_seq(pair);
            assert(pair.len() == 2);
            assert(pair[0]@ == a && pair[1]@ == b);
            assert(Formula::deep_seq(pair) =~= seq![a, b]);
        }
        let r = Self::n_or(formulae);
        r
    }

    /// Negated implication: `self` holds and `other` does not.
    pub fn nimpl(self, other: Self) -> (r: Self)
        ensures
            r@ == (FormulaView::Nor { fs: seq![self@.neg(), other@] }),
    {
        self.not().nor(other)
    }

    /// Implication: `self` implies `other`.
    pub fn yimpl(self, other: Self) -> (r: Self)
        ensures
            r@ == (FormulaView::Nor { fs: seq![self@.neg(), other@] }).neg(),
    {
        self.nimpl(other).not()
    }
}

impl Kb {
    /// Substitutes the knowledge base's facts into the formula and
    /// re-normalizes: known variables become `top` or `bottom`, and the
    /// rewritten tree is reduced to canonical form.
    #[verifier::loop_isolation(false)]
    pub fn simplify_formula(&self, formula: Formula) -> (r: Formula)
        ensures
            r@ == formula@.simp(*self),
        decreases formula@.size(),
    {
        let ghost whole = formula@;
        match formula {
            Formula::Var { var } => {
                let substituted = match self.test_var(var) {
                    Some(true) => Formula::top(),
                    Some(false) => Formula::bottom(),
                    None => Formula::Var { var },
                };
                let r = substituted.normify();
                proof {
                    FormulaView::lemma_norm_top();
                    FormulaView::lemma_norm_bottom();
                }
                r
            },
            Formula::Nor { formulae } => {
                let ghost cs = Formula::deep_seq(formulae@);
                proof {
                    Formula::lemma_deep_seq(formulae@);
                    assert(whole == (FormulaView::Nor { fs: cs }));
                    assert(whole.size() == 1 + FormulaView::size_seq(cs));
                    assert(Formula::deep_seq(Seq::<Formula>::empty())
                        =~= Seq::<FormulaView>::empty());
                    assert(Seq::<FormulaView>::empty()
                        + FormulaView::simp_seq(cs, *self)
                        =~= FormulaView::simp_seq(cs, *self));
                }
                // maps every child in place, in order; the recursive call
                // carries its own termination measure, which a closure handed
                // to the generic in-place mapper could not
                let mut formulae = formulae;
                let mut out: Vec<Formula> = Vec::new();
                while formulae.len() > 0
                    invariant
                        FormulaView::simp_seq(cs, *self)
                            == Formula::deep_seq(out@)
                                + FormulaView::simp_seq(
                                Formula::deep_seq(formulae@),
                                *self,
                            ),
                        FormulaView::size_seq(Formula::deep_seq(formulae@))
                            <= FormulaView::size_seq(cs),
                    decreases formulae@.len(),
                {
                    let ghost fpre = formulae@;
                    let ghost opre = out@;
                    let f = formulae.remove(0);
                    proof {
                        Formula::lemma_deep_seq(fpre);
                        Formula::lemma_deep_seq(formulae@);
                        let upre = Formula::deep_seq(fpre);
                        let unow = Formula::deep_seq(formulae@);
                        assert(upre.len() > 0);
                        assert(upre[0] == f@);
                        assert forall|k: int|
                            0 <= k < unow.len() implies unow[k] == upre.drop_first()[k] by {
                            assert(unow[k] == formulae@[k]@);
                            assert(formulae@[k] == fpre[k + 1]);
                        }
                        assert(unow =~= upre.drop_first());
                        assert(FormulaView::size_seq(upre)
                            == upre[0].size() + FormulaView::size_seq(unow));
                        FormulaView::lemma_size_pos(upre[0]);
                        assert(f@.size() < whole.size());
                    }
                    let g = self.simplify_formula(f);
                    let ghost gv = g@;
                    let ghost opre_vec = out@;
                    out.push(g);
                    proof {
                        Formula::lemma_deep_seq(out@);
                        Formula::lemma_deep_seq(opre_vec);
                        let onew = Formula::deep_seq(out@);
                        let oold = Formula::deep_seq(opre_vec);
                        assert forall|k: int| 0 <= k < onew.len() implies onew[k] == (if k
                            < oold.len() {
                            oold[k]
                        } else {
                            gv
                        }) by {
                            assert(onew[k] == out@[k]@);
                            if k < oold.len() {
                                assert(out@[k] == opre_vec[k]);
                            } else {
                                assert(out@[k] == g);
                            }
                        }
                        assert(onew =~= oold.push(gv));
                        let upre = Formula::deep_seq(fpre);
                        let unow = Formula::deep_seq(formulae@);
                        assert(FormulaView::simp_seq(upre, *self)
                            == seq![upre[0].simp(*self)]
                                + FormulaView::simp_seq(unow, *self));
                        assert(oold.push(gv) + FormulaView::simp_seq(unow, *self)
                            =~= oold + (seq![gv] + FormulaView::simp_seq(unow, *self)));
                    }
                }
                proof {
                    Formula::lemma_deep_seq(formulae@);
                    assert(Formula::deep_seq(formulae@) =~= Seq::<FormulaView>::empty());
                    assert(FormulaView::simp_seq(Seq::<FormulaView>::empty(), *self)
                        =~= Seq::<FormulaView>::empty());
                    assert(Formula::deep_seq(out@) + Seq::<FormulaView>::empty()
                        =~= Formula::deep_seq(out@));
                    assert(Formula::deep_seq(out@) == FormulaView::simp_seq(cs, *self));
                }
                let r = Formula::Nor { formulae: out }.normify();
                proof {
                    assert(whole.simp(*self)
                        == (FormulaView::Nor { fs: FormulaView::simp_seq(cs, *self) }).norm());
                }
                r
            },
        }
    }

    /// Decides the formula under the knowledge base: `Some(true)` when it
    /// simplifies to `top`, `Some(false)` when it simplifies to `bottom`,
    /// and `None` when free variables keep it undetermined.
    pub fn test_formula(&self, formula: Formula) -> (r: Option<bool>)
        ensures
            r == (if formula@.simp(*self) == FormulaView::top() {
                Some(true)
            } else if formula@.simp(*self) == FormulaView::bottom() {
                Some(false)
            } else {
                None::<bool>
            }),
    {
        let x = self.simplify_formula(formula);
        if x.is_top() {
            Some(true)
        } else if x.is_bottom() {
            proof {
                FormulaView::lemma_top_normal();
            }
            Some(false)
        } else {
            None
        }
    }
}

} // verus!
