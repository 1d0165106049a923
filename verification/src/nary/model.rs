use vstd::prelude::*;

use crate::kb::Kb;
use crate::var::Var;

verus! {

/// The mathematical value of a formula: a variable leaf, or an n-ary NOR
/// over a sequence of sub-formulas. The executable tree views to this type,
/// and every contract of the normalizer and evaluator speaks in terms of it.
pub enum FormulaView {
    Var { var: Var },
    Nor { fs: Seq<FormulaView> },
}

impl FormulaView {
    /// The canonical true formula: the NOR of nothing.
    pub open spec fn top() -> Self {
        FormulaView::Nor { fs: Seq::empty() }
    }

    /// The canonical false formula: the negation of [`FormulaView::top`].
    pub open spec fn bottom() -> Self {
        FormulaView::Nor { fs: seq![Self::top()] }
    }

    /// The number of nodes of the tree; at least one.
    pub open spec fn size(self) -> nat
        decreases self,
    {
        match self {
            FormulaView::Var { .. } => 1,
            FormulaView::Nor { fs } => 1 + Self::size_seq(fs),
        }
    }

    /// The total node count of a sequence of trees.
    pub open spec fn size_seq(fs: Seq<FormulaView>) -> nat
        decreases fs,
    {
        if fs.len() == 0 {
            0
        } else {
            fs[0].size() + Self::size_seq(fs.drop_first())
        }
    }

    /// The strict total order on formulas that canonical child lists are
    /// sorted by: every variable precedes every NOR; variables order by
    /// index; NORs order lexicographically by their child sequences.
    pub open spec fn lt(self, other: Self) -> bool
        decreases self.size() + other.size(), 0int,
    {
        match (self, other) {
            (FormulaView::Var { var: a }, FormulaView::Var { var: b }) =>
                a.spec_index() < b.spec_index(),
            (FormulaView::Var { .. }, FormulaView::Nor { .. }) => true,
            (FormulaView::Nor { .. }, FormulaView::Var { .. }) => false,
            (FormulaView::Nor { fs: s }, FormulaView::Nor { fs: t }) => Self::lt_seq(s, t),
        }
    }

    /// Lexicographic order on sequences of formulas.
    pub open spec fn lt_seq(s: Seq<FormulaView>, t: Seq<FormulaView>) -> bool
        decreases Self::size_seq(s) + Self::size_seq(t), 1int,
    {
        if t.len() == 0 {
            false
        } else if s.len() == 0 {
            true
        } else if s[0].lt(t[0]) {
            true
        } else if s[0] == t[0] {
            Self::lt_seq(s.drop_first(), t.drop_first())
        } else {
            false
        }
    }

    /// Strictly ascending (hence duplicate-free) under [`FormulaView::lt`].
    pub open spec fn sorted_strict(s: Seq<FormulaView>) -> bool {
        forall|i: int, j: int| 0 <= i < j < s.len() ==> s[i].lt(s[j])
    }

    /// Inserts `x` into a strictly sorted sequence, keeping it strictly
    /// sorted: before the first larger element, and dropped when already
    /// present.
    pub open spec fn insert_sorted(x: Self, s: Seq<Self>) -> Seq<Self>
        decreases s,
    {
        if s.len() == 0 {
            seq![x]
        } else if x.lt(s[0]) {
            seq![x] + s
        } else if x == s[0] {
            s
        } else {
            seq![s[0]] + Self::insert_sorted(x, s.drop_first())
        }
    }

    /// The strictly sorted, duplicate-free sequence holding exactly the
    /// elements of `s`.
    pub open spec fn sort_dedup(s: Seq<Self>) -> Seq<Self>
        decreases s,
    {
        if s.len() == 0 {
            Seq::empty()
        } else {
            Self::insert_sorted(s[0], Self::sort_dedup(s.drop_first()))
        }
    }

    /// The sequence with every occurrence of [`FormulaView::bottom`]
    /// removed.
    pub open spec fn filter_bottom(s: Seq<Self>) -> Seq<Self>
        decreases s,
    {
        if s.len() == 0 {
            Seq::empty()
        } else if s[0] == Self::bottom() {
            Self::filter_bottom(s.drop_first())
        } else {
            seq![s[0]] + Self::filter_bottom(s.drop_first())
        }
    }

    /// A NOR of exactly one NOR: the shape `not(not(...))`-like children
    /// take after normalization, which the normalizer splices away.
    pub open spec fn splice_shape(self) -> bool {
        &&& self is Nor
        &&& self->fs.len() == 1
        &&& self->fs[0] is Nor
    }

    /// The child list of the single grandchild of a [`splice_shape`]
    /// formula.
    pub open spec fn splice_inner(self) -> Seq<Self> {
        self->fs[0]->fs
    }

    /// What one normalized child contributes to its parent's child list:
    /// spliced grandchildren for a double negation, itself otherwise.
    pub open spec fn expansion(self) -> Seq<Self> {
        if self.splice_shape() {
            self.splice_inner()
        } else {
            seq![self]
        }
    }

    /// Negation: the NOR of the one formula.
    pub open spec fn neg(self) -> Self {
        FormulaView::Nor { fs: seq![self] }
    }

    /// Each formula of the sequence, negated.
    pub open spec fn neg_seq(s: Seq<Self>) -> Seq<Self> {
        Seq::new(s.len(), |i: int| s[i].neg())
    }

    /// One node at least in every tree.
    pub proof fn lemma_size_pos(f: FormulaView)
        ensures
            f.size() >= 1,
    {
        match f {
            FormulaView::Var { .. } => {},
            FormulaView::Nor { fs } => {
                assert(f.size() == 1 + Self::size_seq(fs));
            },
        }
    }

    /// The fully processed child list of a NOR: every child normalized, and
    /// each double-negation-shaped result spliced into the list.
    pub open spec fn norm_children(cs: Seq<Self>) -> Seq<Self>
        decreases Self::size_seq(cs), 1int,
            via Self::norm_children_decreases
    {
        if cs.len() == 0 {
            Seq::empty()
        } else {
            cs[0].norm().expansion() + Self::norm_children(cs.drop_first())
        }
    }

    #[via_fn]
    proof fn norm_children_decreases(cs: Seq<FormulaView>) {
        if cs.len() > 0 {
            Self::lemma_size_pos(cs[0]);
        }
    }

    /// Sorts, deduplicates, absorbs and prunes a fully processed child
    /// list: any occurrence of `top` collapses the whole NOR to `bottom`;
    /// otherwise occurrences of `bottom` are dropped.
    pub open spec fn finish(ps: Seq<Self>) -> Self {
        if ps.contains(Self::top()) {
            Self::bottom()
        } else {
            FormulaView::Nor { fs: Self::filter_bottom(Self::sort_dedup(ps)) }
        }
    }

    /// The canonical form of a formula: variables are already canonical; a
    /// NOR normalizes its children, splices double negations, then sorts,
    /// deduplicates, absorbs `top` and drops `bottom`.
    pub open spec fn norm(self) -> Self
        decreases self.size(), 0int,
    {
        match self {
            FormulaView::Var { .. } => self,
            FormulaView::Nor { fs } => Self::finish(Self::norm_children(fs)),
        }
    }

    /// Every child is canonical and none is splice-shaped.
    pub open spec fn is_normal_seq(cs: Seq<Self>) -> bool
        decreases Self::size_seq(cs), 1int,
            via Self::is_normal_seq_decreases
    {
        cs.len() == 0 || {
            &&& cs[0].is_normal()
            &&& !cs[0].splice_shape()
            &&& Self::is_normal_seq(cs.drop_first())
        }
    }

    #[via_fn]
    proof fn is_normal_seq_decreases(cs: Seq<FormulaView>) {
        if cs.len() > 0 {
            Self::lemma_size_pos(cs[0]);
        }
    }

    /// The value a knowledge base reduces a formula to: known variables are
    /// replaced by `top` or `bottom`, children are simplified recursively,
    /// and every rewritten NOR is normalized.
    pub open spec fn simp(self, kb: Kb) -> Self
        decreases self.size(), 0int,
    {
        match self {
            FormulaView::Var { var } => match kb.spec_test_var(var) {
                Some(true) => Self::top(),
                Some(false) => Self::bottom(),
                None => self,
            },
            FormulaView::Nor { fs } => (FormulaView::Nor {
                fs: Self::simp_seq(fs, kb),
            }).norm(),
        }
    }

    /// Each child simplified under the knowledge base, in order.
    pub open spec fn simp_seq(fs: Seq<Self>, kb: Kb) -> Seq<Self>
        decreases Self::size_seq(fs), 1int,
            via Self::simp_seq_decreases
    {
        if fs.len() == 0 {
            Seq::empty()
        } else {
            seq![fs[0].simp(kb)] + Self::simp_seq(fs.drop_first(), kb)
        }
    }

    #[via_fn]
    proof fn simp_seq_decreases(fs: Seq<FormulaView>, kb: Kb) {
        if fs.len() > 0 {
            Self::lemma_size_pos(fs[0]);
        }
    }

    /// How a formula prints: a variable as `v` and its index, a NOR as the
    /// bracketed, comma-separated list of its rendered children.
    pub open spec fn spec_render(self) -> Seq<char>
        decreases self.size(), 0int, 0int,
    {
        match self {
            FormulaView::Var { var } => var.spec_render(),
            FormulaView::Nor { fs } => seq!['['] + Self::render_list(fs, 0) + seq![']'],
        }
    }

    /// The rendered children from position `i` on, each after its
    /// separator.
    pub open spec fn render_list(fs: Seq<Self>, i: int) -> Seq<char>
        decreases Self::size_seq(fs), fs.len() - i, 1int,
            via Self::render_list_decreases
    {
        if i < 0 || i >= fs.len() {
            Seq::empty()
        } else {
            (if i > 0 {
                seq![',', ' ']
            } else {
                Seq::empty()
            }) + fs[i].spec_render() + Self::render_list(fs, i + 1)
        }
    }

    #[via_fn]
    proof fn render_list_decreases(fs: Seq<FormulaView>, i: int) {
        if 0 <= i < fs.len() {
            Self::lemma_size_seq_elem(fs, i);
        }
    }

    /// The order is irreflexive.
    pub proof fn lemma_lt_irrefl(a: Self)
        ensures
            !a.lt(a),
        decreases a.size(), 0int,
    {
        match a {
            FormulaView::Var { .. } => {},
            FormulaView::Nor { fs } => {
                Self::lemma_lt_seq_irrefl(fs);
            },
        }
    }

    proof fn lemma_lt_seq_irrefl(s: Seq<Self>)
        ensures
            !Self::lt_seq(s, s),
        decreases Self::size_seq(s), 1int,
    {
        if s.len() > 0 {
            Self::lemma_size_pos(s[0]);
            Self::lemma_lt_irrefl(s[0]);
            Self::lemma_lt_seq_irrefl(s.drop_first());
        }
    }

    /// The order is transitive.
    pub proof fn lemma_lt_trans(a: Self, b: Self, c: Self)
        requires
            a.lt(b),
            b.lt(c),
        ensures
            a.lt(c),
        decreases a.size() + b.size() + c.size(), 0int,
    {
        match (a, b, c) {
            (FormulaView::Nor { fs: s }, FormulaView::Nor { fs: t }, FormulaView::Nor { fs: u }) => {
                Self::lemma_lt_seq_trans(s, t, u);
            },
            _ => {},
        }
    }

    proof fn lemma_lt_seq_trans(s: Seq<Self>, t: Seq<Self>, u: Seq<Self>)
        requires
            Self::lt_seq(s, t),
            Self::lt_seq(t, u),
        ensures
            Self::lt_seq(s, u),
        decreases Self::size_seq(s) + Self::size_seq(t) + Self::size_seq(u), 1int,
    {
        if s.len() > 0 {
            Self::lemma_size_pos(s[0]);
            Self::lemma_size_pos(t[0]);
            Self::lemma_size_pos(u[0]);
            if s[0].lt(t[0]) {
                if t[0].lt(u[0]) {
                    Self::lemma_lt_trans(s[0], t[0], u[0]);
                }
            } else {
                // s[0] == t[0]
                if t[0] == u[0] {
                    Self::lemma_lt_seq_trans(s.drop_first(), t.drop_first(), u.drop_first());
                }
            }
        }
    }

    /// The order is connected: two distinct formulas compare one way or the
    /// other, so `lt` is a strict total order.
    pub proof fn lemma_lt_connected(a: Self, b: Self)
        ensures
            a == b || a.lt(b) || b.lt(a),
        decreases a.size() + b.size(), 0int,
    {
        match (a, b) {
            (FormulaView::Var { var: x }, FormulaView::Var { var: y }) => {
                Var::lemma_index_injective(x, y);
            },
            (FormulaView::Nor { fs: s }, FormulaView::Nor { fs: t }) => {
                Self::lemma_lt_seq_connected(s, t);
            },
            _ => {},
        }
    }

    proof fn lemma_lt_seq_connected(s: Seq<Self>, t: Seq<Self>)
        ensures
            s == t || Self::lt_seq(s, t) || Self::lt_seq(t, s),
        decreases Self::size_seq(s) + Self::size_seq(t), 1int,
    {
        if s.len() == 0 && t.len() == 0 {
            assert(s =~= t);
        } else if s.len() > 0 && t.len() > 0 {
            Self::lemma_size_pos(s[0]);
            Self::lemma_size_pos(t[0]);
            Self::lemma_lt_connected(s[0], t[0]);
            if s[0] == t[0] {
                Self::lemma_lt_seq_connected(s.drop_first(), t.drop_first());
                if s.drop_first() == t.drop_first() {
                    assert forall|k: int| 0 <= k < s.len() implies s[k] == t[k] by {
                        if k > 0 {
                            assert(s.drop_first()[k - 1] == t.drop_first()[k - 1]);
                        }
                    }
                    assert(s =~= t);
                }
            }
        }
    }

    /// Two strictly sorted sequences with the same members are equal: the
    /// canonical child list of a given membership set is unique.
    pub proof fn lemma_sorted_unique(s: Seq<Self>, t: Seq<Self>)
        requires
            Self::sorted_strict(s),
            Self::sorted_strict(t),
            forall|x: Self| s.contains(x) <==> t.contains(x),
        ensures
            s == t,
        decreases s.len(),
    {
        if s.len() == 0 {
            if t.len() > 0 {
                assert(t.contains(t[0]));
                assert(s.contains(t[0]));
            }
            assert(s =~= t);
        } else {
            assert(s.contains(s[0]));
            assert(t.contains(s[0]));
            if t.len() == 0 {
                assert(false);
            }
            assert(t.contains(t[0]));
            assert(s.contains(t[0]));
            let i = choose|i: int| 0 <= i < t.len() && t[i] == s[0];
            let j = choose|j: int| 0 <= j < s.len() && s[j] == t[0];
            if i > 0 && j > 0 {
                assert(t[0].lt(t[i]));
                assert(t[i] == s[0]);
                assert(s[0].lt(s[j]));
                assert(s[j] == t[0]);
                Self::lemma_lt_trans(t[0], s[0], t[0]);
                Self::lemma_lt_irrefl(t[0]);
                assert(false);
            }
            assert(s[0] == t[0]);
            let ds = s.drop_first();
            let dt = t.drop_first();
            assert forall|x: Self| ds.contains(x) <==> dt.contains(x) by {
                Self::lemma_drop_first_member(s, x);
                Self::lemma_drop_first_member(t, x);
            }
            Self::lemma_sorted_unique(ds, dt);
            assert forall|k: int| 0 <= k < s.len() implies s[k] == t[k] by {
                if k > 0 {
                    assert(ds[k - 1] == dt[k - 1]);
                }
            }
            assert(s =~= t);
        }
    }

    /// Inserting into a strictly sorted sequence keeps it strictly sorted
    /// and adds exactly the inserted member.
    pub proof fn lemma_insert_sorted(x: Self, s: Seq<Self>)
        requires
            Self::sorted_strict(s),
        ensures
            Self::sorted_strict(Self::insert_sorted(x, s)),
            forall|y: Self|
                #[trigger] Self::insert_sorted(x, s).contains(y) <==> (s.contains(y) || y == x),
        decreases s.len(),
    {
        let r = Self::insert_sorted(x, s);
        if s.len() == 0 {
            assert(r =~= seq![x]);
            assert(r[0] == x);
            assert forall|y: Self| r.contains(y) <==> (s.contains(y) || y == x) by {
                if y == x {
                    assert(r[0] == y);
                }
            }
        } else if x.lt(s[0]) {
            assert(r =~= seq![x] + s);
            assert forall|i: int, j: int| 0 <= i < j < r.len() implies r[i].lt(r[j]) by {
                if i == 0 {
                    if j == 1 {
                        assert(r[j] == s[0]);
                    } else {
                        assert(s[0].lt(s[j - 1]));
                        Self::lemma_lt_trans(x, s[0], s[j - 1]);
                    }
                } else {
                    assert(r[i] == s[i - 1] && r[j] == s[j - 1]);
                }
            }
            assert forall|y: Self| r.contains(y) <==> (s.contains(y) || y == x) by {
                if r.contains(y) {
                    let k = choose|k: int| 0 <= k < r.len() && r[k] == y;
                    if k > 0 {
                        assert(s[k - 1] == y);
                    }
                }
                if s.contains(y) {
                    let k = choose|k: int| 0 <= k < s.len() && s[k] == y;
                    assert(r[k + 1] == y);
                }
                if y == x {
                    assert(r[0] == y);
                }
            }
        } else if x == s[0] {
            assert forall|y: Self| r.contains(y) <==> (s.contains(y) || y == x) by {
                if y == x {
                    assert(s[0] == y);
                }
            }
        } else {
            Self::lemma_lt_connected(x, s[0]);
            assert(s[0].lt(x));
            let d = s.drop_first();
            assert forall|i: int, j: int| 0 <= i < j < d.len() implies d[i].lt(d[j]) by {
                assert(s[i + 1].lt(s[j + 1]));
            }
            Self::lemma_insert_sorted(x, d);
            let rd = Self::insert_sorted(x, d);
            assert(r =~= seq![s[0]] + rd);
            assert forall|i: int, j: int| 0 <= i < j < r.len() implies r[i].lt(r[j]) by {
                if i == 0 {
                    assert(rd.contains(rd[j - 1]));
                    if rd[j - 1] == x {
                        assert(s[0].lt(r[j]));
                    } else {
                        assert(d.contains(rd[j - 1]));
                        let k = choose|k: int| 0 <= k < d.len() && d[k] == rd[j - 1];
                        assert(s[0].lt(s[k + 1]));
                    }
                } else {
                    assert(r[i] == rd[i - 1] && r[j] == rd[j - 1]);
                }
            }
            assert forall|y: Self| r.contains(y) <==> (s.contains(y) || y == x) by {
                Self::lemma_drop_first_member(s, y);
                if r.contains(y) {
                    let k = choose|k: int| 0 <= k < r.len() && r[k] == y;
                    if k > 0 {
                        assert(rd[k - 1] == y);
                        assert(rd.contains(y));
                    }
                }
                if s.contains(y) {
                    if y == s[0] {
                        assert(r[0] == y);
                    } else {
                        assert(d.contains(y));
                        assert(rd.contains(y));
                        let k = choose|k: int| 0 <= k < rd.len() && rd[k] == y;
                        assert(r[k + 1] == y);
                    }
                }
                if y == x {
                    assert(rd.contains(y));
                    let k = choose|k: int| 0 <= k < rd.len() && rd[k] == y;
                    assert(r[k + 1] == y);
                }
            }
        }
    }

    /// `sort_dedup` yields a strictly sorted sequence with exactly the
    /// members of its input.
    pub proof fn lemma_sort_dedup(s: Seq<Self>)
        ensures
            Self::sorted_strict(Self::sort_dedup(s)),
            forall|y: Self| #[trigger] Self::sort_dedup(s).contains(y) <==> s.contains(y),
        decreases s.len(),
    {
        let r = Self::sort_dedup(s);
        if s.len() == 0 {
            assert forall|y: Self| r.contains(y) <==> s.contains(y) by {}
        } else {
            let d = s.drop_first();
            Self::lemma_sort_dedup(d);
            Self::lemma_insert_sorted(s[0], Self::sort_dedup(d));
            assert forall|y: Self| r.contains(y) <==> s.contains(y) by {
                if r.contains(y) {
                    if Self::sort_dedup(d).contains(y) {
                        assert(d.contains(y));
                        let k = choose|k: int| 0 <= k < d.len() && d[k] == y;
                        assert(s[k + 1] == y);
                    } else {
                        assert(s[0] == y);
                    }
                    assert(s.contains(y));
                }
                if s.contains(y) {
                    let k = choose|k: int| 0 <= k < s.len() && s[k] == y;
                    if k > 0 {
                        assert(d[k - 1] == y);
                        assert(d.contains(y));
                    }
                }
            }
        }
    }

    /// `sort_dedup` leaves a strictly sorted sequence unchanged.
    pub proof fn lemma_sort_dedup_fixed(s: Seq<Self>)
        requires
            Self::sorted_strict(s),
        ensures
            Self::sort_dedup(s) == s,
        decreases s.len(),
    {
        if s.len() == 0 {
            assert(Self::sort_dedup(s) =~= s);
        } else {
            let d = s.drop_first();
            assert forall|i: int, j: int| 0 <= i < j < d.len() implies d[i].lt(d[j]) by {
                assert(s[i + 1].lt(s[j + 1]));
            }
            Self::lemma_sort_dedup_fixed(d);
            if d.len() == 0 {
                assert(Self::insert_sorted(s[0], d) =~= seq![s[0]]);
                assert(Self::sort_dedup(s) =~= s);
            } else {
                assert(s[0].lt(s[1]));
                assert(d[0] == s[1]);
                assert(Self::insert_sorted(s[0], d) == seq![s[0]] + d);
                assert(seq![s[0]] + d =~= s);
            }
        }
    }

    /// Filtering `bottom` out keeps exactly the other members and
    /// preserves strict sortedness.
    pub proof fn lemma_filter_bottom(s: Seq<Self>)
        requires
            Self::sorted_strict(s),
        ensures
            Self::sorted_strict(Self::filter_bottom(s)),
            forall|y: Self|
                #[trigger] Self::filter_bottom(s).contains(y)
                    <==> (s.contains(y) && y != Self::bottom()),
        decreases s.len(),
    {
        let r = Self::filter_bottom(s);
        if s.len() == 0 {
            assert forall|y: Self| r.contains(y) <==> (s.contains(y) && y != Self::bottom()) by {}
        } else {
            let d = s.drop_first();
            assert forall|i: int, j: int| 0 <= i < j < d.len() implies d[i].lt(d[j]) by {
                assert(s[i + 1].lt(s[j + 1]));
            }
            Self::lemma_filter_bottom(d);
            let rd = Self::filter_bottom(d);
            assert forall|y: Self| rd.contains(y) || y == s[0] implies s.contains(y) by {
                if rd.contains(y) {
                    assert(d.contains(y));
                    let k = choose|k: int| 0 <= k < d.len() && d[k] == y;
                    assert(s[k + 1] == y);
                }
            }
            if s[0] == Self::bottom() {
                assert(r == rd);
                assert forall|y: Self|
                    r.contains(y) <==> (s.contains(y) && y != Self::bottom()) by {
                    if r.contains(y) {
                        assert(rd.contains(y));
                        assert(Self::filter_bottom(s.drop_first()).contains(y));
                        assert(d.contains(y) && y != Self::bottom());
                        let k = choose|k: int| 0 <= k < d.len() && d[k] == y;
                        assert(s[k + 1] == y);
                        assert(s.contains(y));
                    }
                    if s.contains(y) && y != Self::bottom() {
                        let k = choose|k: int| 0 <= k < s.len() && s[k] == y;
                        assert(k > 0);
                        assert(d[k - 1] == y);
                        assert(d.contains(y));
                        assert(rd.contains(y));
                    }
                }
            } else {
                assert(r == seq![s[0]] + rd);
                assert forall|i: int, j: int| 0 <= i < j < r.len() implies r[i].lt(r[j]) by {
                    if i == 0 {
                        assert(rd.contains(rd[j - 1]));
                        assert(d.contains(rd[j - 1]));
                        let k = choose|k: int| 0 <= k < d.len() && d[k] == rd[j - 1];
                        assert(s[0].lt(s[k + 1]));
                        assert(r[j] == rd[j - 1]);
                    } else {
                        assert(r[i] == rd[i - 1] && r[j] == rd[j - 1]);
                    }
                }
                assert forall|y: Self|
                    r.contains(y) <==> (s.contains(y) && y != Self::bottom()) by {
                    Self::lemma_lt_irrefl(s[0]);
                    if r.contains(y) {
                        let k = choose|k: int| 0 <= k < r.len() && r[k] == y;
                        if k > 0 {
                            assert(rd[k - 1] == y);
                            assert(rd.contains(y));
                            assert(Self::filter_bottom(s.drop_first()).contains(y));
                            assert(d.contains(y) && y != Self::bottom());
                            let m = choose|m: int| 0 <= m < d.len() && d[m] == y;
                            assert(s[m + 1] == y);
                            assert(s.contains(y));
                        } else {
                            assert(y == s[0]);
                            assert(s.contains(y));
                        }
                    }
                    if s.contains(y) && y != Self::bottom() {
                        let k = choose|k: int| 0 <= k < s.len() && s[k] == y;
                        if k == 0 {
                            assert(r[0] == y);
                        } else {
                            assert(d[k - 1] == y);
                            assert(d.contains(y));
                            assert(rd.contains(y));
                            let m = choose|m: int| 0 <= m < rd.len() && rd[m] == y;
                            assert(r[m + 1] == y);
                        }
                    }
                }
            }
        }
    }

    /// Filtering `bottom` out of a sequence without it changes nothing.
    pub proof fn lemma_filter_bottom_id(s: Seq<Self>)
        requires
            !s.contains(Self::bottom()),
        ensures
            Self::filter_bottom(s) == s,
        decreases s.len(),
    {
        if s.len() == 0 {
            assert(Self::filter_bottom(s) =~= s);
        } else {
            let d = s.drop_first();
            assert(s[0] != Self::bottom());
            assert forall|k: int| 0 <= k < d.len() implies d[k] != Self::bottom() by {
                assert(s[k + 1] == d[k]);
                if d[k] == Self::bottom() {
                    assert(s.contains(Self::bottom()));
                }
            }
            if d.contains(Self::bottom()) {
                assert(false);
            }
            Self::lemma_filter_bottom_id(d);
            assert(Self::filter_bottom(s) =~= s);
        }
    }

    /// `is_normal_seq` is the pointwise statement over the children.
    pub proof fn lemma_is_normal_seq_index(cs: Seq<Self>)
        ensures
            Self::is_normal_seq(cs)
                <==> (forall|i: int|
                    0 <= i < cs.len()
                        ==> (#[trigger] cs[i]).is_normal() && !cs[i].splice_shape()),
        decreases cs.len(),
    {
        if cs.len() > 0 {
            let d = cs.drop_first();
            Self::lemma_is_normal_seq_index(d);
            if Self::is_normal_seq(cs) {
                assert forall|i: int|
                    0 <= i < cs.len()
                        implies (#[trigger] cs[i]).is_normal() && !cs[i].splice_shape() by {
                    if i > 0 {
                        assert(d[i - 1] == cs[i]);
                    }
                }
            }
            if forall|i: int|
                0 <= i < cs.len()
                    ==> (#[trigger] cs[i]).is_normal() && !cs[i].splice_shape() {
                assert forall|i: int|
                    0 <= i < d.len()
                        implies (#[trigger] d[i]).is_normal() && !d[i].splice_shape() by {
                    assert(cs[i + 1] == d[i]);
                }
                assert(Self::is_normal_seq(d));
                assert(cs[0].is_normal() && !cs[0].splice_shape());
            }
        }
    }

    /// `top` is canonical and not splice-shaped.
    pub proof fn lemma_top_normal()
        ensures
            Self::top().is_normal(),
            !Self::top().splice_shape(),
            Self::top() != Self::bottom(),
    {
        let t = Self::top();
        assert(!t->fs.contains(t) && !t->fs.contains(Self::bottom()));
    }

    /// `bottom` is canonical (and is itself splice-shaped: it is the NOR of
    /// one NOR).
    pub proof fn lemma_bottom_normal()
        ensures
            Self::bottom().is_normal(),
            Self::bottom().splice_shape(),
    {
        Self::lemma_top_normal();
        let b = Self::bottom();
        assert(b->fs[0] == Self::top());
        assert(b->fs.drop_first().len() == 0);
        assert(Self::is_normal_seq(b->fs.drop_first()));
        assert(Self::is_normal_seq(b->fs));
        assert forall|x: Self| b->fs.contains(x) implies x == Self::top() by {
            let k = choose|k: int| 0 <= k < b->fs.len() && b->fs[k] == x;
        }
        assert(!b->fs.contains(Self::bottom()));
    }

    /// Every element a canonical formula contributes by expansion is
    /// canonical and not splice-shaped.
    pub proof fn lemma_expansion_normal(n: Self)
        requires
            n.is_normal(),
        ensures
            forall|k: int|
                0 <= k < n.expansion().len()
                    ==> (#[trigger] n.expansion()[k]).is_normal()
                        && !n.expansion()[k].splice_shape(),
    {
        if n.splice_shape() {
            let m = n->fs[0];
            Self::lemma_is_normal_seq_index(n->fs);
            assert(n->fs.contains(m));
            assert(m.is_normal());
            Self::lemma_is_normal_seq_index(m->fs);
            assert(n.expansion() == m->fs);
        } else {
            assert forall|k: int|
                0 <= k < n.expansion().len()
                    implies (#[trigger] n.expansion()[k]).is_normal()
                        && !n.expansion()[k].splice_shape() by {
                assert(n.expansion()[k] == n);
            }
        }
    }

    /// Everything `norm_children` yields is canonical and not
    /// splice-shaped.
    pub proof fn lemma_norm_children_normal(cs: Seq<Self>)
        ensures
            Self::is_normal_seq(Self::norm_children(cs)),
        decreases Self::size_seq(cs), 1int,
    {
        let r = Self::norm_children(cs);
        if cs.len() == 0 {
            assert(Self::is_normal_seq(r));
        } else {
            Self::lemma_size_pos(cs[0]);
            Self::lemma_norm_normal(cs[0]);
            let n = cs[0].norm();
            Self::lemma_expansion_normal(n);
            let d = cs.drop_first();
            Self::lemma_norm_children_normal(d);
            Self::lemma_is_normal_seq_index(Self::norm_children(d));
            Self::lemma_is_normal_seq_index(r);
            assert forall|i: int|
                0 <= i < r.len()
                    implies (#[trigger] r[i]).is_normal() && !r[i].splice_shape() by {
                if i < n.expansion().len() {
                    assert(r[i] == n.expansion()[i]);
                } else {
                    assert(r[i] == Self::norm_children(d)[i - n.expansion().len()]);
                }
            }
        }
    }

    /// The normalizer always yields a canonical formula.
    pub proof fn lemma_norm_normal(f: Self)
        ensures
            f.norm().is_normal(),
        decreases f.size(), 0int,
    {
        match f {
            FormulaView::Var { .. } => {},
            FormulaView::Nor { fs } => {
                Self::lemma_norm_children_normal(fs);
                let ps = Self::norm_children(fs);
                if ps.contains(Self::top()) {
                    Self::lemma_bottom_normal();
                } else {
                    Self::lemma_sort_dedup(ps);
                    let sd = Self::sort_dedup(ps);
                    Self::lemma_filter_bottom(sd);
                    let t = Self::filter_bottom(sd);
                    Self::lemma_is_normal_seq_index(ps);
                    Self::lemma_is_normal_seq_index(t);
                    assert forall|i: int|
                        0 <= i < t.len()
                            implies (#[trigger] t[i]).is_normal() && !t[i].splice_shape() by {
                        assert(t.contains(t[i]));
                        assert(sd.contains(t[i]));
                        assert(ps.contains(t[i]));
                        let k = choose|k: int| 0 <= k < ps.len() && ps[k] == t[i];
                    }
                    assert(!t.contains(Self::bottom()));
                    assert(!t.contains(Self::top()));
                    assert(f.norm() == (FormulaView::Nor { fs: t }));
                }
            },
        }
    }

    /// A canonical child list passes through `norm_children` unchanged.
    pub proof fn lemma_normal_children_fixed(cs: Seq<Self>)
        requires
            Self::is_normal_seq(cs),
        ensures
            Self::norm_children(cs) == cs,
        decreases Self::size_seq(cs), 1int,
    {
        if cs.len() == 0 {
            assert(Self::norm_children(cs) =~= cs);
        } else {
            Self::lemma_size_pos(cs[0]);
            Self::lemma_normal_fixed(cs[0]);
            assert(cs[0].norm().expansion() == seq![cs[0]]);
            let d = cs.drop_first();
            Self::lemma_normal_children_fixed(d);
            assert(Self::norm_children(cs) =~= cs);
        }
    }

    /// The normalizer fixes canonical formulas: `is_normal` characterizes
    /// its image exactly.
    pub proof fn lemma_normal_fixed(g: Self)
        requires
            g.is_normal(),
        ensures
            g.norm() == g,
        decreases g.size(), 0int,
    {
        match g {
            FormulaView::Var { .. } => {},
            FormulaView::Nor { fs } => {
                Self::lemma_normal_children_fixed(fs);
                if fs.contains(Self::top()) {
                    assert(g == Self::bottom());
                    assert(g.norm() == Self::finish(fs));
                } else {
                    Self::lemma_sort_dedup_fixed(fs);
                    Self::lemma_filter_bottom_id(fs);
                }
            },
        }
    }

    /// No element outweighs the whole sequence.
    pub proof fn lemma_size_seq_elem(s: Seq<Self>, i: int)
        requires
            0 <= i < s.len(),
        ensures
            s[i].size() <= Self::size_seq(s),
        decreases s.len(),
    {
        if i > 0 {
            Self::lemma_size_seq_elem(s.drop_first(), i - 1);
            assert(s.drop_first()[i - 1] == s[i]);
        }
    }

    /// Membership in a processed child list, child by child.
    pub proof fn lemma_norm_children_member(cs: Seq<Self>)
        ensures
            forall|x: Self|
                #[trigger] Self::norm_children(cs).contains(x)
                    <==> exists|i: int|
                        0 <= i < cs.len() && (#[trigger] cs[i].norm().expansion()).contains(x),
        decreases cs.len(),
    {
        let r = Self::norm_children(cs);
        if cs.len() == 0 {
            assert forall|x: Self| #[trigger] r.contains(x)
                <==> exists|i: int|
                    0 <= i < cs.len() && (#[trigger] cs[i].norm().expansion()).contains(x) by {}
        } else {
            let d = cs.drop_first();
            let e = cs[0].norm().expansion();
            let rd = Self::norm_children(d);
            Self::lemma_norm_children_member(d);
            assert(r == e + rd);
            assert forall|x: Self| #[trigger] r.contains(x)
                <==> exists|i: int|
                    0 <= i < cs.len() && (#[trigger] cs[i].norm().expansion()).contains(x) by {
                if r.contains(x) {
                    let k = choose|k: int| 0 <= k < r.len() && r[k] == x;
                    if k < e.len() {
                        assert(e[k] == x);
                        assert(cs[0].norm().expansion().contains(x));
                    } else {
                        assert(rd[k - e.len()] == x);
                        assert(rd.contains(x));
                        let i = choose|i: int|
                            0 <= i < d.len() && (#[trigger] d[i].norm().expansion()).contains(x);
                        assert(cs[i + 1] == d[i]);
                        assert(cs[i + 1].norm().expansion().contains(x));
                    }
                }
                if exists|i: int|
                    0 <= i < cs.len() && (#[trigger] cs[i].norm().expansion()).contains(x) {
                    let i = choose|i: int|
                        0 <= i < cs.len() && (#[trigger] cs[i].norm().expansion()).contains(x);
                    if i == 0 {
                        let k = choose|k: int| 0 <= k < e.len() && e[k] == x;
                        assert(r[k] == x);
                    } else {
                        assert(d[i - 1] == cs[i]);
                        assert(rd.contains(x));
                        let k = choose|k: int| 0 <= k < rd.len() && rd[k] == x;
                        assert(r[e.len() + k] == x);
                    }
                }
            }
        }
    }

    /// Lexicographic comparison ignores an equal common prefix.
    pub proof fn lemma_lt_seq_common_prefix(s: Seq<Self>, t: Seq<Self>, i: int)
        requires
            0 <= i <= s.len(),
            i <= t.len(),
            forall|k: int| 0 <= k < i ==> s[k] == t[k],
        ensures
            Self::lt_seq(s, t) == Self::lt_seq(s.skip(i), t.skip(i)),
        decreases i,
    {
        if i == 0 {
            assert(s.skip(0) =~= s);
            assert(t.skip(0) =~= t);
        } else {
            Self::lemma_lt_irrefl(s[0]);
            assert(s[0] == t[0]);
            let ds = s.drop_first();
            let dt = t.drop_first();
            assert forall|k: int| 0 <= k < i - 1 implies ds[k] == dt[k] by {
                assert(s[k + 1] == t[k + 1]);
            }
            Self::lemma_lt_seq_common_prefix(ds, dt, i - 1);
            assert(ds.skip(i - 1) =~= s.skip(i));
            assert(dt.skip(i - 1) =~= t.skip(i));
            assert(Self::lt_seq(s, t) == Self::lt_seq(ds, dt));
        }
    }

    /// `top` is a fixed point of the normalizer.
    pub proof fn lemma_norm_top()
        ensures
            Self::top().norm() == Self::top(),
    {
        Self::lemma_top_normal();
        Self::lemma_normal_fixed(Self::top());
    }

    /// `bottom` is a fixed point of the normalizer.
    pub proof fn lemma_norm_bottom()
        ensures
            Self::bottom().norm() == Self::bottom(),
    {
        Self::lemma_bottom_normal();
        Self::lemma_normal_fixed(Self::bottom());
    }

    /// In a strictly sorted nonempty sequence, the members of the tail are
    /// exactly the members other than the head.
    proof fn lemma_drop_first_member(s: Seq<Self>, x: Self)
        requires
            Self::sorted_strict(s),
            s.len() > 0,
        ensures
            s.drop_first().contains(x) <==> (s.contains(x) && x != s[0]),
    {
        let d = s.drop_first();
        if d.contains(x) {
            let k = choose|k: int| 0 <= k < d.len() && d[k] == x;
            assert(s[k + 1] == x);
            assert(s[0].lt(s[k + 1]));
            Self::lemma_lt_irrefl(s[0]);
            assert(s.contains(x));
        }
        if s.contains(x) && x != s[0] {
            let k = choose|k: int| 0 <= k < s.len() && s[k] == x;
            assert(d[k - 1] == x);
            assert(d.contains(x));
        }
    }

    /// Canonical formulas: the fixed points of [`FormulaView::norm`]. A
    /// variable is canonical; a NOR is canonical when its children are
    /// canonical, none is splice-shaped, they are strictly sorted, `top`
    /// occurs only in `bottom` itself, and `bottom` never occurs.
    pub open spec fn is_normal(self) -> bool
        decreases self.size(), 0int,
    {
        match self {
            FormulaView::Var { .. } => true,
            FormulaView::Nor { fs } => {
                &&& Self::is_normal_seq(fs)
                &&& Self::sorted_strict(fs)
                &&& (fs.contains(Self::top()) ==> self == Self::bottom())
                &&& !fs.contains(Self::bottom())
            },
        }
    }
}

} // verus!
