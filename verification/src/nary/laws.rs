use vstd::prelude::*;

use crate::kb::Kb;
use crate::nary::model::FormulaView;
use crate::var::Var;

verus! {

/// Filtering `bottom` out keeps exactly the other members, for any
/// sequence.
proof fn lemma_filter_bottom_member_any(s: Seq<FormulaView>)
    ensures
        forall|y: FormulaView|
            #[trigger] FormulaView::filter_bottom(s).contains(y)
                <==> (s.contains(y) && y != FormulaView::bottom()),
    decreases s.len(),
{
    let r = FormulaView::filter_bottom(s);
    if s.len() == 0 {
        assert forall|y: FormulaView|
            #[trigger] r.contains(y) <==> (s.contains(y) && y != FormulaView::bottom()) by {}
    } else {
        let d = s.drop_first();
        lemma_filter_bottom_member_any(d);
        let rd = FormulaView::filter_bottom(d);
        assert forall|y: FormulaView|
            #[trigger] r.contains(y) <==> (s.contains(y) && y != FormulaView::bottom()) by {
            if r.contains(y) {
                let k = choose|k: int| 0 <= k < r.len() && r[k] == y;
                if s[0] == FormulaView::bottom() {
                    assert(rd[k] == y);
                    assert(rd.contains(y));
                } else {
                    if k > 0 {
                        assert(rd[k - 1] == y);
                        assert(rd.contains(y));
                    } else {
                        assert(y == s[0]);
                    }
                }
                if rd.contains(y) {
                    assert(d.contains(y) && y != FormulaView::bottom());
                    let m = choose|m: int| 0 <= m < d.len() && d[m] == y;
                    assert(s[m + 1] == y);
                }
                assert(s.contains(y));
            }
            if s.contains(y) && y != FormulaView::bottom() {
                let k = choose|k: int| 0 <= k < s.len() && s[k] == y;
                if k == 0 {
                    assert(s[0] != FormulaView::bottom());
                    assert(r[0] == y);
                } else {
                    assert(d[k - 1] == y);
                    assert(d.contains(y));
                    assert(rd.contains(y));
                    let m = choose|m: int| 0 <= m < rd.len() && rd[m] == y;
                    if s[0] == FormulaView::bottom() {
                        assert(r[m] == y);
                    } else {
                        assert(r[m + 1] == y);
                    }
                }
            }
        }
    }
}

/// The finishing pass looks only at which formulas occur in the processed
/// child list, never at their order or multiplicity.
proof fn lemma_finish_by_members(ps: Seq<FormulaView>, qs: Seq<FormulaView>)
    requires
        forall|x: FormulaView| #[trigger] ps.contains(x) <==> qs.contains(x),
    ensures
        FormulaView::finish(ps) == FormulaView::finish(qs),
{
    assert(ps.contains(FormulaView::top()) <==> qs.contains(FormulaView::top()));
    if !ps.contains(FormulaView::top()) {
        FormulaView::lemma_sort_dedup(ps);
        FormulaView::lemma_sort_dedup(qs);
        FormulaView::lemma_sorted_unique(
            FormulaView::sort_dedup(ps),
            FormulaView::sort_dedup(qs),
        );
    }
}

/// A sorted, duplicate-free, `top`-free and `bottom`-free child list passes
/// through the finishing pass unchanged.
proof fn lemma_finish_clean(cs: Seq<FormulaView>)
    requires
        FormulaView::sorted_strict(cs),
        !cs.contains(FormulaView::top()),
        !cs.contains(FormulaView::bottom()),
    ensures
        FormulaView::finish(cs) == (FormulaView::Nor { fs: cs }),
{
    FormulaView::lemma_sort_dedup_fixed(cs);
    FormulaView::lemma_filter_bottom_id(cs);
}

/// The processed child list of a single child is that child's expansion.
proof fn lemma_norm_children_single(f: FormulaView)
    ensures
        FormulaView::norm_children(seq![f]) == f.norm().expansion(),
{
    let s = seq![f];
    assert(s.drop_first().len() == 0);
    assert(FormulaView::norm_children(s.drop_first()) =~= Seq::<FormulaView>::empty());
    assert(f.norm().expansion() + Seq::<FormulaView>::empty() =~= f.norm().expansion());
}

/// What negation does to an already canonical formula: `top` and `bottom`
/// swap, a canonical double negation `Nor([m])` collapses to `m`, and any
/// other canonical NOR `n` becomes `Nor([n])`.
proof fn lemma_norm_neg_normal(n: FormulaView)
    requires
        n.is_normal(),
        n is Nor,
    ensures
        n == FormulaView::top() ==> n.neg().norm() == FormulaView::bottom(),
        n == FormulaView::bottom() ==> n.neg().norm() == FormulaView::top(),
        n != FormulaView::bottom() && n.splice_shape() ==> n.neg().norm() == n->fs[0],
        n != FormulaView::top() && !n.splice_shape()
            ==> n.neg().norm() == (FormulaView::Nor { fs: seq![n] }),
    decreases 0int,
{
    FormulaView::lemma_top_normal();
    FormulaView::lemma_bottom_normal();
    FormulaView::lemma_normal_fixed(n);
    lemma_norm_children_single(n);
    assert(n.neg().norm() == FormulaView::finish(FormulaView::norm_children(seq![n])));
    assert(FormulaView::norm_children(seq![n]) == n.expansion());
    if n == FormulaView::top() {
        assert(n.expansion() =~= seq![n]);
        assert(n.expansion().contains(FormulaView::top())) by {
            assert(n.expansion()[0] == FormulaView::top());
        }
        assert(n.neg().norm() == FormulaView::bottom());
    } else if n == FormulaView::bottom() {
        assert(n.splice_shape());
        assert(n.expansion() == n->fs[0]->fs);
        assert(n->fs[0] == FormulaView::top());
        assert(n.expansion().len() == 0);
        assert(!n.expansion().contains(FormulaView::top()));
        assert(FormulaView::sort_dedup(n.expansion()) =~= Seq::<FormulaView>::empty());
        assert(FormulaView::filter_bottom(Seq::<FormulaView>::empty())
            =~= Seq::<FormulaView>::empty());
        assert(n.neg().norm() == (FormulaView::Nor { fs: Seq::<FormulaView>::empty() }));
        assert(n.neg().norm() =~= FormulaView::top());
    } else if n.splice_shape() {
        let m = n->fs[0];
        FormulaView::lemma_is_normal_seq_index(n->fs);
        assert(n->fs.contains(m)) by {
            assert(n->fs[0] == m);
        }
        assert(m.is_normal());
        assert(n.expansion() == m->fs);
        // m is not bottom: a canonical NOR has no bottom child
        assert(m != FormulaView::bottom());
        // m is not top: Nor([top]) would be bottom itself
        assert(m != FormulaView::top()) by {
            if m == FormulaView::top() {
                assert(n->fs =~= FormulaView::bottom()->fs);
                assert(n == FormulaView::bottom());
            }
        }
        assert(!m->fs.contains(FormulaView::top()));
        assert(!m->fs.contains(FormulaView::bottom()));
        lemma_finish_clean(m->fs);
        assert(m == (FormulaView::Nor { fs: m->fs }));
        assert(n.neg().norm() == m);
    } else {
        assert(n.expansion() =~= seq![n]);
        let s = seq![n];
        assert(!s.contains(FormulaView::top())) by {
            if s.contains(FormulaView::top()) {
                let k = choose|k: int| 0 <= k < s.len() && s[k] == FormulaView::top();
                assert(n == FormulaView::top());
            }
        }
        assert(!s.contains(FormulaView::bottom())) by {
            if s.contains(FormulaView::bottom()) {
                let k = choose|k: int| 0 <= k < s.len() && s[k] == FormulaView::bottom();
                assert(n == FormulaView::bottom());
                assert(n.splice_shape());
            }
        }
        assert(FormulaView::sorted_strict(s));
        lemma_finish_clean(s);
        assert(n.neg().norm() == (FormulaView::Nor { fs: s }));
    }
}

/// Idempotence: normalizing twice is the same as normalizing once, for
/// every formula.
pub proof fn lemma_normify_idempotent(f: FormulaView)
    ensures
        f.norm().norm() == f.norm(),
{
    FormulaView::lemma_norm_normal(f);
    FormulaView::lemma_normal_fixed(f.norm());
}

/// Order independence: the normal form of an n-ary NOR does not depend on
/// the order its children are listed in.
pub proof fn lemma_normify_reverse(fs: Seq<FormulaView>)
    ensures
        (FormulaView::Nor { fs }).norm() == (FormulaView::Nor { fs: fs.reverse() }).norm(),
{
    let rs = fs.reverse();
    FormulaView::lemma_norm_children_member(fs);
    FormulaView::lemma_norm_children_member(rs);
    assert forall|x: FormulaView|
        #[trigger] FormulaView::norm_children(fs).contains(x)
            <==> FormulaView::norm_children(rs).contains(x) by {
        if FormulaView::norm_children(fs).contains(x) {
            let i = choose|i: int|
                0 <= i < fs.len() && (#[trigger] fs[i].norm().expansion()).contains(x);
            assert(rs[fs.len() - 1 - i] == fs[i]);
            assert(rs[fs.len() - 1 - i].norm().expansion().contains(x));
        }
        if FormulaView::norm_children(rs).contains(x) {
            let i = choose|i: int|
                0 <= i < rs.len() && (#[trigger] rs[i].norm().expansion()).contains(x);
            assert(rs[i] == fs[fs.len() - 1 - i]);
            assert(fs[fs.len() - 1 - i].norm().expansion().contains(x));
        }
    }
    lemma_finish_by_members(FormulaView::norm_children(fs), FormulaView::norm_children(rs));
}

/// Duplicate collapse: a NOR over two copies of a formula normalizes as the
/// NOR over one.
pub proof fn lemma_normify_duplicate(a: FormulaView)
    ensures
        (FormulaView::Nor { fs: seq![a, a] }).norm()
            == (FormulaView::Nor { fs: seq![a] }).norm(),
{
    let two = seq![a, a];
    let one = seq![a];
    FormulaView::lemma_norm_children_member(two);
    FormulaView::lemma_norm_children_member(one);
    assert forall|x: FormulaView|
        #[trigger] FormulaView::norm_children(two).contains(x)
            <==> FormulaView::norm_children(one).contains(x) by {
        if FormulaView::norm_children(two).contains(x) {
            let i = choose|i: int|
                0 <= i < two.len() && (#[trigger] two[i].norm().expansion()).contains(x);
            assert(two[i] == a && one[0] == a);
            assert(one[0].norm().expansion().contains(x));
        }
        if FormulaView::norm_children(one).contains(x) {
            assert(one[0] == a && two[0] == a);
            assert(two[0].norm().expansion().contains(x));
        }
    }
    lemma_finish_by_members(FormulaView::norm_children(two), FormulaView::norm_children(one));
}

/// Double negation: normalizing `not(not(f))` gives the normal form of `f`
/// itself, for every formula that is a NOR. (A bare variable leaf is the
/// one exception: `not(not(var(v)))` is already canonical and keeps its two
/// negations, since the normalizer only splices double negations that sit
/// inside an enclosing NOR.)
pub proof fn lemma_normify_double_negation(f: FormulaView)
    requires
        f is Nor,
    ensures
        f.neg().neg().norm() == f.norm(),
{
    let n = f.norm();
    FormulaView::lemma_norm_normal(f);
    assert(n is Nor);
    // one negation: by cases on the canonical form of f
    FormulaView::lemma_top_normal();
    FormulaView::lemma_bottom_normal();
    lemma_norm_children_single(f);
    assert(f.neg().norm() == FormulaView::finish(f.norm().expansion()));
    lemma_norm_neg_normal(n);
    assert(n.neg().norm() == FormulaView::finish(n.norm().expansion())) by {
        lemma_norm_children_single(n);
    }
    FormulaView::lemma_normal_fixed(n);
    assert(f.neg().norm() == n.neg().norm());
    // so the double negation of f normalizes like the double negation of n
    let g = f.neg();
    let h = n.neg();
    lemma_norm_children_single(g);
    assert(g.neg().norm() == FormulaView::finish(g.norm().expansion()));
    assert(g.norm() == h.norm());
    if n == FormulaView::top() {
        // not(f) normalizes to bottom; not(not(f)) to top
        assert(g.norm() == FormulaView::bottom());
        FormulaView::lemma_norm_normal(g);
        lemma_norm_neg_normal(FormulaView::bottom());
        assert(FormulaView::finish(FormulaView::bottom().expansion())
            == FormulaView::bottom().neg().norm()) by {
            lemma_norm_children_single(FormulaView::bottom());
        }
        assert(g.neg().norm() == FormulaView::top());
    } else if n == FormulaView::bottom() {
        assert(g.norm() == FormulaView::top());
        lemma_norm_neg_normal(FormulaView::top());
        assert(FormulaView::finish(FormulaView::top().expansion())
            == FormulaView::top().neg().norm()) by {
            lemma_norm_children_single(FormulaView::top());
        }
        assert(g.neg().norm() == FormulaView::bottom());
    } else if n.splice_shape() {
        let m = n->fs[0];
        assert(g.norm() == m);
        FormulaView::lemma_is_normal_seq_index(n->fs);
        assert(n->fs.contains(m)) by {
            assert(n->fs[0] == m);
        }
        assert(m.is_normal() && !m.splice_shape());
        assert(m is Nor);
        assert(m != FormulaView::top()) by {
            if m == FormulaView::top() {
                assert(n->fs =~= FormulaView::bottom()->fs);
            }
        }
        lemma_norm_neg_normal(m);
        assert(m.neg().norm() == (FormulaView::Nor { fs: seq![m] }));
        assert(FormulaView::finish(m.norm().expansion()) == m.neg().norm()) by {
            lemma_norm_children_single(m);
        }
        FormulaView::lemma_normal_fixed(m);
        assert(g.neg().norm() == (FormulaView::Nor { fs: seq![m] }));
        assert(n->fs =~= seq![m]);
        assert(g.neg().norm() == n);
    } else {
        assert(g.norm() == (FormulaView::Nor { fs: seq![n] }));
        let w = FormulaView::Nor { fs: seq![n] };
        assert(w.splice_shape());
        FormulaView::lemma_norm_normal(g);
        assert(w.is_normal());
        assert(w != FormulaView::bottom()) by {
            if w == FormulaView::bottom() {
                assert(w->fs[0] == FormulaView::top());
                assert(n == FormulaView::top());
            }
        }
        lemma_norm_neg_normal(w);
        assert(w.neg().norm() == w->fs[0]);
        assert(w->fs[0] == n);
        assert(FormulaView::finish(w.norm().expansion()) == w.neg().norm()) by {
            lemma_norm_children_single(w);
        }
        FormulaView::lemma_normal_fixed(w);
        assert(g.neg().norm() == n);
    }
}

/// Absorption: any NOR whose child list contains `top` normalizes to
/// `bottom`.
pub proof fn lemma_normify_absorption(fs: Seq<FormulaView>)
    requires
        fs.contains(FormulaView::top()),
    ensures
        (FormulaView::Nor { fs }).norm() == FormulaView::bottom(),
{
    FormulaView::lemma_norm_top();
    FormulaView::lemma_top_normal();
    FormulaView::lemma_norm_children_member(fs);
    let i = choose|i: int| 0 <= i < fs.len() && fs[i] == FormulaView::top();
    assert(fs[i].norm() == FormulaView::top());
    assert(fs[i].norm().expansion() =~= seq![FormulaView::top()]);
    assert(fs[i].norm().expansion().contains(FormulaView::top())) by {
        assert(fs[i].norm().expansion()[0] == FormulaView::top());
    }
    assert(FormulaView::norm_children(fs).contains(FormulaView::top()));
}

/// Pruning: `bottom` children never influence the normal form of a NOR.
pub proof fn lemma_normify_bottom_pruned(fs: Seq<FormulaView>)
    ensures
        (FormulaView::Nor { fs }).norm()
            == (FormulaView::Nor { fs: FormulaView::filter_bottom(fs) }).norm(),
{
    let gs = FormulaView::filter_bottom(fs);
    FormulaView::lemma_norm_bottom();
    FormulaView::lemma_bottom_normal();
    FormulaView::lemma_norm_children_member(fs);
    FormulaView::lemma_norm_children_member(gs);
    lemma_filter_bottom_member_any(fs);
    assert forall|x: FormulaView|
        #[trigger] FormulaView::norm_children(fs).contains(x)
            <==> FormulaView::norm_children(gs).contains(x) by {
        if FormulaView::norm_children(fs).contains(x) {
            let i = choose|i: int|
                0 <= i < fs.len() && (#[trigger] fs[i].norm().expansion()).contains(x);
            if fs[i] == FormulaView::bottom() {
                assert(fs[i].norm() == FormulaView::bottom());
                assert(FormulaView::bottom().expansion().len() == 0);
                assert(false);
            } else {
                assert(fs.contains(fs[i])) by {
                    assert(fs[i] == fs[i]);
                }
                assert(gs.contains(fs[i]));
                let j = choose|j: int| 0 <= j < gs.len() && gs[j] == fs[i];
                assert(gs[j].norm().expansion().contains(x));
            }
        }
        if FormulaView::norm_children(gs).contains(x) {
            let j = choose|j: int|
                0 <= j < gs.len() && (#[trigger] gs[j].norm().expansion()).contains(x);
            assert(gs.contains(gs[j])) by {
                assert(gs[j] == gs[j]);
            }
            assert(fs.contains(gs[j]));
            let i = choose|i: int| 0 <= i < fs.len() && fs[i] == gs[j];
            assert(fs[i].norm().expansion().contains(x));
        }
    }
    lemma_finish_by_members(FormulaView::norm_children(fs), FormulaView::norm_children(gs));
}

/// Soundness of substitution: a variable the knowledge base forces true
/// simplifies to `top`; one it forces false (and not true) simplifies to
/// `bottom`; an unknown variable stays itself, so the query is
/// undetermined.
pub proof fn lemma_substitution_soundness(kb: Kb, v: Var)
    ensures
        kb.vars_true.spec_contains(v)
            ==> (FormulaView::Var { var: v }).simp(kb) == FormulaView::top(),
        !kb.vars_true.spec_contains(v) && kb.vars_fals.spec_contains(v)
            ==> (FormulaView::Var { var: v }).simp(kb) == FormulaView::bottom(),
        !kb.vars_true.spec_contains(v) && !kb.vars_fals.spec_contains(v)
            ==> (FormulaView::Var { var: v }).simp(kb) == (FormulaView::Var { var: v }),
{
    FormulaView::lemma_top_normal();
}

} // verus!
