use nor_kb::kb::Kb;
use nor_kb::nary::formula::Formula;
use nor_kb::var::Var;
use nor_kb::var_set::VarSet;

fn v(i: u8) -> Var {
    Var::new(i).unwrap()
}

fn demo_kb() -> Kb {
    Kb {
        vars_true: VarSet::from_iter(vec![v(0)]),
        vars_fals: VarSet::from_iter(vec![v(1)]),
    }
}

#[test]
fn top_is_empty_nor() {
    assert!(Formula::top() == Formula::n_nor(vec![]));
}

#[test]
fn bottom_is_not_top() {
    assert!(Formula::bottom() == Formula::top().not());
    assert!(Formula::bottom() != Formula::top());
}

#[test]
fn normify_fixes_top_and_bottom() {
    assert!(Formula::top().normify() == Formula::top());
    assert!(Formula::bottom().normify() == Formula::bottom());
}

#[test]
fn normify_not_bottom_is_top() {
    assert!(Formula::bottom().not().normify() == Formula::top());
}

#[test]
fn normify_is_idempotent_on_samples() {
    // once and twice agree on a formula exercising every rewrite rule
    let build = || {
        Formula::var(v(2))
            .not()
            .not()
            .nor(Formula::top())
            .not()
            .or(Formula::var(v(1)).and(Formula::var(v(1))))
    };
    let once = build().normify();
    let twice = build().normify().normify();
    assert!(once == twice);
}

#[test]
fn normify_ignores_child_order() {
    let ab = Formula::n_nor(vec![Formula::var(v(3)), Formula::var(v(1))]).normify();
    let ba = Formula::n_nor(vec![Formula::var(v(1)), Formula::var(v(3))]).normify();
    assert!(ab == ba);
}

#[test]
fn normify_collapses_duplicates() {
    let twice = Formula::n_nor(vec![Formula::var(v(2)), Formula::var(v(2))]).normify();
    let once = Formula::n_nor(vec![Formula::var(v(2))]).normify();
    assert!(twice == once);
}

#[test]
fn normify_double_negation_of_nor() {
    // for NOR-rooted formulas the two negations vanish
    let f = || Formula::var(v(0)).nor(Formula::var(v(1)));
    assert!(f().not().not().normify() == f().normify());
    let g = || Formula::var(v(0)).and(Formula::var(v(2)));
    assert!(g().not().not().normify() == g().normify());
}

#[test]
fn normify_keeps_double_negated_leaf() {
    // a doubly negated bare variable is already canonical: the normalizer
    // only splices double negations inside an enclosing NOR
    let f = Formula::var(v(2)).not().not();
    let same = Formula::var(v(2)).not().not();
    assert!(f.normify() == same);
}

#[test]
fn normify_splices_nested_double_negation() {
    // inside a NOR the doubly negated child is replaced by the grandchild list
    let nested = Formula::n_nor(vec![
        Formula::var(v(0)),
        Formula::n_nor(vec![Formula::var(v(1)), Formula::var(v(2))]).not(),
    ])
    .normify();
    let flat = Formula::n_nor(vec![
        Formula::var(v(0)),
        Formula::var(v(1)),
        Formula::var(v(2)),
    ])
    .normify();
    assert!(nested == flat);
}

#[test]
fn normify_absorbs_top() {
    let f = Formula::n_nor(vec![
        Formula::var(v(0)),
        Formula::top(),
        Formula::var(v(5)),
    ]);
    assert!(f.normify() == Formula::bottom());
    let g = Formula::var(v(2)).nor(Formula::top());
    assert!(g.normify() == Formula::bottom());
}

#[test]
fn normify_drops_bottom() {
    let with = Formula::n_nor(vec![
        Formula::var(v(0)),
        Formula::bottom(),
        Formula::var(v(5)),
    ]);
    let without = Formula::n_nor(vec![Formula::var(v(0)), Formula::var(v(5))]);
    assert!(with.normify() == without.normify());
}

#[test]
fn nor_not_to_or_splits_only_double_nors() {
    // a NOR of one NOR hands back the grandchild's children
    let f = Formula::n_nor(vec![Formula::var(v(0)), Formula::var(v(1))]).not();
    match f.nor_not_to_or() {
        Ok(gs) => {
            assert_eq!(gs.len(), 2);
            assert!(gs[0] == Formula::var(v(0)));
            assert!(gs[1] == Formula::var(v(1)));
        }
        Err(_) => panic!("expected the double NOR to split"),
    }
    // a NOR of one variable stays whole
    let g = Formula::var(v(0)).not();
    match g.nor_not_to_or() {
        Ok(_) => panic!("a negated leaf must not split"),
        Err(back) => assert!(back == Formula::var(v(0)).not()),
    }
    // a leaf stays whole
    match Formula::var(v(3)).nor_not_to_or() {
        Ok(_) => panic!("a leaf must not split"),
        Err(back) => assert!(back == Formula::var(v(3))),
    }
}

#[test]
fn test_formula_true_variable() {
    let kb = demo_kb();
    assert_eq!(kb.test_formula(Formula::var(v(0))), Some(true));
}

#[test]
fn test_formula_false_variable() {
    let kb = demo_kb();
    assert_eq!(kb.test_formula(Formula::var(v(1))), Some(false));
}

#[test]
fn test_formula_unknown_variable() {
    let kb = demo_kb();
    assert_eq!(kb.test_formula(Formula::var(v(2))), None);
}

#[test]
fn test_formula_conjunction_true() {
    let kb = demo_kb();
    let f = Formula::var(v(0)).and(Formula::var(v(1)).not());
    assert_eq!(kb.test_formula(f), Some(true));
}

#[test]
fn test_formula_conjunction_false() {
    let kb = demo_kb();
    let f = Formula::var(v(0)).and(Formula::var(v(1)));
    assert_eq!(kb.test_formula(f), Some(false));
}

#[test]
fn test_formula_undetermined_residual() {
    let kb = demo_kb();
    let f = Formula::var(v(0)).and(Formula::var(v(2)));
    assert_eq!(kb.test_formula(f), None);
}

#[test]
fn simplify_keeps_residual_variable() {
    let kb = demo_kb();
    let r = kb.simplify_formula(Formula::var(v(2)));
    assert!(r == Formula::var(v(2)));
}

#[test]
fn simplify_substitutes_known_variables() {
    let kb = demo_kb();
    assert!(kb.simplify_formula(Formula::var(v(0))) == Formula::top());
    assert!(kb.simplify_formula(Formula::var(v(1))) == Formula::bottom());
}

#[test]
fn implication_of_known_variables() {
    let kb = demo_kb();
    // v1 implies v0: antecedent is false, so the implication holds
    assert_eq!(
        kb.test_formula(Formula::var(v(1)).yimpl(Formula::var(v(0)))),
        Some(true)
    );
    // v0 implies v1: true implies false fails
    assert_eq!(
        kb.test_formula(Formula::var(v(0)).yimpl(Formula::var(v(1)))),
        Some(false)
    );
    // v0 and-not v1 holds
    assert_eq!(
        kb.test_formula(Formula::var(v(0)).nimpl(Formula::var(v(1)))),
        Some(true)
    );
}

#[test]
fn connectives_compose_as_expected() {
    let kb = demo_kb();
    assert_eq!(
        kb.test_formula(Formula::var(v(0)).or(Formula::var(v(2)))),
        Some(true)
    );
    assert_eq!(
        kb.test_formula(Formula::var(v(1)).nor(Formula::var(v(1)))),
        Some(true)
    );
    assert_eq!(
        kb.test_formula(Formula::n_and(vec![
            Formula::var(v(0)),
            Formula::var(v(1)).not(),
            Formula::top(),
        ])),
        Some(true)
    );
    assert_eq!(
        kb.test_formula(Formula::n_nand(vec![
            Formula::var(v(0)),
            Formula::var(v(1)).not(),
        ])),
        Some(false)
    );
    assert_eq!(
        kb.test_formula(Formula::n_or(vec![])),
        Some(false)
    );
    assert_eq!(
        kb.test_formula(Formula::n_and(vec![])),
        Some(true)
    );
}

#[test]
fn render_shows_indices_and_brackets() {
    assert_eq!(Formula::var(v(0)).render(), "v0");
    assert_eq!(Formula::var(v(12)).render(), "v12");
    assert_eq!(Formula::top().render(), "[]");
    assert_eq!(Formula::bottom().render(), "[[]]");
    assert_eq!(Formula::var(v(3)).not().render(), "[v3]");
    assert_eq!(
        Formula::n_nor(vec![Formula::var(v(1)), Formula::var(v(2))]).render(),
        "[v1, v2]"
    );
}

#[test]
fn normify_sorts_children_ascending() {
    let f = Formula::n_nor(vec![
        Formula::var(v(9)),
        Formula::var(v(1)).not(),
        Formula::var(v(2)),
    ]);
    // variables come first by index, negations (inner NORs) after
    assert_eq!(f.normify().render(), "[v2, v9, [v1]]");
}
