use nor_kb::kb::Kb;
use nor_kb::var::Var;
use nor_kb::var_set::VarSet;
use nor_kb::vec_mut_q::VecMutQ;

fn v(i: u8) -> Var {
    Var::new(i).unwrap()
}

#[test]
fn var_new_rejects_out_of_range() {
    assert!(Var::new(63).is_some());
    assert!(Var::new(64).is_none());
    assert!(Var::new(255).is_none());
    assert_eq!(Var::new(17).unwrap().index(), 17);
}

#[test]
fn singleton_contains_exactly_its_member() {
    let s = VarSet::singleton(v(5));
    assert!(s.contains(v(5)));
    assert!(!s.contains(v(4)));
    assert!(!s.contains(v(63)));
}

#[test]
fn add_remove_round_trip() {
    let mut s = VarSet::default();
    s.add(v(3));
    s.add(v(40));
    assert!(s.contains(v(3)) && s.contains(v(40)));
    s.remove(v(3));
    assert!(!s.contains(v(3)) && s.contains(v(40)));
}

#[test]
fn set_algebra() {
    let a = VarSet::from_iter(vec![v(1), v(2), v(3)]);
    let b = VarSet::from_iter(vec![v(2), v(4)]);
    let u = a.unified(b);
    assert!(u.contains(v(1)) && u.contains(v(2)) && u.contains(v(3)) && u.contains(v(4)));
    let i = a.intersected(b);
    assert!(i.contains(v(2)) && !i.contains(v(1)) && !i.contains(v(4)));
    let d = a.differed(b);
    assert!(d.contains(v(1)) && d.contains(v(3)) && !d.contains(v(2)));
}

#[test]
fn subset_checks() {
    let a = VarSet::from_iter(vec![v(1), v(2)]);
    let b = VarSet::from_iter(vec![v(1), v(2), v(9)]);
    assert!(a.is_subset(b));
    assert!(!b.is_subset(a));
    assert!(VarSet::default().is_subset(a));
}

#[test]
fn take_yields_members_in_ascending_order() {
    let mut s = VarSet::from_iter(vec![v(9), v(0), v(63), v(31)]);
    assert_eq!(s.take().unwrap().index(), 0);
    assert_eq!(s.take().unwrap().index(), 9);
    assert_eq!(s.take().unwrap().index(), 31);
    assert_eq!(s.take().unwrap().index(), 63);
    assert!(s.take().is_none());
}

#[test]
fn iterator_drains_the_set() {
    let s = VarSet::from_iter(vec![v(2), v(7)]);
    let mut it = s.into_iter();
    assert_eq!(it.next().unwrap().index(), 2);
    assert_eq!(it.next().unwrap().index(), 7);
    assert!(it.next().is_none());
    // the source set is unchanged: iteration works on a copy
    assert!(s.contains(v(2)));
}

#[test]
fn kb_looks_variables_up() {
    let kb = Kb {
        vars_true: VarSet::from_iter(vec![v(0)]),
        vars_fals: VarSet::from_iter(vec![v(1)]),
    };
    assert_eq!(kb.test_var(v(0)), Some(true));
    assert_eq!(kb.test_var(v(1)), Some(false));
    assert_eq!(kb.test_var(v(2)), None);
}

#[test]
fn queue_processes_and_requeues() {
    let mut q = VecMutQ::new(vec![10u32, 20, 30]);
    let mut seen = Vec::new();
    while let Some(x) = q.take_unprocessed() {
        if x == 20 {
            // expansion: replace by two smaller work items
            q.add_unprocessed(21);
            q.add_unprocessed(22);
        } else {
            q.add_processed(x * 2);
        }
        seen.push(x);
    }
    let mut out = q.into_vec();
    out.sort();
    assert_eq!(out, vec![20, 42, 44, 60]);
    assert_eq!(seen.len(), 5);
}

#[test]
fn queue_extend_processed_keeps_order() {
    let mut q = VecMutQ::new(vec![1u32]);
    let first = q.take_unprocessed().unwrap();
    assert_eq!(first, 1);
    q.extend_processed(vec![7, 8, 9]);
    assert!(q.take_unprocessed().is_none());
    assert_eq!(q.into_vec(), vec![7, 8, 9]);
}

#[test]
fn endo_map_transforms_in_place_and_in_order() {
    let mut xs = vec![1u32, 2, 3, 4];
    VecMutQ::in_place_endo_map(&mut xs, |x: u32| x + 1);
    assert_eq!(xs, vec![2, 3, 4, 5]);
}
