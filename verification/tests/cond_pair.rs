use task_stream::CondPair;

#[test]
fn new_pair_gives_first_as_true_side() {
    let p = CondPair::new(1, 2);
    assert_eq!(*p.get_true(), 1);
    assert_eq!(*p.get_false(), 2);
    assert_eq!(p.get(), (&1, &2));
}

#[test]
fn flipping_the_condition_swaps_roles() {
    let mut p = CondPair::new(vec![1], vec![2, 3]);
    p.update_cond(|t, f| t.len() > f.len());
    assert_eq!(p.get_true(), &vec![2, 3]);
    assert_eq!(p.get_false(), &vec![1]);
    // the values themselves stay where they were
    assert_eq!(p.get(), (&vec![1], &vec![2, 3]));
    p.update_cond(|t, _| t.len() == 1);
    assert_eq!(p.get_true(), &vec![1]);
    assert_eq!(p.get_false(), &vec![2, 3]);
}

#[test]
fn update_cond_sees_both_values() {
    let mut p = CondPair::new(10, 20);
    let mut seen = (0, 0);
    p.update_cond(|t, f| {
        seen = (*t, *f);
        false
    });
    assert_eq!(seen, (10, 20));
    assert_eq!(*p.get_true(), 20);
}

#[test]
fn mutable_borrows_reach_the_right_side() {
    let mut p = CondPair::new(String::from("a"), String::from("b"));
    p.get_mut_true().push('x');
    p.get_mut_false().push('y');
    assert_eq!(p.get(), (&String::from("ax"), &String::from("by")));
    p.update_cond(|_, _| false);
    p.get_mut_true().push('z');
    p.get_mut_false().push('w');
    assert_eq!(p.get(), (&String::from("axw"), &String::from("byz")));
}
