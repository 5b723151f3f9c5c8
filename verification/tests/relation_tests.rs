use std::collections::HashMap;
use uiua_analysis::axis::{Axis, SubstError};
use uiua_analysis::relation::{Condition, Relation};

fn c(v: i32) -> Axis {
    Axis::from(v)
}

#[test]
fn relation_trivial_on_constants() {
    assert_eq!(Relation::eq(c(2), c(2)).trivial(), Some(true));
    assert_eq!(Relation::eq(c(2), c(3)).trivial(), Some(false));
    assert_eq!(Relation::ne(c(2), c(3)).trivial(), Some(true));
    assert_eq!(Relation::lt(c(2), c(3)).trivial(), Some(true));
    assert_eq!(Relation::lt(c(3), c(3)).trivial(), Some(false));
    assert_eq!(Relation::gt(c(4), c(3)).trivial(), Some(true));
    assert_eq!(Relation::le(c(3), c(3)).trivial(), Some(true));
    assert_eq!(Relation::ge(c(2), c(3)).trivial(), Some(false));
}

#[test]
fn relation_with_variables_is_not_trivial() {
    let mut n = 0usize;
    let x = Axis::newvar(&mut n);
    assert_eq!(Relation::eq(x.clone(), c(3)).trivial(), None);
    let same = Relation::eq(x.clone(), x.clone());
    assert_eq!(same.trivial(), Some(true));
    let copy = same.copy();
    assert_eq!(copy.ineq, same.ineq);
    assert_eq!(copy.inv, same.inv);
}

#[test]
fn condition_trivial_and_substitute() {
    let mut n = 0usize;
    let x = Axis::newvar(&mut n);
    let cond = Condition::Or(vec![Relation::eq(c(1), c(2)), Relation::lt(x.clone(), c(5))]);
    assert_eq!(cond.trivial(), None);
    assert_eq!(cond.to_nvars(), 1);
    let mut substs = HashMap::new();
    substs.insert(0usize, c(4));
    let after = cond.substitute(&substs).unwrap();
    assert_eq!(after.trivial(), Some(true));
    let mut big = HashMap::new();
    big.insert(0usize, c(9));
    assert_eq!(cond.substitute(&big).unwrap().trivial(), Some(false));
    let empty: HashMap<usize, Axis> = HashMap::new();
    assert!(matches!(cond.substitute(&empty), Err(SubstError::NotEnoughVariables)));
    let none = Condition::Or(vec![]);
    assert_eq!(none.trivial(), Some(false));
    let from: Condition = Relation::eq(c(1), c(1)).into();
    assert_eq!(from.trivial(), Some(true));
}
