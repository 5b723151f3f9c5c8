use std::collections::HashMap;
use uiua_analysis::axis::{Axis, SubstError};

fn var(nvars: &mut usize) -> Axis {
    Axis::newvar(nvars)
}

#[test]
fn axis_newvar_counts_up() {
    let mut n = 0usize;
    let x0 = var(&mut n);
    let x1 = var(&mut n);
    assert_eq!(n, 2);
    assert_eq!(x0.single_var(), Some(0));
    assert_eq!(x1.single_var(), Some(1));
    assert_eq!(x1.term(&[0, 1]), 1);
    assert_eq!(x1.term(&[0, 1, 0, 0]), 1);
    assert_eq!(x1.to_nvars(), 2);
    assert_eq!(x0.only_const(), None);
}

#[test]
fn axis_constants() {
    let a = Axis::from(5usize);
    assert_eq!(a.only_const(), Some(5));
    assert_eq!(a.constant(), 5);
    assert_eq!(a.complexity(), 0);
    assert_eq!(a.to_nvars(), 0);
    assert_eq!(a.single_var(), None);
    assert_eq!(Axis::from(-3isize).only_const(), Some(-3));
    assert_eq!(Axis::from(4i32).term(&[]), 4);
    assert_eq!(Axis::from(4i32).term(&[1]), 0);
}

#[test]
fn axis_add_sub_mul() {
    let mut n = 0usize;
    let x0 = var(&mut n);
    let x1 = var(&mut n);
    let s = x0.clone() + x1.clone();
    assert_eq!(s.only_const(), None);
    assert_eq!(s.single_var(), None);
    assert_eq!(s.complexity(), 1);
    assert_eq!(s.term(&[1]), 1);
    assert_eq!(s.term(&[0, 1]), 1);
    let c = Axis::from(3i32) + Axis::from(4i32);
    assert_eq!(c.only_const(), Some(7));
    let d = Axis::from(3i32) - Axis::from(4i32);
    assert_eq!(d.only_const(), Some(-1));
    let z = x0.clone() - x0.clone();
    assert_eq!(z.only_const(), Some(0));
    let p = (x0.clone() + Axis::from(2i32)) * (x0.clone() + Axis::from(3i32));
    assert_eq!(p.term(&[2]), 1);
    assert_eq!(p.term(&[1]), 5);
    assert_eq!(p.constant(), 6);
    let q = Axis::from(6i32) * Axis::from(7i32);
    assert_eq!(q.only_const(), Some(42));
}

#[test]
fn axis_add_commutes_on_values() {
    let mut n = 0usize;
    let x0 = var(&mut n);
    let a = x0.clone() * Axis::from(3i32) + Axis::from(1i32);
    let b = x0.clone() + Axis::from(4i32);
    let ab = a.clone() + b.clone();
    let ba = b.clone() + a.clone();
    for e in [&[][..], &[1][..], &[2][..]] {
        assert_eq!(ab.term(e), ba.term(e));
    }
    assert_eq!(ab.term(&[1]), 4);
    assert_eq!(ab.constant(), 5);
    let back = (a.clone() - b.clone()) + b.clone();
    assert_eq!(back.term(&[1]), 3);
    assert_eq!(back.constant(), 1);
}

#[test]
fn axis_mul_distributes_on_values() {
    let mut n = 0usize;
    let x0 = var(&mut n);
    let x1 = var(&mut n);
    let a = x0.clone() + Axis::from(1i32);
    let b = x1.clone();
    let c = Axis::from(2i32);
    let lhs = a.clone() * (b.clone() + c.clone());
    let rhs = a.clone() * b.clone() + a.clone() * c.clone();
    for e in [&[][..], &[1][..], &[0, 1][..], &[1, 1][..]] {
        assert_eq!(lhs.term(e), rhs.term(e));
    }
    assert_eq!((a.clone() * b.clone()).term(&[1, 1]), (b * a).term(&[1, 1]));
}

#[test]
fn axis_pow_and_product() {
    let mut n = 0usize;
    let x0 = var(&mut n);
    assert_eq!(x0.pow(3).term(&[3]), 1);
    assert_eq!(Axis::from(2i32).pow(10).only_const(), Some(1024));
    assert_eq!(x0.pow(0).only_const(), Some(1));
    let prod = Axis::product_of(&[Axis::from(2i32), Axis::from(3i32), x0.clone()]);
    assert_eq!(prod.term(&[1]), 6);
    assert_eq!(prod.only_const(), None);
    assert_eq!(Axis::product_of(&[]).only_const(), Some(1));
    assert_eq!(Axis::product(vec![Axis::from(4i32), Axis::from(5i32)]).only_const(), Some(20));
    assert_eq!(Axis::product(vec![]).only_const(), Some(1));
}

#[test]
fn axis_substitute() {
    let mut n = 0usize;
    let x0 = var(&mut n);
    let e = x0.clone() * Axis::from(3i32) + Axis::from(1i32);
    let mut substs = HashMap::new();
    substs.insert(0usize, Axis::from(5i32));
    assert_eq!(e.substitute(&substs).unwrap().only_const(), Some(16));
    let empty: HashMap<usize, Axis> = HashMap::new();
    assert!(matches!(e.substitute(&empty), Err(SubstError::NotEnoughVariables)));
    assert_eq!(Axis::from(9i32).substitute(&empty).unwrap().only_const(), Some(9));
    let mut m = 0usize;
    let y0 = var(&mut m);
    let y1 = var(&mut m);
    let mut to_var = HashMap::new();
    to_var.insert(0usize, y1.clone());
    let r = y0.pow(2).substitute(&to_var).unwrap();
    assert_eq!(r.term(&[0, 2]), 1);
}

#[test]
fn axis_term_mut() {
    let mut a = Axis::from(5i32);
    *a.term_mut(&[]) += 2;
    assert_eq!(a.only_const(), Some(7));
    *a.term_mut(&[0, 1]) = 4;
    assert_eq!(a.term(&[0, 1]), 4);
    assert_eq!(a.constant(), 7);
    assert_eq!(a.to_nvars(), 2);
}

#[test]
fn axis_text_forms() {
    assert_eq!(Axis::from(7isize).to_string(), "7");
    assert_eq!(Axis::from(-12isize).to_string(), "-12");
    let mut n = 0usize;
    let x0 = Axis::newvar(&mut n);
    let x1 = Axis::newvar(&mut n);
    assert_eq!(x0.to_string(), "x\u{2080}");
    assert_eq!(x1.to_string(), "x\u{2081}");
    let sq = x1.clone() * x1.clone();
    assert_eq!(sq.to_string(), "x\u{2081}\u{00b2}");
    let three = (x0.clone() * Axis::from(3isize)).to_string();
    assert_eq!(three, "3x\u{2080}");
    let diff = (x0.clone() - x1.clone()).to_string();
    assert!(diff == "x\u{2080}-x\u{2081}" || diff == "-x\u{2081}+x\u{2080}");
    let text: String = x0.to_text().into_iter().collect();
    assert_eq!(text, "x\u{2080}");
}

#[test]
fn axis_text_two_digit_subscript_and_power() {
    let mut n = 12usize;
    let x12 = Axis::newvar(&mut n);
    assert_eq!(x12.to_string(), "x\u{2081}\u{2082}");
    let p = x12.pow(10);
    assert_eq!(p.to_string(), "x\u{2081}\u{2082}\u{00b9}\u{2070}");
}
