use uiua_analysis::axis::Axis;
use uiua_analysis::graph::DataGraph;
use uiua_analysis::info::{KnownValue, NodeInfo, ShapeInfo, ValInfo};
use uiua_analysis::matching::{arg_nvars, subst_fits, try_match_func, AnalyzedFunc, FuncInfos, FuncLib, MatchError};
use uiua_analysis::range::RangeInfo;
use uiua_analysis::relation::{Condition, Relation};
use std::collections::HashMap;

fn c(v: i32) -> Axis {
    Axis::from(v)
}

fn same(a: &KnownValue<i32>, b: &KnownValue<i32>) -> bool {
    a.value == b.value && a.shape == b.shape
}

fn ranked(axes: Vec<Axis>) -> ValInfo<i32> {
    ValInfo::new(0, ShapeInfo::Ranked(axes), RangeInfo::uint(10))
}

fn known(shape: Vec<usize>) -> ValInfo<i32> {
    ValInfo::new(0, ShapeInfo::Known(KnownValue { value: 1, shape }), RangeInfo::uint(10))
}

/// A function analyzed on one list of length `x0`, requiring `x0 < 5`, whose output
/// is a list of length `x0 + 1`.
fn grow() -> FuncInfos<i32> {
    let mut n = 0usize;
    let x0 = Axis::newvar(&mut n);
    FuncInfos {
        reqs: vec![Condition::Or(vec![Relation::lt(x0.clone(), c(5))])],
        args: vec![ranked(vec![x0.clone()])],
        outs: vec![ranked(vec![x0 + c(1)])],
    }
}

fn out_len(info: &NodeInfo<i32>, i: usize) -> Option<isize> {
    match &info.vals[i].shape {
        ShapeInfo::Ranked(axes) => axes[0].only_const(),
        _ => None,
    }
}

#[test]
fn match_specializes_to_known_lengths() {
    let mut nvars = 0usize;
    let r = try_match_func(&vec![known(vec![3])], &grow(), &mut nvars, &same);
    let info = r.unwrap().unwrap();
    assert_eq!(info.vals.len(), 1);
    assert_eq!(out_len(&info, 0), Some(4));
    assert_eq!(info.vals[0].typ, 0);
    assert_eq!(info.vals[0].range, RangeInfo::uint(10));
    assert_eq!(nvars, 0);
}

#[test]
fn match_reports_unsatisfied_requirement() {
    let mut nvars = 0usize;
    let r = try_match_func(&vec![known(vec![7])], &grow(), &mut nvars, &same);
    assert!(matches!(r, Some(Err(MatchError::Unsatisfied))));
}

#[test]
fn match_fails_on_type_or_rank() {
    let mut nvars = 0usize;
    let other = ValInfo::new(1, ShapeInfo::Known(KnownValue { value: 1, shape: vec![3] }), RangeInfo::uint(10));
    assert!(try_match_func(&vec![other], &grow(), &mut nvars, &same).is_none());
    assert!(try_match_func(&vec![known(vec![3, 2])], &grow(), &mut nvars, &same).is_none());
    let unranked = ValInfo::new(0, ShapeInfo::Unranked { prefix: vec![], suffix: vec![] }, RangeInfo::uint(10));
    assert!(try_match_func(&vec![unranked], &grow(), &mut nvars, &same).is_none());
    assert_eq!(nvars, 0);
}

#[test]
fn match_known_values_by_equality() {
    let f = FuncInfos {
        reqs: vec![],
        args: vec![known(vec![2])],
        outs: vec![ranked(vec![c(6)])],
    };
    let mut nvars = 0usize;
    let r = try_match_func(&vec![known(vec![2])], &f, &mut nvars, &same);
    assert_eq!(out_len(&r.unwrap().unwrap(), 0), Some(6));
    let different = ValInfo::new(0, ShapeInfo::Known(KnownValue { value: 9, shape: vec![2] }), RangeInfo::uint(10));
    assert!(try_match_func(&vec![different], &f, &mut nvars, &same).is_none());
}

#[test]
fn match_symbolic_lengths_and_fresh_variables() {
    let mut fnv = 0usize;
    let x0 = Axis::newvar(&mut fnv);
    let x1 = Axis::newvar(&mut fnv);
    let f = FuncInfos {
        reqs: vec![],
        args: vec![ranked(vec![x0.clone()])],
        outs: vec![ranked(vec![x1]), ranked(vec![x0])],
    };
    let mut nvars = 5usize;
    let r = try_match_func(&vec![known(vec![3])], &f, &mut nvars, &same);
    let info = r.unwrap().unwrap();
    assert_eq!(nvars, 6);
    assert_eq!(out_len(&info, 1), Some(3));
    match &info.vals[0].shape {
        ShapeInfo::Ranked(axes) => {
            assert_eq!(axes[0].only_const(), None);
            assert_eq!(axes[0].to_nvars(), 6);
        },
        _ => panic!("expected a ranked shape"),
    }
    let mut caller = 0usize;
    let y = Axis::newvar(&mut caller);
    let r = try_match_func(&vec![ranked(vec![y])], &grow(), &mut caller, &same);
    let info = r.unwrap().unwrap();
    assert_eq!(caller, 1);
    match &info.vals[0].shape {
        ShapeInfo::Ranked(axes) => assert_eq!(axes[0].to_nvars(), 1),
        _ => panic!("expected a ranked shape"),
    }
}

#[test]
fn match_rejects_oversized_substitution() {
    let mut nvars = 0usize;
    let big = known(vec![isize::MAX as usize]);
    let r = try_match_func(&vec![big], &grow(), &mut nvars, &same);
    assert!(matches!(r, Some(Err(MatchError::TooLarge))));
}

#[test]
fn subst_fits_checks_the_cost() {
    let mut n = 0usize;
    let x = Axis::newvar(&mut n);
    let mut small = HashMap::new();
    small.insert(0usize, c(3));
    assert!(subst_fits(&x, &small));
    let mut huge = HashMap::new();
    huge.insert(0usize, Axis::from(isize::MAX));
    assert!(subst_fits(&x, &huge));
    assert!(!subst_fits(&(x.clone() + c(1)), &huge));
}

#[test]
fn func_lib_finds_first_matching_function() {
    let mut lib: FuncLib<i32> = FuncLib::new();
    let other = FuncInfos {
        reqs: vec![],
        args: vec![known(vec![9])],
        outs: vec![],
    };
    lib.funcs.push(AnalyzedFunc::new(7, DataGraph::new(), other, None));
    lib.funcs.push(AnalyzedFunc::new(7, DataGraph::new(), grow(), Some(12)));
    lib.funcs.push(AnalyzedFunc::new(8, DataGraph::new(), grow(), None));
    let mut nvars = 0usize;
    let (i, res) = lib.find(7, &vec![known(vec![2])], &mut nvars, &same).unwrap();
    assert_eq!(i, 1);
    assert_eq!(out_len(&res.unwrap(), 0), Some(3));
    assert_eq!(lib.funcs[1].span, Some(12));
    assert!(lib.find(9, &vec![known(vec![2])], &mut nvars, &same).is_none());
    assert!(lib.find(7, &vec![known(vec![2, 2])], &mut nvars, &same).is_none());
    assert_eq!(nvars, 0);
}

#[test]
fn arg_nvars_counts_variables() {
    let mut n = 0usize;
    let x0 = Axis::newvar(&mut n);
    let x1 = Axis::newvar(&mut n);
    assert_eq!(arg_nvars(&vec![known(vec![3]), ranked(vec![x1.clone()]), ranked(vec![x0])]), 2);
    assert_eq!(arg_nvars::<i32>(&vec![]), 0);
    let un: ValInfo<i32> = ValInfo::new(0, ShapeInfo::Unranked { prefix: vec![c(2)], suffix: vec![x1] }, RangeInfo::uint(1));
    assert_eq!(arg_nvars(&vec![un]), 2);
}
