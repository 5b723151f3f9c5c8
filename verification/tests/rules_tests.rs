use uiua_analysis::array_rules::{first, len, reduce_check, rows_len, rows_output, table_axes, table_output, transpose_n};
use uiua_analysis::axis::Axis;
use uiua_analysis::info::{KnownValue, NodeInfo, ShapeInfo, ValInfo};
use uiua_analysis::range::RangeInfo;
use uiua_analysis::relation::Condition;
use uiua_analysis::rules::{add, eq, match_axes, not, pervade_shapes, sub, AnalyzeError, DyadicOp, MonadicOp};

fn axes(lens: &[isize]) -> Vec<Axis> {
    lens.iter().map(|&n| Axis::from(n)).collect()
}

fn ranked(typ: u8, lens: &[isize], range: RangeInfo) -> ValInfo<u8> {
    ValInfo::new(typ, ShapeInfo::Ranked(axes(lens)), range)
}

fn consts(s: &ShapeInfo<u8>) -> Vec<Option<isize>> {
    match s {
        ShapeInfo::Ranked(a) => a.iter().map(|x| x.only_const()).collect(),
        _ => panic!("expected a ranked shape"),
    }
}

fn no_eval1(_k: KnownValue<u8>) -> Result<KnownValue<u8>, AnalyzeError> {
    Err(AnalyzeError::Evaluation)
}

fn no_eval2(_a: KnownValue<u8>, _b: KnownValue<u8>) -> Result<KnownValue<u8>, AnalyzeError> {
    Err(AnalyzeError::Evaluation)
}

fn single(r: Result<NodeInfo<u8>, AnalyzeError>) -> ValInfo<u8> {
    let mut n = r.unwrap();
    assert_eq!(n.vals.len(), 1);
    n.vals.pop().unwrap()
}

#[test]
fn match_axes_picks_and_records() {
    let mut reqs: Vec<Condition> = Vec::new();
    let r = match_axes(Axis::from(1i32), Axis::from(5i32), &mut reqs).unwrap();
    assert_eq!(r.only_const(), Some(5));
    let r = match_axes(Axis::from(5i32), Axis::from(5i32), &mut reqs).unwrap();
    assert_eq!(r.only_const(), Some(5));
    assert_eq!(reqs.len(), 0);
    assert!(matches!(match_axes(Axis::from(3i32), Axis::from(4i32), &mut reqs), Err(AnalyzeError::AxisMismatch)));
    let mut n = 0usize;
    let x = Axis::newvar(&mut n);
    let r = match_axes(x.clone(), Axis::from(5i32), &mut reqs).unwrap();
    assert_eq!(r.only_const(), Some(5));
    assert_eq!(reqs.len(), 1);
    let same = match_axes(x.clone(), x.clone(), &mut reqs).unwrap();
    assert_eq!(same.single_var(), Some(0));
    assert_eq!(reqs.len(), 1);
    let plus = x.clone() + Axis::from(1i32);
    assert!(matches!(match_axes(x, plus, &mut reqs), Err(AnalyzeError::AxisMismatch)));
}

#[test]
fn pervade_shapes_leading_axes() {
    let mut reqs: Vec<Condition> = Vec::new();
    let s = pervade_shapes(vec![axes(&[2, 3]), axes(&[2])], &mut reqs).unwrap();
    assert_eq!(s.iter().map(|a| a.only_const()).collect::<Vec<_>>(), vec![Some(2), Some(3)]);
    let s = pervade_shapes(vec![axes(&[1, 3]), axes(&[4, 3]), axes(&[])], &mut reqs).unwrap();
    assert_eq!(s.iter().map(|a| a.only_const()).collect::<Vec<_>>(), vec![Some(4), Some(3)]);
    assert!(matches!(pervade_shapes(vec![axes(&[2, 3]), axes(&[3])], &mut reqs), Err(AnalyzeError::AxisMismatch)));
    assert!(matches!(pervade_shapes(vec![], &mut reqs), Err(AnalyzeError::NoShapes)));
}

#[test]
fn dyadic_arith_types_ranges_shapes() {
    let mut reqs: Vec<Condition> = Vec::new();
    let a = ranked(0, &[2, 3], RangeInfo::uint(3));
    let b = ranked(0, &[2], RangeInfo::uint(4));
    let out = single(add(vec![a, b], no_eval2, &mut reqs));
    assert_eq!(out.typ, 0);
    assert_eq!(out.range, RangeInfo::uint(7));
    assert_eq!(consts(&out.shape), vec![Some(2), Some(3)]);
    let c = ranked(1, &[], RangeInfo::uint(97));
    let d = ranked(1, &[], RangeInfo::uint(98));
    assert!(matches!(add(vec![c, d], no_eval2, &mut reqs), Err(AnalyzeError::CannotCombine(DyadicOp::Add, 1, 1))));
    let e = ranked(0, &[], RangeInfo::uint(1));
    let f = ranked(1, &[], RangeInfo::uint(97));
    let out = single(sub(vec![e, f], no_eval2, &mut reqs));
    assert_eq!(out.typ, 1);
    assert_eq!(out.range, RangeInfo::new(98, true, false));
    assert!(matches!(add(vec![ranked(0, &[], RangeInfo::zero())], no_eval2, &mut reqs), Err(AnalyzeError::IncorrectArgCount)));
}

#[test]
fn comparison_of_mismatched_shapes_fails() {
    let mut reqs: Vec<Condition> = Vec::new();
    let a = ranked(0, &[2], RangeInfo::uint(3));
    let b = ranked(0, &[3], RangeInfo::uint(3));
    assert!(matches!(eq(vec![a, b], no_eval2, &mut reqs), Err(AnalyzeError::AxisMismatch)));
    let a = ranked(0, &[2], RangeInfo::uint(3));
    let b = ranked(0, &[], RangeInfo::uint(3));
    let out = single(eq(vec![a, b], no_eval2, &mut reqs));
    assert_eq!(out.range, RangeInfo::bool());
    assert_eq!(consts(&out.shape), vec![Some(2)]);
}

#[test]
fn not_evaluates_known_values() {
    let known = ValInfo::new(0, ShapeInfo::Known(KnownValue { value: 1u8, shape: vec![] }), RangeInfo::bool());
    let flip = |k: KnownValue<u8>| Ok(KnownValue { value: 1 - k.value, shape: k.shape });
    let out = single(not(vec![known], flip));
    match out.shape {
        ShapeInfo::Known(k) => assert_eq!(k.value, 0),
        _ => panic!("expected a known value"),
    }
    let chars = ranked(1, &[3], RangeInfo::uint(100));
    assert!(matches!(not(vec![chars], no_eval1), Err(AnalyzeError::CannotApply(MonadicOp::Not, 1))));
    let wide = ranked(0, &[3], RangeInfo::uint(5));
    let out = single(not(vec![wide], no_eval1));
    assert_eq!(out.range, RangeInfo::new(5, true, false));
}

#[test]
fn len_of_known_and_negative_lengths() {
    let make = |shape: Vec<usize>, _scalar: bool| KnownValue { value: 7u8, shape };
    let out = single(len(vec![ranked(0, &[4, 2], RangeInfo::uint(1))], make));
    assert_eq!(out.range, RangeInfo::uint(4));
    assert!(matches!(out.shape, ShapeInfo::Known(_)));
    let make = |shape: Vec<usize>, _scalar: bool| KnownValue { value: 7u8, shape };
    assert!(matches!(len(vec![ranked(0, &[-2], RangeInfo::uint(1))], make), Err(AnalyzeError::NegativeLength(-2))));
    let make = |shape: Vec<usize>, _scalar: bool| KnownValue { value: 7u8, shape };
    assert!(matches!(len(vec![], make), Err(AnalyzeError::IncorrectArgCount)));
}

#[test]
fn transpose_n_rotates_axes() {
    let out = single(transpose_n(1, vec![ranked(0, &[2, 3, 4], RangeInfo::uint(9))]));
    assert_eq!(consts(&out.shape), vec![Some(3), Some(4), Some(2)]);
    let out = single(transpose_n(-1, vec![ranked(0, &[2, 3, 4], RangeInfo::uint(9))]));
    assert_eq!(consts(&out.shape), vec![Some(4), Some(2), Some(3)]);
    assert_eq!(out.range, RangeInfo::uint(9));
}

#[test]
fn first_of_empty_fails() {
    let mut reqs: Vec<Condition> = Vec::new();
    assert!(matches!(first(vec![ranked(0, &[0, 3], RangeInfo::uint(1))], no_eval1, &mut reqs), Err(AnalyzeError::EmptyArray)));
    let out = single(first(vec![ranked(0, &[5, 3], RangeInfo::uint(1))], no_eval1, &mut reqs));
    assert_eq!(consts(&out.shape), vec![Some(3)]);
    assert_eq!(reqs.len(), 0);
    let mut n = 0usize;
    let x = Axis::newvar(&mut n);
    let v = ValInfo::new(0, ShapeInfo::Ranked(vec![x, Axis::from(2i32)]), RangeInfo::uint(1));
    let out = single(first(vec![v], no_eval1, &mut reqs));
    assert_eq!(consts(&out.shape), vec![Some(2)]);
    assert_eq!(reqs.len(), 1);
}

#[test]
fn rows_length_and_output() {
    let mut reqs: Vec<Condition> = Vec::new();
    let mut nvars = 0usize;
    let l = rows_len(vec![Some(Axis::from(3i32)), Some(Axis::from(1i32))], &mut nvars, &mut reqs).unwrap();
    assert_eq!(l.only_const(), Some(3));
    assert_eq!(nvars, 0);
    assert!(matches!(rows_len(vec![Some(Axis::from(3i32)), Some(Axis::from(2i32))], &mut nvars, &mut reqs), Err(AnalyzeError::AxisMismatch)));
    let fresh = rows_len(vec![Some(Axis::from(3i32)), None], &mut nvars, &mut reqs).unwrap();
    assert_eq!(fresh.single_var(), Some(0));
    assert_eq!(nvars, 1);
    let out = rows_output(ranked(0, &[4], RangeInfo::uint(2)), &Axis::from(3i32));
    assert_eq!(consts(&out.shape), vec![Some(3), Some(4)]);
}

#[test]
fn table_axes_and_output() {
    let (lead, incomplete) = table_axes(vec![Some(Axis::from(2i32)), Some(Axis::from(3i32))]);
    assert_eq!(lead.iter().map(|a| a.only_const()).collect::<Vec<_>>(), vec![Some(2), Some(3)]);
    assert!(!incomplete);
    let (lead2, incomplete2) = table_axes(vec![Some(Axis::from(2i32)), None, Some(Axis::from(5i32))]);
    assert_eq!(lead2.len(), 1);
    assert!(incomplete2);
    let out = table_output(ranked(0, &[7], RangeInfo::uint(2)), &lead, false);
    assert_eq!(consts(&out.shape), vec![Some(2), Some(3), Some(7)]);
    let out = table_output(ranked(0, &[7], RangeInfo::uint(2)), &lead2, true);
    assert!(matches!(out.shape, ShapeInfo::Unranked { .. }));
}

#[test]
fn reduce_check_errors() {
    let row = ranked(0, &[3], RangeInfo::uint(2));
    assert!(reduce_check(&row, 1, &ranked(0, &[3], RangeInfo::uint(4)), true).is_ok());
    assert!(matches!(reduce_check(&row, 2, &ranked(0, &[3], RangeInfo::uint(4)), true), Err(AnalyzeError::ReduceOutputs(2))));
    assert!(matches!(reduce_check(&row, 1, &ranked(1, &[3], RangeInfo::uint(4)), true), Err(AnalyzeError::ReduceTypes(0, 1))));
    assert!(matches!(reduce_check(&row, 1, &ranked(0, &[], RangeInfo::uint(4)), true), Err(AnalyzeError::ReduceRanks(1, 0))));
    assert!(matches!(reduce_check(&row, 1, &ranked(0, &[3], RangeInfo::uint(4)), false), Err(AnalyzeError::ReduceNotPervasive)));
    let unranked = ValInfo::new(0, ShapeInfo::Unranked { prefix: vec![], suffix: vec![] }, RangeInfo::uint(4));
    assert!(matches!(reduce_check(&row, 1, &unranked, true), Err(AnalyzeError::ReduceUnknownRank)));
}
