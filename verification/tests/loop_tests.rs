use uiua_analysis::array_rules::{generic_inputs, loop_body_inputs, loop_cond_check, loop_sigs_check};
use uiua_analysis::axis::Axis;
use uiua_analysis::info::{KnownValue, ShapeInfo, ValInfo};
use uiua_analysis::range::RangeInfo;
use uiua_analysis::rules::AnalyzeError;

fn info(typ: u8, shape: ShapeInfo<u8>, range: RangeInfo) -> ValInfo<u8> {
    ValInfo::new(typ, shape, range)
}

fn var_counts(v: &ValInfo<u8>) -> Vec<usize> {
    match &v.shape {
        ShapeInfo::Ranked(axes) => axes.iter().map(|a| a.to_nvars()).collect(),
        _ => panic!("expected a ranked shape"),
    }
}

#[test]
fn loop_signatures() {
    assert_eq!(loop_sigs_check(1, 2, 2, 2), Ok(()));
    assert_eq!(loop_sigs_check(0, 1, 0, 0), Ok(()));
    assert_eq!(loop_sigs_check(1, 1, 2, 2), Err(AnalyzeError::LoopSignature));
    assert_eq!(loop_sigs_check(0, 0, 1, 1), Err(AnalyzeError::LoopSignature));
    assert_eq!(loop_sigs_check(1, 2, 2, 3), Err(AnalyzeError::LoopSignature));
}

#[test]
fn loop_generic_inputs() {
    let deps = vec![
        info(0, ShapeInfo::Known(KnownValue { value: 1, shape: vec![2, 3] }), RangeInfo::uint(5)),
        info(1, ShapeInfo::Ranked(vec![Axis::from(4isize)]), RangeInfo::uint(200)),
        info(0, ShapeInfo::Ranked(vec![]), RangeInfo::bool()),
    ];
    let mut nvars = 3usize;
    let g = generic_inputs(&deps, &mut nvars).unwrap();
    assert_eq!(nvars, 6);
    assert_eq!(g.len(), 3);
    assert_eq!(var_counts(&g[0]), vec![4, 5]);
    assert_eq!(var_counts(&g[1]), vec![6]);
    assert_eq!(var_counts(&g[2]), Vec::<usize>::new());
    assert_eq!(g[1].typ, 1);
    assert_eq!(g[1].range, RangeInfo::uint(200));
    match &g[0].shape {
        ShapeInfo::Ranked(axes) => assert_eq!(axes[0].only_const(), None),
        _ => panic!("expected a ranked shape"),
    }
}

#[test]
fn loop_generic_inputs_refuse_unknown_rank() {
    let deps = vec![
        info(0, ShapeInfo::Ranked(vec![Axis::from(4isize)]), RangeInfo::uint(5)),
        info(0, ShapeInfo::Unranked { prefix: vec![], suffix: vec![] }, RangeInfo::uint(5)),
        info(0, ShapeInfo::Ranked(vec![Axis::from(1isize), Axis::from(1isize)]), RangeInfo::uint(5)),
    ];
    let mut nvars = 0usize;
    assert!(matches!(generic_inputs(&deps, &mut nvars), Err(AnalyzeError::LoopUnknownRank)));
    assert_eq!(nvars, 1);
}

#[test]
fn loop_condition_must_be_boolean_scalar() {
    let scalar = || ShapeInfo::Ranked(vec![]);
    assert_eq!(loop_cond_check(&info(0, scalar(), RangeInfo::bool())), Ok(()));
    assert_eq!(
        loop_cond_check(&info(0, ShapeInfo::Known(KnownValue { value: 0, shape: vec![] }), RangeInfo::zero())),
        Ok(())
    );
    assert_eq!(loop_cond_check(&info(0, scalar(), RangeInfo::uint(2))), Err(AnalyzeError::LoopCondition));
    assert_eq!(loop_cond_check(&info(1, scalar(), RangeInfo::bool())), Err(AnalyzeError::LoopCondition));
    assert_eq!(
        loop_cond_check(&info(0, ShapeInfo::Ranked(vec![Axis::from(1isize)]), RangeInfo::bool())),
        Err(AnalyzeError::LoopCondition)
    );
}

#[test]
fn loop_body_takes_condition_outputs_then_rest() {
    let v = |typ: u8| info(typ, ShapeInfo::Ranked(vec![]), RangeInfo::uint(1));
    let r = loop_body_inputs(vec![v(10), v(11), v(12)], vec![v(20), v(21), v(22)], 2);
    let typs: Vec<u8> = r.iter().map(|x| x.typ).collect();
    assert_eq!(typs, vec![11, 12, 22]);
    let r = loop_body_inputs(vec![], vec![v(20)], 0);
    let typs: Vec<u8> = r.iter().map(|x| x.typ).collect();
    assert_eq!(typs, vec![20]);
}
