use uiua_analysis::array_rules::{range, range_of_elements};
use uiua_analysis::axis::Axis;
use uiua_analysis::info::{KnownValue, ShapeInfo, ValInfo};
use uiua_analysis::range::RangeInfo;
use uiua_analysis::relation::Condition;
use uiua_analysis::rules::AnalyzeError;

type Known = Result<(ShapeInfo<u8>, RangeInfo), AnalyzeError>;

fn no_known(_: KnownValue<u8>) -> Known {
    Err(AnalyzeError::Evaluation)
}

#[test]
fn range_of_known_length_list() {
    let dep = ValInfo::new(0, ShapeInfo::Ranked(vec![Axis::from(2isize)]), RangeInfo::uint(3));
    let mut nvars = 0usize;
    let mut reqs: Vec<Condition> = Vec::new();
    let r = range(vec![dep], no_known, &mut nvars, &mut reqs).unwrap();
    assert_eq!(nvars, 2);
    assert!(reqs.is_empty());
    assert_eq!(r.vals.len(), 1);
    assert_eq!(r.vals[0].typ, 0);
    assert_eq!(r.vals[0].range, RangeInfo::natural());
    match &r.vals[0].shape {
        ShapeInfo::Ranked(axes) => {
            assert_eq!(axes.len(), 3);
            assert_eq!(axes[0].to_nvars(), 1);
            assert_eq!(axes[1].to_nvars(), 2);
            assert_eq!(axes[2].only_const(), Some(2));
        },
        _ => panic!("expected a ranked shape"),
    }
}

#[test]
fn range_of_scalar_and_errors() {
    let mut nvars = 4usize;
    let mut reqs: Vec<Condition> = Vec::new();
    let scalar = ValInfo::new(0, ShapeInfo::Ranked(vec![]), RangeInfo::uint(3));
    range(vec![scalar], no_known, &mut nvars, &mut reqs).unwrap();
    assert_eq!(nvars, 5);
    let high = ValInfo::new(0, ShapeInfo::Ranked(vec![Axis::from(2isize), Axis::from(2isize)]), RangeInfo::uint(3));
    assert_eq!(range(vec![high], no_known, &mut nvars, &mut reqs).err(), Some(AnalyzeError::RangeArgument(Some(2))));
    assert_eq!(nvars, 5);
    assert!(reqs.is_empty());
}

#[test]
fn range_of_unknown_rank_records_requirement() {
    let mut nvars = 0usize;
    let x = Axis::newvar(&mut nvars);
    let y = Axis::newvar(&mut nvars);
    let dep = ValInfo::new(0, ShapeInfo::Unranked { prefix: vec![x.clone()], suffix: vec![y] }, RangeInfo::uint(3));
    let mut reqs: Vec<Condition> = Vec::new();
    range(vec![dep], no_known, &mut nvars, &mut reqs).unwrap();
    assert_eq!(nvars, 2);
    assert_eq!(reqs.len(), 1);
    assert_eq!(reqs[0].trivial(), None);
    // The same length at both ends needs no requirement.
    let same = ValInfo::new(0, ShapeInfo::Unranked { prefix: vec![x.clone()], suffix: vec![x.clone()] }, RangeInfo::uint(3));
    range(vec![same], no_known, &mut nvars, &mut reqs).unwrap();
    assert_eq!(reqs.len(), 1);
    // Lengths that differ by a constant are refused.
    let off = ValInfo::new(0, ShapeInfo::Unranked { prefix: vec![x.clone()], suffix: vec![x + Axis::from(1isize)] }, RangeInfo::uint(3));
    assert_eq!(range(vec![off], no_known, &mut nvars, &mut reqs).err(), Some(AnalyzeError::RangeArgument(None)));
    assert_eq!(reqs.len(), 1);
}

#[test]
fn range_of_large_known_array() {
    let (shape, r): (ShapeInfo<u8>, RangeInfo) = range_of_elements(&vec![100, 200], 1);
    match shape {
        ShapeInfo::Ranked(axes) => {
            let lens: Vec<Option<isize>> = axes.iter().map(|a| a.only_const()).collect();
            assert_eq!(lens, vec![Some(100), Some(200), Some(2)]);
        },
        _ => panic!("expected a ranked shape"),
    }
    assert_eq!(r, RangeInfo::try_index(Some(200)));
    assert_eq!(r.extent, 199);
    let (scalar, r): (ShapeInfo<u8>, RangeInfo) = range_of_elements(&vec![50000], 0);
    match scalar {
        ShapeInfo::Ranked(axes) => assert_eq!(axes.len(), 1),
        _ => panic!("expected a ranked shape"),
    }
    assert_eq!(r.extent, 49999);
}
