use uiua_analysis::axis::Axis;
use uiua_analysis::codegen::{dims_from_shape_info, name_mangle, MangleError, DYN_AX};
use uiua_analysis::info::{KnownValue, ShapeInfo, ValInfo};
use uiua_analysis::range::RangeInfo;

fn text(s: &str) -> Vec<char> {
    s.chars().collect()
}

fn args() -> Vec<ValInfo<u8>> {
    let mut nvars = 0usize;
    vec![
        ValInfo::new(0, ShapeInfo::Known(KnownValue { value: 0, shape: vec![2, 13] }), RangeInfo::uint(200)),
        ValInfo::new(
            0,
            ShapeInfo::Ranked(vec![Axis::from(4usize), Axis::newvar(&mut nvars), Axis::from(-3isize)]),
            RangeInfo::new(1000, true, false),
        ),
        ValInfo::new(0, ShapeInfo::Unranked { prefix: vec![], suffix: vec![] }, RangeInfo::bool()),
        ValInfo::new(1, ShapeInfo::scalar(), RangeInfo::uint(65)),
        ValInfo::new(0, ShapeInfo::scalar(), RangeInfo::new(3, false, true)),
    ]
}

#[test]
fn named_functions_get_their_arguments_in_the_name() {
    let name = name_mangle(&Some(text("foo")), &args()).unwrap();
    assert_eq!(name, text("_foo__2x13tu8_4xXx-3ti16_Utbool_tchar_tf64"));
}

#[test]
fn a_function_without_arguments() {
    let name = name_mangle::<u8>(&Some(text("go")), &vec![]).unwrap();
    assert_eq!(name, text("_go__"));
}

#[test]
fn main_keeps_its_name() {
    assert_eq!(name_mangle(&Some(text("main")), &args()).unwrap(), text("main"));
    assert_eq!(name_mangle::<u8>(&Some(text("mains")), &vec![]).unwrap(), text("_mains__"));
}

#[test]
fn unnamed_functions_get_no_name() {
    assert_eq!(name_mangle(&None, &args()), Err(MangleError::Unnamed));
}

#[test]
fn tensor_dimensions() {
    let a = args();
    assert_eq!(dims_from_shape_info(&a[0].shape), vec![2, 13]);
    assert_eq!(dims_from_shape_info(&a[1].shape), vec![4, DYN_AX, (-3i64) as u64]);
    assert_eq!(dims_from_shape_info(&a[3].shape), Vec::<u64>::new());
    assert_eq!(DYN_AX, i64::MAX as u64 + 1);
}
