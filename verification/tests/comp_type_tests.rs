use uiua_analysis::comp_type::{int_type_idx, typ, typ_name, Cast, CompType, ValueKind};
use uiua_analysis::info::{ShapeInfo, ValInfo};
use uiua_analysis::range::RangeInfo;

fn info(typ: u8, range: RangeInfo) -> ValInfo<u8> {
    ValInfo::new(typ, ShapeInfo::scalar(), range)
}

#[test]
fn int_type_idx_values() {
    assert_eq!(int_type_idx(0, false), 0);
    assert_eq!(int_type_idx(255, false), 0);
    assert_eq!(int_type_idx(256, false), 1);
    assert_eq!(int_type_idx(127, true), 0);
    assert_eq!(int_type_idx(128, true), 1);
    assert_eq!(int_type_idx(65535, false), 1);
    assert_eq!(int_type_idx(65536, false), 2);
    assert_eq!(int_type_idx(u32::MAX as u64, false), 2);
    assert_eq!(int_type_idx(u32::MAX as u64 + 1, false), 3);
    assert_eq!(int_type_idx(u64::MAX, false), 3);
    assert_eq!(int_type_idx(u64::MAX, true), 3);
}

#[test]
fn comp_type_from_info() {
    assert_eq!(CompType::from_info(&info(1, RangeInfo::uint(65))), CompType::Char);
    assert_eq!(CompType::from_info(&info(0, RangeInfo::new(3, false, true))), CompType::Float(true));
    assert_eq!(CompType::from_info(&info(0, RangeInfo::bool())), CompType::Bool);
    assert_eq!(CompType::from_info(&info(0, RangeInfo::zero())), CompType::Bool);
    assert_eq!(CompType::from_info(&info(0, RangeInfo::new(0, true, false))), CompType::Bool);
    assert_eq!(CompType::from_info(&info(0, RangeInfo::uint(300))), CompType::Int(false, 1));
    assert_eq!(CompType::from_info(&info(0, RangeInfo::new(100, true, false))), CompType::Int(true, 0));
}

#[test]
fn comp_type_scalar_info_holds_extent() {
    let cases = [
        (CompType::Int(false, 0), 0u8, RangeInfo::uint(255)),
        (CompType::Int(true, 0), 0, RangeInfo::new(127, true, false)),
        (CompType::Int(false, 1), 0, RangeInfo::uint(65535)),
        (CompType::Int(true, 2), 0, RangeInfo::new(i32::MAX as u64, true, false)),
        (CompType::Int(false, 3), 0, RangeInfo::uint(u64::MAX)),
        (CompType::Int(true, 3), 0, RangeInfo::new(i64::MAX as u64, true, false)),
        (CompType::Float(false), 0, RangeInfo::new(u64::MAX, true, true)),
        (CompType::Bool, 0, RangeInfo::bool()),
        (CompType::Char, 1, RangeInfo::uint(u32::MAX as u64)),
    ];
    for (t, ty, range) in cases {
        let s: ValInfo<u8> = t.to_scalar_info();
        assert_eq!(s.typ, ty);
        assert_eq!(s.range, range);
        assert_eq!(s.shape.rank(), Some(0));
    }
    for extent in [1u64, 2, 200, 256, 70000, u32::MAX as u64 + 7] {
        let t = CompType::from_info(&info(0, RangeInfo::uint(extent)));
        let s: ValInfo<u8> = t.to_scalar_info();
        assert!(extent <= s.range.extent);
    }
}

#[test]
fn comp_type_bit_width_and_name() {
    assert_eq!(CompType::Int(false, 0).bit_width(), 8);
    assert_eq!(CompType::Int(true, 3).bit_width(), 64);
    assert_eq!(CompType::Float(false).bit_width(), 32);
    assert_eq!(CompType::Float(true).bit_width(), 64);
    assert_eq!(CompType::Bool.bit_width(), 1);
    assert_eq!(CompType::Char.bit_width(), 32);
    assert_eq!(CompType::Int(false, 2).name(), "u32");
    assert_eq!(CompType::Int(true, 1).name(), "i16");
    assert_eq!(CompType::Float(true).name(), "f64");
    assert_eq!(CompType::Bool.name(), "bool");
    assert_eq!(CompType::Char.name(), "char");
}

#[test]
fn comp_type_supertype() {
    let a = CompType::Int(false, 1);
    let b = CompType::Int(true, 0);
    assert_eq!(a.supertype(&b), Some(CompType::Int(true, 1)));
    assert_eq!(a.supertype(&b), b.supertype(&a));
    assert_eq!(a.supertype(&a), Some(a));
    assert_eq!(a.supertype(&CompType::Float(false)), Some(CompType::Float(false)));
    assert_eq!(CompType::Bool.supertype(&a), Some(a));
    assert_eq!(CompType::Float(false).supertype(&CompType::Float(true)), Some(CompType::Float(true)));
    assert_eq!(CompType::Char.supertype(&a), None);
    assert_eq!(CompType::Char.supertype(&CompType::Char), Some(CompType::Char));
}

#[test]
fn cast_from_types() {
    let u8t = CompType::Int(false, 0);
    let u32t = CompType::Int(false, 2);
    let i8t = CompType::Int(true, 0);
    let i64t = CompType::Int(true, 3);
    assert_eq!(Cast::from_types(&u8t, &u32t), Some(Cast::UUp));
    assert_eq!(Cast::from_types(&u32t, &u8t), Some(Cast::UDown));
    assert_eq!(Cast::from_types(&i8t, &i64t), Some(Cast::SUp));
    assert_eq!(Cast::from_types(&i64t, &i8t), Some(Cast::SDown));
    assert_eq!(Cast::from_types(&u32t, &u32t), None);
    assert_eq!(Cast::from_types(&CompType::Bool, &u32t), Some(Cast::UUp));
    assert_eq!(Cast::from_types(&u32t, &CompType::Bool), Some(Cast::UDown));
    assert_eq!(Cast::from_types(&u8t, &CompType::Float(true)), Some(Cast::UtoF));
    assert_eq!(Cast::from_types(&i8t, &CompType::Float(true)), Some(Cast::StoF));
    assert_eq!(Cast::from_types(&CompType::Char, &i64t), Some(Cast::UUp));
    assert_eq!(Cast::from_types(&CompType::Char, &u8t), Some(Cast::UDown));
    assert_eq!(Cast::from_types(&CompType::Char, &u32t), None);
    assert_eq!(Cast::from_types(&u8t, &CompType::Char), Some(Cast::UUp));
    assert_eq!(Cast::from_types(&i64t, &CompType::Char), Some(Cast::UDown));
    assert_eq!(Cast::from_types(&CompType::Float(true), &CompType::Float(true)), None);
}

#[test]
fn cast_op_names() {
    let names: Vec<&'static str> = [Cast::UUp, Cast::SUp, Cast::UDown, Cast::SDown, Cast::UtoF, Cast::StoF]
        .into_iter()
        .map(<&'static str>::from)
        .collect();
    assert_eq!(names, vec!["arith.extui", "arith.extsi", "arith.trunci", "arith.trunci", "arith.uitofp", "arith.sitofp"]);
}

#[test]
fn type_ids_and_names() {
    assert_eq!(typ(ValueKind::Byte), 0);
    assert_eq!(typ(ValueKind::Num), 0);
    assert_eq!(typ(ValueKind::Char), 1);
    assert_eq!(typ(ValueKind::Box), 2);
    assert_eq!(typ(ValueKind::Complex), 3);
    assert_eq!(typ_name(0), "number");
    assert_eq!(typ_name(1), "character");
    assert_eq!(typ_name(2), "box");
    assert_eq!(typ_name(3), "complex");
}


#[test]
fn comp_type_scalar_info_round_trip() {
    let types = [
        CompType::Int(false, 0), CompType::Int(true, 0), CompType::Int(false, 1), CompType::Int(true, 1),
        CompType::Int(false, 2), CompType::Int(true, 2), CompType::Int(false, 3), CompType::Int(true, 3),
        CompType::Float(true), CompType::Bool, CompType::Char,
    ];
    for t in types {
        let s: ValInfo<u8> = t.to_scalar_info();
        assert_eq!(CompType::from_info(&s), t);
    }
    let f: ValInfo<u8> = CompType::Float(false).to_scalar_info();
    assert_eq!(CompType::from_info(&f), CompType::Float(true));
}
