use uiua_analysis::range::{NumSummary, RangeInfo};

#[test]
fn range_add_saturates() {
    let a = RangeInfo::new(u64::MAX - 1, false, false);
    let b = RangeInfo::new(5, true, false);
    let c = a + b;
    assert_eq!(c, RangeInfo::new(u64::MAX, true, false));
}

#[test]
fn range_constructors() {
    assert_eq!(RangeInfo::uint(7), RangeInfo::new(7, false, false));
    assert_eq!(RangeInfo::bool(), RangeInfo::new(1, false, false));
    assert_eq!(RangeInfo::index(), RangeInfo::new(usize::MAX as u64, false, false));
    assert_eq!(RangeInfo::natural(), RangeInfo::new(u64::MAX, false, false));
    assert_eq!(RangeInfo::zero(), RangeInfo::new(0, false, false));
}

#[test]
fn range_try_index() {
    assert_eq!(RangeInfo::try_index(Some(10)), RangeInfo::uint(9));
    assert_eq!(RangeInfo::try_index(Some(1)), RangeInfo::uint(0));
    assert_eq!(RangeInfo::try_index(None), RangeInfo::index());
    assert_eq!(RangeInfo::try_index(Some(-3)), RangeInfo::index());
    assert_eq!(RangeInfo::try_index(Some(u64::MAX as i128 + 1)), RangeInfo::index());
}

#[test]
fn range_expand_and_setters() {
    let mut r = RangeInfo::uint(4);
    r.expand(2);
    assert_eq!(r, RangeInfo::uint(4));
    r.expand(9);
    assert_eq!(r, RangeInfo::uint(9));
    assert_eq!(r.signed(true), RangeInfo::new(9, true, false));
    assert_eq!(r.float(true), RangeInfo::new(9, false, true));
}

#[test]
fn range_max_covers_both() {
    let a = RangeInfo::new(3, true, false);
    let b = RangeInfo::new(10, false, true);
    assert_eq!(a.max(b), RangeInfo::new(10, true, true));
    assert_eq!(a.max(b), b.max(a));
    assert_eq!(a.max(a), a);
}

#[test]
fn range_arith_exact() {
    let a = RangeInfo::new(3, false, false);
    let b = RangeInfo::new(4, false, false);
    assert_eq!(a + b, RangeInfo::new(7, false, false));
    assert_eq!(a - b, RangeInfo::new(7, true, false));
    assert_eq!(a * b, RangeInfo::new(12, false, false));
    assert_eq!(a / b, RangeInfo::new(1u64 << 53, false, true));
    let s = RangeInfo::new(2, true, false);
    assert_eq!(s / a, RangeInfo::new(1u64 << 53, true, true));
    let big = RangeInfo::new(u64::MAX / 2 + 1, false, false);
    assert_eq!(big * b, RangeInfo::new(u64::MAX, false, false));
}

#[test]
fn range_arith_covers_operands() {
    let a = RangeInfo::new(0, false, false);
    let b = RangeInfo::new(5, true, true);
    for r in [a + b, a - b, a * b] {
        assert!(r.extent >= a.extent && r.extent >= b.extent);
        assert!(r.signed && r.float);
    }
    assert!((a / b).float);
}

#[test]
fn range_from_elements() {
    assert_eq!(RangeInfo::from_bytes(&[3, 200, 7]), RangeInfo::uint(200));
    assert_eq!(RangeInfo::from_bytes(&[]), RangeInfo::zero());
    assert_eq!(RangeInfo::from_chars(&['a', 'Z']), RangeInfo::uint('a' as u64));
    let nums = [
        NumSummary { is_int: true, negative: false, magnitude: 4 },
        NumSummary { is_int: false, negative: true, magnitude: 2 },
    ];
    assert_eq!(RangeInfo::from_nums(&nums), RangeInfo::new(4, true, true));
    let ints = [NumSummary { is_int: true, negative: false, magnitude: 11 }];
    assert_eq!(RangeInfo::from_nums(&ints), RangeInfo::uint(11));
}
