use uiua_analysis::concrete::pervade_shape;

#[test]
fn pervade_shape_values() {
    assert_eq!(pervade_shape(&[2, 3], &[2, 3]), Some(vec![2, 3]));
    assert_eq!(pervade_shape(&[1, 3], &[4, 3]), Some(vec![4, 3]));
    assert_eq!(pervade_shape(&[2], &[2, 5]), Some(vec![2, 5]));
    assert_eq!(pervade_shape(&[2, 3], &[3, 3]), None);
    assert_eq!(pervade_shape(&[4, 1], &[4, 6]), Some(vec![4, 6]));
}

#[test]
fn pervade_shape_commutes_and_scalar_is_identity() {
    let shapes: [&[usize]; 5] = [&[], &[1], &[2, 3], &[1, 3], &[2, 1, 4]];
    for a in shapes {
        for b in shapes {
            assert_eq!(pervade_shape(a, b), pervade_shape(b, a));
        }
        assert_eq!(pervade_shape(a, &[]), Some(a.to_vec()));
    }
}
