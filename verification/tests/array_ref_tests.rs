use uiua_analysis::array_ref::{base_conv, row_breaks, ArrayRef};

#[test]
fn base_conv_digits() {
    assert_eq!(base_conv(7, &[2, 3]), vec![0, 1]);
    assert_eq!(base_conv(5, &[2, 3]), vec![1, 2]);
    assert_eq!(base_conv(0, &[4, 4, 4]), vec![0, 0, 0]);
    assert_eq!(base_conv(23, &[2, 3, 4]), vec![1, 2, 3]);
    assert_eq!(base_conv(9, &[]), Vec::<usize>::new());
}

#[test]
fn base_conv_reads_back() {
    let bases = [3usize, 4, 5];
    for index in 0..60usize {
        let d = base_conv(index, &bases);
        assert_eq!(d[0] * 20 + d[1] * 5 + d[2], index);
        for (digit, base) in d.iter().zip(bases.iter()) {
            assert!(digit < base);
        }
    }
}

#[test]
fn array_ref_indexing() {
    let shape = [2usize, 3];
    let strides = [3usize, 1];
    let data = [10, 11, 12, 13, 14, 15];
    let a = ArrayRef { rank: 2, shape: &shape, strides: &strides, data: &data };
    assert_eq!(a.elem_count(), 6);
    assert_eq!(*a.at(&[1, 2]), 15);
    assert_eq!(*a.at(&[0, 1]), 11);
    assert_eq!(*a.index(4), 14);
    let t_strides = [1usize, 2];
    let t_data = [1, 2, 3, 4, 5, 6];
    let t = ArrayRef { rank: 2, shape: &shape, strides: &t_strides, data: &t_data };
    assert_eq!(*t.index(1), 3);
    assert_eq!(*t.index(3), 2);
}

#[test]
fn row_breaks_values() {
    assert_eq!(row_breaks(&[2, 3, 4]), vec![1, 3, 6]);
    assert_eq!(row_breaks(&[5]), vec![1]);
    assert_eq!(row_breaks(&[]), vec![1]);
    assert_eq!(row_breaks(&[2, 2, 2, 7]), vec![1, 2, 4, 8]);
}

#[test]
fn array_ref_row_major_index_is_flat() {
    let shape = [2usize, 3, 4];
    let strides = [12usize, 4, 1];
    let data: Vec<usize> = (0..24).map(|i| 100 + i).collect();
    let a = ArrayRef { rank: 3, shape: &shape, strides: &strides, data: &data };
    for i in 0..24 {
        assert_eq!(*a.index(i), data[i]);
    }
}
