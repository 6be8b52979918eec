use ndarray_ext::array::NdArray;
use ndarray_ext::searching::reduce;
use ndarray_ext::searching::Axis;
use ndarray_ext::searching::Direction;
use ndarray_ext::searching::Searching;

#[test]
fn empty_input_yields_none_for_all_operations() {
    let flat: NdArray<i64> = NdArray::from_shape_vec(vec![0], vec![]).unwrap();
    let nested: NdArray<i64> = NdArray::from_shape_vec(vec![2, 0, 3], vec![]).unwrap();
    for arr in [&flat, &nested] {
        assert!(arr.max(None).is_none());
        assert!(arr.min(None).is_none());
        assert!(arr.argmax(None).is_none());
        assert!(arr.argmin(None).is_none());
        assert!(arr.max(Some(Axis(0))).is_none());
        assert!(arr.argmin(Some(Axis(0))).is_none());
    }
}

#[test]
fn tie_break_keeps_first_seen_globally() {
    let arr: NdArray<i64> = NdArray::from_shape_vec(vec![4], vec![3, 7, 7, 2]).unwrap();
    let am = arr.argmax(None).unwrap();
    assert_eq!(am, NdArray::from_shape_vec(vec![], vec![1]).unwrap());
    let arr2: NdArray<i64> = NdArray::from_shape_vec(vec![4], vec![5, 2, 2, 9]).unwrap();
    let am2 = arr2.argmin(None).unwrap();
    assert_eq!(am2, NdArray::from_shape_vec(vec![], vec![1]).unwrap());
}

#[test]
fn tie_break_keeps_lowest_slice_index_per_lane() {
    let arr: NdArray<i64> = NdArray::from_shape_vec(vec![2, 2], vec![5, 7, 5, 9]).unwrap();
    let am = arr.argmax(Some(Axis(0))).unwrap();
    assert_eq!(am, NdArray::from_shape_vec(vec![2], vec![0, 1]).unwrap());
}

#[test]
fn repeated_runs_are_identical() {
    let arr: NdArray<i64> =
        NdArray::from_shape_vec(vec![2, 3], vec![4, 4, 1, 9, 9, 2]).unwrap();
    assert_eq!(arr.argmax(Some(Axis(1))), arr.argmax(Some(Axis(1))));
    assert_eq!(arr.max(None), arr.max(None));
    assert_eq!(arr.min(Some(Axis(0))), arr.min(Some(Axis(0))));
}

#[test]
fn rank1_with_axis_behaves_as_global() {
    let arr: NdArray<i64> = NdArray::from_shape_vec(vec![5], vec![3, 9, 4, 9, 1]).unwrap();
    assert_eq!(arr.max(Some(Axis(0))), arr.max(None));
    assert_eq!(arr.argmax(Some(Axis(0))), arr.argmax(None));
    // A rank-1 array treats even an out-of-range axis as absent.
    assert_eq!(arr.min(Some(Axis(3))), arr.min(None));
    assert_eq!(arr.argmin(Some(Axis(3))), arr.argmin(None));
    // Global mode on rank 1: the flat offset is the position itself.
    assert_eq!(
        arr.argmax(None).unwrap(),
        NdArray::from_shape_vec(vec![], vec![1]).unwrap()
    );
}

#[test]
fn max_and_argmax_describe_the_same_element() {
    let data = vec![
        0.84603135, 0.80219274, 0.1883196, 0.65296292, 0.29057556, 0.59159524, 0.36616059,
        0.08111718, 0.79279909, 0.8183319, 0.37232594, 0.05945472, 0.02891179, 0.27566659,
        0.82562278, 0.78363779, 0.171386, 0.6430765, 0.22884153, 0.08185799, 0.04588556,
        0.38047977, 0.85814249, 0.72221901,
    ];
    let arr = NdArray::from_shape_vec(vec![2, 3, 4], data.clone()).unwrap();
    // Axis 1 of the 2x3x4 cube: output position (i, k); the winning slice
    // index j reported by argmax must point at exactly the value max found.
    let idx = arr.argmax(Some(Axis(1))).unwrap();
    let val = arr.max(Some(Axis(1))).unwrap();
    for i in 0..2usize {
        for k in 0..4usize {
            let p = i * 4 + k;
            let j = *idx.get(p) as usize;
            assert_eq!(*val.get(p), data[i * 12 + j * 4 + k]);
        }
    }
    // Global mode: the reported flat offset addresses the reported value.
    let idx = arr.argmax(None).unwrap();
    let val = arr.max(None).unwrap();
    assert_eq!(*val.get(0), data[*idx.get(0) as usize]);
}

#[test]
fn rank0_array_reduces_to_itself() {
    let arr: NdArray<i64> = NdArray::from_shape_vec(vec![], vec![42]).unwrap();
    assert_eq!(arr.max(None).unwrap(), arr);
    assert_eq!(arr.min(None).unwrap(), arr);
    assert_eq!(
        arr.argmax(None).unwrap(),
        NdArray::from_shape_vec(vec![], vec![0]).unwrap()
    );
}

#[test]
fn reduce_returns_co_shaped_pair() {
    let arr: NdArray<i64> =
        NdArray::from_shape_vec(vec![2, 3], vec![4, 8, 1, 9, 3, 2]).unwrap();
    let (idx, val) = reduce(&arr, Some(Axis(1)), Direction::PreferGreater).unwrap();
    assert_eq!(idx.shape(), val.shape());
    assert_eq!(idx, NdArray::from_shape_vec(vec![2], vec![1, 0]).unwrap());
    assert_eq!(val, NdArray::from_shape_vec(vec![2], vec![8, 9]).unwrap());
    let (idx, val) = reduce(&arr, Some(Axis(1)), Direction::PreferLesser).unwrap();
    assert_eq!(idx, NdArray::from_shape_vec(vec![2], vec![2, 2]).unwrap());
    assert_eq!(val, NdArray::from_shape_vec(vec![2], vec![1, 2]).unwrap());
}

#[test]
fn from_shape_vec_checks_the_element_count() {
    assert!(NdArray::from_shape_vec(vec![2, 3], vec![1i64]).is_none());
    assert!(NdArray::from_shape_vec(vec![2, 3], vec![0i64; 6]).is_some());
    assert!(NdArray::<i64>::from_shape_vec(vec![2, 0], vec![]).is_some());
    assert!(NdArray::from_shape_vec(vec![2, 0], vec![1i64]).is_none());
    assert!(NdArray::from_shape_vec(vec![], vec![5i64]).is_some());
    assert!(NdArray::<i64>::from_shape_vec(vec![], vec![]).is_none());
}

#[test]
fn strides_match_row_major_layout() {
    let arr: NdArray<i64> =
        NdArray::from_shape_vec(vec![2, 3, 4], (0..24).collect()).unwrap();
    assert_eq!(arr.strides(), vec![12, 4, 1]);
    let scalar: NdArray<i64> = NdArray::from_shape_vec(vec![], vec![7]).unwrap();
    assert_eq!(scalar.strides(), Vec::<isize>::new());
}

#[test]
fn global_offset_is_coordinate_dot_strides() {
    // The largest element sits at coordinate (1, 2, 3); dotted with the
    // strides that is 1*12 + 2*4 + 3*1 = 23, the offset reported globally.
    let arr: NdArray<i64> =
        NdArray::from_shape_vec(vec![2, 3, 4], (0..24).collect()).unwrap();
    let off = *arr.argmax(None).unwrap().get(0);
    assert_eq!(off, 23);
    let strides = arr.strides();
    let coord = [off / 12 % 2, off / 4 % 3, off % 4];
    let dot: isize = coord.iter().zip(strides.iter()).map(|(c, s)| c * s).sum();
    assert_eq!(dot, off);
}

#[test]
fn accessors_report_the_stored_layout() {
    let arr: NdArray<i64> =
        NdArray::from_shape_vec(vec![2, 3], vec![4, 8, 1, 9, 3, 2]).unwrap();
    assert_eq!(arr.len(), 6);
    assert_eq!(arr.ndim(), 2);
    assert_eq!(arr.shape(), &vec![2, 3]);
    assert_eq!(*arr.get(4), 3);
    let (shape, data) = arr.into_parts();
    assert_eq!(shape, vec![2, 3]);
    assert_eq!(data, vec![4, 8, 1, 9, 3, 2]);
}
