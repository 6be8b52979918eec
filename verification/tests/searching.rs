use ndarray_ext::array::NdArray;
use ndarray_ext::searching::Axis;
use ndarray_ext::searching::Searching;

fn cube() -> NdArray<f64> {
    NdArray::from_shape_vec(
        vec![2, 3, 4],
        vec![
            0.84603135, 0.80219274, 0.1883196, 0.65296292, 0.29057556, 0.59159524, 0.36616059,
            0.08111718, 0.79279909, 0.8183319, 0.37232594, 0.05945472, 0.02891179, 0.27566659,
            0.82562278, 0.78363779, 0.171386, 0.6430765, 0.22884153, 0.08185799, 0.04588556,
            0.38047977, 0.85814249, 0.72221901,
        ],
    )
    .unwrap()
}

fn scalar_f64(x: f64) -> NdArray<f64> {
    NdArray::from_shape_vec(vec![], vec![x]).unwrap()
}

fn scalar_idx(x: isize) -> NdArray<isize> {
    NdArray::from_shape_vec(vec![], vec![x]).unwrap()
}

#[test]
fn test_max() {
    let arr = cube();
    let max = arr.max(None).unwrap();
    assert_eq!(max, scalar_f64(0.85814249));
    let max = arr.max(Some(Axis(0))).unwrap();
    assert_eq!(
        max,
        NdArray::from_shape_vec(
            vec![3, 4],
            vec![
                0.84603135, 0.80219274, 0.82562278, 0.78363779, 0.29057556, 0.6430765, 0.36616059,
                0.08185799, 0.79279909, 0.8183319, 0.85814249, 0.72221901,
            ],
        )
        .unwrap()
    );
    let max = arr.max(Some(Axis(1))).unwrap();
    assert_eq!(
        max,
        NdArray::from_shape_vec(
            vec![2, 4],
            vec![
                0.84603135, 0.8183319, 0.37232594, 0.65296292, 0.171386, 0.6430765, 0.85814249,
                0.78363779,
            ],
        )
        .unwrap()
    );
    let max = arr.max(Some(Axis(2))).unwrap();
    assert_eq!(
        max,
        NdArray::from_shape_vec(
            vec![2, 3],
            vec![0.84603135, 0.59159524, 0.8183319, 0.82562278, 0.6430765, 0.85814249],
        )
        .unwrap()
    )
}

#[test]
fn test_argmax() {
    let arr = cube();
    let max = arr.argmax(None).unwrap();
    assert_eq!(max, scalar_idx(22));
    let max = arr.argmax(Some(Axis(0))).unwrap();
    assert_eq!(
        max,
        NdArray::from_shape_vec(vec![3, 4], vec![0, 0, 1, 1, 0, 1, 0, 1, 0, 0, 1, 1]).unwrap()
    );
    let max = arr.argmax(Some(Axis(1))).unwrap();
    assert_eq!(
        max,
        NdArray::from_shape_vec(vec![2, 4], vec![0, 2, 2, 0, 1, 1, 2, 0]).unwrap()
    );
    let max = arr.argmax(Some(Axis(2))).unwrap();
    assert_eq!(
        max,
        NdArray::from_shape_vec(vec![2, 3], vec![0, 1, 1, 2, 1, 2]).unwrap()
    )
}

#[test]
fn test_min() {
    let arr = cube();
    let max = arr.min(None).unwrap();
    assert_eq!(max, scalar_f64(0.02891179));
    let max = arr.min(Some(Axis(0))).unwrap();
    assert_eq!(
        max,
        NdArray::from_shape_vec(
            vec![3, 4],
            vec![
                0.02891179, 0.27566659, 0.1883196, 0.65296292, 0.171386, 0.59159524, 0.22884153,
                0.08111718, 0.04588556, 0.38047977, 0.37232594, 0.05945472,
            ],
        )
        .unwrap()
    );
    let max = arr.min(Some(Axis(1))).unwrap();
    assert_eq!(
        max,
        NdArray::from_shape_vec(
            vec![2, 4],
            vec![
                0.29057556, 0.59159524, 0.1883196, 0.05945472, 0.02891179, 0.27566659, 0.22884153,
                0.08185799,
            ],
        )
        .unwrap()
    );
    let max = arr.min(Some(Axis(2))).unwrap();
    assert_eq!(
        max,
        NdArray::from_shape_vec(
            vec![2, 3],
            vec![0.1883196, 0.08111718, 0.05945472, 0.02891179, 0.08185799, 0.04588556],
        )
        .unwrap()
    )
}

#[test]
fn test_argmin() {
    let arr = cube();
    let max = arr.argmin(None).unwrap();
    assert_eq!(max, scalar_idx(12));
    let max = arr.argmin(Some(Axis(0))).unwrap();
    assert_eq!(
        max,
        NdArray::from_shape_vec(vec![3, 4], vec![1, 1, 0, 0, 1, 0, 1, 0, 1, 1, 0, 0]).unwrap()
    );
    let max = arr.argmin(Some(Axis(1))).unwrap();
    assert_eq!(
        max,
        NdArray::from_shape_vec(vec![2, 4], vec![1, 1, 0, 2, 0, 0, 1, 1]).unwrap()
    );
    let max = arr.argmin(Some(Axis(2))).unwrap();
    assert_eq!(
        max,
        NdArray::from_shape_vec(vec![2, 3], vec![2, 3, 3, 0, 3, 0]).unwrap()
    )
}
