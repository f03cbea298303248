use forge::brain::Tensor;

#[test]
fn from_data_flattens_rows() {
    let t = Tensor::from_data(vec![vec![1.0f32, 2.0, 3.0], vec![4.0, 5.0, 6.0]]);
    assert_eq!((t.rows, t.cols), (2, 3));
    assert_eq!(t.data, vec![1.0, 2.0, 3.0, 4.0, 5.0, 6.0]);
}

#[test]
fn from_data_takes_columns_from_first_row() {
    let t = Tensor::from_data(vec![vec![1u32], vec![2, 3]]);
    assert_eq!((t.rows, t.cols), (2, 1));
    assert_eq!(t.data, vec![1, 2, 3]);
    let e: Tensor<f32> = Tensor::from_data(vec![]);
    assert_eq!((e.rows, e.cols, e.data.len()), (0, 0, 0));
}

#[test]
fn from_flat_data_keeps_shape() {
    let t = Tensor::from_flat_data(vec![1, 2, 3, 4], 2, 2);
    assert_eq!((t.rows, t.cols), (2, 2));
    assert_eq!(t.data, vec![1, 2, 3, 4]);
}

#[test]
fn transpose_swaps_rows_and_columns() {
    let t = Tensor::from_data(vec![vec![1.0f32, 2.0, 3.0], vec![4.0, 5.0, 6.0]]);
    let u = t.transpose();
    assert_eq!((u.rows, u.cols), (3, 2));
    assert_eq!(u.data, vec![1.0, 4.0, 2.0, 5.0, 3.0, 6.0]);
}

#[test]
fn transpose_twice_gives_back_the_matrix() {
    let t = Tensor::from_flat_data((0..12).collect::<Vec<u32>>(), 3, 4);
    let back = t.transpose().transpose();
    assert_eq!((back.rows, back.cols), (3, 4));
    assert_eq!(back.data, t.data);
}

#[test]
fn transpose_ignores_extra_data() {
    let t = Tensor::from_flat_data(vec![1, 2, 3, 4, 99], 2, 2);
    assert_eq!(t.transpose().data, vec![1, 3, 2, 4]);
}

#[test]
fn transpose_of_empty_shapes() {
    let t: Tensor<u8> = Tensor::from_flat_data(vec![], 0, 5);
    let u = t.transpose();
    assert_eq!((u.rows, u.cols, u.data.len()), (5, 0, 0));
}
