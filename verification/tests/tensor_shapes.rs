use gguf_infer::gguf::GgufDataType;
use gguf_infer::tensor::{
    checked_elements, compute_strides, shape_elements, validate_index, Tensor,
};

#[test]
fn elements_are_the_product_of_the_dimensions() {
    assert_eq!(shape_elements(&[2, 3, 4]), 24);
    assert_eq!(shape_elements(&[]), 1);
    assert_eq!(shape_elements(&[5, 0]), 0);
}

#[test]
fn too_many_elements_are_noticed() {
    assert_eq!(checked_elements(&[2, 3, 4]), Some(24));
    assert_eq!(checked_elements(&[usize::MAX, 2]), None);
    assert_eq!(checked_elements(&[usize::MAX, 2, 0]), None);
    assert_eq!(checked_elements(&[0, usize::MAX, usize::MAX]), Some(0));
}

#[test]
fn strides_are_row_major() {
    assert_eq!(compute_strides(&[2, 3, 4]), vec![12, 4, 1]);
    assert_eq!(compute_strides(&[7]), vec![1]);
}

#[test]
fn indices_are_held_against_the_shape() {
    assert!(validate_index(&[2, 3], &[1, 2]));
    assert!(!validate_index(&[2, 3], &[2, 0]));
    assert!(!validate_index(&[2, 3], &[1]));
    assert!(validate_index(&[], &[]));
}

#[test]
fn strides_give_the_flat_index() {
    let t = Tensor::new("t", &[2, 3, 4], (0..24).collect::<Vec<i32>>());
    let strides = compute_strides(&[2, 3, 4]);
    for i in 0..2 {
        for j in 0..3 {
            for k in 0..4 {
                let flat = i * strides[0] + j * strides[1] + k * strides[2];
                assert_eq!(t.get_indexed(&[i, j, k]), flat as i32);
                assert_eq!(t.get(flat), flat as i32);
            }
        }
    }
}

#[test]
fn what_is_set_is_read_back() {
    let mut t = Tensor::zeros("z", &[2, 2], 0.0f32);
    assert_eq!(t.n_elements(), 4);
    assert_eq!(t.ndim(), 2);
    t.set_indexed(&[1, 0], 2.5);
    t.set(3, -1.0);
    assert_eq!(t.get_indexed(&[1, 0]), 2.5);
    assert_eq!(t.as_slice(), &[0.0, 0.0, 2.5, -1.0]);
}

#[test]
fn rows_are_parts_of_the_data() {
    let mut t = Tensor::new("m", &[2, 3], vec![1, 2, 3, 4, 5, 6]);
    assert_eq!(t.row(1), &[4, 5, 6]);
    t.row_mut(0)[2] = 9;
    t.as_mut_slice()[5] = 8;
    assert_eq!(t.as_slice(), &[1, 2, 9, 4, 5, 8]);
    let (data, rows, cols) = t.as_2d();
    assert_eq!((data.len(), rows, cols), (6, 2, 3));
    assert_eq!(t.name, "m");
}

#[test]
fn element_sizes_follow_the_type() {
    assert_eq!(Tensor::<f32>::element_size_bytes(GgufDataType::F32), 4);
    assert_eq!(Tensor::<f32>::element_size_bytes(GgufDataType::F16), 2);
}
