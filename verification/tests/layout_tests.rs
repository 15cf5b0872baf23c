use noir_r1cs::layout::Layout;
use noir_r1cs::tensor::TensorMut;

#[test]
fn test_layout() {
    let layout = Layout::<3>::from_size(12);
    assert_eq!(layout.rank(), 1);
    assert_eq!(layout.size(), 12);
    assert_eq!(layout.shape(0), 12);
    assert_eq!(layout.offset(&[0]), 0);
    assert_eq!(layout.offset(&[11]), 11);
}

#[test]
fn layout_test_unflatten() {
    for d0 in 1usize..=3 {
        for d1 in 1usize..=3 {
            for d2 in 1usize..=3 {
                for d3 in 1usize..=3 {
                    let layout = Layout::<4>::from_size(d0 * d1 * d2 * d3);
                    let unflattened = layout.unflatten(0, &[d0, d1, d2, d3]);
                    assert_eq!(unflattened.size(), layout.size());
                    assert_eq!(unflattened.rank(), 4);
                    assert_eq!(unflattened.shape(0), d0);
                    assert_eq!(unflattened.shape(1), d1);
                    assert_eq!(unflattened.shape(2), d2);
                    assert_eq!(unflattened.shape(3), d3);

                    // Make sure all offsets are valid.
                    // Iterate through all indices in lexicographic order.
                    let mut i = 0;
                    for i0 in 0..d0 {
                        for i1 in 0..d1 {
                            for i2 in 0..d2 {
                                for i3 in 0..d3 {
                                    let index = [i0, i1, i2, i3];
                                    let offset = unflattened.offset(&index);
                                    assert!(offset < layout.size());
                                    assert_eq!(offset, layout.offset(&[i]));
                                    i += 1;
                                }
                            }
                        }
                    }
                }
            }
        }
    }
}

#[test]
fn test_unflatten_flatten() {
    for d0 in 1usize..=3 {
        for d1 in 1usize..=3 {
            for d2 in 1usize..=3 {
                for d3 in 1usize..=3 {
                    let layout = Layout::<4>::from_size(d0 * d1 * d2 * d3);
                    let unflattened = layout.unflatten(0, &[d0, d1, d2, d3]);
                    let flattened = unflattened
                        .flatten(0, 4)
                        .expect("Should be in row-major order");
                    assert_eq!(flattened, layout);

                    // Make sure all offsets are valid
                    for i in 0..layout.size() {
                        assert_eq!(layout.offset(&[i]), flattened.offset(&[i]))
                    }
                }
            }
        }
    }
}

#[test]
fn test_tensor_mut() {
    let data = vec![1_u32, 2, 3, 4, 5, 6, 7, 8];
    let tensor: TensorMut<u32, 3> = TensorMut::from_vec(data);
    assert_eq!(tensor.rank(), 1);
    assert_eq!(*tensor.at(&[0]), 1);
    assert_eq!(*tensor.at(&[7]), 8);
}

#[test]
fn lib_test_unflatten() {
    let data = vec![1_u32, 2, 3, 4, 5, 6, 7, 8];
    let tensor: TensorMut<u32, 3> = TensorMut::from_vec(data);
    let tensor = tensor.unflatten(0, &[2, 2, 2]);
    assert_eq!(tensor.rank(), 3);
    assert_eq!(*tensor.at(&[0, 0, 0]), 1);
    assert_eq!(*tensor.at(&[1, 0, 0]), 5);
    assert_eq!(*tensor.at(&[0, 1, 1]), 4);
    assert_eq!(*tensor.at(&[1, 1, 1]), 8);
}

#[test]
fn tensor_transpose_reads_through_strides() {
    let data = vec![1_u32, 2, 3, 4, 5, 6];
    let tensor: TensorMut<u32, 3> = TensorMut::from_vec(data);
    let tensor = tensor.unflatten(0, &[2, 3]);
    assert_eq!(*tensor.at(&[0, 1]), 2);
    assert_eq!(*tensor.at(&[1, 2]), 6);
    let t = tensor.transpose(&[1, 0]);
    assert_eq!(t.rank(), 2);
    assert_eq!(*t.at(&[1, 0]), 2);
    assert_eq!(*t.at(&[2, 1]), 6);
}

#[test]
fn flatten_rejects_non_row_major_dims() {
    // Split 6 into 2 x 3 (row-major), then swap the axes: the transposed
    // strides are no longer contiguous, so merging them must fail.
    let layout = Layout::<2>::from_size(6);
    let split = layout.unflatten(0, &[2, 3]);
    assert!(split.flatten(0, 2).is_some());
    let swapped = split.transpose(&[1, 0]);
    assert!(swapped.flatten(0, 2).is_none());
    // Merging an empty range always succeeds.
    assert!(swapped.flatten(1, 1).is_some());
}
