use imgpyr::Plane;

#[test]
fn from_vec_carries_samples_and_dimensions() {
    let plane = Plane::from_vec(vec![1.0f32, 2.0, 3.0, 4.0, 5.0, 6.0], 3, 2);

    assert_eq!(plane.width(), 3);
    assert_eq!(plane.height(), 2);
    assert_eq!(plane.as_slice(), &[1.0, 2.0, 3.0, 4.0, 5.0, 6.0]);
}

#[test]
fn zeros_is_empty_of_signal() {
    let plane = Plane::<f32>::zeros(3, 2);

    assert_eq!(plane.width(), 3);
    assert_eq!(plane.height(), 2);
    assert_eq!(plane.as_slice(), &[0.0; 6]);
}

#[test]
fn sample_reads_row_major() {
    let plane = Plane::from_vec(vec![1u8, 2, 3, 4, 5, 6], 3, 2);

    assert_eq!(plane.sample(0, 0), 1);
    assert_eq!(plane.sample(2, 0), 3);
    assert_eq!(plane.sample(0, 1), 4);
    assert_eq!(plane.sample(2, 1), 6);
}

#[test]
fn as_mut_slice_edits_in_place() {
    let mut plane = Plane::from_vec(vec![1i32, 2, 3, 4], 2, 2);

    plane.as_mut_slice()[3] = 40;

    assert_eq!(plane.as_slice(), &[1, 2, 3, 40]);
    assert_eq!((plane.width(), plane.height()), (2, 2));
}

#[test]
fn clone_copies_samples_and_dimensions() {
    let plane = Plane::from_vec(vec![7i64, 8, 9], 3, 1);
    let copy = plane.clone();

    assert_eq!(copy.as_slice(), plane.as_slice());
    assert_eq!((copy.width(), copy.height()), (3, 1));
}

#[test]
fn an_empty_plane_has_no_samples() {
    let plane = Plane::<u16>::zeros(0, 4);

    assert_eq!(plane.as_slice().len(), 0);
    assert_eq!((plane.width(), plane.height()), (0, 4));
}
