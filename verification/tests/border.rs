use imgpyr::Border;

#[test]
fn coordinates_inside_the_plane_are_untouched() {
    for border in [Border::Replicate, Border::Mirror] {
        assert_eq!(border.resolve(0, 5), 0);
        assert_eq!(border.resolve(2, 5), 2);
        assert_eq!(border.resolve(4, 5), 4);
    }
}

#[test]
fn replicate_holds_the_edge_sample() {
    assert_eq!(Border::Replicate.resolve(-1, 5), 0);
    assert_eq!(Border::Replicate.resolve(-4, 5), 0);
    assert_eq!(Border::Replicate.resolve(5, 5), 4);
    assert_eq!(Border::Replicate.resolve(9, 5), 4);
}

#[test]
fn mirror_folds_without_repeating_the_edge_sample() {
    assert_eq!(Border::Mirror.resolve(-1, 5), 1);
    assert_eq!(Border::Mirror.resolve(-2, 5), 2);
    assert_eq!(Border::Mirror.resolve(5, 5), 3);
    assert_eq!(Border::Mirror.resolve(6, 5), 2);
}

#[test]
fn mirror_folds_repeatedly_for_coordinates_far_outside() {
    assert_eq!(Border::Mirror.resolve(8, 5), 0);
    assert_eq!(Border::Mirror.resolve(-8, 5), 0);
    assert_eq!(Border::Mirror.resolve(11, 5), 3);
}

#[test]
fn a_single_sample_absorbs_every_coordinate() {
    for border in [Border::Replicate, Border::Mirror] {
        assert_eq!(border.resolve(-7, 1), 0);
        assert_eq!(border.resolve(0, 1), 0);
        assert_eq!(border.resolve(7, 1), 0);
    }
}

#[test]
fn an_empty_axis_answers_zero() {
    for border in [Border::Replicate, Border::Mirror] {
        assert_eq!(border.resolve(-3, 0), 0);
        assert_eq!(border.resolve(3, 0), 0);
    }
}

#[test]
fn mirror_reflects_about_both_edges_and_repeats() {
    let len = 7usize;
    let period = 2 * (len as isize - 1);
    for coord in -40isize..40 {
        let at = Border::Mirror.resolve(coord, len);
        assert_eq!(Border::Mirror.resolve(-coord, len), at);
        assert_eq!(Border::Mirror.resolve(period - coord, len), at);
        assert_eq!(Border::Mirror.resolve(coord + period, len), at);
        assert!(at < len);
    }
}

#[test]
fn resolution_moves_neighbours_at_most_one_sample_apart() {
    for border in [Border::Replicate, Border::Mirror] {
        for len in 1usize..9 {
            for coord in -30isize..30 {
                let here = border.resolve(coord, len) as isize;
                let next = border.resolve(coord + 1, len) as isize;
                assert!((next - here).abs() <= 1);
            }
        }
    }
}

#[test]
fn mirror_on_two_samples_alternates() {
    let seen: Vec<usize> = (-3isize..4).map(|c| Border::Mirror.resolve(c, 2)).collect();
    assert_eq!(seen, vec![1, 0, 1, 0, 1, 0, 1]);
}
