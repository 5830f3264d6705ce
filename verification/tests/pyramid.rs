use imgpyr::{Border, GaussianPyramid, LaplacianPyramid, Plane};

fn weighted_mean(gain: u32, taps: Vec<(u32, f32)>) -> f32 {
    let mut total = 0.0f32;
    for (weight, sample) in taps {
        total += weight as f32 * sample;
    }
    total * gain as f32 / 16.0
}

fn subtract(detailed: f32, blurred: f32) -> f32 {
    detailed - blurred
}

fn add(detail: f32, blurred: f32) -> f32 {
    detail + blurred
}

fn weighted_sum(gain: u32, taps: Vec<(u32, i64)>) -> i64 {
    let mut total = 0i64;
    for (weight, sample) in taps {
        total += weight as i64 * sample;
    }
    total * gain as i64
}

fn plane_from(width: usize, height: usize, value: impl Fn(f32, f32) -> f32) -> Plane<f32> {
    let samples = (0..width * height)
        .map(|i| value((i % width) as f32, (i / width) as f32))
        .collect();
    Plane::from_vec(samples, width, height)
}

#[test]
fn a_gaussian_pyramid_keeps_the_source_and_one_plane_per_reduction() {
    let pyramid = GaussianPyramid::build(&Plane::<f32>::zeros(65, 49), 3, Border::Mirror, &weighted_mean);

    assert_eq!(pyramid.len(), 4);
    assert_eq!((pyramid.level(0).width(), pyramid.level(0).height()), (65, 49));
    assert_eq!((pyramid.level(1).width(), pyramid.level(1).height()), (33, 25));
    assert_eq!((pyramid.level(2).width(), pyramid.level(2).height()), (17, 13));
    assert_eq!((pyramid.level(3).width(), pyramid.level(3).height()), (9, 7));
}

#[test]
fn a_laplacian_band_matches_the_level_it_came_from() {
    let pyramid =
        LaplacianPyramid::build(&Plane::<f32>::zeros(65, 49), 2, Border::Mirror, &weighted_mean, &subtract);

    assert_eq!(pyramid.len(), 2);
    assert_eq!((pyramid.band(0).width(), pyramid.band(0).height()), (65, 49));
    assert_eq!((pyramid.band(1).width(), pyramid.band(1).height()), (33, 25));
    assert_eq!((pyramid.residual().width(), pyramid.residual().height()), (17, 13));
}

#[test]
fn collapse_restores_the_source() {
    let source = plane_from(65, 49, |x, y| (x * 0.7).sin() + (y * 0.3).cos());

    for border in [Border::Replicate, Border::Mirror] {
        let restored = LaplacianPyramid::build(&source, 3, border, &weighted_mean, &subtract)
            .collapse(border, &weighted_mean, &add);

        for (i, (&actual, &expected)) in restored.as_slice().iter().zip(source.as_slice()).enumerate() {
            assert!(
                (actual - expected).abs() < 1e-5,
                "{border:?} at {i}: {actual} != {expected}"
            );
        }
    }
}

#[test]
fn a_constant_plane_leaves_every_band_empty() {
    for border in [Border::Replicate, Border::Mirror] {
        let pyramid =
            LaplacianPyramid::build(&plane_from(65, 49, |_, _| 0.5), 3, border, &weighted_mean, &subtract);

        for index in 0..pyramid.len() {
            for (i, &sample) in pyramid.band(index).as_slice().iter().enumerate() {
                assert!(sample.abs() < 1e-6, "{border:?} band {index} holds {sample} at {i}");
            }
        }
    }
}

#[test]
fn a_ramp_leaves_every_band_empty_away_from_the_edges() {
    const MARGIN: usize = 6;
    let ramp = |x: f32, y: f32| 0.1 + 0.03 * x + 0.07 * y;

    for border in [Border::Replicate, Border::Mirror] {
        let pyramid = LaplacianPyramid::build(&plane_from(65, 49, ramp), 2, border, &weighted_mean, &subtract);

        for index in 0..pyramid.len() {
            let band = pyramid.band(index);

            for y in MARGIN..band.height() - MARGIN {
                for x in MARGIN..band.width() - MARGIN {
                    let sample = band.sample(x, y);
                    assert!(
                        sample.abs() < 1e-4,
                        "{border:?} band {index} holds {sample} at ({x}, {y})"
                    );
                }
            }
        }
    }
}

#[test]
fn editing_a_band_changes_what_collapse_produces() {
    let source = plane_from(33, 25, |x, y| 0.01 * x + 0.02 * y);
    let mut pyramid = LaplacianPyramid::build(&source, 2, Border::Mirror, &weighted_mean, &subtract);

    pyramid.band_mut(1).as_mut_slice()[0] += 1.0;
    let edited = pyramid.collapse(Border::Mirror, &weighted_mean, &add);

    let drift: f32 = edited
        .as_slice()
        .iter()
        .zip(source.as_slice())
        .map(|(a, b)| (a - b).abs())
        .sum();
    assert!(drift > 0.5, "editing a band did not reach the output");
}

#[test]
fn collapse_restores_the_source_at_any_size() {
    for (width, height) in [(1, 1), (1, 7), (2, 2), (5, 3), (16, 9), (33, 1), (79, 61)] {
        for levels in 0..4 {
            let source = plane_from(width, height, |x, y| 0.01 * x - 0.02 * y);
            let restored = LaplacianPyramid::build(&source, levels, Border::Mirror, &weighted_mean, &subtract)
                .collapse(Border::Mirror, &weighted_mean, &add);

            assert_eq!(restored.width(), width);
            assert_eq!(restored.height(), height);
            for (&actual, &expected) in restored.as_slice().iter().zip(source.as_slice()) {
                assert!((actual - expected).abs() < 1e-4);
            }
        }
    }
}

#[test]
fn exact_arithmetic_collapses_back_to_the_very_source() {
    let samples: Vec<i64> = (0..23 * 17).map(|i| (i * 7919 % 1013) as i64 - 500).collect();
    let source = Plane::from_vec(samples, 23, 17);

    for border in [Border::Replicate, Border::Mirror] {
        for levels in 0..4 {
            let pyramid = LaplacianPyramid::build(&source, levels, border, &weighted_sum, &|a: i64, b: i64| a - b);
            let restored = pyramid.collapse(border, &weighted_sum, &|a: i64, b: i64| a + b);
            assert_eq!(restored.as_slice(), source.as_slice());
            assert_eq!((restored.width(), restored.height()), (23, 17));
        }
    }
}

#[test]
fn an_empty_pyramid_is_its_residual() {
    let source = plane_from(4, 3, |x, y| x + 10.0 * y);
    let pyramid = LaplacianPyramid::build(&source, 0, Border::Mirror, &weighted_mean, &subtract);

    assert!(pyramid.is_empty());
    assert_eq!(pyramid.residual().as_slice(), source.as_slice());
    assert_eq!(pyramid.collapse(Border::Mirror, &weighted_mean, &add).as_slice(), source.as_slice());

    let gaussian = GaussianPyramid::build(&source, 0, Border::Mirror, &weighted_mean);
    assert!(!gaussian.is_empty());
    assert_eq!(gaussian.len(), 1);
}

#[test]
fn a_pyramid_of_no_levels_accepts_an_empty_plane() {
    let source = Plane::<f32>::zeros(0, 3);

    let gaussian = GaussianPyramid::build(&source, 0, Border::Mirror, &weighted_mean);
    assert_eq!(gaussian.len(), 1);
    assert_eq!((gaussian.level(0).width(), gaussian.level(0).height()), (0, 3));

    let laplacian = LaplacianPyramid::build(&source, 0, Border::Mirror, &weighted_mean, &subtract);
    assert!(laplacian.is_empty());
    let restored = laplacian.collapse(Border::Mirror, &weighted_mean, &add);
    assert_eq!((restored.width(), restored.height()), (0, 3));
}

#[test]
fn an_empty_plane_builds_empty_levels() {
    let source = Plane::<f32>::zeros(0, 9);

    let gaussian = GaussianPyramid::build(&source, 3, Border::Mirror, &weighted_mean);
    assert_eq!(gaussian.len(), 4);
    assert_eq!((gaussian.level(3).width(), gaussian.level(3).height()), (0, 2));

    let laplacian = LaplacianPyramid::build(&source, 2, Border::Mirror, &weighted_mean, &subtract);
    assert_eq!(laplacian.len(), 2);
    let restored = laplacian.collapse(Border::Mirror, &weighted_mean, &add);
    assert_eq!((restored.width(), restored.height()), (0, 9));
}
