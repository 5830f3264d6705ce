use imgpyr::{expand, interior, reduce, rows_per_strip, rows_per_strip_across, Border, Plane, Taps};

const BORDERS: [Border; 2] = [Border::Replicate, Border::Mirror];

/// The kernel's weighted mean: sums the taps in order, then applies the gain
/// and normalises by the kernel's sum, 16.
fn weighted_mean(gain: u32, taps: Vec<(u32, f32)>) -> f32 {
    let mut total = 0.0f32;
    for (weight, sample) in taps {
        total += weight as f32 * sample;
    }
    total * gain as f32 / 16.0
}

/// The unnormalised integer sum, exact.
fn weighted_sum(gain: u32, taps: Vec<(u32, i64)>) -> i64 {
    let mut total = 0i64;
    for (weight, sample) in taps {
        total += weight as i64 * sample;
    }
    total * gain as i64
}

fn plane_from(width: usize, height: usize, value: impl Fn(f32, f32) -> f32) -> Plane<f32> {
    let samples = (0..width * height)
        .map(|i| value((i % width) as f32, (i / width) as f32))
        .collect();
    Plane::from_vec(samples, width, height)
}

fn textured(width: usize, height: usize, seed: f32) -> Plane<f32> {
    plane_from(width, height, |x, y| (x * 1.7 + seed).sin() * (y * 0.9 - seed).cos())
}

const KERNEL: [f32; 5] = [1.0, 4.0, 6.0, 4.0, 1.0];

fn reference_reduce_at(src: &Plane<f32>, cx: usize, cy: usize, border: Border) -> f32 {
    let mut total = 0.0;
    for (row, &row_weight) in KERNEL.iter().enumerate() {
        let sy = border.resolve(cy as isize + row as isize - 2, src.height());
        for (column, &column_weight) in KERNEL.iter().enumerate() {
            let sx = border.resolve(cx as isize + column as isize - 2, src.width());
            total += row_weight * column_weight * src.sample(sx, sy);
        }
    }
    total / 256.0
}

fn reference_upsampled_source(destination: usize, tap: usize, len: usize, border: Border) -> Option<usize> {
    let coordinate = destination as isize + tap as isize - 2;
    if coordinate.rem_euclid(2) == 0 {
        Some(border.resolve(coordinate, 2 * len) / 2)
    } else {
        None
    }
}

fn reference_expand_at(src: &Plane<f32>, x: usize, y: usize, border: Border) -> f32 {
    let mut total = 0.0;
    for (row, &row_weight) in KERNEL.iter().enumerate() {
        let Some(sy) = reference_upsampled_source(y, row, src.height(), border) else {
            continue;
        };
        for (column, &column_weight) in KERNEL.iter().enumerate() {
            let Some(sx) = reference_upsampled_source(x, column, src.width(), border) else {
                continue;
            };
            total += row_weight * column_weight * src.sample(sx, sy);
        }
    }
    total * 4.0 / 256.0
}

#[test]
fn a_constant_plane_survives_reduction() {
    for border in BORDERS {
        let reduced = reduce(&plane_from(9, 7, |_, _| 0.5), border, &weighted_mean);

        for (i, &sample) in reduced.as_slice().iter().enumerate() {
            assert!(
                (sample - 0.5).abs() < 1e-6,
                "{border:?} drifted to {sample} at index {i}"
            );
        }
    }
}

#[test]
fn reduction_samples_a_ramp_at_even_coordinates() {
    let ramp = |x: f32, y: f32| 0.1 + 0.03 * x + 0.07 * y;

    for border in BORDERS {
        let reduced = reduce(&plane_from(9, 7, ramp), border, &weighted_mean);

        for y in 1..reduced.height() - 1 {
            for x in 1..reduced.width() - 1 {
                let expected = ramp((2 * x) as f32, (2 * y) as f32);
                let actual = reduced.sample(x, y);
                assert!(
                    (actual - expected).abs() < 1e-5,
                    "{border:?} at ({x}, {y}): {actual} != {expected}"
                );
            }
        }
    }
}

#[test]
fn expansion_fills_the_requested_size() {
    let source = Plane::<f32>::zeros(5, 4);

    let even = expand(&source, 10, 8, Border::Mirror, &weighted_mean);
    assert_eq!((even.width(), even.height()), (10, 8));

    let odd = expand(&source, 9, 7, Border::Mirror, &weighted_mean);
    assert_eq!((odd.width(), odd.height()), (9, 7));
}

#[test]
fn a_constant_plane_survives_expansion() {
    for border in BORDERS {
        for (width, height) in [(10, 8), (9, 7)] {
            let expanded = expand(&plane_from(5, 4, |_, _| 0.5), width, height, border, &weighted_mean);

            for (i, &sample) in expanded.as_slice().iter().enumerate() {
                assert!(
                    (sample - 0.5).abs() < 1e-6,
                    "{border:?} {width}x{height} drifted to {sample} at index {i}"
                );
            }
        }
    }
}

#[test]
fn expansion_interpolates_a_ramp() {
    let ramp = |x: f32, y: f32| 0.1 + 0.03 * x + 0.07 * y;

    for border in BORDERS {
        let expanded = expand(&plane_from(5, 4, ramp), 10, 8, border, &weighted_mean);

        for y in 2..expanded.height() - 2 {
            for x in 2..expanded.width() - 2 {
                let expected = ramp(x as f32 / 2.0, y as f32 / 2.0);
                let actual = expanded.sample(x, y);
                assert!(
                    (actual - expected).abs() < 1e-5,
                    "{border:?} at ({x}, {y}): {actual} != {expected}"
                );
            }
        }
    }
}

#[test]
fn reduction_matches_the_unfactored_form() {
    for (width, height, seed) in [(1, 1, 0.3), (2, 3, 1.0), (7, 5, 2.5), (13, 1, 4.0), (1, 9, 6.0), (24, 17, 9.5)] {
        let source = textured(width, height, seed);
        for border in BORDERS {
            let separable = reduce(&source, border, &weighted_mean);
            for y in 0..separable.height() {
                for x in 0..separable.width() {
                    let expected = reference_reduce_at(&source, 2 * x, 2 * y, border);
                    assert!((separable.sample(x, y) - expected).abs() < 1e-5);
                }
            }
        }
    }
}

#[test]
fn expansion_matches_the_unfactored_form() {
    for (width, height, seed) in [(1, 1, 0.3), (2, 3, 1.0), (7, 5, 2.5), (13, 2, 4.0), (1, 9, 6.0), (31, 22, 9.5)] {
        let source = textured((width + 1) / 2, (height + 1) / 2, seed);
        for border in BORDERS {
            let separable = expand(&source, width, height, border, &weighted_mean);
            for y in 0..height {
                for x in 0..width {
                    let expected = reference_expand_at(&source, x, y, border);
                    assert!((separable.sample(x, y) - expected).abs() < 1e-5);
                }
            }
        }
    }
}

#[test]
fn reduction_halves_each_dimension_rounding_up() {
    for (width, height) in [(1, 1), (1, 0), (2, 2), (3, 8), (65, 49), (299, 2)] {
        let reduced = reduce(&Plane::<f32>::zeros(width, height), Border::Mirror, &weighted_mean);
        assert_eq!(reduced.width(), (width + 1) / 2);
        assert_eq!(reduced.height(), (height + 1) / 2);
    }
}

#[test]
fn exact_reduction_of_an_impulse_spreads_the_kernel() {
    let mut samples = vec![0i64; 9 * 9];
    samples[4 * 9 + 4] = 1;
    let source = Plane::from_vec(samples, 9, 9);
    let reduced = reduce(&source, Border::Mirror, &weighted_sum);

    assert_eq!((reduced.width(), reduced.height()), (5, 5));
    // Destination 2 centres on source 4 with weight 6; destinations 1 and 3 reach it with weight 1.
    assert_eq!(reduced.sample(2, 2), 36);
    assert_eq!(reduced.sample(1, 2), 6);
    assert_eq!(reduced.sample(1, 1), 1);
    assert_eq!(reduced.sample(0, 0), 0);
}

#[test]
fn exact_expansion_interleaves_even_and_odd_taps() {
    let source = Plane::from_vec(vec![0i64, 1, 0], 3, 1);
    let expanded = expand(&source, 6, 1, Border::Replicate, &weighted_sum);

    // Along the row, even destinations read weights 1, 6, 1 and odd ones 4, 4,
    // each sum doubled. Down the single row, the taps 1, 6, 1 all resolve to
    // row 0, so the column multiplies by 8 and doubles again.
    assert_eq!(expanded.as_slice(), &[32, 128, 192, 128, 32, 0]);
}

#[test]
fn the_interior_span_marks_destinations_clear_of_the_border() {
    assert_eq!(interior(Taps::Decimate, 5, 9), (1, 4));
    assert_eq!(interior(Taps::Interpolate, 10, 5), (2, 8));
    assert_eq!(interior(Taps::Decimate, 1, 1), (1, 1));
}

#[test]
fn strips_take_all_rows_or_a_fair_share_per_thread() {
    assert_eq!(rows_per_strip(0), 1);
    assert_eq!(rows_per_strip(37), 37);
    assert_eq!(rows_per_strip_across(1000, 8), 32);
    assert_eq!(rows_per_strip_across(10, 8), 5);
    assert_eq!(rows_per_strip_across(33, 1), 9);
}

#[test]
fn pool_strips_follow_the_pool_size() {
    for height in [0usize, 1, 19, 1000, 51_000] {
        let rows = imgpyr::pool_rows_per_strip(height);
        assert!(rows >= 5);
        assert_eq!(rows, rows_per_strip_across(height, rayon::current_num_threads()));
    }
}

#[test]
fn strips_computed_apart_agree_with_the_whole() {
    let source = textured(23, 19, 1.3);
    for border in BORDERS {
        let whole = reduce(&source, border, &weighted_mean);
        let (width, height) = (whole.width(), whole.height());
        let span = interior(Taps::Decimate, width, source.width());
        let mut pieced = Vec::new();
        let mut top = 0;
        while top < height {
            let count = 3.min(height - top);
            pieced.extend(imgpyr::resample_rows(&source, width, top, count, span, Taps::Decimate, border, &weighted_mean));
            top += count;
        }
        assert_eq!(pieced.as_slice(), whole.as_slice());
    }
}

#[test]
fn any_constant_survives_expansion_at_any_size() {
    for (width, height, value) in [(1, 1, -10.0f32), (1, 59, 3.25), (2, 2, 0.5), (7, 13, -4.75), (31, 8, 9.5), (59, 58, 1.0)] {
        let source = plane_from((width + 1) / 2, (height + 1) / 2, |_, _| value);
        for border in BORDERS {
            for &sample in expand(&source, width, height, border, &weighted_mean).as_slice() {
                assert!((sample - value).abs() < 1e-5);
            }
        }
    }
}

#[test]
fn any_constant_survives_reduction_at_any_size() {
    for (width, height, value) in [(1, 1, -10.0f32), (1, 39, 3.25), (2, 2, 0.5), (7, 13, -4.75), (39, 8, 9.5), (38, 39, 1.0)] {
        let source = plane_from(width, height, |_, _| value);
        for border in BORDERS {
            for &sample in reduce(&source, border, &weighted_mean).as_slice() {
                assert!((sample - value).abs() < 1e-5);
            }
        }
    }
}

#[test]
fn reducing_an_empty_plane_halves_its_height() {
    let reduced = reduce(&Plane::<f32>::zeros(0, 4), Border::Mirror, &weighted_mean);
    assert_eq!((reduced.width(), reduced.height()), (0, 2));
    assert!(reduced.as_slice().is_empty());

    let expanded = expand(&Plane::<f32>::zeros(0, 2), 0, 3, Border::Mirror, &weighted_mean);
    assert_eq!((expanded.width(), expanded.height()), (0, 3));
    assert!(expanded.as_slice().is_empty());
}

#[test]
fn strip_spans_tile_the_rows() {
    assert_eq!(imgpyr::strip_spans(0, 5), vec![]);
    assert_eq!(imgpyr::strip_spans(12, 5), vec![(0, 5), (5, 5), (10, 2)]);
    assert_eq!(imgpyr::strip_spans(10, 5), vec![(0, 5), (5, 5)]);
    assert_eq!(imgpyr::strip_spans(3, 7), vec![(0, 3)]);
}

fn affine_plane(width: usize, height: usize, a: i64, b: i64, c: i64) -> Plane<i64> {
    let samples = (0..width * height)
        .map(|i| a + b * (i % width) as i64 + c * (i / width) as i64)
        .collect();
    Plane::from_vec(samples, width, height)
}

#[test]
fn exact_sums_reproduce_an_affine_plane_inside() {
    let (a, b, c) = (7, 3, -5);
    let source = affine_plane(13, 11, a, b, c);
    for border in BORDERS {
        let reduced = reduce(&source, border, &weighted_sum);
        let (sx, sy) = interior(Taps::Decimate, reduced.width(), source.width());
        let (ty, uy) = interior(Taps::Decimate, reduced.height(), source.height());
        for y in ty..uy {
            for x in sx..sy {
                let expected = 128 * (2 * a + b * 4 * x as i64 + c * 4 * y as i64);
                assert_eq!(reduced.sample(x, y), expected);
            }
        }

        let small = affine_plane(7, 6, a, b, c);
        let expanded = expand(&small, 13, 11, border, &weighted_sum);
        let (sx, sy) = interior(Taps::Interpolate, 13, 7);
        let (ty, uy) = interior(Taps::Interpolate, 11, 6);
        assert!(sx < sy && ty < uy);
        for y in ty..uy {
            for x in sx..sy {
                let expected = 128 * (2 * a + b * x as i64 + c * y as i64);
                assert_eq!(expanded.sample(x, y), expected);
            }
        }
    }
}

#[test]
fn exact_separable_passes_equal_the_unfactored_kernel() {
    let samples: Vec<i64> = (0..9 * 7).map(|i| (i * 37 % 23) as i64 - 11).collect();
    let source = Plane::from_vec(samples, 9, 7);
    let weights = [1i64, 4, 6, 4, 1];
    for border in BORDERS {
        let reduced = reduce(&source, border, &weighted_sum);
        for y in 0..reduced.height() {
            for x in 0..reduced.width() {
                let mut total = 0i64;
                for (row, &wr) in weights.iter().enumerate() {
                    let sy = border.resolve(2 * y as isize + row as isize - 2, 7);
                    for (column, &wc) in weights.iter().enumerate() {
                        let sx = border.resolve(2 * x as isize + column as isize - 2, 9);
                        total += wr * wc * source.sample(sx, sy);
                    }
                }
                assert_eq!(reduced.sample(x, y), total);
            }
        }
    }
}
