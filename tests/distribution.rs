use autoquant::distribution::{
    build_distribution, channel_samples, create_distribution, drop_duplicates,
    every_nth_sample, integrate_distribution, normalize_distribution, Distribution,
    DistributionError,
};

#[test]
fn integrate_sorts_and_ranks() {
    let points = integrate_distribution(vec![3, 1, 2, 2, 5, 5, 5]).unwrap();
    assert_eq!(points, vec![(1, 1), (2, 2), (2, 3), (3, 4), (5, 5), (5, 6), (5, 7)]);
}

#[test]
fn integrate_empty() {
    assert_eq!(integrate_distribution(vec![]), Err(DistributionError::EmptyInput));
}

#[test]
fn drop_duplicates_keeps_last_of_each_value() {
    let mut points = integrate_distribution(vec![3, 1, 2, 2, 5, 5, 5]).unwrap();
    drop_duplicates(&mut points);
    assert_eq!(points, vec![(1, 1), (2, 3), (3, 4), (5, 7)]);
}

#[test]
fn drop_duplicates_on_unordered_points_keeps_largest_count() {
    let mut points = vec![(4, 2), (1, 9), (4, 7), (0, 1), (4, 3)];
    drop_duplicates(&mut points);
    assert_eq!(points, vec![(0, 1), (1, 9), (4, 7)]);
}

#[test]
fn normalize_scales_by_last_point() {
    let counts = Distribution::from_counts(vec![(1, 1), (2, 3), (3, 4), (5, 7)]);
    let normalized = normalize_distribution(&counts).unwrap();
    assert_eq!(normalized.points, vec![(1, 1), (2, 3), (3, 4), (5, 7)]);
    assert_eq!(normalized.x_scale, 5);
    assert_eq!(normalized.y_scale, 7);
}

#[test]
fn normalize_is_idempotent() {
    let counts = Distribution::from_counts(vec![(2, 1), (6, 4), (8, 6)]);
    let once = normalize_distribution(&counts).unwrap();
    let twice = normalize_distribution(&once).unwrap();
    assert_eq!(once, twice);
    for (a, b) in once.points.iter().zip(twice.points.iter()) {
        let ax = a.0 as f64 / once.x_scale as f64;
        let bx = b.0 as f64 / twice.x_scale as f64;
        let ay = a.1 as f64 / once.y_scale as f64;
        let by = b.1 as f64 / twice.y_scale as f64;
        assert!((ax - bx).abs() <= 1e-12);
        assert!((ay - by).abs() <= 1e-12);
    }
}

#[test]
fn normalize_rejects_empty() {
    let counts = Distribution::from_counts(vec![]);
    assert_eq!(normalize_distribution(&counts), Err(DistributionError::EmptyInput));
}

#[test]
fn normalize_rejects_zero_scale() {
    let counts = Distribution::from_counts(vec![(0, 3)]);
    assert_eq!(normalize_distribution(&counts), Err(DistributionError::ZeroScale));
    let counts = Distribution::from_counts(vec![(1, 0), (4, 0)]);
    assert_eq!(normalize_distribution(&counts), Err(DistributionError::ZeroScale));
}

#[test]
fn dedup_scenario() {
    let d = build_distribution(vec![3, 1, 2, 2, 5, 5, 5]).unwrap();
    assert_eq!(d.points, vec![(1, 1), (2, 3), (3, 4), (5, 7)]);
    assert_eq!((d.x_scale, d.y_scale), (5, 7));
    let coords: Vec<(f64, f64)> = d
        .points
        .iter()
        .map(|&(x, y)| (x as f64 / d.x_scale as f64, y as f64 / d.y_scale as f64))
        .collect();
    let expected = [(0.2, 1.0 / 7.0), (0.4, 3.0 / 7.0), (0.6, 4.0 / 7.0), (1.0, 1.0)];
    for (c, e) in coords.iter().zip(expected.iter()) {
        assert!((c.0 - e.0).abs() < 1e-12);
        assert!((c.1 - e.1).abs() < 1e-12);
    }
}

#[test]
fn built_distribution_is_strictly_increasing_and_ends_at_one() {
    let samples: Vec<u64> = (0..500u64).map(|i| (i * 7919) % 97 + (i % 3)).collect();
    let d = build_distribution(samples.clone()).unwrap();
    for w in d.points.windows(2) {
        assert!(w[0].0 < w[1].0);
        assert!(w[0].1 < w[1].1);
    }
    assert_eq!(*d.points.last().unwrap(), (d.x_scale, d.y_scale));
    assert_eq!(d.y_scale, 500);
    assert_eq!(d.x_scale, *samples.iter().max().unwrap());
    for &(x, y) in &d.points {
        assert_eq!(y, samples.iter().filter(|&&s| s <= x).count() as u64);
    }
}

#[test]
fn build_rejects_empty_samples() {
    assert_eq!(build_distribution(vec![]), Err(DistributionError::EmptyInput));
}

#[test]
fn build_rejects_all_zero_samples() {
    assert_eq!(build_distribution(vec![0, 0, 0]), Err(DistributionError::ZeroScale));
}

#[test]
fn build_single_sample() {
    let d = build_distribution(vec![9]).unwrap();
    assert_eq!(d.points, vec![(9, 1)]);
    assert_eq!((d.x_scale, d.y_scale), (9, 1));
}

#[test]
fn channel_samples_pick_mosaic_offsets() {
    // 4 x 4 image, value = 10 * row + column.
    let data: Vec<u16> = (0..16u16).map(|i| 10 * (i / 4) + i % 4).collect();
    assert_eq!(channel_samples(&data, 4, 4, 0), vec![0, 2, 20, 22]);
    assert_eq!(channel_samples(&data, 4, 4, 1), vec![1, 3, 21, 23]);
    assert_eq!(channel_samples(&data, 4, 4, 2), vec![10, 12, 30, 32]);
    assert_eq!(channel_samples(&data, 4, 4, 3), vec![11, 13, 31, 33]);
}

#[test]
fn channel_samples_odd_dimensions() {
    let data: Vec<u16> = (0..15u16).collect();
    assert_eq!(channel_samples(&data, 5, 3, 3), vec![6, 8]);
    assert_eq!(channel_samples(&data, 1, 15, 0), Vec::<u64>::new());
}

#[test]
fn every_nth_sample_takes_chunk_heads() {
    let values: Vec<u64> = (0..10).collect();
    assert_eq!(every_nth_sample(&values, 3), vec![0, 3, 6, 9]);
    assert_eq!(every_nth_sample(&values, 5), vec![0, 5]);
    assert_eq!(every_nth_sample(&values, 1), values);
    assert_eq!(every_nth_sample(&values, 20), vec![0]);
    assert_eq!(every_nth_sample(&Vec::new(), 2), Vec::<u64>::new());
}

#[test]
fn create_distribution_subsamples_channel() {
    // 4 x 4 image; channel 0 holds 0, 2, 20, 22.
    let data: Vec<u16> = (0..16u16).map(|i| 10 * (i / 4) + i % 4).collect();
    let d = create_distribution(&data, 4, 4, 16, 0).unwrap();
    assert_eq!(d.points, vec![(0, 1), (2, 2), (20, 3), (22, 4)]);
    assert_eq!((d.x_scale, d.y_scale), (22, 4));
    // 16 values over 8 samples: every second channel value.
    let d = create_distribution(&data, 4, 4, 8, 0).unwrap();
    assert_eq!(d.points, vec![(0, 1), (20, 2)]);
}

#[test]
fn create_distribution_of_empty_image() {
    assert_eq!(create_distribution(&[], 0, 0, 4, 0), Err(DistributionError::EmptyInput));
    assert_eq!(create_distribution(&[0, 0, 0, 0], 2, 2, 4, 1), Err(DistributionError::ZeroScale));
}
