use limousine_core::{cross, CanonicalSegment, OptimalPiecewiseLinearModel, PGMSegmentation, Point};
use rand::{Rng, SeedableRng};

#[test]
fn collinear_points_stay_in_one_segment() {
    let mut model: OptimalPiecewiseLinearModel<i64, 1> = OptimalPiecewiseLinearModel::new();
    for i in 0..50i64 {
        assert!(model.add_point((i * 3, i as usize)));
    }
    let seg = model.get_segment();
    assert_eq!(seg.first, 0);
    assert!(!seg.one_point());
}

#[test]
fn outlier_starts_a_new_segment() {
    let mut model: OptimalPiecewiseLinearModel<i64, 1> = OptimalPiecewiseLinearModel::new();
    assert!(model.add_point((0, 0)));
    assert!(model.add_point((10, 1)));
    assert!(model.add_point((20, 2)));
    // A jump in rank that no line through the first points can follow.
    assert!(!model.add_point((21, 100)));
    // The model is empty now: the point starts a fresh segment.
    assert!(model.add_point((21, 100)));
    let seg = model.get_segment();
    assert_eq!(seg.first, 21);
    assert!(seg.one_point());
    assert_eq!(seg.rectangle[0].y, 101);
    assert_eq!(seg.rectangle[1].y, 99);
}

#[test]
fn keys_must_increase() {
    let mut model: OptimalPiecewiseLinearModel<u32, 4> = OptimalPiecewiseLinearModel::new();
    assert!(model.add_point((5, 0)));
    assert!(!model.add_point((5, 1)));
    assert!(!model.add_point((3, 1)));
    assert!(model.add_point((6, 1)));
}

#[test]
fn cross_product_orientation() {
    let o = Point { x: 0i64, y: 0 };
    let a = Point { x: 1i64, y: 0 };
    let b = Point { x: 0i64, y: 1 };
    assert_eq!(cross(o, a, b), 1);
    assert_eq!(cross(o, b, a), -1);
    let c = Point { x: 2i64, y: 0 };
    assert_eq!(cross(o, a, c), 0);
}

#[test]
fn canonical_segment_shapes() {
    let p0 = Point { x: 3u64, y: 5 };
    let p1 = Point { x: 3u64, y: 1 };
    let d = CanonicalSegment::diagonal(p0, p1, 3);
    assert!(d.one_point());
    let r = CanonicalSegment::new([p0, p1, Point { x: 9, y: 8 }, Point { x: 9, y: 10 }], 3);
    assert!(!r.one_point());
    assert_eq!(r.first, 3);
}

#[test]
fn segment_intercepts() {
    let d = CanonicalSegment::diagonal(Point { x: 3i64, y: 5 }, Point { x: 3i64, y: 1 }, 3);
    assert_eq!(d.intercept(3), 3);
    let r = CanonicalSegment::new(
        [Point { x: 0i64, y: 2 }, Point { x: 0, y: 0 }, Point { x: 10, y: 3 }, Point { x: 10, y: 5 }],
        0,
    );
    assert_eq!(r.intercept(0), 0);
    assert_eq!(r.intercept(1), 1);
    assert_eq!(r.intercept(3), 2);
    assert_eq!(r.intercept(4), 2);
    assert_eq!(r.intercept(-3), -2);
}

#[test]
fn segmentation_cuts_at_a_jump() {
    let keys: Vec<i64> = vec![0, 1, 2, 3, 1000, 1001, 1002, 1003, 1004];
    let key_ranks: Vec<(i64, usize)> = keys.iter().enumerate().map(|(i, k)| (*k, i)).collect();
    let segs = PGMSegmentation::make_segmentation::<i64, 1>(&key_ranks);
    assert_eq!(segs.len(), 2);
    assert_eq!(segs[0].first, 0);
    assert_eq!(segs[1].first, 1000);
    let line: Vec<(i64, usize)> = (0..100).map(|i| (i * 5, i as usize)).collect();
    let one = PGMSegmentation::make_segmentation::<i64, 2>(&line);
    assert_eq!(one.len(), 1);
    assert_eq!(one[0].first, 0);
}

#[test]
fn segmentation_reads_the_last_point() {
    let keys: Vec<i64> = vec![0, 1, 2, 3, 1000];
    let key_ranks: Vec<(i64, usize)> = keys.iter().enumerate().map(|(i, k)| (*k, i)).collect();
    let segs = PGMSegmentation::make_segmentation::<i64, 0>(&key_ranks);
    assert_eq!(segs.len(), 2);
    assert_eq!(segs[0].first, 0);
    assert_eq!(segs[1].first, 1000);
}

#[test]
fn extreme_slopes_set_the_outer_corners() {
    let mut model: OptimalPiecewiseLinearModel<i64, 1> = OptimalPiecewiseLinearModel::new();
    assert!(model.add_point((0, 0)));
    assert!(model.add_point((1, 1)));
    assert!(model.add_point((2, 2)));
    let seg = model.get_segment();
    let corners: Vec<(i64, usize)> = seg.rectangle.iter().map(|p| (p.x, p.y)).collect();
    assert_eq!(corners, vec![(0, 1), (0, 0), (2, 1), (2, 3)]);
}

#[test]
fn non_increasing_key_is_refused_without_bounds() {
    let mut model: OptimalPiecewiseLinearModel<i64, 1> = OptimalPiecewiseLinearModel::new();
    assert!(model.add_point((5, 0)));
    assert!(!model.add_point((5, usize::MAX)));
    assert!(!model.add_point((i64::MIN, 3)));
    assert!(model.add_point((6, 1)));
}

#[test]
fn segmentation_segment_is_the_model_segment() {
    let key_ranks: Vec<(i64, usize)> = vec![(0, 0), (1, 1), (2, 2)];
    let segs = PGMSegmentation::make_segmentation::<i64, 1>(&key_ranks);
    assert_eq!(segs.len(), 1);
    let corners: Vec<(i64, usize)> = segs[0].rectangle.iter().map(|p| (p.x, p.y)).collect();
    assert_eq!(corners, vec![(0, 1), (0, 0), (2, 1), (2, 3)]);
}

/// Every point of each segment lies within the error of the segment's line of
/// largest slope (through corners 1 and 3), in integers; a one-point segment
/// has the point's shifted ranks as its corners.
fn check_segments_fit(keys: &[i64], epsilon: i128) {
    let key_ranks: Vec<(i64, usize)> = keys.iter().enumerate().map(|(i, k)| (*k, i)).collect();
    let segs = match epsilon {
        1 => PGMSegmentation::make_segmentation::<i64, 1>(&key_ranks),
        4 => PGMSegmentation::make_segmentation::<i64, 4>(&key_ranks),
        _ => PGMSegmentation::make_segmentation::<i64, 16>(&key_ranks),
    };
    for (k, seg) in segs.iter().enumerate() {
        let end = if k + 1 < segs.len() { segs[k + 1].first } else { i64::MAX };
        let r1 = seg.rectangle[1];
        let r3 = seg.rectangle[3];
        let dx = r3.x as i128 - r1.x as i128;
        let dy = r3.y as i128 - r1.y as i128;
        for (x, i) in key_ranks.iter().filter(|(x, _)| *x >= seg.first && *x < end) {
            let i = *i as i128;
            let low = if i >= epsilon { i - epsilon } else { 0 };
            if seg.one_point() {
                assert!(low <= r1.y as i128 && r1.y as i128 <= i + epsilon);
            } else {
                assert!(dx > 0);
                let on_line = r1.y as i128 * dx + dy * (*x as i128 - r1.x as i128);
                assert!(low * dx <= on_line && on_line <= (i + epsilon) * dx, "segment {} point {}", k, i);
            }
        }
    }
}

#[test]
fn segment_points_lie_within_epsilon_of_the_line() {
    let mut rng = rand::rngs::StdRng::seed_from_u64(7);
    for epsilon in [1i128, 4, 16] {
        let mut key = 0i64;
        let mut keys = Vec::new();
        for _ in 0..5000 {
            key += rng.gen_range(1..1000);
            keys.push(key);
        }
        check_segments_fit(&keys, epsilon);
        let squares: Vec<i64> = (0..3000i64).map(|i| i * i).collect();
        check_segments_fit(&squares, epsilon);
    }
}
