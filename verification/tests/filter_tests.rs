use octomap::filter::{classify, effective_stride, filter_scan, PointChecks, PointOutcome, ScanStats};

/// The limits of a scan filter, as the node configures them.
#[derive(Clone, Copy)]
struct Limits {
    min_range: f64,
    min_z: f64,
    max_z: f64,
    stride: usize,
}

impl Default for Limits {
    fn default() -> Self {
        Limits { min_range: 0.0, min_z: f64::NEG_INFINITY, max_z: f64::INFINITY, stride: 1 }
    }
}

fn finite(p: [f32; 3]) -> bool {
    p.iter().all(|v| v.is_finite())
}

/// Filters `points`, translated by `shift`, and returns the kept points in
/// the map frame with the counts.
fn run(limits: Limits, points: &[[f32; 3]], shift: [f64; 3]) -> (Vec<[f32; 3]>, ScanStats) {
    let mapped = |p: [f32; 3]| -> [f32; 3] {
        [
            (p[0] as f64 + shift[0]) as f32,
            (p[1] as f64 + shift[1]) as f32,
            (p[2] as f64 + shift[2]) as f32,
        ]
    };
    let checks = |i: usize| {
        let p = points[i];
        let d = p.iter().map(|v| *v as f64 * *v as f64).sum::<f64>();
        let m = mapped(p);
        let z = m[2] as f64;
        PointChecks {
            finite: finite(p),
            too_close: limits.min_range > 0.0 && d < limits.min_range * limits.min_range,
            mapped_finite: finite(m),
            outside_height: z < limits.min_z || z > limits.max_z,
        }
    };
    let (kept, stats) = filter_scan(points.len(), limits.stride, &checks);
    (kept.iter().map(|&i| mapped(points[i])).collect(), stats)
}

#[test]
fn the_default_filter_keeps_every_finite_point() {
    let data = [[1.0, 0.0, 0.0], [0.0, 2.0, 0.0], [0.0, 0.0, -3.0]];
    let (scan, stats) = run(Limits::default(), &data, [0.0; 3]);
    assert_eq!(scan.len(), 3);
    assert_eq!(stats.kept, 3);
    assert_eq!(stats.total, 3);
}

#[test]
fn non_finite_points_are_dropped_and_counted() {
    let data = [[f32::NAN, 0.0, 0.0], [1.0, 1.0, 1.0], [0.0, f32::INFINITY, 0.0]];
    let (scan, stats) = run(Limits::default(), &data, [0.0; 3]);
    assert_eq!(scan.len(), 1);
    assert_eq!(stats.non_finite, 2);
}

#[test]
fn min_range_is_measured_in_the_sensor_frame_not_the_map_frame() {
    let data = [[0.5, 0.0, 0.0], [3.0, 0.0, 0.0]];
    let limits = Limits { min_range: 1.0, ..Limits::default() };
    let (scan, stats) = run(limits, &data, [100.0, 0.0, 0.0]);
    assert_eq!(stats.below_min_range, 1);
    assert_eq!(scan.len(), 1);
    assert_eq!(scan[0][0], 103.0);
}

#[test]
fn height_limits_are_measured_after_the_transform() {
    let data = [[0.0, 0.0, 0.0], [0.0, 0.0, 1.0], [0.0, 0.0, 5.0]];
    let limits = Limits { min_z: 1.5, max_z: 3.5, ..Limits::default() };
    let (scan, stats) = run(limits, &data, [0.0, 0.0, 2.0]);
    assert_eq!(stats.outside_height, 1);
    let heights: Vec<f32> = scan.iter().map(|p| p[2]).collect();
    assert_eq!(heights, [2.0, 3.0]);
}

#[test]
fn stride_keeps_the_first_of_every_group() {
    let data: Vec<[f32; 3]> = (0..10).map(|i| [i as f32, 0.0, 0.0]).collect();
    let limits = Limits { stride: 3, ..Limits::default() };
    let (scan, stats) = run(limits, &data, [0.0; 3]);
    let kept: Vec<f32> = scan.iter().map(|p| p[0]).collect();
    assert_eq!(kept, [0.0, 3.0, 6.0, 9.0]);
    assert_eq!(stats.skipped_stride, 6);
    assert_eq!(stats.kept, 4);
}

#[test]
fn a_zero_stride_does_not_divide_by_zero() {
    let data = [[1.0, 0.0, 0.0], [2.0, 0.0, 0.0]];
    let limits = Limits { stride: 0, ..Limits::default() };
    assert_eq!(run(limits, &data, [0.0; 3]).0.len(), 2);
    assert_eq!(effective_stride(0), 1);
}

#[test]
fn a_broken_transform_empties_the_scan_and_says_so() {
    let data = [[1.0, 0.0, 0.0], [2.0, 0.0, 0.0]];
    let (scan, stats) = run(Limits::default(), &data, [f64::NAN, 0.0, 0.0]);
    assert!(scan.is_empty());
    assert_eq!(stats.non_finite, 2, "the count is what tells them apart");
    assert_eq!(stats.kept, 0);
}

#[test]
fn stride_is_applied_before_the_finite_check_so_the_counts_add_up() {
    let data = [[1.0, 0.0, 0.0], [f32::NAN, 0.0, 0.0], [3.0, 0.0, 0.0]];
    let limits = Limits { stride: 2, ..Limits::default() };
    let (_, stats) = run(limits, &data, [0.0; 3]);
    assert_eq!(stats.total, 3);
    assert_eq!(stats.kept + stats.skipped_stride + stats.non_finite, stats.total);
    assert_eq!(stats.non_finite, 0, "the NaN point was never examined");
}

#[test]
fn skipped_points_are_never_examined() {
    let asked = std::cell::RefCell::new(Vec::new());
    let checks = |i: usize| {
        asked.borrow_mut().push(i);
        PointChecks { finite: true, too_close: false, mapped_finite: true, outside_height: false }
    };
    let (kept, stats) = filter_scan(7, 3, &checks);
    assert_eq!(*asked.borrow(), vec![0, 3, 6]);
    assert_eq!(kept, vec![0, 3, 6]);
    assert_eq!(stats.skipped_stride, 4);
}

#[test]
fn the_checks_are_applied_in_order() {
    assert_eq!(classify(1, 2, false, true, false, true), PointOutcome::SkippedStride);
    assert_eq!(classify(2, 2, false, true, false, true), PointOutcome::NonFinite);
    assert_eq!(classify(2, 2, true, true, false, true), PointOutcome::BelowMinRange);
    assert_eq!(classify(2, 2, true, false, false, true), PointOutcome::NonFinite);
    assert_eq!(classify(2, 2, true, false, true, true), PointOutcome::OutsideHeight);
    assert_eq!(classify(2, 2, true, false, true, false), PointOutcome::Kept);
    assert_eq!(classify(5, 0, true, false, true, false), PointOutcome::Kept);
}

#[test]
fn recording_counts_each_outcome_once() {
    let mut stats = ScanStats::with_total(5);
    for o in [
        PointOutcome::Kept,
        PointOutcome::SkippedStride,
        PointOutcome::NonFinite,
        PointOutcome::BelowMinRange,
        PointOutcome::OutsideHeight,
    ] {
        stats.record(o);
    }
    assert_eq!(
        stats,
        ScanStats { total: 5, kept: 1, skipped_stride: 1, non_finite: 1, below_min_range: 1, outside_height: 1 }
    );
    assert_eq!(ScanStats::default().total, 0);
}

#[test]
fn each_drop_is_counted_under_its_own_cause() {
    // Point i: 0 kept, 1 not finite, 2 too close, 3 broken once mapped,
    // 4 outside the height limits, 5 kept.
    let checks = |i: usize| PointChecks {
        finite: i != 1,
        too_close: i == 2,
        mapped_finite: i != 3,
        outside_height: i == 4,
    };
    let (kept, stats) = filter_scan(6, 1, &checks);
    assert_eq!(kept, vec![0, 5]);
    assert_eq!(stats.kept, 2);
    assert_eq!(stats.non_finite, 2);
    assert_eq!(stats.below_min_range, 1);
    assert_eq!(stats.outside_height, 1);
    assert_eq!(stats.skipped_stride, 0);
    assert_eq!(stats.total, 6);
}
