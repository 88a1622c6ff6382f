//! The bookkeeping of scan filtering: which check drops a point, and the
//! counts of what was dropped and why.
//!
//! The checks themselves (is a coordinate finite, is a point too close, is
//! it outside the height limits once transformed) are floating-point tests
//! made by the caller; here they arrive as booleans, and the order in which
//! they are applied, and the accounting, are decided.

use vstd::prelude::*;

verus! {

/// What a filter did to one scan.
///
/// The counts say whether the cloud was empty, the sensor returned nothing,
/// the transform was broken, or the height limits are wrong.
#[derive(Debug, Clone, Copy, PartialEq, Eq, Structural)]
pub struct ScanStats {
    /// Points the message declared.
    pub total: usize,
    /// Points that reached the map.
    pub kept: usize,
    /// Points skipped by the stride.
    pub skipped_stride: usize,
    /// Points holding `NaN` or an infinity, before or after the transform.
    pub non_finite: usize,
    /// Points inside the minimum range.
    pub below_min_range: usize,
    /// Points outside the height limits.
    pub outside_height: usize,
}

impl Default for ScanStats {
    fn default() -> (s: Self)
        ensures
            s == (ScanStats {
                total: 0,
                kept: 0,
                skipped_stride: 0,
                non_finite: 0,
                below_min_range: 0,
                outside_height: 0,
            }),
    {
        ScanStats {
            total: 0,
            kept: 0,
            skipped_stride: 0,
            non_finite: 0,
            below_min_range: 0,
            outside_height: 0,
        }
    }
}

/// What happened to one point of a scan.
#[derive(Debug, Clone, Copy, PartialEq, Eq, Structural)]
pub enum PointOutcome {
    /// Not a multiple of the stride.
    SkippedStride,
    /// Not finite, as read or once transformed.
    NonFinite,
    /// Closer to the sensor than the minimum range.
    BelowMinRange,
    /// Outside the height limits once transformed.
    OutsideHeight,
    /// Kept for the map.
    Kept,
}

/// The stride actually used: zero is treated as one.
pub open spec fn spec_stride(stride: usize) -> usize {
    if stride == 0 {
        1
    } else {
        stride
    }
}

/// The stride actually used: zero is treated as one.
pub fn effective_stride(stride: usize) -> (r: usize)
    ensures
        r == spec_stride(stride),
        r >= 1,
{
    if stride == 0 {
        1
    } else {
        stride
    }
}

/// Which check, in order, disposes of a point.
pub open spec fn spec_classify(
    index: usize,
    stride: usize,
    finite: bool,
    too_close: bool,
    mapped_finite: bool,
    outside_height: bool,
) -> PointOutcome {
    if index % spec_stride(stride) != 0 {
        PointOutcome::SkippedStride
    } else if !finite {
        PointOutcome::NonFinite
    } else if too_close {
        PointOutcome::BelowMinRange
    } else if !mapped_finite {
        PointOutcome::NonFinite
    } else if outside_height {
        PointOutcome::OutsideHeight
    } else {
        PointOutcome::Kept
    }
}

/// Decides what happens to the point at `index`: the stride first, then
/// the point's own finiteness, the minimum range (in the sensor frame), the
/// transformed point's finiteness, and the height limits (in the map
/// frame). A broken transform thus counts as non-finite rather than as an
/// empty sensor.
pub fn classify(
    index: usize,
    stride: usize,
    finite: bool,
    too_close: bool,
    mapped_finite: bool,
    outside_height: bool,
) -> (o: PointOutcome)
    ensures
        o == spec_classify(index, stride, finite, too_close, mapped_finite, outside_height),
{
    let stride = effective_stride(stride);
    if index % stride != 0 {
        PointOutcome::SkippedStride
    } else if !finite {
        PointOutcome::NonFinite
    } else if too_close {
        PointOutcome::BelowMinRange
    } else if !mapped_finite {
        PointOutcome::NonFinite
    } else if outside_height {
        PointOutcome::OutsideHeight
    } else {
        PointOutcome::Kept
    }
}

impl ScanStats {
    /// Points accounted for so far, kept or dropped.
    pub open spec fn accounted(&self) -> int {
        self.kept + self.skipped_stride + self.non_finite + self.below_min_range
            + self.outside_height
    }

    /// Counts for a scan of `total` points, none processed yet.
    pub fn with_total(total: usize) -> (s: Self)
        ensures
            s.total == total,
            s.accounted() == 0,
            s.kept == 0 && s.skipped_stride == 0 && s.non_finite == 0 && s.below_min_range == 0
                && s.outside_height == 0,
    {
        ScanStats {
            total,
            kept: 0,
            skipped_stride: 0,
            non_finite: 0,
            below_min_range: 0,
            outside_height: 0,
        }
    }

    /// Counts one point's outcome.
    ///
    /// Every point is counted exactly once, so once all of a scan's points
    /// are recorded the counts add up to the total.
    pub fn record(&mut self, outcome: PointOutcome)
        requires
            old(self).accounted() < old(self).total,
        ensures
            final(self).accounted() == old(self).accounted() + 1,
            final(self).total == old(self).total,
            final(self).kept == old(self).kept + (if outcome == PointOutcome::Kept {
                1int
            } else {
                0
            }),
            final(self).skipped_stride == old(self).skipped_stride + (if outcome
                == PointOutcome::SkippedStride {
                1int
            } else {
                0
            }),
            final(self).non_finite == old(self).non_finite + (if outcome == PointOutcome::NonFinite {
                1int
            } else {
                0
            }),
            final(self).below_min_range == old(self).below_min_range + (if outcome
                == PointOutcome::BelowMinRange {
                1int
            } else {
                0
            }),
            final(self).outside_height == old(self).outside_height + (if outcome
                == PointOutcome::OutsideHeight {
                1int
            } else {
                0
            }),
    {
        match outcome {
            PointOutcome::SkippedStride => {
                self.skipped_stride = self.skipped_stride + 1;
            },
            PointOutcome::NonFinite => {
                self.non_finite = self.non_finite + 1;
            },
            PointOutcome::BelowMinRange => {
                self.below_min_range = self.below_min_range + 1;
            },
            PointOutcome::OutsideHeight => {
                self.outside_height = self.outside_height + 1;
            },
            PointOutcome::Kept => {
                self.kept = self.kept + 1;
            },
        }
    }
}

/// The checks a caller made on one point, each a floating-point test.
#[derive(Debug, Clone, Copy, PartialEq, Eq, Structural)]
pub struct PointChecks {
    /// Every coordinate of the point as read is finite.
    pub finite: bool,
    /// The point is closer to the sensor than the minimum range.
    pub too_close: bool,
    /// Every coordinate of the transformed point is finite.
    pub mapped_finite: bool,
    /// The transformed point is outside the height limits.
    pub outside_height: bool,
}

/// What the filter does with the point at `index`, given its checks.
pub open spec fn outcome_of(index: usize, stride: usize, c: PointChecks) -> PointOutcome {
    spec_classify(index, stride, c.finite, c.too_close, c.mapped_finite, c.outside_height)
}

/// The checks `checks` may report for point `i` lead the filter to keep
/// it.
pub open spec fn may_keep<F: Fn(usize) -> PointChecks>(checks: F, i: usize, stride: usize) -> bool {
    exists|c: PointChecks| call_ensures(checks, (i,), c) && outcome_of(i, stride, c) == PointOutcome::Kept
}

/// The checks `checks` may report for point `i` lead the filter to drop
/// it.
pub open spec fn may_drop<F: Fn(usize) -> PointChecks>(checks: F, i: usize, stride: usize) -> bool {
    exists|c: PointChecks| call_ensures(checks, (i,), c) && outcome_of(i, stride, c) != PointOutcome::Kept
}

/// How many of the indices `0..n` are multiples of the stride, that is,
/// how many points of a scan of `n` the stride lets through.
pub open spec fn examined(n: nat, stride: usize) -> nat
    decreases n,
{
    if n == 0 {
        0
    } else {
        examined((n - 1) as nat, stride) + (if ((n - 1) as int) % (spec_stride(stride) as int) == 0 {
            1nat
        } else {
            0nat
        })
    }
}

/// `seen[i]` is what `checks` may report for each point `i` of `seen` that
/// the stride lets through (the entries of the other points are not read).
pub open spec fn reports<F: Fn(usize) -> PointChecks>(checks: F, seen: Seq<PointChecks>, stride: usize) -> bool {
    forall|n: int|
        0 <= n < seen.len() && (n as usize) % spec_stride(stride) == 0 ==> call_ensures(
            checks,
            ((n as usize),),
            #[trigger] seen[n],
        )
}

/// How many points of a scan, whose checks are `seen`, end with outcome
/// `o`.
pub open spec fn outcome_count(seen: Seq<PointChecks>, stride: usize, o: PointOutcome) -> nat
    decreases seen.len(),
{
    if seen.len() == 0 {
        0
    } else {
        let i = seen.len() - 1;
        outcome_count(seen.drop_last(), stride, o) + (if outcome_of(i as usize, stride, seen.last())
            == o {
            1nat
        } else {
            0nat
        })
    }
}

/// The indices, in increasing order, of the points of a scan whose checks
/// are `seen` that the filter keeps.
pub open spec fn kept_indices(seen: Seq<PointChecks>, stride: usize) -> Seq<usize>
    decreases seen.len(),
{
    if seen.len() == 0 {
        Seq::empty()
    } else {
        let i = seen.len() - 1;
        let rest = kept_indices(seen.drop_last(), stride);
        if outcome_of(i as usize, stride, seen.last()) == PointOutcome::Kept {
            rest.push(i as usize)
        } else {
            rest
        }
    }
}

/// Runs the filter over a scan of `total` points.
///
/// Only the points the stride lets through are examined: `checks(i)` is
/// asked for those alone, and says what the floating-point tests found on
/// point `i`. Returns the indices of the points kept, in order, and the
/// counts of what was dropped and why; every point is counted exactly once.
pub fn filter_scan<F: Fn(usize) -> PointChecks>(total: usize, stride: usize, checks: &F) -> (r: (
    Vec<usize>,
    ScanStats,
))
    requires
        forall|i: usize| i < total && i % spec_stride(stride) == 0 ==> call_requires(*checks, (i,)),
    ensures
        r.1.total == total,
        r.1.accounted() == total,
        r.1.skipped_stride == total - examined(total as nat, stride),
        r.1.kept == r.0@.len(),
        forall|j: int| 0 <= j < r.0@.len() ==> r.0@[j] < total,
        forall|j: int, k: int| 0 <= j < k < r.0@.len() ==> r.0@[j] < r.0@[k],
        forall|j: int| 0 <= j < r.0@.len() ==> may_keep(*checks, #[trigger] r.0@[j], stride),
        forall|i: usize|
            i < total && !r.0@.contains(i) && i % spec_stride(stride) == 0 ==> #[trigger] may_drop(
                *checks,
                i,
                stride,
            ),
        exists|seen: Seq<PointChecks>|
            {
                &&& seen.len() == total
                &&& #[trigger] reports(*checks, seen, stride)
                &&& r.0@ == kept_indices(seen, stride)
                &&& r.1.kept == outcome_count(seen, stride, PointOutcome::Kept)
                &&& r.1.skipped_stride == outcome_count(seen, stride, PointOutcome::SkippedStride)
                &&& r.1.non_finite == outcome_count(seen, stride, PointOutcome::NonFinite)
                &&& r.1.below_min_range == outcome_count(seen, stride, PointOutcome::BelowMinRange)
                &&& r.1.outside_height == outcome_count(seen, stride, PointOutcome::OutsideHeight)
            },
{
    let step = effective_stride(stride);
    let mut kept: Vec<usize> = Vec::new();
    let mut stats = ScanStats::with_total(total);
    let ghost mut seen: Seq<PointChecks> = Seq::empty();
    let mut i: usize = 0;
    while i < total
        invariant
            i <= total,
            step == spec_stride(stride),
            forall|n: usize| n < total && n % spec_stride(stride) == 0 ==> call_requires(*checks, (n,)),
            stats.total == total,
            stats.accounted() == i,
            stats.skipped_stride == i - examined(i as nat, stride),
            stats.kept == kept@.len(),
            seen.len() == i,
            forall|j: int| 0 <= j < kept@.len() ==> kept@[j] < i,
            forall|j: int, k: int| 0 <= j < k < kept@.len() ==> kept@[j] < kept@[k],
            forall|n: int|
                0 <= n < i && (n as usize) % spec_stride(stride) == 0 ==> call_ensures(
                    *checks,
                    ((n as usize),),
                    #[trigger] seen[n],
                ),
            forall|j: int|
                0 <= j < kept@.len() ==> (kept@[j] as int) < seen.len() && outcome_of(
                    kept@[j],
                    stride,
                    seen[kept@[j] as int],
                ) == PointOutcome::Kept && kept@[j] % spec_stride(stride) == 0,
            forall|n: usize|
                n < i && n % spec_stride(stride) == 0 && !kept@.contains(n) ==> outcome_of(
                    n,
                    stride,
                    #[trigger] seen[n as int],
                ) != PointOutcome::Kept,
            kept@ == kept_indices(seen, stride),
            stats.kept == outcome_count(seen, stride, PointOutcome::Kept),
            stats.skipped_stride == outcome_count(seen, stride, PointOutcome::SkippedStride),
            stats.non_finite == outcome_count(seen, stride, PointOutcome::NonFinite),
            stats.below_min_range == outcome_count(seen, stride, PointOutcome::BelowMinRange),
            stats.outside_height == outcome_count(seen, stride, PointOutcome::OutsideHeight),
        decreases total - i,
    {
        let ghost before = kept@;
        let ghost prev = seen;
        if i % step != 0 {
            stats.record(PointOutcome::SkippedStride);
            proof {
                seen = seen.push(PointChecks {
                    finite: true,
                    too_close: false,
                    mapped_finite: true,
                    outside_height: false,
                });
            }
        } else {
            let c = checks(i);
            let o = classify(i, stride, c.finite, c.too_close, c.mapped_finite, c.outside_height);
            stats.record(o);
            proof {
                seen = seen.push(c);
            }
            if o == PointOutcome::Kept {
                kept.push(i);
            }
        }
        proof {
            assert(seen.drop_last() =~= prev);
            assert(seen.last() == seen[i as int]);
            assert forall|n: usize|
                n < i + 1 && n % spec_stride(stride) == 0 && !kept@.contains(n) implies outcome_of(
                n,
                stride,
                #[trigger] seen[n as int],
            ) != PointOutcome::Kept by {
                if n < i {
                    if before.contains(n) {
                        let w = choose|w: int| 0 <= w < before.len() && before[w] == n;
                        assert(kept@[w] == n);
                    }
                } else {
                    if outcome_of(n, stride, seen[n as int]) == PointOutcome::Kept {
                        assert(kept@[kept@.len() - 1] == n);
                    }
                }
            }
        }
        i += 1;
    }
    proof {
        assert forall|j: int| 0 <= j < kept@.len() implies may_keep(*checks, #[trigger] kept@[j], stride) by {
            let c = seen[kept@[j] as int];
            assert(call_ensures(*checks, (kept@[j],), c));
        }
        assert forall|n: usize|
            n < total && !kept@.contains(n) && n % spec_stride(stride) == 0 implies #[trigger] may_drop(
                *checks,
                n,
                stride,
            ) by {
            assert(call_ensures(*checks, (n,), seen[n as int]));
        }
        assert(reports(*checks, seen, stride));
    }
    (kept, stats)
}

} // verus!
