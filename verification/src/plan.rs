//! The segment planner: how the range above the base range is cut into
//! segments, and which worker each segment belongs to.

use vstd::prelude::*;
use vstd::arithmetic::div_mod::{lemma_fundamental_div_mod, lemma_mod_pos_bound};
use crate::error::EngineError;
use crate::roots::{floor_sqrt, lemma_floor_sqrt_bounds};

verus! {

/// A half-open range `[lo, hi)` of candidates, and the index of the worker that sieves it.
#[derive(Clone, Copy, Debug, PartialEq, Eq, Structural)]
pub struct Segment {
    /// The first candidate of the segment.
    pub lo: u64,
    /// One past the last candidate of the segment.
    pub hi: u64,
    /// The worker that the segment is assigned to.
    pub worker: usize,
}

/// The number of segments of width `width` that `[width, n)` is cut into:
/// `(n - width) / width`, rounded up. No segment is planned for a width of zero.
pub open spec fn segment_count(n: int, width: int) -> int {
    if width <= 0 || n <= width {
        0
    } else {
        (n - 1) / width
    }
}

/// Where segment `j` starts.
pub open spec fn planned_lo(width: int, j: int) -> int {
    (j + 1) * width
}

/// Where segment `j` ends: one width after its start, but never beyond `n`.
pub open spec fn planned_hi(n: int, width: int, j: int) -> int {
    if (j + 2) * width <= n {
        (j + 2) * width
    } else {
        n
    }
}

/// Whether `x` lies in segment `j` of the plan.
pub open spec fn in_planned_segment(n: int, width: int, j: int, x: int) -> bool {
    planned_lo(width, j) <= x < planned_hi(n, width, j)
}

/// `segments` is the plan for `[width, n)` with `worker_count` workers: the segments
/// in increasing order, handed out to the workers round-robin.
pub open spec fn is_plan(segments: Seq<Segment>, n: int, width: int, worker_count: int) -> bool {
    &&& segments.len() == segment_count(n, width)
    &&& forall|j: int|
        0 <= j < segments.len() ==> {
            &&& (#[trigger] segments[j]).lo == planned_lo(width, j)
            &&& segments[j].hi == planned_hi(n, width, j)
            &&& segments[j].worker == j % worker_count
        }
}

/// Segment `j` belongs to the plan exactly when it starts below `n`.
pub proof fn lemma_segment_exists(n: int, width: int, j: int)
    requires
        width >= 1,
        j >= 0,
    ensures
        j < segment_count(n, width) <==> planned_lo(width, j) < n,
{
    let lo = (j + 1) * width;
    assert(lo >= width) by (nonlinear_arith)
        requires
            lo == (j + 1) * width,
            j >= 0,
            width >= 1,
    ;
    if n > width {
        let q = (n - 1) / width;
        let r = (n - 1) % width;
        lemma_fundamental_div_mod(n - 1, width);
        lemma_mod_pos_bound(n - 1, width);
        if j < q {
            assert((j + 1) * width <= width * q) by (nonlinear_arith)
                requires
                    j + 1 <= q,
                    width >= 1,
            ;
        } else {
            assert((j + 1) * width >= width * q + width) by (nonlinear_arith)
                requires
                    j + 1 >= q + 1,
                    width >= 1,
            ;
        }
    }
}

/// The shape of a planned segment: it is not empty, lies in `[width, n)`, is at
/// most `width` wide, and the next one starts where it ends.
pub proof fn lemma_segment_shape(n: int, width: int, j: int)
    requires
        width >= 1,
        0 <= j < segment_count(n, width),
    ensures
        width <= planned_lo(width, j) < planned_hi(n, width, j) <= n,
        planned_hi(n, width, j) - planned_lo(width, j) <= width,
        planned_lo(width, 0) == width,
        j + 1 < segment_count(n, width) ==> planned_hi(n, width, j) == planned_lo(width, j + 1),
        j + 1 == segment_count(n, width) ==> planned_hi(n, width, j) == n,
{
    lemma_segment_exists(n, width, j);
    lemma_segment_exists(n, width, j + 1);
    assert((j + 1) * width >= width) by (nonlinear_arith)
        requires
            j >= 0,
            width >= 1,
    ;
    assert((j + 2) * width == (j + 1) * width + width) by (nonlinear_arith);
    assert((0 + 1) * width == width) by (nonlinear_arith);
}

/// Coverage: every `x` in `[width, n)` lies in exactly one planned segment, the one
/// with index `x / width - 1`, and no `x` below `width` lies in any.
pub proof fn lemma_plan_covers(n: int, width: int, x: int)
    requires
        width >= 1,
        0 <= x < n,
    ensures
        forall|j: int|
            0 <= j < segment_count(n, width) ==> (#[trigger] in_planned_segment(n, width, j, x) <==> (
            x >= width && j == x / width - 1)),
        x >= width ==> 0 <= x / width - 1 < segment_count(n, width),
{
    let q = x / width;
    lemma_fundamental_div_mod(x, width);
    lemma_mod_pos_bound(x, width);
    if x >= width {
        if q < 1 {
            assert(width * q <= 0) by (nonlinear_arith)
                requires
                    q <= 0,
                    width >= 1,
            ;
        }
        assert((q - 1 + 1) * width <= x) by (nonlinear_arith)
            requires
                x == width * q + x % width,
                x % width >= 0,
        ;
        lemma_segment_exists(n, width, q - 1);
    }
    assert forall|j: int| 0 <= j < segment_count(n, width) implies (#[trigger] in_planned_segment(
        n,
        width,
        j,
        x,
    ) <==> (x >= width && j == q - 1)) by {
        lemma_segment_shape(n, width, j);
        if j + 1 <= q - 1 {
            assert((j + 2) * width <= width * q) by (nonlinear_arith)
                requires
                    j + 2 <= q,
                    width >= 1,
            ;
        }
        if j >= q {
            assert((j + 1) * width >= width * q + width) by (nonlinear_arith)
                requires
                    j + 1 >= q + 1,
                    width >= 1,
            ;
        }
        if j == q - 1 {
            assert((j + 1) * width == width * q) by (nonlinear_arith)
                requires
                    j + 1 == q,
            ;
            assert((j + 2) * width == width * q + width) by (nonlinear_arith)
                requires
                    j + 1 == q,
            ;
        }
    }
}

/// Coverage with the engine's own width, the integer square root of `n`: the base
/// range `[0, width)` and the planned segments cover `[0, n)` with no gap and no overlap.
pub proof fn lemma_engine_plan_covers(n: nat, x: int)
    requires
        0 <= x < n,
    ensures
        ({
            let width = floor_sqrt(n) as int;
            &&& x < width ==> forall|j: int|
                0 <= j < segment_count(n as int, width) ==> !#[trigger] in_planned_segment(
                    n as int,
                    width,
                    j,
                    x,
                )
            &&& x >= width ==> {
                &&& 0 <= x / width - 1 < segment_count(n as int, width)
                &&& forall|j: int|
                    0 <= j < segment_count(n as int, width) ==> (#[trigger] in_planned_segment(
                        n as int,
                        width,
                        j,
                        x,
                    ) <==> j == x / width - 1)
            }
        }),
{
    lemma_floor_sqrt_bounds(n);
    let width = floor_sqrt(n) as int;
    if width == 0 {
        assert((0 + 1) * (0 + 1) == 1) by (nonlinear_arith);
    }
    lemma_plan_covers(n as int, width, x);
}

/// With the engine's own width there are at most `width + 1` segments.
pub proof fn lemma_engine_plan_length(n: nat)
    ensures
        segment_count(n as int, floor_sqrt(n) as int) <= floor_sqrt(n) + 1,
{
    lemma_floor_sqrt_bounds(n);
    let width = floor_sqrt(n) as int;
    if width >= 1 && n > width {
        let j = width + 1;
        assert((j + 1) * width >= n) by (nonlinear_arith)
            requires
                n < (width + 1) * (width + 1),
                j == width + 1,
                width >= 1,
        ;
        lemma_segment_exists(n as int, width, j);
    }
}

/// Cuts `[segment_width, n)` into segments of width `segment_width`, the last one
/// clipped to `n`, and assigns segment `j` to worker `j % worker_count`.
///
/// Asking for no worker is refused. The plan is a vector, so its length has to fit in `usize`.
pub fn plan(n: u64, segment_width: u64, worker_count: usize) -> (planned: Result<
    Vec<Segment>,
    EngineError,
>)
    requires
        segment_count(n as int, segment_width as int) <= usize::MAX,
    ensures
        worker_count == 0 ==> (planned matches Err(e) && e == EngineError::InvalidWorkerCount),
        worker_count > 0 ==> (planned matches Ok(segments) && is_plan(
            segments@,
            n as int,
            segment_width as int,
            worker_count as int,
        )),
{
    if worker_count == 0 {
        return Err(EngineError::InvalidWorkerCount);
    }
    let mut segments: Vec<Segment> = Vec::new();
    if segment_width == 0 || n <= segment_width {
        return Ok(segments);
    }
    let mut lo: u64 = segment_width;
    let mut more: bool = true;
    proof {
        assert((0 + 1) * segment_width == segment_width) by (nonlinear_arith);
        lemma_segment_exists(n as int, segment_width as int, 0);
    }
    while more
        invariant
            segment_width >= 1,
            worker_count > 0,
            n > segment_width,
            segment_count(n as int, segment_width as int) <= usize::MAX,
            segments.len() <= segment_count(n as int, segment_width as int),
            more ==> segments.len() < segment_count(n as int, segment_width as int),
            !more ==> segments.len() == segment_count(n as int, segment_width as int),
            more ==> lo == planned_lo(segment_width as int, segments.len() as int),
            forall|j: int|
                0 <= j < segments.len() ==> {
                    &&& (#[trigger] segments[j]).lo == planned_lo(segment_width as int, j)
                    &&& segments[j].hi == planned_hi(n as int, segment_width as int, j)
                    &&& segments[j].worker == j % (worker_count as int)
                },
        decreases
                segment_count(n as int, segment_width as int) - segments.len() + if more {
                    1int
                } else {
                    0int
                },
    {
        let ghost j = segments.len() as int;
        proof {
            lemma_segment_shape(n as int, segment_width as int, j);
            lemma_segment_exists(n as int, segment_width as int, j + 1);
            assert((j + 2) * segment_width == (j + 1) * segment_width + segment_width)
                by (nonlinear_arith);
        }
        let worker: usize = segments.len() % worker_count;
        if n - lo > segment_width {
            let hi: u64 = lo + segment_width;
            segments.push(Segment { lo, hi, worker });
            lo = hi;
        } else {
            segments.push(Segment { lo, hi: n, worker });
            more = false;
        }
    }
    Ok(segments)
}

} // verus!
