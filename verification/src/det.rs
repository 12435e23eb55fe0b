//! Which states a long integration records.
//!
//! An integration over many steps keeps at most about `MAX_POINTS` states:
//! every step advances the state, and every `stride`-th state is recorded.
//! The steps themselves compute with real numbers and are the caller's.

use vstd::prelude::*;

verus! {

/// The number of recorded states that a run aims at.
pub const MAX_POINTS: usize = 100000;

/// The number of steps from one recorded state to the next, for a run of
/// `steps` steps.
pub open spec fn stride_of(steps: int) -> int {
    if steps / (MAX_POINTS as int) >= 1 {
        steps / (MAX_POINTS as int)
    } else {
        1
    }
}

/// The number of states that a run of `steps` steps records with the given
/// stride: those before step 0, `stride`, twice `stride` and so on.
pub open spec fn recorded_among(steps: int, stride: int) -> int
    decreases steps,
{
    if steps <= 0 || stride <= 0 {
        0
    } else {
        recorded_among(steps - 1, stride) + if (steps - 1) % stride == 0 {
            1int
        } else {
            0int
        }
    }
}

/// The number of steps from one recorded state to the next.
pub fn stride(steps: usize) -> (r: usize)
    ensures
        r == stride_of(steps as int),
        r >= 1,
{
    let ratio = steps / MAX_POINTS;
    if ratio >= 1 {
        ratio
    } else {
        1
    }
}

/// Whether the state before the step with this number is recorded.
pub fn records(step: usize, stride: usize) -> (r: bool)
    requires
        stride >= 1,
    ensures
        r == (step % stride == 0),
{
    step % stride == 0
}

/// A run records one state for every `stride` steps, the last ones counted
/// in full.
pub proof fn lemma_recorded_among(steps: int, stride: int)
    requires
        steps >= 0,
        stride >= 1,
    ensures
        recorded_among(steps, stride) == (steps + stride - 1) / stride,
    decreases steps,
{
    if steps > 0 {
        lemma_recorded_among(steps - 1, stride);
        let q = (steps - 1) / stride;
        let m = (steps - 1) % stride;
        assert(steps - 1 == q * stride + m && 0 <= m < stride) by (nonlinear_arith)
            requires
                q == (steps - 1) / stride,
                m == (steps - 1) % stride,
                stride >= 1,
        ;
        if m == 0 {
            assert((steps - 1 + stride - 1) / stride == q) by (nonlinear_arith)
                requires
                    steps - 1 == q * stride,
                    stride >= 1,
            ;
            assert((steps + stride - 1) / stride == q + 1) by (nonlinear_arith)
                requires
                    steps - 1 == q * stride,
                    stride >= 1,
            ;
        } else {
            assert((steps - 1 + stride - 1) / stride == q + 1) by (nonlinear_arith)
                requires
                    steps - 1 == q * stride + m,
                    0 < m < stride,
            ;
            assert((steps + stride - 1) / stride == q + 1) by (nonlinear_arith)
                requires
                    steps - 1 == q * stride + m,
                    0 < m < stride,
            ;
        }
    } else {
        assert((stride - 1) / stride == 0) by (nonlinear_arith)
            requires
                stride >= 1,
        ;
    }
}

/// However long the run, it records fewer than twice `MAX_POINTS` states,
/// and never more than it has steps.
pub proof fn lemma_recorded_is_bounded(steps: int)
    requires
        steps >= 0,
    ensures
        recorded_among(steps, stride_of(steps)) <= steps,
        recorded_among(steps, stride_of(steps)) < 2 * MAX_POINTS,
{
    let d = stride_of(steps);
    lemma_recorded_among(steps, d);
    let cap = MAX_POINTS as int;
    if steps / cap >= 1 {
        let r = steps % cap;
        assert(steps == d * cap + r && 0 <= r < cap) by (nonlinear_arith)
            requires
                d == steps / cap,
                r == steps % cap,
                cap == 100000,
        ;
        assert((steps + d - 1) / d < 2 * cap) by (nonlinear_arith)
            requires
                steps == d * cap + r,
                0 <= r < cap,
                d >= 1,
                cap == 100000,
        ;
        assert((steps + d - 1) / d <= steps) by (nonlinear_arith)
            requires
                steps >= 1,
                d >= 1,
        ;
    } else {
        assert(steps < cap) by (nonlinear_arith)
            requires
                steps / cap < 1,
                steps >= 0,
                cap == 100000,
        ;
        assert((steps + 1 - 1) / 1 == steps);
    }
}

} // verus!
