//! The normalized deviation statistic, carried exactly.
//!
//! For `hits` observed among `total` samples at candidate rank `rank` over a
//! value space of size `space = 2^block_bits`, the statistic is
//! `z = |total*(p - q)| / sqrt(total*q*(1-q))` with `p = hits/total` and
//! `q = rank/space`.  Clearing denominators, its square is the rational
//! `(hits*space - total*rank)^2 / (total*rank*(space - rank))`, which this
//! module represents exactly as a numerator/denominator pair of
//! arbitrary-precision integers.  Comparing squares compares the statistics,
//! since both are non-negative.

use vstd::prelude::*;
use vstd::arithmetic::power2::{pow2, lemma_pow2};
use vstd::arithmetic::mul::lemma_mul_strictly_positive;
use num_bigint::BigUint;
use crate::bignum::{big_value, big_from_u64, big_from_u128, big_lt, big_mul, big_sub, big_pow};
use crate::errors::AnalysisError;

verus! {

/// The squared deviation statistic as an exact non-negative rational:
/// the value is `num / den`, with `den > 0`.
#[derive(Debug)]
pub struct ZScoreSq {
    pub num: BigUint,
    pub den: BigUint,
}

/// The rational a `ZScoreSq` denotes, as a (numerator, denominator) pair.
pub open spec fn zsq_model(z: ZScoreSq) -> (nat, nat) {
    (big_value(z.num), big_value(z.den))
}

/// The squared distance `(hits*space - total*rank)^2` between the observed
/// and the expected cumulative count, with denominators cleared.
pub open spec fn z_num_spec(hits: nat, rank: nat, total: nat, space: nat) -> nat {
    let a = hits * space;
    let b = total * rank;
    if a >= b {
        ((a - b) * (a - b)) as nat
    } else {
        ((b - a) * (b - a)) as nat
    }
}

/// The cleared denominator `total*rank*(space - rank)` of the squared
/// statistic.  It is positive exactly when the statistic is defined.
pub open spec fn z_den_spec(rank: nat, total: nat, space: nat) -> int {
    total * rank * (space - rank)
}

/// The statistic is degenerate when its denominator vanishes: at rank zero,
/// over an empty sample, or when the rank reaches the whole value space.
pub open spec fn degenerate(rank: nat, total: nat, space: nat) -> bool {
    rank == 0 || total == 0 || rank >= space
}

/// `x/x' > y/y'` over positive-denominator rationals, by cross-multiplication.
pub open spec fn zsq_gt(x: (nat, nat), y: (nat, nat)) -> bool {
    x.0 * y.1 > y.0 * x.1
}

/// Computes the exact squared deviation statistic at a candidate rank, or
/// reports it degenerate.  The value space is `2^block_bits`.
pub fn z_squared(hits: u128, rank: u64, total: u64, block_bits: u32) -> (r: Result<
    ZScoreSq,
    AnalysisError,
>)
    ensures
        r is Ok <==> !degenerate(rank as nat, total as nat, pow2(block_bits as nat)),
        r is Err ==> r == Err::<ZScoreSq, AnalysisError>(AnalysisError::DegenerateStatistic),
        r is Ok ==> {
            let m = zsq_model(r->Ok_0);
            &&& m.0 == z_num_spec(hits as nat, rank as nat, total as nat, pow2(block_bits as nat))
            &&& m.1 == z_den_spec(rank as nat, total as nat, pow2(block_bits as nat))
            &&& m.1 > 0
        },
{
    let ghost space = pow2(block_bits as nat);
    if rank == 0 || total == 0 {
        return Err(AnalysisError::DegenerateStatistic);
    }
    let two = big_from_u64(2);
    let space_big = big_pow(&two, block_bits);
    proof {
        lemma_pow2(block_bits as nat);
        assert(big_value(space_big) == space);
    }
    let rank_big = big_from_u64(rank);
    if !big_lt(&rank_big, &space_big) {
        return Err(AnalysisError::DegenerateStatistic);
    }
    let hits_big = big_from_u128(hits);
    let total_big = big_from_u64(total);
    let observed = big_mul(&hits_big, &space_big);
    let expected = big_mul(&total_big, &rank_big);
    let diff = if big_lt(&observed, &expected) {
        big_sub(&expected, &observed)
    } else {
        big_sub(&observed, &expected)
    };
    let num = big_mul(&diff, &diff);
    let tail = big_sub(&space_big, &rank_big);
    let den = big_mul(&expected, &tail);
    proof {
        lemma_mul_strictly_positive(total as int * rank as int, space - rank as int);
        lemma_mul_strictly_positive(total as int, rank as int);
    }
    Ok(ZScoreSq { num, den })
}

/// A non-degenerate rank has a positive cleared denominator.
pub proof fn lemma_zsq_den_pos(rank: nat, total: nat, space: nat)
    requires
        1 <= rank < space,
        total >= 1,
    ensures
        z_den_spec(rank, total, space) > 0,
{
    lemma_mul_strictly_positive(total as int, rank as int);
    lemma_mul_strictly_positive((total * rank) as int, space - rank);
}

/// Over positive denominators, a statistic strictly above `b` also strictly
/// exceeds anything not above `b`.
pub proof fn lemma_zsq_gt_supersedes(a: (nat, nat), b: (nat, nat), c: (nat, nat))
    requires
        a.1 > 0,
        b.1 > 0,
        c.1 > 0,
        zsq_gt(a, b),
        !zsq_gt(c, b),
    ensures
        zsq_gt(a, c),
{
    assert(a.0 * c.1 > c.0 * a.1) by (nonlinear_arith)
        requires
            a.1 > 0,
            b.1 > 0,
            c.1 > 0,
            a.0 * b.1 > b.0 * a.1,
            c.0 * b.1 <= b.0 * c.1,
    ;
}

/// Whether the left squared statistic strictly exceeds the right one, decided
/// exactly by cross-multiplying the two rationals.
pub fn zsq_greater(x: &ZScoreSq, y: &ZScoreSq) -> (r: bool)
    ensures
        r == zsq_gt(zsq_model(*x), zsq_model(*y)),
{
    let left = big_mul(&y.num, &x.den);
    let right = big_mul(&x.num, &y.den);
    big_lt(&left, &right)
}

} // verus!
