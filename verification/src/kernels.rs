//! The kernel factory: box, Gaussian, and the four fixed emboss kernels.
//!
//! Weights are exact rationals (integer numerators over one denominator).
//! The Gaussian bell is evaluated in fixed-point arithmetic with unit
//! `SCALE`: the unnormalized weight of a cell at squared distance `d2` from
//! the center is `SCALE * SCALE / exp_fix(9 * d2, 2 * r * r)`, where
//! `exp_fix(a, b)` is a truncated fixed-point power series for
//! `SCALE * exp(a / b)` (the Gaussian exponent is `d2 / (2 * sigma^2)` with
//! `sigma = r / 3`). The kernel's denominator is then the exact sum of its
//! numerators, so the weights of every Gaussian kernel sum to exactly one.

use vstd::arithmetic::div_mod::{
    lemma_div_is_ordered, lemma_div_is_ordered_by_denominator, lemma_div_multiples_vanish,
    lemma_div_of0, lemma_div_pos_is_pos,
};
use vstd::prelude::*;

use crate::engine::{kernel_input_ok, lemma_div_bound, wsum_upto, Kernel, WEIGHT_BOUND};
use crate::gradient::row3;

verus! {

/// The fixed-point unit of the Gaussian evaluation.
pub const SCALE: i64 = 1048576;

/// Number of power-series terms kept by `exp_fix`.
pub const EXP_TERMS: usize = 48;

/// A cap on every power-series term; far above any value the series reaches
/// for the admitted inputs, it only serves to keep the arithmetic bounded.
pub const TERM_CAP: i64 = 0x4000000000000;

/// Largest accepted blur radius.
pub const MAX_RADIUS: usize = 2000;

/// The errors the filter core exposes.
#[derive(Clone, Copy, Debug, PartialEq, Eq, Structural)]
pub enum FilterError {
    /// A radius of zero was passed to box or Gaussian kernel generation.
    InvalidRadius,
    /// An attempt to combine planes of unequal dimensions.
    DimensionMismatch,
}

/// The four fixed emboss kernel shapes.
#[derive(Clone, Copy, Debug, PartialEq, Eq, Structural)]
pub enum EmbossKind {
    Left,
    Right,
    Edge,
    Application,
}

/// The `k`-th term of the truncated fixed-point series for
/// `SCALE * exp(a / b)`: term 0 is `SCALE`, and each further term is the
/// previous one times `a / (b * k)`, in flooring integer arithmetic,
/// capped at `TERM_CAP`.
pub open spec fn exp_term(a: int, b: int, k: nat) -> int
    decreases k,
{
    if k == 0 {
        SCALE as int
    } else {
        let t = (exp_term(a, b, (k - 1) as nat) * a) / (b * k);
        if t > TERM_CAP as int {
            TERM_CAP as int
        } else {
            t
        }
    }
}

/// The sum of the first `n` series terms.
pub open spec fn exp_sum(a: int, b: int, n: nat) -> int
    decreases n,
{
    if n == 0 {
        0
    } else {
        exp_sum(a, b, (n - 1) as nat) + exp_term(a, b, (n - 1) as nat)
    }
}

/// The truncated fixed-point exponential: `SCALE * exp(a / b)`, approximately.
pub open spec fn exp_fix(a: int, b: int) -> int {
    exp_sum(a, b, EXP_TERMS as nat)
}

/// Squared distance of cell `(y, x)` from the kernel center `(r, r)`.
pub open spec fn gauss_dist2(r: int, y: int, x: int) -> int {
    (y - r) * (y - r) + (x - r) * (x - r)
}

/// The box kernel grid: side `2 * r`, all numerators 1.
pub open spec fn box_weights(r: int) -> Seq<Seq<i64>> {
    Seq::new((2 * r) as nat, |y: int| Seq::new((2 * r) as nat, |x: int| 1i64))
}

/// The unnormalized fixed-point Gaussian weight of cell `(y, x)`:
/// `SCALE * SCALE` divided by the fixed-point exponential of the cell's
/// Gaussian exponent `9 * d2 / (2 * r * r)` (from `sigma = r / 3`).
pub open spec fn gauss_weight(r: int, y: int, x: int) -> int {
    1099511627776int / exp_fix(9 * gauss_dist2(r, y, x), 2 * r * r)
}

/// The Gaussian kernel grid for radius `r`: side `2 * r + 1`, each cell its
/// fixed-point bell value.
pub open spec fn gauss_grid(r: int) -> Seq<Seq<i64>> {
    Seq::new(
        (2 * r + 1) as nat,
        |y: int| Seq::new((2 * r + 1) as nat, |x: int| gauss_weight(r, y, x) as i64),
    )
}

/// Every series term lies in `[0, TERM_CAP]`.
proof fn lemma_exp_term_bounds(a: int, b: int, k: nat)
    requires
        0 <= a,
        1 <= b,
    ensures
        0 <= exp_term(a, b, k) <= TERM_CAP as int,
    decreases k,
{
    if k > 0 {
        lemma_exp_term_bounds(a, b, (k - 1) as nat);
        let t0 = exp_term(a, b, (k - 1) as nat);
        assert(t0 * a >= 0) by (nonlinear_arith)
            requires t0 >= 0 && a >= 0;
        assert(b * k >= 1) by (nonlinear_arith)
            requires b >= 1 && k >= 1;
        lemma_div_pos_is_pos(t0 * a, b * k as int);
    }
}

/// The series sum over `n` nonnegative terms is nonnegative and at most
/// `n * TERM_CAP`; from one term on it is at least `SCALE` (term 0).
proof fn lemma_exp_sum_bounds(a: int, b: int, n: nat)
    requires
        0 <= a,
        1 <= b,
    ensures
        0 <= exp_sum(a, b, n),
        exp_sum(a, b, n) <= (TERM_CAP as int) * n,
        n >= 1 ==> exp_sum(a, b, n) >= SCALE as int,
    decreases n,
{
    if n > 0 {
        lemma_exp_sum_bounds(a, b, (n - 1) as nat);
        lemma_exp_term_bounds(a, b, (n - 1) as nat);
        assert((TERM_CAP as int) * (n as int) == (TERM_CAP as int) * (n - 1) + TERM_CAP as int)
            by (nonlinear_arith);
    } else {
        assert((TERM_CAP as int) * 0 == 0) by (nonlinear_arith);
    }
}

/// With numerator zero, every term after the first is zero, so the series is
/// exactly `SCALE`.
proof fn lemma_exp_term_zero(b: int, k: nat)
    requires
        1 <= b,
        1 <= k,
    ensures
        exp_term(0, b, k) == 0,
    decreases k,
{
    let t0 = exp_term(0, b, (k - 1) as nat);
    assert(t0 * 0 == 0) by (nonlinear_arith);
    assert(b * k >= 1) by (nonlinear_arith)
        requires b >= 1 && k >= 1;
    lemma_div_of0(b * k as int);
}

proof fn lemma_exp_sum_zero(b: int, n: nat)
    requires
        1 <= b,
        1 <= n,
    ensures
        exp_sum(0, b, n) == SCALE as int,
    decreases n,
{
    if n == 1 {
        assert(exp_sum(0, b, 1) == exp_sum(0, b, 0) + exp_term(0, b, 0));
    } else {
        lemma_exp_sum_zero(b, (n - 1) as nat);
        lemma_exp_term_zero(b, (n - 1) as nat);
    }
}

/// The fixed-point exponential of the admitted inputs, by the power series.
fn exp_fixed(a: u64, b: u64) -> (e: u64)
    requires
        1 <= b <= 8000000,
        a <= 9 * b,
    ensures
        e as int == exp_fix(a as int, b as int),
        SCALE as int <= e as int,
{
    let mut sum: u64 = 0;
    let mut term: u64 = 1048576;
    let mut k: usize = 0;
    proof {
        assert((0x4000000000000 as int) * 0 == 0) by (nonlinear_arith);
    }
    while k < EXP_TERMS
        invariant
            1 <= b <= 8000000,
            a <= 9 * b,
            k <= EXP_TERMS,
            term as int == exp_term(a as int, b as int, k as nat),
            term <= 0x4000000000000,
            sum as int == exp_sum(a as int, b as int, k as nat),
            sum <= 0x4000000000000 * k,
            k >= 1 ==> sum >= 1048576,
        decreases EXP_TERMS - k,
    {
        sum = sum + term;
        proof {
            let ti = term as int;
            let ai = a as int;
            let bi = b as int;
            let ki = k as int;
            assert(bi * (ki + 1) <= 8000000 * 49) by (nonlinear_arith)
                requires bi <= 8000000 && 1 <= ki + 1 <= 49;
            assert(bi * (ki + 1) >= 1) by (nonlinear_arith)
                requires bi >= 1 && ki + 1 >= 1;
            assert(bi <= bi * (ki + 1)) by (nonlinear_arith)
                requires bi >= 1 && ki + 1 >= 1;
            assert(ti * ai >= 0) by (nonlinear_arith)
                requires ti >= 0 && ai >= 0;
            assert(ti * ai <= bi * (9 * ti)) by (nonlinear_arith)
                requires ai <= 9 * bi && ti >= 0 && bi >= 1;
            lemma_div_is_ordered_by_denominator(ti * ai, bi, bi * (ki + 1));
            lemma_div_is_ordered(ti * ai, bi * (9 * ti), bi);
            lemma_div_multiples_vanish(9 * ti, bi);
            assert((ti * ai) / (bi * (ki + 1)) <= 9 * ti);
            lemma_div_pos_is_pos(ti * ai, bi * (ki + 1));
            assert(ti * ai <= 0x90000000000000000000) by (nonlinear_arith)
                requires 0 <= ti <= 0x4000000000000 && 0 <= ai <= 72000000;
        }
        let div = b * (k as u64 + 1);
        let t2 = (((term as u128) * (a as u128)) / (div as u128)) as u64;
        term = if t2 > 0x4000000000000 {
            0x4000000000000
        } else {
            t2
        };
        k = k + 1;
    }
    proof {
        lemma_exp_sum_bounds(a as int, b as int, EXP_TERMS as nat);
    }
    sum
}

/// One unnormalized Gaussian weight numerator: the fixed-point bell value of
/// cell `(y, x)` in the kernel for `radius`.
fn gauss_weight_at(radius: usize, y: usize, x: usize) -> (wv: i64)
    requires
        1 <= radius <= MAX_RADIUS,
        y < 2 * radius + 1,
        x < 2 * radius + 1,
    ensures
        wv as int == gauss_weight(radius as int, y as int, x as int),
        0 <= wv <= SCALE,
{
    let dy = if y >= radius {
        y - radius
    } else {
        radius - y
    };
    let dx = if x >= radius {
        x - radius
    } else {
        radius - x
    };
    proof {
        assert(dy * dy <= 4000000 && dx * dx <= 4000000) by (nonlinear_arith)
            requires dy <= 2000 && dx <= 2000;
        assert((dy * dy) as int == (y - radius) * (y - radius)) by (nonlinear_arith)
            requires
                dy == if y >= radius { (y - radius) as int } else { (radius - y) as int },
        ;
        assert((dx * dx) as int == (x - radius) * (x - radius)) by (nonlinear_arith)
            requires
                dx == if x >= radius { (x - radius) as int } else { (radius - x) as int },
        ;
        assert((dy * dy) as int <= (radius as int) * (radius as int)) by (nonlinear_arith)
            requires dy <= radius;
        assert((dx * dx) as int <= (radius as int) * (radius as int)) by (nonlinear_arith)
            requires dx <= radius;
    }
    let d2 = dy * dy + dx * dx;
    let a = 9 * (d2 as u64);
    proof {
        assert(2 * (radius as int) * (radius as int) <= 8000000) by (nonlinear_arith)
            requires radius <= 2000;
        assert(2 * (radius as int) * (radius as int) >= 2) by (nonlinear_arith)
            requires radius >= 1;
        assert(9 * (d2 as int) <= 9 * (2 * (radius as int) * (radius as int))) by (nonlinear_arith)
            requires
                (dy * dy) as int <= (radius as int) * (radius as int),
                (dx * dx) as int <= (radius as int) * (radius as int),
                d2 == dy * dy + dx * dx,
        ;
    }
    let b = 2 * (radius as u64) * (radius as u64);
    let e = exp_fixed(a, b);
    proof {
        lemma_div_is_ordered_by_denominator(1099511627776, SCALE as int, e as int);
        assert(1048576 * 1048576 == 1099511627776) by (nonlinear_arith);
        lemma_div_multiples_vanish(1048576, 1048576);
        lemma_div_pos_is_pos(1099511627776, e as int);
        assert(a as int == 9 * gauss_dist2(radius as int, y as int, x as int));
        assert(b as int == 2 * (radius as int) * (radius as int));
    }
    let q = (1099511627776u128 / (e as u128)) as u64;
    q as i64
}

/// `wsum_upto` of a grid of nonnegative entries is nonnegative.
proof fn lemma_wsum_nonneg(w: Seq<Seq<i64>>, n: nat)
    requires
        1 <= w.len(),
        n <= w.len() * w.len(),
        forall|p: int, q: int|
            0 <= p < w.len() && 0 <= q < w.len() ==> #[trigger] w[p][q] >= 0,
    ensures
        wsum_upto(w, n) >= 0,
    decreases n,
{
    if n > 0 {
        lemma_wsum_nonneg(w, (n - 1) as nat);
        let side = w.len() as int;
        assert(((n - 1) as int) < side * side) by (nonlinear_arith)
            requires
                n <= w.len() * w.len(),
                side == w.len() as int,
        ;
        lemma_div_bound((n - 1) as int, side);
    }
}

/// `wsum_upto` of a grid of nonnegative entries dominates any single entry
/// already added.
proof fn lemma_wsum_entry_lower(w: Seq<Seq<i64>>, n: nat, i: int)
    requires
        1 <= w.len(),
        n <= w.len() * w.len(),
        0 <= i < n,
        forall|p: int, q: int|
            0 <= p < w.len() && 0 <= q < w.len() ==> #[trigger] w[p][q] >= 0,
    ensures
        wsum_upto(w, n) >= w[i / (w.len() as int)][i % (w.len() as int)],
    decreases n,
{
    let side = w.len() as int;
    assert(((n - 1) as int) < side * side) by (nonlinear_arith)
        requires
            n <= w.len() * w.len(),
            side == w.len() as int,
    ;
    lemma_div_bound((n - 1) as int, side);
    if i == n - 1 {
        lemma_wsum_nonneg(w, (n - 1) as nat);
    } else {
        lemma_wsum_entry_lower(w, (n - 1) as nat, i);
    }
}

/// Builds one row of `side` copies of a value.
fn uniform_row(side: usize, v: i64) -> (r: Vec<i64>)
    ensures
        r@.len() == side,
        forall|j: int| 0 <= j < side ==> #[trigger] r@[j] == v,
{
    let mut row: Vec<i64> = Vec::new();
    for j in 0..side
        invariant
            row@.len() == j,
            forall|jj: int| 0 <= jj < j ==> #[trigger] row@[jj] == v,
    {
        row.push(v);
    }
    row
}

/// `wsum_upto` of an all-ones grid counts its cells.
pub(crate) proof fn lemma_wsum_ones(w: Seq<Seq<i64>>, n: nat)
    requires
        1 <= w.len(),
        n <= w.len() * w.len(),
        forall|p: int, q: int|
            0 <= p < w.len() && 0 <= q < w.len() ==> #[trigger] w[p][q] == 1,
    ensures
        wsum_upto(w, n) == n,
    decreases n,
{
    if n > 0 {
        lemma_wsum_ones(w, (n - 1) as nat);
        let side = w.len() as int;
        assert(((n - 1) as int) < side * side) by (nonlinear_arith)
            requires
                n <= w.len() * w.len(),
                side == w.len() as int,
        ;
        lemma_div_bound((n - 1) as int, side);
    }
}

/// The box kernel for a positive radius: side `2 * radius` (even, by the
/// engine's asymmetric centering convention), every weight exactly
/// `1 / (2 * radius)^2`. A radius of zero is rejected.
pub fn box_kernel(radius: usize) -> (res: Result<Kernel, FilterError>)
    requires
        radius <= MAX_RADIUS,
    ensures
        res is Ok <==> 1 <= radius,
        radius == 0 ==> res == Err::<Kernel, FilterError>(FilterError::InvalidRadius),
        res is Ok ==> {
            let k = res.unwrap();
            &&& k.wf()
            &&& k.spec_side() == 2 * radius
            &&& k.denom as int == 4 * radius * radius
            &&& forall|y: int, x: int|
                0 <= y < 2 * radius && 0 <= x < 2 * radius ==> #[trigger] k.weights_view()[y][x]
                    == 1i64
            &&& k.weights_view() == box_weights(radius as int)
            &&& crate::engine::weight_sum(k.weights_view()) == k.denom as int
        },
{
    if radius == 0 {
        return Err(FilterError::InvalidRadius);
    }
    let side = 2 * radius;
    let mut weights: Vec<Vec<i64>> = Vec::new();
    for i in 0..side
        invariant
            side == 2 * radius,
            radius <= MAX_RADIUS,
            weights@.len() == i,
            forall|p: int| 0 <= p < i ==> #[trigger] weights@[p]@.len() == side,
            forall|p: int, q: int|
                0 <= p < i && 0 <= q < side ==> #[trigger] weights@[p]@[q] == 1i64,
    {
        weights.push(uniform_row(side, 1));
    }
    proof {
        assert(4 * (radius as int) * (radius as int) == (2 * radius as int) * (2 * radius as int))
            by (nonlinear_arith);
        assert((2 * radius as int) * (2 * radius as int) <= 16000000) by (nonlinear_arith)
            requires radius <= 2000;
        assert((2 * radius as int) * (2 * radius as int) >= 4) by (nonlinear_arith)
            requires radius >= 1;
    }
    let denom = (2 * radius as i64) * (2 * radius as i64);
    let k = Kernel { weights, denom };
    proof {
        let w = k.weights_view();
        assert(w.len() == side);
        assert(forall|p: int| 0 <= p < side ==> #[trigger] w[p] == k.weights@[p]@);
        assert(forall|p: int| 0 <= p < side ==> #[trigger] w[p].len() == side);
        assert(forall|p: int, q: int|
            0 <= p < side && 0 <= q < side ==> #[trigger] w[p][q] == 1i64);
        assert(kernel_input_ok(w, denom));
        assert(side * side == (2 * radius as int) * (2 * radius as int)) by (nonlinear_arith)
            requires side == 2 * radius as int;
        lemma_wsum_ones(w, (w.len() * w.len()) as nat);
        assert(w =~~= box_weights(radius as int));
    }
    Ok(k)
}

/// The Gaussian kernel for a positive radius: side `2 * radius + 1`, each
/// cell holding the fixed-point bell value for its squared distance from the
/// center, the denominator being the exact sum of all numerators: the
/// kernel's rational weights sum to exactly one. A radius of zero is
/// rejected.
pub fn gaussian(radius: usize) -> (res: Result<Kernel, FilterError>)
    requires
        radius <= MAX_RADIUS,
    ensures
        res is Ok <==> 1 <= radius,
        radius == 0 ==> res == Err::<Kernel, FilterError>(FilterError::InvalidRadius),
        res is Ok ==> {
            let k = res.unwrap();
            &&& k.wf()
            &&& k.spec_side() == 2 * radius + 1
            &&& forall|y: int, x: int|
                0 <= y < 2 * radius + 1 && 0 <= x < 2 * radius + 1
                    ==> #[trigger] k.weights_view()[y][x] as int == gauss_weight(
                    radius as int,
                    y,
                    x,
                )
            &&& k.weights_view() == gauss_grid(radius as int)
            &&& crate::engine::weight_sum(k.weights_view()) == k.denom as int
            &&& SCALE as int <= k.denom as int
        },
{
    if radius == 0 {
        return Err(FilterError::InvalidRadius);
    }
    let side = 2 * radius + 1;
    let mut weights: Vec<Vec<i64>> = Vec::new();
    for y in 0..side
        invariant
            side == 2 * radius + 1,
            1 <= radius <= MAX_RADIUS,
            weights@.len() == y,
            forall|p: int| 0 <= p < y ==> #[trigger] weights@[p]@.len() == side,
            forall|p: int, q: int|
                0 <= p < y && 0 <= q < side ==> 0 <= #[trigger] weights@[p]@[q] <= SCALE,
            forall|p: int, q: int|
                0 <= p < y && 0 <= q < side ==> #[trigger] weights@[p]@[q] as int == gauss_weight(
                    radius as int,
                    p,
                    q,
                ),
    {
        let mut row: Vec<i64> = Vec::new();
        for x in 0..side
            invariant
                side == 2 * radius + 1,
                1 <= radius <= MAX_RADIUS,
                y < side,
                row@.len() == x,
                forall|q: int| 0 <= q < x ==> 0 <= #[trigger] row@[q] <= SCALE,
                forall|q: int|
                    0 <= q < x ==> #[trigger] row@[q] as int == gauss_weight(
                        radius as int,
                        y as int,
                        q,
                    ),
        {
            row.push(gauss_weight_at(radius, y, x));
        }
        weights.push(row);
    }
    let k0 = Kernel { weights, denom: 1 };
    proof {
        let w = k0.weights_view();
        assert(w.len() == side);
        assert(forall|p: int| 0 <= p < side ==> #[trigger] w[p] == k0.weights@[p]@);
        assert(forall|p: int| 0 <= p < side ==> #[trigger] w[p].len() == side);
        assert(forall|p: int, q: int|
            0 <= p < side && 0 <= q < side ==> 0 <= #[trigger] w[p][q] <= SCALE);
        assert(kernel_input_ok(w, 1));
    }
    let total = k0.weight_total();
    proof {
        let w = k0.weights_view();
        let sidei = side as int;
        // The center cell holds exactly SCALE: its exponent numerator is 0.
        assert(((radius as int) - (radius as int)) * ((radius as int) - (radius as int)) == 0)
            by (nonlinear_arith);
        assert(gauss_dist2(radius as int, radius as int, radius as int) == 0);
        assert(2 * (radius as int) * (radius as int) >= 2) by (nonlinear_arith)
            requires radius >= 1;
        lemma_exp_sum_zero(2 * (radius as int) * (radius as int), EXP_TERMS as nat);
        assert(9 * 0 == 0) by (nonlinear_arith);
        assert(exp_fix(0, 2 * (radius as int) * (radius as int)) == SCALE as int);
        assert(1048576 * 1048576 == 1099511627776) by (nonlinear_arith);
        lemma_div_multiples_vanish(1048576, 1048576);
        assert(gauss_weight(radius as int, radius as int, radius as int) == SCALE as int);
        // The total dominates the center cell.
        let ci = (radius as int) * sidei + (radius as int);
        assert(0 <= ci && ci < sidei * sidei && ci / sidei == radius as int && ci % sidei
            == radius as int) by {
            crate::engine::lemma_flat_index(sidei, radius as int, radius as int);
            assert((radius as int) * sidei + (radius as int) < sidei * sidei) by (nonlinear_arith)
                requires (radius as int) < sidei && sidei >= 1;
            assert((radius as int) * sidei >= 0) by (nonlinear_arith)
                requires (radius as int) >= 0 && sidei >= 0;
        }
        assert(sidei * sidei >= ci + 1);
        lemma_wsum_entry_lower(w, (w.len() * w.len()) as nat, ci);
        assert(total as int >= SCALE as int);
    }
    proof {
        let w = k0.weights_view();
        assert forall|p: int| 0 <= p < side implies #[trigger] w[p] =~= gauss_grid(
            radius as int,
        )[p] by {
            assert forall|q: int| 0 <= q < side implies #[trigger] w[p][q] == gauss_grid(
                radius as int,
            )[p][q] by {
                assert(w[p][q] as int == gauss_weight(radius as int, p, q));
                assert(0 <= w[p][q] <= SCALE);
            }
        }
        assert(w =~~= gauss_grid(radius as int));
    }
    let Kernel { weights, denom: _ } = k0;
    let k = Kernel { weights, denom: total };
    Ok(k)
}

/// The literal weight table of each emboss variant.
pub open spec fn emboss_weights(kind: EmbossKind) -> Seq<Seq<i64>> {
    match kind {
        EmbossKind::Left => seq![
            seq![0i64, 0i64, -1i64],
            seq![0i64, 0i64, 0i64],
            seq![1i64, 0i64, 0i64],
        ],
        EmbossKind::Right => seq![
            seq![-1i64, 0i64, 0i64],
            seq![0i64, 0i64, 0i64],
            seq![0i64, 0i64, 1i64],
        ],
        EmbossKind::Edge => seq![
            seq![-1i64, 0i64, 0i64, 0i64, 0i64],
            seq![0i64, -1i64, 0i64, 0i64, 0i64],
            seq![0i64, 0i64, 0i64, 0i64, 0i64],
            seq![0i64, 0i64, 0i64, 1i64, 0i64],
            seq![0i64, 0i64, 0i64, 0i64, 1i64],
        ],
        EmbossKind::Application => seq![
            seq![-2i64, -1i64, 0i64],
            seq![-1i64, 1i64, 1i64],
            seq![0i64, 1i64, 2i64],
        ],
    }
}

/// A row of five weights.
fn row5(a: i64, b: i64, c: i64, d: i64, e: i64) -> (r: Vec<i64>)
    ensures
        r@ == seq![a, b, c, d, e],
{
    let mut v: Vec<i64> = Vec::new();
    v.push(a);
    v.push(b);
    v.push(c);
    v.push(d);
    v.push(e);
    proof {
        assert(v@ =~= seq![a, b, c, d, e]);
    }
    v
}

/// The emboss weight tables are well formed (square, small entries).
proof fn lemma_emboss_weights_ok(kind: EmbossKind)
    ensures
        kernel_input_ok(emboss_weights(kind), 1),
{
    let w = emboss_weights(kind);
    match kind {
        EmbossKind::Edge => {
            assert forall|i: int| 0 <= i < w.len() implies #[trigger] w[i].len() == w.len() by {
                if i == 0 {
                } else if i == 1 {
                } else if i == 2 {
                } else if i == 3 {
                }
            }
            assert forall|i: int, j: int|
                0 <= i < w.len() && 0 <= j < w.len() implies -WEIGHT_BOUND <= #[trigger] w[i][j]
                <= WEIGHT_BOUND by {
                if i == 0 {
                } else if i == 1 {
                } else if i == 2 {
                } else if i == 3 {
                }
            }
        },
        _ => {
            assert forall|i: int| 0 <= i < w.len() implies #[trigger] w[i].len() == w.len() by {
                if i == 0 {
                } else if i == 1 {
                }
            }
            assert forall|i: int, j: int|
                0 <= i < w.len() && 0 <= j < w.len() implies -WEIGHT_BOUND <= #[trigger] w[i][j]
                <= WEIGHT_BOUND by {
                if i == 0 {
                } else if i == 1 {
                }
            }
        },
    }
}

/// The fixed emboss kernel of the chosen variant, with denominator 1.
pub fn emboss(kind: EmbossKind) -> (k: Kernel)
    ensures
        k.wf(),
        k.denom == 1,
        k.weights_view() == emboss_weights(kind),
{
    let weights: Vec<Vec<i64>> = match kind {
        EmbossKind::Left => {
            let mut w: Vec<Vec<i64>> = Vec::new();
            w.push(row3(0, 0, -1));
            w.push(row3(0, 0, 0));
            w.push(row3(1, 0, 0));
            w
        },
        EmbossKind::Right => {
            let mut w: Vec<Vec<i64>> = Vec::new();
            w.push(row3(-1, 0, 0));
            w.push(row3(0, 0, 0));
            w.push(row3(0, 0, 1));
            w
        },
        EmbossKind::Edge => {
            let mut w: Vec<Vec<i64>> = Vec::new();
            w.push(row5(-1, 0, 0, 0, 0));
            w.push(row5(0, -1, 0, 0, 0));
            w.push(row5(0, 0, 0, 0, 0));
            w.push(row5(0, 0, 0, 1, 0));
            w.push(row5(0, 0, 0, 0, 1));
            w
        },
        EmbossKind::Application => {
            let mut w: Vec<Vec<i64>> = Vec::new();
            w.push(row3(-2, -1, 0));
            w.push(row3(-1, 1, 1));
            w.push(row3(0, 1, 2));
            w
        },
    };
    let k = Kernel { weights, denom: 1 };
    proof {
        assert(k.weights_view() =~~= emboss_weights(kind));
        lemma_emboss_weights_ok(kind);
    }
    k
}

} // verus!
