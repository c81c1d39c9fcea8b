//! The convolution engine: applies one square kernel to one pixel plane
//! under a normalization policy, with edge-clamped boundary sampling.
//!
//! Kernel weights are exact rationals: a grid of integer numerators over one
//! shared positive denominator. The accumulated sum for a pixel is therefore
//! an exact integer numerator, and quantization is stated precisely: divide
//! (flooring), apply the policy, clamp to `[0, 255]`.

use vstd::arithmetic::div_mod::{
    lemma_fundamental_div_mod, lemma_fundamental_div_mod_converse_div,
    lemma_fundamental_div_mod_converse_mod, lemma_mod_bound,
};
use vstd::prelude::*;

use crate::plane::{grid_wf, Plane};

verus! {

/// Largest accepted kernel side.
pub const MAX_SIDE: usize = 4096;

/// Largest accepted magnitude of a kernel weight numerator.
pub const WEIGHT_BOUND: i64 = 0x4000000000;

/// Every accumulated numerator stays inside this bound
/// (255 * WEIGHT_BOUND * MAX_SIDE * MAX_SIDE).
pub const ACC_BOUND: i128 = 0x400000000000000000;

/// A square convolution kernel with rational weights: entry `(i, j)` has the
/// value `weights[i][j] / denom`.
pub struct Kernel {
    pub weights: Vec<Vec<i64>>,
    pub denom: i64,
}

/// What is done to a pixel's accumulated rational sum before clamping to
/// `[0, 255]` and truncating to 8 bits.
#[derive(Clone, Copy)]
pub enum Policy {
    /// Pass the sum through unchanged.
    Identity,
    /// Divide the sum by the kernel's own weight sum.
    DivideBySum,
    /// Add a fixed offset, re-centering signed output into unsigned range.
    AddBias(i64),
}

pub open spec fn clamp_i(v: int, lo: int, hi: int) -> int {
    if v < lo {
        lo
    } else if v > hi {
        hi
    } else {
        v
    }
}

/// A well-formed weight grid together with a positive denominator: square,
/// non-empty, bounded side and entries.
pub open spec fn kernel_input_ok(w: Seq<Seq<i64>>, denom: i64) -> bool {
    &&& 1 <= w.len() <= MAX_SIDE
    &&& 1 <= denom
    &&& forall|i: int| 0 <= i < w.len() ==> #[trigger] w[i].len() == w.len()
    &&& forall|i: int, j: int|
        0 <= i < w.len() && 0 <= j < w.len() ==> -WEIGHT_BOUND <= #[trigger] w[i][j]
            <= WEIGHT_BOUND
}

/// Edge-clamped sampling: an out-of-range coordinate is replaced by the
/// nearest valid one (replicate-border).
pub open spec fn sample(g: Seq<Seq<u8>>, y: int, x: int) -> int {
    let yy = clamp_i(y, 0, g.len() - 1);
    let xx = clamp_i(x, 0, g[yy].len() - 1);
    g[yy][xx] as int
}

/// The `i`-th addend of a pixel's convolution sum, counting kernel cells
/// row-major: weight numerator times the edge-clamped sample under it.
pub open spec fn conv_term(g: Seq<Seq<u8>>, w: Seq<Seq<i64>>, y: int, x: int, i: int) -> int {
    let side = w.len() as int;
    let radius = side / 2;
    let ky = i / side;
    let kx = i % side;
    (w[ky][kx] as int) * sample(g, y + ky - radius, x + kx - radius)
}

/// The convolution sum over the first `n` kernel cells (row-major).
pub open spec fn conv_acc_upto(g: Seq<Seq<u8>>, w: Seq<Seq<i64>>, y: int, x: int, n: nat) -> int
    decreases n,
{
    if n == 0 {
        0
    } else {
        conv_acc_upto(g, w, y, x, (n - 1) as nat) + conv_term(g, w, y, x, n - 1)
    }
}

/// The full accumulated numerator for output pixel `(y, x)`.
pub open spec fn conv_acc(g: Seq<Seq<u8>>, w: Seq<Seq<i64>>, y: int, x: int) -> int {
    conv_acc_upto(g, w, y, x, (w.len() * w.len()) as nat)
}

/// The sum of the first `n` weight numerators (row-major).
pub open spec fn wsum_upto(w: Seq<Seq<i64>>, n: nat) -> int
    decreases n,
{
    if n == 0 {
        0
    } else {
        let side = w.len() as int;
        wsum_upto(w, (n - 1) as nat) + (w[(n - 1) as int / side][(n - 1) as int % side] as int)
    }
}

/// The total of all weight numerators.
pub open spec fn weight_sum(w: Seq<Seq<i64>>) -> int {
    wsum_upto(w, (w.len() * w.len()) as nat)
}

/// Clamp a flooring quotient into the 8-bit range.
pub open spec fn quantize(num: int, den: int) -> int {
    clamp_i(num / den, 0, 255)
}

/// The policy applied to an accumulated numerator `acc` over denominator
/// `denom`. `wsum` is the kernel's weight-numerator total, so dividing by the
/// kernel's rational weight sum `wsum/denom` divides the rational value
/// `acc/denom` by it, leaving `acc/wsum`.
pub open spec fn normalize(acc: int, denom: int, wsum: int, policy: Policy) -> int {
    match policy {
        Policy::Identity => quantize(acc, denom),
        Policy::DivideBySum => quantize(acc, wsum),
        Policy::AddBias(b) => clamp_i(acc / denom + b, 0, 255),
    }
}

/// The value of output pixel `(y, x)` of a convolution.
pub open spec fn conv_pixel(
    g: Seq<Seq<u8>>,
    w: Seq<Seq<i64>>,
    denom: int,
    policy: Policy,
    y: int,
    x: int,
) -> int {
    normalize(conv_acc(g, w, y, x), denom, weight_sum(w), policy)
}

/// The whole output plane of a convolution, pixel by pixel.
pub open spec fn conv_grid(g: Seq<Seq<u8>>, w: Seq<Seq<i64>>, denom: int, policy: Policy) -> Seq<
    Seq<u8>,
> {
    Seq::new(
        g.len(),
        |y: int| Seq::new(g[y].len(), |x: int| conv_pixel(g, w, denom, policy, y, x) as u8),
    )
}

impl Kernel {
    /// The weight numerators as a mathematical grid.
    pub open spec fn weights_view(&self) -> Seq<Seq<i64>> {
        self.weights@.map_values(|r: Vec<i64>| r@)
    }

    pub open spec fn spec_side(&self) -> int {
        self.weights_view().len() as int
    }

    pub open spec fn wf(&self) -> bool {
        kernel_input_ok(self.weights_view(), self.denom)
    }

    /// Builds a kernel; `None` exactly when the grid is not square and
    /// non-empty, a weight is out of bounds, the side is too large, or the
    /// denominator is not positive.
    pub fn new(weights: Vec<Vec<i64>>, denom: i64) -> (res: Option<Kernel>)
        ensures
            res is Some <==> kernel_input_ok(weights@.map_values(|r: Vec<i64>| r@), denom),
            res is Some ==> {
                &&& res.unwrap().wf()
                &&& res.unwrap().weights_view() == weights@.map_values(|r: Vec<i64>| r@)
                &&& res.unwrap().denom == denom
            },
    {
        let ghost m = weights@.map_values(|r: Vec<i64>| r@);
        proof {
            assert(m.len() == weights@.len());
            assert(forall|i: int| 0 <= i < m.len() ==> #[trigger] m[i] == weights@[i]@);
        }
        let side = weights.len();
        if side == 0 || side > MAX_SIDE || denom < 1 {
            return None;
        }
        for i in 0..side
            invariant
                side == weights@.len(),
                m == weights@.map_values(|r: Vec<i64>| r@),
                m.len() == side,
                forall|k: int| 0 <= k < m.len() ==> #[trigger] m[k] == weights@[k]@,
                forall|k: int| 0 <= k < i ==> #[trigger] m[k].len() == side,
                forall|k: int, j: int|
                    0 <= k < i && 0 <= j < side ==> -WEIGHT_BOUND <= #[trigger] m[k][j]
                        <= WEIGHT_BOUND,
        {
            if weights[i].len() != side {
                proof {
                    assert(m[i as int].len() != side);
                }
                return None;
            }
            for j in 0..side
                invariant
                    side == weights@.len(),
                    m == weights@.map_values(|r: Vec<i64>| r@),
                    m.len() == side,
                    i < side,
                    m[i as int].len() == side,
                    forall|k: int| 0 <= k < m.len() ==> #[trigger] m[k] == weights@[k]@,
                    forall|k: int| 0 <= k < i ==> #[trigger] m[k].len() == side,
                    forall|k: int, jj: int|
                        0 <= k < i && 0 <= jj < side ==> -WEIGHT_BOUND <= #[trigger] m[k][jj]
                            <= WEIGHT_BOUND,
                    forall|jj: int|
                        0 <= jj < j ==> -WEIGHT_BOUND <= #[trigger] m[i as int][jj] <= WEIGHT_BOUND,
            {
                let v = weights[i][j];
                if v < -WEIGHT_BOUND || v > WEIGHT_BOUND {
                    proof {
                        assert(m[i as int][j as int] == v);
                    }
                    return None;
                }
                proof {
                    assert(m[i as int][j as int] == v);
                }
            }
        }
        let k = Kernel { weights, denom };
        Some(k)
    }

    pub fn side(&self) -> (s: usize)
        requires
            self.wf(),
        ensures
            s == self.spec_side(),
    {
        self.weights.len()
    }

    /// The total of the weight numerators, accumulated row-major.
    pub fn weight_total(&self) -> (s: i64)
        requires
            self.wf(),
        ensures
            s == weight_sum(self.weights_view()),
    {
        let ghost w = self.weights_view();
        let side = self.weights.len();
        let mut s: i64 = 0;
        let mut n: usize = 0;
        proof {
            assert((0int) * (side as int) == 0) by (nonlinear_arith);
        }
        for ky in 0..side
            invariant
                self.wf(),
                w == self.weights_view(),
                side == w.len(),
                n == ky * side,
                n <= side * side,
                s == wsum_upto(w, n as nat),
                -0x4000000000 * n <= s as int <= 0x4000000000 * n,
        {
            proof {
                assert(ky * side + side <= side * side) by (nonlinear_arith)
                    requires (ky as int) < (side as int);
            }
            for kx in 0..side
                invariant
                    self.wf(),
                    w == self.weights_view(),
                    side == w.len(),
                    ky < side,
                    n == ky * side + kx,
                    n + side - kx <= side * side,
                    s == wsum_upto(w, n as nat),
                    -0x4000000000 * n <= s as int <= 0x4000000000 * n,
            {
                proof {
                    lemma_flat_index(side as int, ky as int, kx as int);
                    assert(w[ky as int] == self.weights@[ky as int]@);
                    assert(n + 1 <= side * side);
                    assert(side * side <= 16777216) by (nonlinear_arith)
                        requires (side as int) <= 4096;
                    assert(-0x4000000000000000 <= 0x4000000000 * ((n + 1) as int)
                        <= 0x4000000000000000) by (nonlinear_arith)
                        requires 0 <= n + 1 <= 16777216;
                }
                let v = self.weights[ky][kx];
                proof {
                    assert(v == w[ky as int][kx as int]);
                }
                s = s + v;
                n = n + 1;
            }
            proof {
                assert((ky + 1) * side == ky * side + side) by (nonlinear_arith);
            }
        }
        s
    }
}

/// `n = ky * side + kx` with `kx < side` decomposes as `n / side == ky`,
/// `n % side == kx`.
pub(crate) proof fn lemma_flat_index(side: int, ky: int, kx: int)
    requires
        1 <= side,
        0 <= ky,
        0 <= kx < side,
    ensures
        (ky * side + kx) / side == ky,
        (ky * side + kx) % side == kx,
{
    lemma_fundamental_div_mod_converse_div(ky * side + kx, side, ky, kx);
    lemma_fundamental_div_mod_converse_mod(ky * side + kx, side, ky, kx);
}

/// `0 <= i < side * side` implies `0 <= i / side < side`.
pub(crate) proof fn lemma_div_bound(i: int, side: int)
    requires
        1 <= side,
        0 <= i < side * side,
    ensures
        0 <= i / side < side,
        0 <= i % side < side,
{
    lemma_fundamental_div_mod(i, side);
    lemma_mod_bound(i, side);
    assert(i / side < side) by (nonlinear_arith)
        requires
            i == side * (i / side) + i % side,
            0 <= i % side,
            i < side * side,
            side >= 1,
    ;
    assert(i / side >= 0) by (nonlinear_arith)
        requires
            i == side * (i / side) + i % side,
            i % side < side,
            i >= 0,
            side >= 1,
    ;
}

/// Each convolution addend is bounded by `255 * b` when every weight is
/// bounded by `b`, so the partial sum is bounded by `255 * b * n`.
pub proof fn lemma_conv_acc_upto_bound(
    g: Seq<Seq<u8>>,
    w: Seq<Seq<i64>>,
    y: int,
    x: int,
    n: nat,
    b: int,
)
    requires
        1 <= w.len(),
        n <= w.len() * w.len(),
        g.len() >= 1,
        forall|i: int| 0 <= i < g.len() ==> #[trigger] g[i].len() >= 1,
        0 <= b,
        forall|i: int, j: int|
            0 <= i < w.len() && 0 <= j < w.len() ==> -b <= #[trigger] w[i][j] <= b,
    ensures
        -(255 * b * n) <= conv_acc_upto(g, w, y, x, n) <= 255 * b * n,
    decreases n,
{
    if n > 0 {
        lemma_conv_acc_upto_bound(g, w, y, x, (n - 1) as nat, b);
        let side = w.len() as int;
        let i = (n - 1) as int;
        assert(i < side * side) by (nonlinear_arith)
            requires
                i + 1 <= w.len() * w.len(),
                side == w.len() as int,
        ;
        lemma_div_bound(i, side);
        let ky = i / side;
        let kx = i % side;
        let s = sample(g, y + ky - side / 2, x + kx - side / 2);
        assert(0 <= s <= 255) by {
            let yy = clamp_i(y + ky - side / 2, 0, g.len() - 1);
            assert(0 <= yy < g.len());
        }
        assert(-(255 * b) <= (w[ky][kx] as int) * s <= 255 * b) by (nonlinear_arith)
            requires
                -b <= w[ky][kx] <= b,
                0 <= s <= 255,
                0 <= b,
        ;
        assert(255 * b * (n as int) == 255 * b * (n - 1) + 255 * b) by (nonlinear_arith);
        assert(-(255 * b * (n as int)) == -(255 * b * (n - 1)) + -(255 * b)) by (nonlinear_arith);
    } else {
        assert(255 * b * 0 == 0) by (nonlinear_arith);
    }
}

/// Flooring division of a signed accumulator by a positive divisor:
/// rounds toward negative infinity, as the mathematical `/` does.
fn floor_div(a: i128, d: i128) -> (q: i128)
    requires
        1 <= d <= 0x7fffffffffffffff,
        -ACC_BOUND - 0x10000000000000000 <= a <= ACC_BOUND + 0x10000000000000000,
    ensures
        q == (a as int) / (d as int),
{
    if a >= 0 {
        let q = (a as u128) / (d as u128);
        q as i128
    } else {
        let m = (-a) as u128;
        let dd = d as u128;
        let qc = (m + dd - 1) / dd;
        proof {
            let mi = m as int;
            let di = d as int;
            let qi = (mi + di - 1) / di;
            lemma_fundamental_div_mod(mi + di - 1, di);
            lemma_mod_bound(mi + di - 1, di);
            assert(di * qi <= mi + di - 1 && mi + di - 1 < di * qi + di);
            assert(mi <= di * qi) by (nonlinear_arith)
                requires mi + di - 1 < di * qi + di;
            assert(0 <= di * qi - mi < di);
            assert(-mi == (-qi) * di + (di * qi - mi)) by (nonlinear_arith);
            lemma_fundamental_div_mod_converse_div(-mi, di, -qi, di * qi - mi);
            assert((-mi) / di == -qi);
        }
        -(qc as i128)
    }
}

/// Clamp into `[0, 255]` and truncate to 8 bits.
fn clamp_u8(q: i128) -> (v: u8)
    ensures
        v as int == clamp_i(q as int, 0, 255),
{
    if q < 0 {
        0
    } else if q > 255 {
        255
    } else {
        q as u8
    }
}

/// Applies a policy to an accumulated numerator and quantizes.
fn normalize_val(acc: i128, denom: i64, wsum: i64, policy: Policy) -> (v: u8)
    requires
        1 <= denom,
        policy is DivideBySum ==> 1 <= wsum,
        -ACC_BOUND <= acc <= ACC_BOUND,
    ensures
        v as int == normalize(acc as int, denom as int, wsum as int, policy),
{
    match policy {
        Policy::Identity => clamp_u8(floor_div(acc, denom as i128)),
        Policy::DivideBySum => clamp_u8(floor_div(acc, wsum as i128)),
        Policy::AddBias(b) => {
            let q = floor_div(acc, denom as i128);
            proof {
                lemma_div_magnitude(acc as int, denom as int);
            }
            clamp_u8(q + b as i128)
        },
    }
}

/// The magnitude of a flooring quotient never exceeds the magnitude of the
/// dividend (positive divisor).
proof fn lemma_div_magnitude(a: int, d: int)
    requires
        1 <= d,
        -ACC_BOUND <= a <= ACC_BOUND,
    ensures
        -ACC_BOUND <= a / d <= ACC_BOUND,
{
    lemma_fundamental_div_mod(a, d);
    lemma_mod_bound(a, d);
    assert(-ACC_BOUND <= a / d <= ACC_BOUND) by (nonlinear_arith)
        requires
            a == d * (a / d) + a % d,
            0 <= a % d < d,
            -ACC_BOUND <= a <= ACC_BOUND,
            1 <= d,
    ;
}

/// Edge-clamped accumulation for one output pixel: the exact integer
/// numerator of the convolution sum.
pub(crate) fn conv_acc_at(plane: &Plane, kernel: &Kernel, y: usize, x: usize) -> (acc: i128)
    requires
        plane.wf(),
        kernel.wf(),
        y < plane.spec_height(),
        x < plane.spec_width(),
    ensures
        acc == conv_acc(plane.view(), kernel.weights_view(), y as int, x as int),
        -ACC_BOUND <= acc <= ACC_BOUND,
{
    let ghost g = plane.view();
    let ghost w = kernel.weights_view();
    proof {
        assert(plane.data@.len() == g.len());
        assert(g[0] == plane.data@[0]@);
        assert(kernel.weights@.len() == w.len());
    }
    let h = plane.data.len();
    let wd = plane.data[0].len();
    let side = kernel.weights.len();
    let radius = side / 2;
    let mut acc: i128 = 0;
    let mut n: usize = 0;
    proof {
        assert((0int) * (side as int) == 0) by (nonlinear_arith);
        lemma_conv_acc_upto_bound(g, w, y as int, x as int, 0, WEIGHT_BOUND as int);
    }
    for ky in 0..side
        invariant
            plane.wf(),
            kernel.wf(),
            y < plane.spec_height(),
            x < plane.spec_width(),
            g == plane.view(),
            w == kernel.weights_view(),
            h == g.len(),
            wd == g[0].len(),
            side == w.len(),
            radius == side / 2,
            n == ky * side,
            n <= side * side,
            acc == conv_acc_upto(g, w, y as int, x as int, n as nat),
            -ACC_BOUND <= acc <= ACC_BOUND,
    {
        proof {
            assert(ky * side + side <= side * side) by (nonlinear_arith)
                requires (ky as int) < (side as int);
        }
        for kx in 0..side
            invariant
                plane.wf(),
                kernel.wf(),
                y < plane.spec_height(),
                x < plane.spec_width(),
                g == plane.view(),
                w == kernel.weights_view(),
                h == g.len(),
                wd == g[0].len(),
                side == w.len(),
                radius == side / 2,
                ky < side,
                n == ky * side + kx,
                n + side - kx <= side * side,
                acc == conv_acc_upto(g, w, y as int, x as int, n as nat),
                -ACC_BOUND <= acc <= ACC_BOUND,
        {
            let yi = y as i64 + ky as i64 - radius as i64;
            let xi = x as i64 + kx as i64 - radius as i64;
            let yy: usize = if yi < 0 {
                0
            } else if yi > (h - 1) as i64 {
                h - 1
            } else {
                yi as usize
            };
            let xx: usize = if xi < 0 {
                0
            } else if xi > (wd - 1) as i64 {
                wd - 1
            } else {
                xi as usize
            };
            proof {
                assert(plane.data@.len() == g.len());
                assert(g[yy as int] == plane.data@[yy as int]@);
                assert(g[yy as int].len() == wd);
                assert(kernel.weights@.len() == w.len());
                assert(w[ky as int] == kernel.weights@[ky as int]@);
                assert(w[ky as int].len() == side);
            }
            let pv = plane.data[yy][xx];
            let wv = kernel.weights[ky][kx];
            proof {
                lemma_flat_index(side as int, ky as int, kx as int);
                assert(yy as int == clamp_i(yi as int, 0, g.len() - 1));
                assert(xx as int == clamp_i(xi as int, 0, g[yy as int].len() - 1));
                assert(pv as int == sample(g, yi as int, xi as int));
                assert(conv_term(g, w, y as int, x as int, n as int) == (wv as int) * (pv as int));
                assert(-(255 * (WEIGHT_BOUND as int)) <= (wv as int) * (pv as int) <= 255 * (
                WEIGHT_BOUND as int)) by (nonlinear_arith)
                    requires
                        -WEIGHT_BOUND <= wv <= WEIGHT_BOUND,
                        0 <= pv <= 255,
                ;
                assert(n + 1 <= side * side);
                assert(side * side <= 16777216) by (nonlinear_arith)
                    requires (side as int) <= 4096;
                lemma_conv_acc_upto_bound(g, w, y as int, x as int, (n + 1) as nat,
                    WEIGHT_BOUND as int);
                assert(-ACC_BOUND <= 255 * (WEIGHT_BOUND as int) * ((n + 1) as int)
                    <= ACC_BOUND) by (nonlinear_arith)
                    requires
                        0 <= n + 1 <= 16777216 && WEIGHT_BOUND == 0x4000000000
                            && ACC_BOUND == 0x400000000000000000;
                assert(-(255 * (WEIGHT_BOUND as int) * ((n + 1) as int))
                    >= -ACC_BOUND);
            }
            acc = acc + (wv as i128) * (pv as i128);
            n = n + 1;
        }
        proof {
            assert((ky + 1) * side == ky * side + side) by (nonlinear_arith);
        }
    }
    acc
}

/// Convolves `plane` with `kernel` under `policy`, sampling with edge
/// clamping. The output has the input's dimensions, and each output pixel is
/// exactly the quantized, policy-adjusted convolution sum.
pub fn apply(plane: &Plane, kernel: &Kernel, policy: Policy) -> (out: Plane)
    requires
        plane.wf(),
        kernel.wf(),
        policy is DivideBySum ==> weight_sum(kernel.weights_view()) >= 1,
    ensures
        out.wf(),
        out.spec_height() == plane.spec_height(),
        out.spec_width() == plane.spec_width(),
        out.view() == conv_grid(plane.view(), kernel.weights_view(), kernel.denom as int, policy),
{
    let ghost g = plane.view();
    let ghost w = kernel.weights_view();
    proof {
        assert(plane.data@.len() == g.len());
        assert(g[0] == plane.data@[0]@);
    }
    let h = plane.data.len();
    let wd = plane.data[0].len();
    let wsum = kernel.weight_total();
    let mut data: Vec<Vec<u8>> = Vec::new();
    for y in 0..h
        invariant
            plane.wf(),
            kernel.wf(),
            policy is DivideBySum ==> weight_sum(w) >= 1,
            g == plane.view(),
            w == kernel.weights_view(),
            h == g.len(),
            wd == g[0].len(),
            wsum == weight_sum(w),
            data@.len() == y,
            forall|yy: int|
                0 <= yy < y ==> #[trigger] data@[yy]@ == conv_grid(
                    g,
                    w,
                    kernel.denom as int,
                    policy,
                )[yy],
    {
        let mut row: Vec<u8> = Vec::new();
        for x in 0..wd
            invariant
                plane.wf(),
                kernel.wf(),
                policy is DivideBySum ==> weight_sum(w) >= 1,
                g == plane.view(),
                w == kernel.weights_view(),
                h == g.len(),
                wd == g[0].len(),
                wsum == weight_sum(w),
                y < h,
                row@.len() == x,
                forall|xx: int|
                    0 <= xx < x ==> #[trigger] row@[xx] as int == conv_pixel(
                        g,
                        w,
                        kernel.denom as int,
                        policy,
                        y as int,
                        xx,
                    ),
        {
            let acc = conv_acc_at(plane, kernel, y, x);
            let v = normalize_val(acc, kernel.denom, wsum, policy);
            row.push(v);
        }
        proof {
            assert(g[y as int].len() == wd);
            let crow = conv_grid(g, w, kernel.denom as int, policy)[y as int];
            assert forall|xx: int| 0 <= xx < wd implies row@[xx] == crow[xx] by {
                assert(0 <= conv_pixel(g, w, kernel.denom as int, policy, y as int, xx) <= 255);
            }
            assert(row@ =~= crow);
        }
        data.push(row);
    }
    let out = Plane { data };
    proof {
        assert(out.view() =~~= conv_grid(g, w, kernel.denom as int, policy));
        assert(out.view()[0].len() == g[0].len());
        assert forall|i: int| 0 <= i < g.len() implies #[trigger] out.view()[i].len()
            == g[0].len() by {
            assert(out.view()[i] == conv_grid(g, w, kernel.denom as int, policy)[i]);
            assert(g[i].len() == g[0].len());
        }
        assert(grid_wf(out.view(), g.len() as int, g[0].len() as int));
    }
    out
}

} // verus!
