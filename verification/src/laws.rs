//! Laws of the convolution engine, stated and proved over the spec model:
//! the identity kernel changes nothing, any kernel under the add-bias policy
//! maps an all-zero plane to the constant bias, and Sobel maps any
//! constant-valued plane to all zeros.

use vstd::arithmetic::div_mod::{lemma_div_multiples_vanish, lemma_div_of0};
use vstd::prelude::*;

use crate::engine::{
    clamp_i, conv_acc, conv_acc_upto, conv_grid, conv_pixel, conv_term, lemma_div_bound,
    lemma_flat_index, sample, weight_sum, wsum_upto, Policy,
};
use crate::gradient::{sobel_pixel, sobel_x_weights, sobel_y_weights, sqrt_floor};
use crate::kernels::{box_weights, lemma_wsum_ones};
use crate::plane::grid_wf;

verus! {

/// The 1x1 identity kernel: a single weight of one.
pub open spec fn identity_weights() -> Seq<Seq<i64>> {
    seq![seq![1i64]]
}

/// Law: convolving any plane with the 1x1 identity kernel over denominator 1
/// under the pass-through policy returns every pixel unchanged.
pub proof fn lemma_identity_convolution(g: Seq<Seq<u8>>, h: int, w: int, y: int, x: int)
    requires
        grid_wf(g, h, w),
        1 <= h,
        1 <= w,
        0 <= y < h,
        0 <= x < w,
    ensures
        conv_pixel(g, identity_weights(), 1, Policy::Identity, y, x) == g[y][x],
{
    let kw = identity_weights();
    assert(kw[0] == seq![1i64]);
    assert(kw.len() == 1);
    assert((1 as nat) * (1 as nat) == 1) by (nonlinear_arith);
    assert(0int * 1 == 0) by (nonlinear_arith);
    lemma_flat_index(1, 0, 0);
    assert(0int * 2 == 0) by (nonlinear_arith);
    assert(1int / 2 == 0) by {
        vstd::arithmetic::div_mod::lemma_fundamental_div_mod_converse_div(1, 2, 0, 1);
    }
    assert(sample(g, y, x) == g[y][x]) by {
        assert(clamp_i(y, 0, g.len() - 1) == y);
        assert(g[y].len() == w);
        assert(clamp_i(x, 0, g[y].len() - 1) == x);
    }
    assert(conv_term(g, kw, y, x, 0) == 1 * sample(g, y, x));
    assert(1 * sample(g, y, x) == sample(g, y, x)) by (nonlinear_arith);
    assert(conv_acc_upto(g, kw, y, x, 1) == conv_acc_upto(g, kw, y, x, 0) + conv_term(
        g,
        kw,
        y,
        x,
        0,
    ));
    assert(conv_acc(g, kw, y, x) == conv_acc_upto(g, kw, y, x, (kw.len() * kw.len()) as nat));
    assert(conv_acc(g, kw, y, x) == g[y][x]);
    let v = g[y][x] as int;
    assert(v / 1 == v) by {
        vstd::arithmetic::div_mod::lemma_div_basics(v);
    }
    assert(clamp_i(v, 0, 255) == v);
}

/// Law, plane form: the identity convolution reproduces the whole grid.
pub proof fn lemma_identity_convolution_grid(g: Seq<Seq<u8>>, h: int, w: int)
    requires
        grid_wf(g, h, w),
        1 <= h,
        1 <= w,
    ensures
        conv_grid(g, identity_weights(), 1, Policy::Identity) == g,
{
    let out = conv_grid(g, identity_weights(), 1, Policy::Identity);
    assert forall|y: int| 0 <= y < h implies #[trigger] out[y] =~= g[y] by {
        assert(g[y].len() == w);
        assert forall|x: int| 0 <= x < w implies #[trigger] out[y][x] == g[y][x] by {
            lemma_identity_convolution(g, h, w, y, x);
        }
    }
    assert(out =~~= g);
}

/// The convolution sum over an all-zero plane is zero, whatever the kernel.
proof fn lemma_conv_acc_zero_plane(g: Seq<Seq<u8>>, w: Seq<Seq<i64>>, y: int, x: int, n: nat)
    requires
        1 <= w.len(),
        n <= w.len() * w.len(),
        g.len() >= 1,
        forall|i: int| 0 <= i < g.len() ==> #[trigger] g[i].len() >= 1,
        forall|i: int, j: int|
            0 <= i < g.len() && 0 <= j < g[i].len() ==> #[trigger] g[i][j] == 0,
    ensures
        conv_acc_upto(g, w, y, x, n) == 0,
    decreases n,
{
    if n > 0 {
        lemma_conv_acc_zero_plane(g, w, y, x, (n - 1) as nat);
        let side = w.len() as int;
        let i = (n - 1) as int;
        assert(i < side * side) by (nonlinear_arith)
            requires
                i + 1 <= w.len() * w.len(),
                side == w.len() as int,
        ;
        lemma_div_bound(i, side);
        let ky = i / side;
        let kx = i % side;
        let yy = clamp_i(y + ky - side / 2, 0, g.len() - 1);
        assert(0 <= yy < g.len());
        let xx = clamp_i(x + kx - side / 2, 0, g[yy].len() - 1);
        assert(0 <= xx < g[yy].len());
        assert(sample(g, y + ky - side / 2, x + kx - side / 2) == 0);
        assert((w[ky][kx] as int) * 0 == 0) by (nonlinear_arith);
    }
}

/// Law: convolving an all-zero plane with any kernel under `AddBias(bias)`
/// yields the bias at every pixel (for any bias in the 8-bit range): the
/// kernel's signed contributions sum to zero on a flat zero image and only
/// the bias remains.
pub proof fn lemma_bias_on_zero_plane(
    g: Seq<Seq<u8>>,
    h: int,
    wd: int,
    w: Seq<Seq<i64>>,
    denom: int,
    bias: int,
    y: int,
    x: int,
)
    requires
        grid_wf(g, h, wd),
        1 <= h,
        1 <= wd,
        forall|i: int, j: int|
            0 <= i < g.len() && 0 <= j < g[i].len() ==> #[trigger] g[i][j] == 0,
        1 <= w.len(),
        1 <= denom,
        0 <= bias <= 255,
        0 <= y < h,
        0 <= x < wd,
    ensures
        conv_pixel(g, w, denom, Policy::AddBias(bias as i64), y, x) == bias,
{
    assert(forall|i: int| 0 <= i < g.len() ==> #[trigger] g[i].len() >= 1);
    lemma_conv_acc_zero_plane(g, w, y, x, (w.len() * w.len()) as nat);
    lemma_div_of0(denom);
    assert(clamp_i(0 + bias, 0, 255) == bias);
}

/// The convolution sum over a constant plane is the constant times the
/// kernel's weight total.
proof fn lemma_conv_acc_const_plane(
    g: Seq<Seq<u8>>,
    w: Seq<Seq<i64>>,
    c: u8,
    y: int,
    x: int,
    n: nat,
)
    requires
        1 <= w.len(),
        n <= w.len() * w.len(),
        g.len() >= 1,
        forall|i: int| 0 <= i < g.len() ==> #[trigger] g[i].len() >= 1,
        forall|i: int, j: int|
            0 <= i < g.len() && 0 <= j < g[i].len() ==> #[trigger] g[i][j] == c,
    ensures
        conv_acc_upto(g, w, y, x, n) == (c as int) * wsum_upto(w, n),
    decreases n,
{
    if n == 0 {
        assert((c as int) * 0 == 0) by (nonlinear_arith);
    } else {
        lemma_conv_acc_const_plane(g, w, c, y, x, (n - 1) as nat);
        let side = w.len() as int;
        let i = (n - 1) as int;
        assert(i < side * side) by (nonlinear_arith)
            requires
                i + 1 <= w.len() * w.len(),
                side == w.len() as int,
        ;
        lemma_div_bound(i, side);
        let ky = i / side;
        let kx = i % side;
        let yy = clamp_i(y + ky - side / 2, 0, g.len() - 1);
        assert(0 <= yy < g.len());
        let xx = clamp_i(x + kx - side / 2, 0, g[yy].len() - 1);
        assert(0 <= xx < g[yy].len());
        assert(sample(g, y + ky - side / 2, x + kx - side / 2) == c as int);
        let wv = w[ky][kx] as int;
        assert(wv * (c as int) == (c as int) * wv) by (nonlinear_arith);
        assert((c as int) * (wsum_upto(w, (n - 1) as nat) + wv) == (c as int) * wsum_upto(
            w,
            (n - 1) as nat,
        ) + (c as int) * wv) by (nonlinear_arith);
    }
}

/// The weight total of a 3x3 kernel, written out cell by cell.
proof fn lemma_wsum_3x3(w: Seq<Seq<i64>>)
    requires
        w.len() == 3,
    ensures
        weight_sum(w) == w[0][0] + w[0][1] + w[0][2] + w[1][0] + w[1][1] + w[1][2] + w[2][0]
            + w[2][1] + w[2][2],
{
    reveal_with_fuel(wsum_upto, 11);
    assert((3 as nat) * (3 as nat) == 9) by (nonlinear_arith);
    assert(0int * 3 == 0 && 1int * 3 == 3 && 2int * 3 == 6) by (nonlinear_arith);
    lemma_flat_index(3, 0, 0);
    lemma_flat_index(3, 0, 1);
    lemma_flat_index(3, 0, 2);
    lemma_flat_index(3, 1, 0);
    lemma_flat_index(3, 1, 1);
    lemma_flat_index(3, 1, 2);
    lemma_flat_index(3, 2, 0);
    lemma_flat_index(3, 2, 1);
    lemma_flat_index(3, 2, 2);
}

/// Law: Sobel on a constant-valued plane yields zero everywhere, including
/// at the clamped borders: both gradient kernels have weight total zero, so
/// both exact gradient sums vanish and so does the magnitude.
pub proof fn lemma_sobel_constant_plane(g: Seq<Seq<u8>>, h: int, wd: int, c: u8, y: int, x: int)
    requires
        grid_wf(g, h, wd),
        1 <= h,
        1 <= wd,
        forall|i: int, j: int|
            0 <= i < g.len() && 0 <= j < g[i].len() ==> #[trigger] g[i][j] == c,
        0 <= y < h,
        0 <= x < wd,
    ensures
        sobel_pixel(g, y, x) == 0,
{
    let wx = sobel_x_weights();
    let wy = sobel_y_weights();
    assert(wx[0] == seq![-1i64, 0i64, 1i64]);
    assert(wx[1] == seq![-2i64, 0i64, 2i64]);
    assert(wx[2] == seq![-1i64, 0i64, 1i64]);
    assert(wy[0] == seq![1i64, 2i64, 1i64]);
    assert(wy[1] == seq![0i64, 0i64, 0i64]);
    assert(wy[2] == seq![-1i64, -2i64, -1i64]);
    lemma_wsum_3x3(wx);
    lemma_wsum_3x3(wy);
    assert(weight_sum(wx) == 0);
    assert(weight_sum(wy) == 0);
    assert(forall|i: int| 0 <= i < g.len() ==> #[trigger] g[i].len() >= 1);
    assert((3 as nat) * (3 as nat) == 9) by (nonlinear_arith);
    lemma_conv_acc_const_plane(g, wx, c, y, x, (wx.len() * wx.len()) as nat);
    lemma_conv_acc_const_plane(g, wy, c, y, x, (wy.len() * wy.len()) as nat);
    assert((c as int) * 0 == 0) by (nonlinear_arith);
    assert(conv_acc(g, wx, y, x) == 0);
    assert(conv_acc(g, wy, y, x) == 0);
    assert(0int * 0 == 0) by (nonlinear_arith);
    assert(sqrt_floor(0nat) == 0);
}


/// Law: any blur that divides by its kernel's weight total maps a
/// constant-valued plane to itself, whatever the kernel, as long as the
/// weight total is positive. A flat image is a fixed point of normalized
/// smoothing, so repeated smoothing cannot disturb it.
pub proof fn lemma_normalized_blur_on_constant_plane(
    g: Seq<Seq<u8>>,
    h: int,
    wd: int,
    w: Seq<Seq<i64>>,
    denom: int,
    c: u8,
    y: int,
    x: int,
)
    requires
        grid_wf(g, h, wd),
        1 <= h,
        1 <= wd,
        forall|i: int, j: int|
            0 <= i < g.len() && 0 <= j < g[i].len() ==> #[trigger] g[i][j] == c,
        1 <= w.len(),
        1 <= weight_sum(w),
        0 <= y < h,
        0 <= x < wd,
    ensures
        conv_pixel(g, w, denom, Policy::DivideBySum, y, x) == c,
{
    assert(forall|i: int| 0 <= i < g.len() ==> #[trigger] g[i].len() >= 1);
    lemma_conv_acc_const_plane(g, w, c, y, x, (w.len() * w.len()) as nat);
    let s = weight_sum(w);
    assert((c as int) * s == s * (c as int)) by (nonlinear_arith);
    lemma_div_multiples_vanish(c as int, s);
    assert(clamp_i(c as int, 0, 255) == c as int);
}

/// Law: box blur maps a constant-valued plane to itself: all its weights are
/// equal and its denominator is their total, so the average of a flat window
/// is the flat value, exactly.
pub proof fn lemma_box_blur_on_constant_plane(
    g: Seq<Seq<u8>>,
    h: int,
    wd: int,
    r: int,
    c: u8,
    y: int,
    x: int,
)
    requires
        grid_wf(g, h, wd),
        1 <= h,
        1 <= wd,
        forall|i: int, j: int|
            0 <= i < g.len() && 0 <= j < g[i].len() ==> #[trigger] g[i][j] == c,
        1 <= r,
        0 <= y < h,
        0 <= x < wd,
    ensures
        conv_pixel(g, box_weights(r), 4 * r * r, Policy::Identity, y, x) == c,
{
    let w = box_weights(r);
    assert(w.len() == 2 * r);
    assert(forall|p: int, q: int|
        0 <= p < w.len() && 0 <= q < w.len() ==> #[trigger] w[p][q] == 1i64);
    assert(forall|i: int| 0 <= i < g.len() ==> #[trigger] g[i].len() >= 1);
    lemma_conv_acc_const_plane(g, w, c, y, x, (w.len() * w.len()) as nat);
    lemma_wsum_ones(w, (w.len() * w.len()) as nat);
    let d = (w.len() * w.len()) as int;
    assert(d == 4 * r * r) by (nonlinear_arith)
        requires w.len() == 2 * r && d == (w.len() * w.len()) as int;
    assert(d >= 4) by (nonlinear_arith)
        requires d == 4 * r * r && r >= 1;
    assert((c as int) * d == d * (c as int)) by (nonlinear_arith);
    lemma_div_multiples_vanish(c as int, d);
    assert(clamp_i(c as int, 0, 255) == c as int);
}

} // verus!
