//! Sobel edge detection: two directional gradient convolutions combined per
//! pixel into an integer gradient magnitude, `floor(sqrt(gx^2 + gy^2))`,
//! clamped to the 8-bit range. The two gradient accumulations stay exact
//! (no intermediate quantization); only the magnitude is quantized.

use vstd::prelude::*;

use crate::engine::{
    clamp_i, conv_acc, conv_acc_at, lemma_conv_acc_upto_bound, Kernel,
};
use crate::plane::{grid_wf, Plane};

verus! {

/// The horizontal Sobel gradient kernel.
pub open spec fn sobel_x_weights() -> Seq<Seq<i64>> {
    seq![seq![-1i64, 0i64, 1i64], seq![-2i64, 0i64, 2i64], seq![-1i64, 0i64, 1i64]]
}

/// The vertical Sobel gradient kernel.
pub open spec fn sobel_y_weights() -> Seq<Seq<i64>> {
    seq![seq![1i64, 2i64, 1i64], seq![0i64, 0i64, 0i64], seq![-1i64, -2i64, -1i64]]
}

/// The floor of the square root: the largest `r` with `r * r <= n`.
pub open spec fn sqrt_floor(n: nat) -> nat
    decreases n,
{
    if n == 0 {
        0
    } else {
        let s = sqrt_floor((n - 1) as nat);
        if (s + 1) * (s + 1) <= n {
            s + 1
        } else {
            s
        }
    }
}

/// `sqrt_floor(n)` is characterized by `r * r <= n < (r + 1) * (r + 1)`.
pub proof fn lemma_sqrt_floor_props(n: nat)
    ensures
        sqrt_floor(n) * sqrt_floor(n) <= n,
        n < (sqrt_floor(n) + 1) * (sqrt_floor(n) + 1),
    decreases n,
{
    if n > 0 {
        lemma_sqrt_floor_props((n - 1) as nat);
        let s = sqrt_floor((n - 1) as nat);
        if (s + 1) * (s + 1) <= n {
            assert(sqrt_floor(n) == s + 1);
            assert(n <= (s + 1) * (s + 1)) by (nonlinear_arith)
                requires ((n - 1) as int) < (s + 1) * (s + 1);
            assert((s + 1) * (s + 1) < (s + 2) * (s + 2)) by (nonlinear_arith);
        } else {
            assert(sqrt_floor(n) == s);
        }
    } else {
        assert(sqrt_floor(n) == 0);
        assert((0 as nat) * (0 as nat) == 0) by (nonlinear_arith);
        assert(((0 + 1) as nat) * (((0 + 1)) as nat) == 1) by (nonlinear_arith);
    }
}

/// The characterization pins the value down: any `r` satisfying it equals
/// `sqrt_floor(n)`.
pub proof fn lemma_sqrt_floor_unique(n: nat, r: nat)
    requires
        r * r <= n,
        n < (r + 1) * (r + 1),
    ensures
        r == sqrt_floor(n),
{
    lemma_sqrt_floor_props(n);
    let s = sqrt_floor(n);
    assert(r == s) by (nonlinear_arith)
        requires
            r * r <= n,
            n < (r + 1) * (r + 1),
            s * s <= n,
            n < (s + 1) * (s + 1),
    ;
}

/// The squared gradient magnitude at `(y, x)`: the two exact directional
/// convolution sums, squared and added.
pub open spec fn sobel_mag2(g: Seq<Seq<u8>>, y: int, x: int) -> int {
    let gx = conv_acc(g, sobel_x_weights(), y, x);
    let gy = conv_acc(g, sobel_y_weights(), y, x);
    gx * gx + gy * gy
}

/// The Sobel output pixel: the floored square root of the squared magnitude,
/// clamped to `[0, 255]`.
pub open spec fn sobel_pixel(g: Seq<Seq<u8>>, y: int, x: int) -> int {
    clamp_i(sqrt_floor(sobel_mag2(g, y, x) as nat) as int, 0, 255)
}

/// The whole Sobel output plane.
pub open spec fn sobel_grid(g: Seq<Seq<u8>>) -> Seq<Seq<u8>> {
    Seq::new(g.len(), |y: int| Seq::new(g[y].len(), |x: int| sobel_pixel(g, y, x) as u8))
}

/// Every Sobel weight has magnitude at most 2.
pub proof fn lemma_sobel_weights_bounded()
    ensures
        forall|i: int, j: int|
            0 <= i < 3 && 0 <= j < 3 ==> -2 <= #[trigger] sobel_x_weights()[i][j] <= 2,
        forall|i: int, j: int|
            0 <= i < 3 && 0 <= j < 3 ==> -2 <= #[trigger] sobel_y_weights()[i][j] <= 2,
        forall|i: int| 0 <= i < 3 ==> #[trigger] sobel_x_weights()[i].len() == 3,
        forall|i: int| 0 <= i < 3 ==> #[trigger] sobel_y_weights()[i].len() == 3,
{
    let wx = sobel_x_weights();
    let wy = sobel_y_weights();
    assert(wx[0] == seq![-1i64, 0i64, 1i64]);
    assert(wx[1] == seq![-2i64, 0i64, 2i64]);
    assert(wx[2] == seq![-1i64, 0i64, 1i64]);
    assert(wy[0] == seq![1i64, 2i64, 1i64]);
    assert(wy[1] == seq![0i64, 0i64, 0i64]);
    assert(wy[2] == seq![-1i64, -2i64, -1i64]);
    assert forall|i: int, j: int| 0 <= i < 3 && 0 <= j < 3 implies -2 <= #[trigger] wx[i][j]
        <= 2 by {
        if i == 0 {
            assert(wx[i] == seq![-1i64, 0i64, 1i64]);
        } else if i == 1 {
            assert(wx[i] == seq![-2i64, 0i64, 2i64]);
        } else {
            assert(wx[i] == seq![-1i64, 0i64, 1i64]);
        }
    }
    assert forall|i: int, j: int| 0 <= i < 3 && 0 <= j < 3 implies -2 <= #[trigger] wy[i][j]
        <= 2 by {
        if i == 0 {
            assert(wy[i] == seq![1i64, 2i64, 1i64]);
        } else if i == 1 {
            assert(wy[i] == seq![0i64, 0i64, 0i64]);
        } else {
            assert(wy[i] == seq![-1i64, -2i64, -1i64]);
        }
    }
}

/// A row of three weights.
pub(crate) fn row3(a: i64, b: i64, c: i64) -> (r: Vec<i64>)
    ensures
        r@ == seq![a, b, c],
{
    let mut v: Vec<i64> = Vec::new();
    v.push(a);
    v.push(b);
    v.push(c);
    proof {
        assert(v@ =~= seq![a, b, c]);
    }
    v
}

/// The two fixed 3x3 Sobel kernels, horizontal then vertical, both with
/// denominator 1.
pub fn sobel_kernels() -> (res: (Kernel, Kernel))
    ensures
        res.0.wf(),
        res.0.weights_view() == sobel_x_weights(),
        res.0.denom == 1,
        res.1.wf(),
        res.1.weights_view() == sobel_y_weights(),
        res.1.denom == 1,
{
    let mut wx: Vec<Vec<i64>> = Vec::new();
    wx.push(row3(-1, 0, 1));
    wx.push(row3(-2, 0, 2));
    wx.push(row3(-1, 0, 1));
    let mut wy: Vec<Vec<i64>> = Vec::new();
    wy.push(row3(1, 2, 1));
    wy.push(row3(0, 0, 0));
    wy.push(row3(-1, -2, -1));
    let kx = Kernel { weights: wx, denom: 1 };
    let ky = Kernel { weights: wy, denom: 1 };
    proof {
        assert(kx.weights_view() =~~= sobel_x_weights());
        assert(ky.weights_view() =~~= sobel_y_weights());
        lemma_sobel_weights_bounded();
    }
    (kx, ky)
}

/// The square of a small value.
fn sq(v: u64) -> (s: u64)
    requires
        v <= 0xffffffff,
    ensures
        s as int == (v as int) * (v as int),
{
    proof {
        assert((v as int) * (v as int) <= 0xfffffffe00000001) by (nonlinear_arith)
            requires v <= 0xffffffff;
    }
    v * v
}

/// Integer square root by upward search: the floored square root of `n`.
fn isqrt(n: u64) -> (r: u64)
    requires
        n <= 0x100000000,
    ensures
        r == sqrt_floor(n as nat),
{
    let mut r: u64 = 0;
    while sq(r + 1) <= n
        invariant
            n <= 0x100000000,
            r * r <= n,
            r <= 65536,
        decreases n - r,
    {
        proof {
            assert((r + 1) as int <= 65536) by (nonlinear_arith)
                requires
                    ((r + 1) as int) * ((r + 1) as int) <= n as int,
                    n <= 0x100000000,
            ;
            assert(r < n) by (nonlinear_arith)
                requires ((r + 1) as int) * ((r + 1) as int) <= n as int;
        }
        r = r + 1;
    }
    proof {
        lemma_sqrt_floor_unique(n as nat, r as nat);
    }
    r
}

/// Sobel edge detection on one plane: for every pixel, two edge-clamped
/// gradient convolutions (horizontal and vertical, exact integer sums),
/// combined as the floored square root of the sum of their squares, clamped
/// to `[0, 255]`.
pub fn sobel_blur(plane: &Plane) -> (out: Plane)
    requires
        plane.wf(),
    ensures
        out.wf(),
        out.spec_height() == plane.spec_height(),
        out.spec_width() == plane.spec_width(),
        out.view() == sobel_grid(plane.view()),
{
    let ghost g = plane.view();
    proof {
        assert(plane.data@.len() == g.len());
        assert(g[0] == plane.data@[0]@);
    }
    let h = plane.data.len();
    let wd = plane.data[0].len();
    let (kx, ky) = sobel_kernels();
    let mut data: Vec<Vec<u8>> = Vec::new();
    for y in 0..h
        invariant
            plane.wf(),
            g == plane.view(),
            h == g.len(),
            wd == g[0].len(),
            kx.wf(),
            kx.weights_view() == sobel_x_weights(),
            ky.wf(),
            ky.weights_view() == sobel_y_weights(),
            data@.len() == y,
            forall|yy: int| 0 <= yy < y ==> #[trigger] data@[yy]@ == sobel_grid(g)[yy],
    {
        let mut row: Vec<u8> = Vec::new();
        for x in 0..wd
            invariant
                plane.wf(),
                g == plane.view(),
                h == g.len(),
                wd == g[0].len(),
                kx.wf(),
                kx.weights_view() == sobel_x_weights(),
                ky.wf(),
                ky.weights_view() == sobel_y_weights(),
                y < h,
                row@.len() == x,
                forall|xx: int| 0 <= xx < x ==> #[trigger] row@[xx] as int == sobel_pixel(g, y as int, xx),
        {
            let gx = conv_acc_at(plane, &kx, y, x);
            let gy = conv_acc_at(plane, &ky, y, x);
            proof {
                lemma_sobel_weights_bounded();
                assert(sobel_x_weights().len() == 3);
                assert(sobel_y_weights().len() == 3);
                assert((3 as nat) * (3 as nat) == 9) by (nonlinear_arith);
                lemma_conv_acc_upto_bound(g, sobel_x_weights(), y as int, x as int, 9, 2);
                lemma_conv_acc_upto_bound(g, sobel_y_weights(), y as int, x as int, 9, 2);
                assert(255 * 2 * 9 == 4590) by (nonlinear_arith);
                assert(-4590 <= gx <= 4590);
                assert(-4590 <= gy <= 4590);
                assert(0 <= gx * gx <= 0x100000000 && 0 <= gy * gy <= 0x100000000 && gx * gx + gy
                    * gy <= 0x100000000) by (nonlinear_arith)
                    requires
                        -4590 <= gx <= 4590,
                        -4590 <= gy <= 4590,
                ;
            }
            let m = (gx * gx + gy * gy) as u64;
            let rt = isqrt(m);
            let v: u8 = if rt > 255 {
                255
            } else {
                rt as u8
            };
            proof {
                assert(m as int == sobel_mag2(g, y as int, x as int));
                assert(v as int == sobel_pixel(g, y as int, x as int));
            }
            row.push(v);
        }
        proof {
            assert(g[y as int].len() == wd);
            let crow = sobel_grid(g)[y as int];
            assert forall|xx: int| 0 <= xx < wd implies row@[xx] == crow[xx] by {
                assert(0 <= sobel_pixel(g, y as int, xx) <= 255);
            }
            assert(row@ =~= crow);
        }
        data.push(row);
    }
    let out = Plane { data };
    proof {
        assert(out.view() =~~= sobel_grid(g));
        assert(out.view()[0].len() == g[0].len());
        assert forall|i: int| 0 <= i < g.len() implies #[trigger] out.view()[i].len()
            == g[0].len() by {
            assert(out.view()[i] == sobel_grid(g)[i]);
            assert(g[i].len() == g[0].len());
        }
        assert(grid_wf(out.view(), g.len() as int, g[0].len() as int));
    }
    out
}

} // verus!
