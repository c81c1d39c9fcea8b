//! The channel operator: decomposes an RGBA byte raster into three
//! independent 8-bit planes (red, green, blue; alpha is never processed),
//! dispatches each plane identically through the convolution engine or the
//! Sobel combiner, and recomposes the three planes into an RGBA raster with
//! alpha always 255. No filter mixes channels.

use vstd::prelude::*;

use crate::engine::{apply, conv_grid, weight_sum, Kernel, Policy};
use crate::gradient::{sobel_grid, sobel_blur as sobel_plane};
use crate::kernels::{
    box_kernel, box_weights, emboss_weights, gauss_grid, gaussian, EmbossKind, FilterError,
    MAX_RADIUS,
};
use crate::plane::{Plane, MAX_DIM};

verus! {

/// Three color planes of identical dimensions.
pub struct Operator {
    pub r: Plane,
    pub g: Plane,
    pub b: Plane,
}

impl Operator {
    /// Three well-formed planes sharing one dimension pair.
    pub open spec fn wf(&self) -> bool {
        &&& self.r.wf()
        &&& self.g.wf()
        &&& self.b.wf()
        &&& self.g.spec_height() == self.r.spec_height()
        &&& self.g.spec_width() == self.r.spec_width()
        &&& self.b.spec_height() == self.r.spec_height()
        &&& self.b.spec_width() == self.r.spec_width()
    }

    pub open spec fn spec_height(&self) -> int {
        self.r.spec_height()
    }

    pub open spec fn spec_width(&self) -> int {
        self.r.spec_width()
    }

    /// Recomposition precondition made explicit: three well-formed planes
    /// combine exactly when their dimensions agree; otherwise the dimension
    /// mismatch is reported.
    pub fn from_planes(r: Plane, g: Plane, b: Plane) -> (res: Result<Operator, FilterError>)
        requires
            r.wf(),
            g.wf(),
            b.wf(),
        ensures
            res is Ok <==> {
                &&& g.spec_height() == r.spec_height()
                &&& g.spec_width() == r.spec_width()
                &&& b.spec_height() == r.spec_height()
                &&& b.spec_width() == r.spec_width()
            },
            res is Err ==> res == Err::<Operator, FilterError>(FilterError::DimensionMismatch),
            res is Ok ==> res.unwrap().wf() && res.unwrap().r == r && res.unwrap().g == g
                && res.unwrap().b == b,
    {
        let h = r.height();
        let w = r.width();
        if g.height() != h || g.width() != w || b.height() != h || b.width() != w {
            return Err(FilterError::DimensionMismatch);
        }
        Ok(Operator { r, g, b })
    }

    /// Decomposes a row-major RGBA byte buffer (4 bytes per pixel) into the
    /// three color planes; the alpha bytes are ignored. `None` exactly when
    /// the dimensions are empty or out of range, or the buffer length is not
    /// `4 * height * width`.
    pub fn from_rgba(height: usize, width: usize, rgba: &Vec<u8>) -> (res: Option<Operator>)
        ensures
            res is Some <==> {
                &&& 1 <= height <= MAX_DIM
                &&& 1 <= width <= MAX_DIM
                &&& rgba@.len() == 4 * (height * width)
            },
            res is Some ==> {
                let o = res.unwrap();
                &&& o.wf()
                &&& o.spec_height() == height
                &&& o.spec_width() == width
                &&& forall|y: int, x: int|
                    0 <= y < height && 0 <= x < width ==> #[trigger] o.r.view()[y][x] == rgba@[4
                        * (y * width + x)]
                &&& forall|y: int, x: int|
                    0 <= y < height && 0 <= x < width ==> #[trigger] o.g.view()[y][x] == rgba@[4
                        * (y * width + x) + 1]
                &&& forall|y: int, x: int|
                    0 <= y < height && 0 <= x < width ==> #[trigger] o.b.view()[y][x] == rgba@[4
                        * (y * width + x) + 2]
            },
    {
        if height == 0 || height > MAX_DIM || width == 0 || width > MAX_DIM {
            return None;
        }
        proof {
            assert(height * width <= 268435456) by (nonlinear_arith)
                requires height <= 16384 && width <= 16384;
            assert(height * width >= 1) by (nonlinear_arith)
                requires height >= 1 && width >= 1;
        }
        let hw = height * width;
        if rgba.len() / 4 != hw || rgba.len() % 4 != 0 {
            return None;
        }
        proof {
            assert(rgba@.len() == 4 * (height * width)) by {
                vstd::arithmetic::div_mod::lemma_fundamental_div_mod(rgba@.len() as int, 4);
            }
        }
        let mut rd: Vec<Vec<u8>> = Vec::new();
        let mut gd: Vec<Vec<u8>> = Vec::new();
        let mut bd: Vec<Vec<u8>> = Vec::new();
        for y in 0..height
            invariant
                1 <= height <= MAX_DIM,
                1 <= width <= MAX_DIM,
                rgba@.len() == 4 * (height * width),
                rd@.len() == y && gd@.len() == y && bd@.len() == y,
                forall|yy: int| 0 <= yy < y ==> #[trigger] rd@[yy]@.len() == width,
                forall|yy: int| 0 <= yy < y ==> #[trigger] gd@[yy]@.len() == width,
                forall|yy: int| 0 <= yy < y ==> #[trigger] bd@[yy]@.len() == width,
                forall|yy: int, xx: int|
                    0 <= yy < y && 0 <= xx < width ==> #[trigger] rd@[yy]@[xx] == rgba@[4 * (yy
                        * width + xx)],
                forall|yy: int, xx: int|
                    0 <= yy < y && 0 <= xx < width ==> #[trigger] gd@[yy]@[xx] == rgba@[4 * (yy
                        * width + xx) + 1],
                forall|yy: int, xx: int|
                    0 <= yy < y && 0 <= xx < width ==> #[trigger] bd@[yy]@[xx] == rgba@[4 * (yy
                        * width + xx) + 2],
        {
            let mut rrow: Vec<u8> = Vec::new();
            let mut grow: Vec<u8> = Vec::new();
            let mut brow: Vec<u8> = Vec::new();
            for x in 0..width
                invariant
                    1 <= height <= MAX_DIM,
                    1 <= width <= MAX_DIM,
                    y < height,
                    rgba@.len() == 4 * (height * width),
                    rrow@.len() == x && grow@.len() == x && brow@.len() == x,
                    forall|xx: int|
                        0 <= xx < x ==> #[trigger] rrow@[xx] == rgba@[4 * (y * width + xx)],
                    forall|xx: int|
                        0 <= xx < x ==> #[trigger] grow@[xx] == rgba@[4 * (y * width + xx) + 1],
                    forall|xx: int|
                        0 <= xx < x ==> #[trigger] brow@[xx] == rgba@[4 * (y * width + xx) + 2],
            {
                proof {
                    assert(y * width + x < height * width) by (nonlinear_arith)
                        requires y < height && x < width && width >= 1;
                    assert(y * width + x >= 0) by (nonlinear_arith)
                        requires y >= 0 && x >= 0 && width >= 1;
                    assert(height * width <= 268435456) by (nonlinear_arith)
                        requires height <= 16384 && width <= 16384;
                }
                let base = 4 * (y * width + x);
                rrow.push(rgba[base]);
                grow.push(rgba[base + 1]);
                brow.push(rgba[base + 2]);
            }
            rd.push(rrow);
            gd.push(grow);
            bd.push(brow);
        }
        let o = Operator { r: Plane { data: rd }, g: Plane { data: gd }, b: Plane { data: bd } };
        proof {
            assert(forall|yy: int|
                0 <= yy < height ==> #[trigger] o.r.view()[yy] == o.r.data@[yy]@);
            assert(forall|yy: int|
                0 <= yy < height ==> #[trigger] o.g.view()[yy] == o.g.data@[yy]@);
            assert(forall|yy: int|
                0 <= yy < height ==> #[trigger] o.b.view()[yy] == o.b.data@[yy]@);
        }
        Some(o)
    }

    /// Recomposes the three planes into a row-major RGBA byte buffer, the
    /// alpha byte of every pixel written as 255.
    pub fn to_image(&self) -> (out: Vec<u8>)
        requires
            self.wf(),
        ensures
            out@.len() == 4 * (self.spec_height() * self.spec_width()),
            forall|y: int, x: int|
                0 <= y < self.spec_height() && 0 <= x < self.spec_width()
                    ==> #[trigger] out@[4 * (y * self.spec_width() + x)] == self.r.view()[y][x],
            forall|y: int, x: int|
                0 <= y < self.spec_height() && 0 <= x < self.spec_width()
                    ==> #[trigger] out@[4 * (y * self.spec_width() + x) + 1]
                    == self.g.view()[y][x],
            forall|y: int, x: int|
                0 <= y < self.spec_height() && 0 <= x < self.spec_width()
                    ==> #[trigger] out@[4 * (y * self.spec_width() + x) + 2]
                    == self.b.view()[y][x],
            forall|y: int, x: int|
                0 <= y < self.spec_height() && 0 <= x < self.spec_width()
                    ==> #[trigger] out@[4 * (y * self.spec_width() + x) + 3] == 255u8,
    {
        let h = self.r.height();
        let w = self.r.width();
        let mut out: Vec<u8> = Vec::new();
        proof {
            assert(0 * (w as int) == 0) by (nonlinear_arith);
            assert((h as int) * (w as int) <= 268435456) by (nonlinear_arith)
                requires h <= 16384 && w <= 16384;
        }
        for y in 0..h
            invariant
                self.wf(),
                h == self.spec_height(),
                w == self.spec_width(),
                out@.len() == 4 * (y * w),
                y * w <= h * w,
                forall|yy: int, xx: int|
                    0 <= yy < y && 0 <= xx < w ==> #[trigger] out@[4 * (yy * (w as int) + xx)]
                        == self.r.view()[yy][xx],
                forall|yy: int, xx: int|
                    0 <= yy < y && 0 <= xx < w ==> #[trigger] out@[4 * (yy * (w as int) + xx) + 1]
                        == self.g.view()[yy][xx],
                forall|yy: int, xx: int|
                    0 <= yy < y && 0 <= xx < w ==> #[trigger] out@[4 * (yy * (w as int) + xx) + 2]
                        == self.b.view()[yy][xx],
                forall|yy: int, xx: int|
                    0 <= yy < y && 0 <= xx < w ==> #[trigger] out@[4 * (yy * (w as int) + xx) + 3]
                        == 255u8,
        {
            for x in 0..w
                invariant
                    self.wf(),
                    h == self.spec_height(),
                    w == self.spec_width(),
                    y < h,
                    out@.len() == 4 * (y * w + x),
                    y * w + x <= h * w,
                    forall|yy: int, xx: int|
                        0 <= yy < y && 0 <= xx < w ==> #[trigger] out@[4 * (yy * (w as int) + xx)]
                            == self.r.view()[yy][xx],
                    forall|yy: int, xx: int|
                        0 <= yy < y && 0 <= xx < w ==> #[trigger] out@[4 * (yy * (w as int) + xx)
                            + 1] == self.g.view()[yy][xx],
                    forall|yy: int, xx: int|
                        0 <= yy < y && 0 <= xx < w ==> #[trigger] out@[4 * (yy * (w as int) + xx)
                            + 2] == self.b.view()[yy][xx],
                    forall|yy: int, xx: int|
                        0 <= yy < y && 0 <= xx < w ==> #[trigger] out@[4 * (yy * (w as int) + xx)
                            + 3] == 255u8,
                    forall|xx: int|
                        0 <= xx < x ==> #[trigger] out@[4 * ((y as int) * (w as int) + xx)]
                            == self.r.view()[y as int][xx],
                    forall|xx: int|
                        0 <= xx < x ==> #[trigger] out@[4 * ((y as int) * (w as int) + xx) + 1]
                            == self.g.view()[y as int][xx],
                    forall|xx: int|
                        0 <= xx < x ==> #[trigger] out@[4 * ((y as int) * (w as int) + xx) + 2]
                            == self.b.view()[y as int][xx],
                    forall|xx: int|
                        0 <= xx < x ==> #[trigger] out@[4 * ((y as int) * (w as int) + xx) + 3]
                            == 255u8,
            {
                proof {
                    assert(y * w + x + 1 <= h * w) by (nonlinear_arith)
                        requires y < h && x < w && w >= 1;
                }
                let ghost out0 = out@;
                out.push(self.r.get(y, x));
                out.push(self.g.get(y, x));
                out.push(self.b.get(y, x));
                out.push(255);
                proof {
                    let ow = w as int;
                    let oy = y as int;
                    let ox = x as int;
                    assert forall|yy: int, xx: int|
                        0 <= yy < oy && 0 <= xx < ow implies #[trigger] out@[4 * (yy * ow + xx)]
                        == self.r.view()[yy][xx] by {
                        assert(yy * ow + xx + 1 <= oy * ow) by (nonlinear_arith)
                            requires 0 <= yy < oy && 0 <= xx < ow;
                        assert(out@[4 * (yy * ow + xx)] == out0[4 * (yy * ow + xx)]);
                    }
                    assert forall|yy: int, xx: int|
                        0 <= yy < oy && 0 <= xx < ow implies #[trigger] out@[4 * (yy * ow + xx)
                        + 1] == self.g.view()[yy][xx] by {
                        assert(yy * ow + xx + 1 <= oy * ow) by (nonlinear_arith)
                            requires 0 <= yy < oy && 0 <= xx < ow;
                        assert(out@[4 * (yy * ow + xx) + 1] == out0[4 * (yy * ow + xx) + 1]);
                    }
                    assert forall|yy: int, xx: int|
                        0 <= yy < oy && 0 <= xx < ow implies #[trigger] out@[4 * (yy * ow + xx)
                        + 2] == self.b.view()[yy][xx] by {
                        assert(yy * ow + xx + 1 <= oy * ow) by (nonlinear_arith)
                            requires 0 <= yy < oy && 0 <= xx < ow;
                        assert(out@[4 * (yy * ow + xx) + 2] == out0[4 * (yy * ow + xx) + 2]);
                    }
                    assert forall|yy: int, xx: int|
                        0 <= yy < oy && 0 <= xx < ow implies #[trigger] out@[4 * (yy * ow + xx)
                        + 3] == 255u8 by {
                        assert(yy * ow + xx + 1 <= oy * ow) by (nonlinear_arith)
                            requires 0 <= yy < oy && 0 <= xx < ow;
                        assert(out@[4 * (yy * ow + xx) + 3] == out0[4 * (yy * ow + xx) + 3]);
                    }
                }
            }
            proof {
                assert((y + 1) * w == y * w + w) by (nonlinear_arith);
            }
        }
        out
    }

    /// Box blur: generates the box kernel for `radius` and convolves each of
    /// the three planes with it, identically and independently, under the
    /// pass-through policy. Rejects radius zero.
    pub fn box_blur(&self, radius: usize) -> (res: Result<Operator, FilterError>)
        requires
            self.wf(),
            radius <= MAX_RADIUS,
        ensures
            res is Ok <==> 1 <= radius,
            radius == 0 ==> res == Err::<Operator, FilterError>(FilterError::InvalidRadius),
            res is Ok ==> {
                let o = res.unwrap();
                &&& o.wf()
                &&& o.spec_height() == self.spec_height()
                &&& o.spec_width() == self.spec_width()
                &&& o.r.view() == conv_grid(self.r.view(), box_weights(radius as int),
                    4 * radius * radius, Policy::Identity)
                &&& o.g.view() == conv_grid(self.g.view(), box_weights(radius as int),
                    4 * radius * radius, Policy::Identity)
                &&& o.b.view() == conv_grid(self.b.view(), box_weights(radius as int),
                    4 * radius * radius, Policy::Identity)
            },
    {
        let kernel = match box_kernel(radius) {
            Ok(k) => k,
            Err(e) => {
                return Err(e);
            },
        };
        let r = apply(&self.r, &kernel, Policy::Identity);
        let g = apply(&self.g, &kernel, Policy::Identity);
        let b = apply(&self.b, &kernel, Policy::Identity);
        Ok(Operator { r, g, b })
    }

    /// Gaussian blur: generates the Gaussian kernel for `radius` and
    /// convolves each plane with it under the divide-by-weight-sum policy
    /// (robust normalization). Rejects radius zero.
    pub fn gaussian_blur(&self, radius: usize) -> (res: Result<Operator, FilterError>)
        requires
            self.wf(),
            radius <= MAX_RADIUS,
        ensures
            res is Ok <==> 1 <= radius,
            radius == 0 ==> res == Err::<Operator, FilterError>(FilterError::InvalidRadius),
            res is Ok ==> {
                let o = res.unwrap();
                &&& o.wf()
                &&& o.spec_height() == self.spec_height()
                &&& o.spec_width() == self.spec_width()
                &&& o.r.view() == conv_grid(self.r.view(), gauss_grid(radius as int),
                    weight_sum(gauss_grid(radius as int)), Policy::DivideBySum)
                &&& o.g.view() == conv_grid(self.g.view(), gauss_grid(radius as int),
                    weight_sum(gauss_grid(radius as int)), Policy::DivideBySum)
                &&& o.b.view() == conv_grid(self.b.view(), gauss_grid(radius as int),
                    weight_sum(gauss_grid(radius as int)), Policy::DivideBySum)
            },
    {
        let kernel = match gaussian(radius) {
            Ok(k) => k,
            Err(e) => {
                return Err(e);
            },
        };
        let r = apply(&self.r, &kernel, Policy::DivideBySum);
        let g = apply(&self.g, &kernel, Policy::DivideBySum);
        let b = apply(&self.b, &kernel, Policy::DivideBySum);
        Ok(Operator { r, g, b })
    }

    /// Sobel edge detection on each plane, identically and independently.
    pub fn sobel_blur(&self) -> (o: Operator)
        requires
            self.wf(),
        ensures
            o.wf(),
            o.spec_height() == self.spec_height(),
            o.spec_width() == self.spec_width(),
            o.r.view() == sobel_grid(self.r.view()),
            o.g.view() == sobel_grid(self.g.view()),
            o.b.view() == sobel_grid(self.b.view()),
    {
        let r = sobel_plane(&self.r);
        let g = sobel_plane(&self.g);
        let b = sobel_plane(&self.b);
        Operator { r, g, b }
    }

    /// Emboss: convolves each plane with the chosen fixed emboss kernel under
    /// the add-bias policy, re-centering the signed relief into `[0, 255]`
    /// around 128.
    pub fn emboss(&self, kind: EmbossKind) -> (o: Operator)
        requires
            self.wf(),
        ensures
            o.wf(),
            o.spec_height() == self.spec_height(),
            o.spec_width() == self.spec_width(),
            o.r.view() == conv_grid(self.r.view(), emboss_weights(kind), 1, Policy::AddBias(128)),
            o.g.view() == conv_grid(self.g.view(), emboss_weights(kind), 1, Policy::AddBias(128)),
            o.b.view() == conv_grid(self.b.view(), emboss_weights(kind), 1, Policy::AddBias(128)),
    {
        let kernel = crate::kernels::emboss(kind);
        let r = apply(&self.r, &kernel, Policy::AddBias(128));
        let g = apply(&self.g, &kernel, Policy::AddBias(128));
        let b = apply(&self.b, &kernel, Policy::AddBias(128));
        Operator { r, g, b }
    }
}

/// Convolution under the pass-through policy: box blur of one plane with a
/// ready-made kernel.
pub fn box_blur(plane: &Plane, kernel: &Kernel) -> (out: Plane)
    requires
        plane.wf(),
        kernel.wf(),
    ensures
        out.wf(),
        out.spec_height() == plane.spec_height(),
        out.spec_width() == plane.spec_width(),
        out.view() == conv_grid(plane.view(), kernel.weights_view(), kernel.denom as int,
            Policy::Identity),
{
    apply(plane, kernel, Policy::Identity)
}

/// Convolution under the divide-by-weight-sum policy: Gaussian blur of one
/// plane with a ready-made kernel of positive weight sum.
pub fn gaussian_blur(plane: &Plane, kernel: &Kernel) -> (out: Plane)
    requires
        plane.wf(),
        kernel.wf(),
        weight_sum(kernel.weights_view()) >= 1,
    ensures
        out.wf(),
        out.spec_height() == plane.spec_height(),
        out.spec_width() == plane.spec_width(),
        out.view() == conv_grid(plane.view(), kernel.weights_view(), kernel.denom as int,
            Policy::DivideBySum),
{
    apply(plane, kernel, Policy::DivideBySum)
}

} // verus!
