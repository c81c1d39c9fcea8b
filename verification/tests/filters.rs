use raster_filters::engine::{apply, Kernel, Policy};
use raster_filters::gradient::sobel_blur;
use raster_filters::kernels::{emboss, EmbossKind, FilterError};
use raster_filters::operator::Operator;
use raster_filters::plane::Plane;

fn plane_of(rows: Vec<Vec<u8>>) -> Plane {
    Plane::new(rows).unwrap()
}

fn rows_of(p: &Plane) -> Vec<Vec<u8>> {
    let mut out: Vec<Vec<u8>> = Vec::new();
    for y in 0..p.height() {
        let mut row: Vec<u8> = Vec::new();
        for x in 0..p.width() {
            row.push(p.get(y, x));
        }
        out.push(row);
    }
    out
}

#[test]
fn apply_preserves_dimensions() {
    let p = plane_of(vec![vec![1, 2, 3], vec![4, 5, 6]]);
    let k = Kernel::new(
        vec![vec![1, 1, 1], vec![1, 1, 1], vec![1, 1, 1]],
        9,
    )
    .unwrap();
    let out = apply(&p, &k, Policy::Identity);
    assert_eq!(out.height(), 2);
    assert_eq!(out.width(), 3);
}

#[test]
fn identity_kernel_returns_input() {
    let p = plane_of(vec![vec![1, 2], vec![3, 4], vec![250, 0]]);
    let k = Kernel::new(vec![vec![1]], 1).unwrap();
    let out = apply(&p, &k, Policy::Identity);
    assert_eq!(rows_of(&out), vec![vec![1, 2], vec![3, 4], vec![250, 0]]);
}

#[test]
fn box_blur_replicates_border_samples() {
    // A 3x3 plane under a uniform 3x3 kernel (weight 1/9). At the corner
    // (0, 0) the five out-of-range taps replicate the nearest edge pixels:
    // samples 10,10,20 / 10,10,20 / 40,40,50 sum to 210, and 210/9 = 23
    // (zero-padding would have given 130/9 = 14 instead).
    let p = plane_of(vec![vec![10, 20, 30], vec![40, 50, 60], vec![70, 80, 90]]);
    let k = Kernel::new(
        vec![vec![1, 1, 1], vec![1, 1, 1], vec![1, 1, 1]],
        9,
    )
    .unwrap();
    let out = apply(&p, &k, Policy::Identity);
    assert_eq!(out.get(0, 0), 23);
    assert_eq!(
        rows_of(&out),
        vec![vec![23, 30, 36], vec![43, 50, 56], vec![63, 70, 76]]
    );
}

#[test]
fn sobel_constant_plane_is_zero() {
    let p = plane_of(vec![vec![77; 5]; 4]);
    let out = sobel_blur(&p);
    assert_eq!(rows_of(&out), vec![vec![0; 5]; 4]);
}

#[test]
fn sobel_vertical_edge_saturates() {
    let p = plane_of(vec![vec![0, 0, 255]; 3]);
    let out = sobel_blur(&p);
    assert_eq!(
        rows_of(&out),
        vec![vec![0, 255, 255], vec![0, 255, 255], vec![0, 255, 255]]
    );
}

#[test]
fn sobel_exact_magnitude_on_step() {
    // A 1x2 plane [0, 10]: at both pixels the horizontal gradient is
    // (1+2+1) * 10 = 40 and the vertical gradient is 0, so the magnitude is
    // exactly sqrt(40^2) = 40.
    let p = plane_of(vec![vec![0, 10]]);
    let out = sobel_blur(&p);
    assert_eq!(rows_of(&out), vec![vec![40, 40]]);
}

#[test]
fn emboss_bias_on_zero_plane_gives_all_128() {
    for kind in [
        EmbossKind::Left,
        EmbossKind::Right,
        EmbossKind::Edge,
        EmbossKind::Application,
    ] {
        let p = plane_of(vec![vec![0; 4]; 3]);
        let k = emboss(kind);
        let out = apply(&p, &k, Policy::AddBias(128));
        assert_eq!(rows_of(&out), vec![vec![128; 4]; 3]);
    }
}

#[test]
fn operator_emboss_zero_image_gives_all_128() {
    let zero = || plane_of(vec![vec![0; 3]; 3]);
    let op = Operator::from_planes(zero(), zero(), zero()).unwrap();
    let out = op.emboss(EmbossKind::Left);
    assert_eq!(rows_of(&out.r), vec![vec![128; 3]; 3]);
    assert_eq!(rows_of(&out.g), vec![vec![128; 3]; 3]);
    assert_eq!(rows_of(&out.b), vec![vec![128; 3]; 3]);
}

#[test]
fn gaussian_blur_keeps_constant_plane() {
    // The Gaussian weights sum to exactly 1, so dividing the accumulated sum
    // by the weight total returns the constant unchanged.
    let c = 100u8;
    let mk = || plane_of(vec![vec![c; 6]; 5]);
    let op = Operator::from_planes(mk(), mk(), mk()).unwrap();
    let out = op.gaussian_blur(2).unwrap();
    assert_eq!(rows_of(&out.r), vec![vec![c; 6]; 5]);
    assert_eq!(rows_of(&out.g), vec![vec![c; 6]; 5]);
    assert_eq!(rows_of(&out.b), vec![vec![c; 6]; 5]);
}

#[test]
fn box_blur_keeps_constant_plane() {
    let c = 50u8;
    let mk = || plane_of(vec![vec![c; 4]; 4]);
    let op = Operator::from_planes(mk(), mk(), mk()).unwrap();
    let out = op.box_blur(1).unwrap();
    assert_eq!(rows_of(&out.r), vec![vec![c; 4]; 4]);
}

#[test]
fn operator_rejects_zero_radius() {
    let mk = || plane_of(vec![vec![9; 2]; 2]);
    let op = Operator::from_planes(mk(), mk(), mk()).unwrap();
    assert!(matches!(op.box_blur(0), Err(FilterError::InvalidRadius)));
    assert!(matches!(
        op.gaussian_blur(0),
        Err(FilterError::InvalidRadius)
    ));
}

#[test]
fn from_planes_rejects_dimension_mismatch() {
    let r = plane_of(vec![vec![1; 2]; 2]);
    let g = plane_of(vec![vec![1; 3]; 2]);
    let b = plane_of(vec![vec![1; 2]; 2]);
    assert!(matches!(
        Operator::from_planes(r, g, b),
        Err(FilterError::DimensionMismatch)
    ));
}

#[test]
fn rgba_roundtrip_forces_opaque_alpha() {
    // 2x2 RGBA pixels with assorted alpha values; alpha is ignored on
    // decomposition and always written back as 255.
    let rgba: Vec<u8> = vec![
        1, 2, 3, 7, /**/ 4, 5, 6, 0, /**/
        7, 8, 9, 255, /**/ 10, 11, 12, 128,
    ];
    let op = Operator::from_rgba(2, 2, &rgba).unwrap();
    assert_eq!(rows_of(&op.r), vec![vec![1, 4], vec![7, 10]]);
    assert_eq!(rows_of(&op.g), vec![vec![2, 5], vec![8, 11]]);
    assert_eq!(rows_of(&op.b), vec![vec![3, 6], vec![9, 12]]);
    let back = op.to_image();
    let expected: Vec<u8> = vec![
        1, 2, 3, 255, /**/ 4, 5, 6, 255, /**/
        7, 8, 9, 255, /**/ 10, 11, 12, 255,
    ];
    assert_eq!(back, expected);
}

#[test]
fn from_rgba_rejects_bad_buffer() {
    let short: Vec<u8> = vec![0; 15];
    assert!(Operator::from_rgba(2, 2, &short).is_none());
    let empty: Vec<u8> = Vec::new();
    assert!(Operator::from_rgba(0, 2, &empty).is_none());
}

fn variance(p: &Plane) -> f64 {
    let rows = rows_of(p);
    let n = (p.height() * p.width()) as f64;
    let mean: f64 = rows.iter().flatten().map(|&v| v as f64).sum::<f64>() / n;
    rows.iter()
        .flatten()
        .map(|&v| (v as f64 - mean) * (v as f64 - mean))
        .sum::<f64>()
        / n
}

#[test]
fn box_blur_never_increases_variance_on_sample() {
    let mk = || {
        plane_of(vec![
            vec![0, 255, 0, 255],
            vec![255, 0, 255, 0],
            vec![0, 255, 0, 255],
            vec![10, 20, 200, 30],
        ])
    };
    let op = Operator::from_planes(mk(), mk(), mk()).unwrap();
    let once = op.box_blur(1).unwrap();
    let twice = once.box_blur(1).unwrap();
    let v0 = variance(&op.r);
    let v1 = variance(&once.r);
    let v2 = variance(&twice.r);
    assert!(v1 <= v0);
    assert!(v2 <= v1);
}
