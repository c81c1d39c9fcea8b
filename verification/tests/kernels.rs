use raster_filters::kernels::{box_kernel, emboss, gaussian, EmbossKind, FilterError, SCALE};

#[test]
fn box_kernel_zero_radius_rejected() {
    assert!(matches!(box_kernel(0), Err(FilterError::InvalidRadius)));
}

#[test]
fn gaussian_zero_radius_rejected() {
    assert!(matches!(gaussian(0), Err(FilterError::InvalidRadius)));
}

#[test]
fn box_kernel_weights_are_uniform() {
    // Every weight of box_kernel(radius) equals 1 / (2 * radius)^2 exactly:
    // numerator 1 over denominator (2 * radius)^2.
    for radius in 1usize..=4 {
        let k = box_kernel(radius).unwrap();
        let side = 2 * radius;
        assert_eq!(k.weights.len(), side);
        for row in &k.weights {
            assert_eq!(row.len(), side);
            for &w in row {
                assert_eq!(w, 1);
            }
        }
        assert_eq!(k.denom, (side * side) as i64);
    }
}

#[test]
fn gaussian_weights_sum_to_exactly_one() {
    // The denominator is the exact sum of the numerators, so the rational
    // weights sum to exactly 1 - well within the 1e-5 tolerance.
    for radius in 1usize..=3 {
        let k = gaussian(radius).unwrap();
        let side = 2 * radius + 1;
        assert_eq!(k.weights.len(), side);
        let mut total: i64 = 0;
        for row in &k.weights {
            assert_eq!(row.len(), side);
            for &w in row {
                assert!(w >= 0);
                total += w;
            }
        }
        assert_eq!(total, k.denom);
        let float_sum: f64 = k
            .weights
            .iter()
            .flatten()
            .map(|&w| w as f64 / k.denom as f64)
            .sum();
        assert!((float_sum - 1.0).abs() < 1e-5);
    }
}

#[test]
fn gaussian_center_and_symmetry() {
    let radius = 2usize;
    let k = gaussian(radius).unwrap();
    let side = 2 * radius + 1;
    // The center cell carries the fixed-point unit.
    assert_eq!(k.weights[radius][radius], SCALE);
    for y in 0..side {
        for x in 0..side {
            assert_eq!(k.weights[y][x], k.weights[x][y]);
            assert_eq!(k.weights[y][x], k.weights[side - 1 - y][x]);
            assert_eq!(k.weights[y][x], k.weights[y][side - 1 - x]);
            assert!(k.weights[y][x] <= k.weights[radius][radius]);
        }
    }
}

#[test]
fn emboss_tables_exact() {
    let left = emboss(EmbossKind::Left);
    assert_eq!(left.denom, 1);
    assert_eq!(
        left.weights,
        vec![vec![0, 0, -1], vec![0, 0, 0], vec![1, 0, 0]]
    );
    let right = emboss(EmbossKind::Right);
    assert_eq!(
        right.weights,
        vec![vec![-1, 0, 0], vec![0, 0, 0], vec![0, 0, 1]]
    );
    let edge = emboss(EmbossKind::Edge);
    assert_eq!(
        edge.weights,
        vec![
            vec![-1, 0, 0, 0, 0],
            vec![0, -1, 0, 0, 0],
            vec![0, 0, 0, 0, 0],
            vec![0, 0, 0, 1, 0],
            vec![0, 0, 0, 0, 1],
        ]
    );
    let app = emboss(EmbossKind::Application);
    assert_eq!(
        app.weights,
        vec![vec![-2, -1, 0], vec![-1, 1, 1], vec![0, 1, 2]]
    );
}

#[test]
fn sobel_kernels_fixed() {
    let (kx, ky) = raster_filters::gradient::sobel_kernels();
    assert_eq!(kx.denom, 1);
    assert_eq!(ky.denom, 1);
    assert_eq!(
        kx.weights,
        vec![vec![-1, 0, 1], vec![-2, 0, 2], vec![-1, 0, 1]]
    );
    assert_eq!(
        ky.weights,
        vec![vec![1, 2, 1], vec![0, 0, 0], vec![-1, -2, -1]]
    );
}
