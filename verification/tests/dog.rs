use cctag::filter::dog::{clamp_idx, KERNEL_DX_BITS};

fn kernel(r: usize, c: usize) -> f32 {
    f32::from_bits(KERNEL_DX_BITS[r][c])
}

#[test]
fn kernel_is_rank_one() {
    let d: [f64; 9] = core::array::from_fn(|c| kernel(4, c) as f64);
    let g: [f64; 9] = core::array::from_fn(|r| kernel(r, 5) as f64 / d[5]);
    for r in 0..9 {
        for c in 0..9 {
            let k = kernel(r, c) as f64;
            let p = g[r] * d[c];
            assert!(
                (k - p).abs() <= 1e-6 * k.abs().max(1e-7),
                "K[{r}][{c}] = {k} vs {p}"
            );
        }
    }
    // g[k] = exp(-k^2/2), d[k] = k*exp(-k^2/2)/pi
    for k in 0..9i32 {
        let t = (k - 4) as f64;
        let ge = (-t * t / 2.0).exp();
        let de = t * (-t * t / 2.0).exp() / std::f64::consts::PI;
        assert!((g[k as usize] - ge).abs() < 1e-6, "g[{k}]");
        assert!((d[k as usize] - de).abs() < 1e-7, "d[{k}]");
    }
}

#[test]
fn kernel_bits_match_decimal_entries() {
    assert_eq!(kernel(0, 0), -0.000000143284235f32);
    assert_eq!(kernel(4, 3), -0.193064705260108f32);
    assert_eq!(kernel(4, 5), 0.193064705260108f32);
    assert_eq!(kernel(2, 6), 0.011660097860113f32);
    assert_eq!(kernel(7, 1), -0.000117847682078f32);
}

#[test]
fn kernel_is_antisymmetric_in_x_and_symmetric_in_y() {
    for r in 0..9 {
        assert_eq!(KERNEL_DX_BITS[r][4], 0);
        for c in 0..9 {
            if c != 4 {
                assert_eq!(kernel(r, 8 - c), -kernel(r, c));
            }
            assert_eq!(KERNEL_DX_BITS[8 - r][c], KERNEL_DX_BITS[r][c]);
        }
    }
}

#[test]
fn clamp_idx_replicates_border() {
    assert_eq!(clamp_idx(-3, 10), 0);
    assert_eq!(clamp_idx(0, 10), 0);
    assert_eq!(clamp_idx(7, 10), 7);
    assert_eq!(clamp_idx(10, 10), 9);
    assert_eq!(clamp_idx(25, 10), 9);
    assert_eq!(clamp_idx(-1, 0), 0);
}
