//! Norms, shares and activations.

use bonsai::norms::{
    l2_norm_rows, length, rms_norm, rms_norm_rows, sigmoid, silu, softmax_exponents, softmax_rows,
    softplus,
};
use bonsai::root::root;

fn bits(v: &[f32]) -> Vec<u32> {
    v.iter().map(|x| x.to_bits()).collect()
}

fn floats(v: &[u32]) -> Vec<f32> {
    v.iter().map(|&x| f32::from_bits(x)).collect()
}

fn softmax(x: &[f32], row_len: usize) -> Result<Vec<f32>, String> {
    let e = softmax_exponents(&bits(x), row_len)?;
    let powers: Vec<u32> = e.iter().map(|&v| f32::from_bits(v).exp().to_bits()).collect();
    Ok(floats(&softmax_rows(&powers, row_len)?))
}

fn silu_of(x: f32) -> f32 {
    f32::from_bits(silu(x.to_bits(), (-x).exp().to_bits()))
}

fn sigmoid_of(x: f32) -> f32 {
    f32::from_bits(sigmoid((-x).exp().to_bits()))
}

fn softplus_of(x: f32) -> f32 {
    f32::from_bits(softplus(x.to_bits(), (1.0 + x.exp()).ln().to_bits()))
}

#[test]
fn rms_norm_matches_reference() {
    let x = vec![1.0, 2.0, 3.0, 4.0];
    let w = vec![0.5, 1.0, 1.5, 2.0];
    let y = floats(&rms_norm(&bits(&x), &bits(&w), 1e-6f32.to_bits()));
    let s = 1.0 / (7.5f32 + 1e-6).sqrt();
    let expect: Vec<f32> = x.iter().zip(&w).map(|(a, b)| a * b * s).collect();
    for (a, b) in y.iter().zip(&expect) {
        assert!((a - b).abs() < 1e-6);
    }
}

#[test]
fn rms_norm_rows_matches_single_row_math() {
    let x = vec![1.0f32, 2.0, 3.0, 4.0, 0.5, -0.5, 2.0, -3.0];
    let w = vec![0.5f32, 1.0, 1.5, 2.0];
    let eps = 1e-6f32;
    let y = floats(&rms_norm_rows(&bits(&x), &bits(&w), 4, eps.to_bits()).unwrap());
    for (row, src) in x.chunks_exact(4).enumerate() {
        let mut ss = 0.0f32;
        for v in src {
            ss += v * v;
        }
        let scale = 1.0 / (ss / 4.0 + eps).sqrt();
        for (i, v) in src.iter().enumerate() {
            let want = v * scale * w[i];
            assert!(
                (y[row * 4 + i] - want).abs() < 1e-6,
                "row {row} col {i}: {} vs {want}",
                y[row * 4 + i]
            );
        }
    }
    assert!(rms_norm_rows(&bits(&x), &bits(&w), 3, eps.to_bits()).is_err());
    assert!(rms_norm_rows(&bits(&x), &bits(&w[..2]), 4, eps.to_bits()).is_err());
    assert_eq!(
        rms_norm_rows(&bits(&x), &bits(&w[..3]), 3, eps.to_bits()),
        Err("rms_norm_rows: x len 8 not divisible by row_len 3".to_string())
    );
}

#[test]
fn l2_norm_rows_produce_unit_rows() {
    let x = vec![3.0f32, 4.0, 0.0, 0.0, 1.0, 1.0, 1.0, 1.0];
    let y = floats(&l2_norm_rows(&bits(&x), 4, 1e-12f32.to_bits()).unwrap());
    assert!((y[0] - 0.6).abs() < 1e-6);
    assert!((y[1] - 0.8).abs() < 1e-6);
    for row in y[4..8].chunks_exact(4) {
        let ss: f32 = row.iter().map(|v| v * v).sum();
        assert!((ss - 1.0).abs() < 1e-6);
    }
    let z = floats(&l2_norm_rows(&bits(&[0.0f32; 4]), 4, 1e-6f32.to_bits()).unwrap());
    assert_eq!(z, vec![0.0; 4]);
    assert!(l2_norm_rows(&bits(&x), 3, 1e-12f32.to_bits()).is_err());
}

#[test]
fn activations_hit_expected_points() {
    assert_eq!(silu_of(0.0), 0.0);
    assert!((silu_of(1000.0) - 1000.0).abs() < 1e-3);
    assert!((sigmoid_of(0.0) - 0.5).abs() < 1e-7);
    assert!(sigmoid_of(-1000.0) == 0.0);
    assert!((softplus_of(0.0) - 2f32.ln()).abs() < 1e-7);
    assert_eq!(softplus_of(100.0), 100.0);
}

#[test]
fn softmax_rows_are_normalized_and_mask_safe() {
    let x = vec![1.0f32, 2.0, 3.0, f32::NEG_INFINITY, 0.0, 0.0, 0.0, 0.0];
    let y = softmax(&x, 4).unwrap();
    let sum0: f32 = y[0..4].iter().sum();
    assert!((sum0 - 1.0).abs() < 1e-6);
    assert_eq!(y[3], 0.0);
    let sum1: f32 = y[4..8].iter().sum();
    assert!((sum1 - 1.0).abs() < 1e-6);
    for v in &y[4..8] {
        assert!((v - 0.25).abs() < 1e-6);
    }
    assert!(softmax(&x, 3).is_err());
}

#[test]
fn roots_are_the_machine_s() {
    let mut s: u64 = 0x1357_9bdf;
    let mut v: Vec<f32> = vec![
        0.0,
        -0.0,
        1.0,
        2.0,
        4.0,
        0.25,
        1e-45,
        1.1754942e-38,
        1.1754944e-38,
        f32::MAX,
        f32::INFINITY,
        -1.0,
        f32::NAN,
        16777216.0,
    ];
    for _ in 0..300 {
        s ^= s << 13;
        s ^= s >> 7;
        s ^= s << 17;
        v.push(f32::from_bits(s as u32));
    }
    for x in v {
        let r = f32::from_bits(root(x.to_bits()));
        let want = x.sqrt();
        if want.is_nan() {
            assert!(r.is_nan(), "{x}");
        } else {
            assert_eq!(r.to_bits(), want.to_bits(), "{x}");
        }
    }
}

#[test]
fn smaller_numbers_have_no_larger_roots() {
    let mut last = 0u32;
    for k in 0..2000u32 {
        let r = root(0x3F00_0000 + k * 4099);
        assert!(r >= last);
        last = r;
    }
    assert_eq!(f32::from_bits(length(&bits(&[3.0, 4.0]))), 5.0);
}
