//! Row kernels: decoding, quantizing and multiplying.

use bonsai::dots::{
    block_sums, dot, dot_pq2_0_row, pq2_matmul_n, pq2_matvec_range, q4_1_matvec_range,
    row_dot_scalar,
};
use bonsai::dspark::{dequant_row, matvec_par, matvec_scalar, quantize_pq2_0_row, row_bytes, row_dot,
    type_supported};
use bonsai::gguf::{TensorInfo, TYPE_BF16, TYPE_F32, TYPE_PQ2_0, TYPE_Q4_1};
use bonsai::half::{f32_to_half, half_to_f32};
use bonsai::kernels::{
    bf16_to_f32, bw_fraction, check_rows, check_weight, decode_pq2_0_row, div_ceil, n_rows,
    pq2_row_bytes, q4_1_row_bytes, scaled_threads, shares, workers, PQ2_BLOCK, PQ2_QK, Q4_1_BLOCK,
    Q4_1_QK,
};

fn bits(v: &[f32]) -> Vec<u32> {
    v.iter().map(|x| x.to_bits()).collect()
}

fn floats(v: &[u32]) -> Vec<f32> {
    v.iter().map(|&x| f32::from_bits(x)).collect()
}

fn half(v: f32) -> u16 {
    f32_to_half(v.to_bits())
}

fn wide(h: u16) -> f32 {
    f32::from_bits(half_to_f32(h))
}

fn step(s: &mut u32) -> u32 {
    *s ^= *s << 13;
    *s ^= *s >> 17;
    *s ^= *s << 5;
    *s
}

#[test]
fn ternary_quantizer_roundtrips_within_scale() {
    let x: Vec<f32> = (0..256)
        .map(|i| ((i as f32) / 256.0) * 2.0 - 1.0 + (i % 7) as f32 * 0.01)
        .collect();
    let mut packed = Vec::new();
    quantize_pq2_0_row(&bits(&x), &mut packed);
    assert_eq!(packed.len(), 2 * 34);
    let back = floats(&decode_pq2_0_row(&packed, 256));
    for blk in 0..2 {
        let absmax = x[blk * 128..(blk + 1) * 128].iter().fold(0.0f32, |m, v| m.max(v.abs()));
        for j in 0..128 {
            let e = (back[blk * 128 + j] - x[blk * 128 + j]).abs();
            assert!(e <= 0.5 * absmax + 1e-5, "blk {blk} j {j}: err {e}");
        }
    }
}

#[test]
fn bf16_decode_roundtrip() {
    assert_eq!(f32::from_bits(bf16_to_f32(0x3F80)), 1.0);
    assert_eq!(f32::from_bits(bf16_to_f32(0xBF80)), -1.0);
    assert_eq!(f32::from_bits(bf16_to_f32(0x4000)), 2.0);
}

#[test]
fn q4_1_block_decodes() {
    let mut raw = Vec::new();
    raw.extend_from_slice(&half(1.0).to_le_bytes());
    raw.extend_from_slice(&half(0.0).to_le_bytes());
    for b in 0..16u8 {
        raw.push(b | (b << 4));
    }
    let mut out = vec![0u32; 32];
    dequant_row(TYPE_Q4_1, &raw, 32, &mut out);
    let out = floats(&out);
    for j in 0..16 {
        assert_eq!(out[j], j as f32, "low element {j}");
        assert_eq!(out[16 + j], j as f32, "high element {j}");
    }
}

#[test]
fn row_bytes_match_block_rules() {
    assert_eq!(row_bytes(TYPE_F32, 100), 400);
    assert_eq!(row_bytes(TYPE_BF16, 100), 200);
    assert_eq!(row_bytes(TYPE_Q4_1, 64), 2 * Q4_1_BLOCK);
    assert_eq!(row_bytes(TYPE_PQ2_0, 128), 34);
}

#[test]
fn pq2_decode_known_row() {
    let mut raw = vec![0u8; PQ2_BLOCK];
    raw[0] = 0x00;
    raw[1] = 0x40;
    raw[2] = 0b11;
    raw[3] = 0b10_01;
    let v = floats(&decode_pq2_0_row(&raw, PQ2_QK));
    assert_eq!(v[0], 4.0);
    assert_eq!(v[1], -2.0);
    assert_eq!(v[4], 0.0);
    assert_eq!(v[5], 2.0);
}

#[test]
fn pq2_matmul_n_matches_per_token_matvec() {
    let ne0 = 256usize;
    let n_rows = 12usize;
    let n_tok = 3usize;
    let rb = pq2_row_bytes(ne0);
    let mut seed = 0x1234_5678u32;
    let mut payload = vec![0u8; n_rows * rb];
    for r in 0..n_rows {
        for blk in 0..ne0 / PQ2_QK {
            let base = r * rb + blk * PQ2_BLOCK;
            let h = half(((step(&mut seed) % 500) as f32) / 250.0 + 0.01);
            payload[base] = (h & 0xff) as u8;
            payload[base + 1] = (h >> 8) as u8;
            for k in 0..32 {
                payload[base + 2 + k] = (step(&mut seed) % 256) as u8;
            }
        }
    }
    let x: Vec<f32> = (0..n_tok * ne0)
        .map(|_| ((step(&mut seed) % 2001) as f32 - 1000.0) / 500.0)
        .collect();
    let x = bits(&x);
    let mut y_n = vec![0u32; n_tok * n_rows];
    pq2_matmul_n(&payload, ne0, 0, n_rows, &x, n_tok, &mut y_n).unwrap();
    for t in 0..n_tok {
        let mut y1 = vec![0u32; n_rows];
        pq2_matvec_range(&payload, ne0, 0, n_rows, &x[t * ne0..(t + 1) * ne0], &mut y1).unwrap();
        for r in 0..n_rows {
            assert_eq!(f32::from_bits(y_n[t * n_rows + r]), f32::from_bits(y1[r]), "t {t} row {r}");
        }
    }
    let row = row_dot_scalar(&payload, rb, ne0, &x[..ne0]);
    assert_eq!(row, y_n[1]);
    let one_by_one = f32::from_bits(dot_pq2_0_row(&payload, ne0, 1, &x[..ne0]).unwrap());
    let by_blocks = f32::from_bits(row);
    assert!((one_by_one - by_blocks).abs() <= 1e-4 * by_blocks.abs());
}

#[test]
fn q4_1_matvec_matches_dequantized_dot() {
    let ne0 = 64usize;
    let n_rows = 5usize;
    let rb = q4_1_row_bytes(ne0);
    let mut seed = 0x9e37_79b9u32;
    let mut payload = vec![0u8; n_rows * rb];
    for r in 0..n_rows {
        for blk in 0..ne0 / Q4_1_QK {
            let b = r * rb + blk * Q4_1_BLOCK;
            let d = half(((step(&mut seed) % 400) as f32) / 200.0 + 0.005);
            let m = half(((step(&mut seed) % 200) as f32 - 100.0) / 400.0);
            payload[b] = (d & 0xff) as u8;
            payload[b + 1] = (d >> 8) as u8;
            payload[b + 2] = (m & 0xff) as u8;
            payload[b + 3] = (m >> 8) as u8;
            for k in 0..16 {
                payload[b + 4 + k] = (step(&mut seed) % 256) as u8;
            }
        }
    }
    let x: Vec<f32> = (0..ne0)
        .map(|_| ((step(&mut seed) % 2001) as f32 - 1000.0) / 500.0)
        .collect();
    let mut y = vec![0u32; n_rows];
    q4_1_matvec_range(&payload, ne0, 0, n_rows, &bits(&x), &mut y).unwrap();
    for (r, &y_r) in y.iter().enumerate() {
        let y_r = f32::from_bits(y_r);
        let row = &payload[r * rb..(r + 1) * rb];
        let mut want = 0.0f32;
        for blk in 0..ne0 / Q4_1_QK {
            let b = blk * Q4_1_BLOCK;
            let d = wide(u16::from_le_bytes([row[b], row[b + 1]]));
            let m = wide(u16::from_le_bytes([row[b + 2], row[b + 3]]));
            for j in 0..16 {
                let qlo = (row[b + 4 + j] & 0x0f) as f32;
                let qhi = (row[b + 4 + j] >> 4) as f32;
                want += x[blk * 32 + j] * (d * qlo + m);
                want += x[blk * 32 + 16 + j] * (d * qhi + m);
            }
        }
        let scale = want.abs().max(1.0);
        assert!((want - y_r).abs() / scale < 1e-4, "row {r}: {want} != {y_r}");
    }
}

#[test]
fn block_sums_add_up_blocks() {
    let x: Vec<f32> = (0..40).map(|i| i as f32).collect();
    let s = floats(&block_sums(&bits(&x)));
    assert_eq!(s, vec![496.0, 284.0]);
}

#[test]
fn dense_rows_multiply() {
    let w: Vec<f32> = vec![1.0, -2.0, 0.5, 4.0, 3.0, -1.0];
    let mut payload = Vec::new();
    for v in &w {
        payload.extend_from_slice(&v.to_le_bytes());
    }
    let x = bits(&[2.0, 1.0, -4.0]);
    let mut y = vec![0u32; 2];
    matvec_scalar(TYPE_F32, &payload, 3, &x, &mut y).unwrap();
    assert_eq!(floats(&y), vec![-2.0, 15.0]);
    let mut z = vec![0u32; 2];
    matvec_par(TYPE_F32, &payload, 3, 0, 2, &x, &mut z).unwrap();
    assert_eq!(z, y);
    assert_eq!(f32::from_bits(row_dot(TYPE_F32, &payload, 12, 3, &x)), 15.0);
    assert_eq!(f32::from_bits(dot(&x, &bits(&w[..3]))), -2.0);
    let mut wrong = vec![0u32; 2];
    assert!(matvec_scalar(TYPE_F32, &payload, 3, &x[..2], &mut wrong).is_err());
}

#[test]
fn supported_types_are_known() {
    for ty in [TYPE_F32, TYPE_BF16, TYPE_Q4_1, TYPE_PQ2_0] {
        assert!(type_supported(ty), "{ty}");
    }
    assert!(!type_supported(1));
    assert!(!type_supported(2));
}

#[test]
fn ranges_are_checked() {
    let mut y = vec![0u32; 1];
    let x = vec![0u32; 128];
    let e = pq2_matvec_range(&[0; 33], 128, 0, 1, &x, &mut y).unwrap_err();
    assert!(e.contains("33") || e.contains("34"), "{e}");
    assert!(pq2_matvec_range(&[0; 34], 128, 0, 1, &x[..100], &mut y).is_err());
    assert!(pq2_matvec_range(&[0; 34], 128, 0, 2, &x, &mut y).is_err());
    assert!(pq2_matvec_range(&[0; 34], 128, 0, 1, &x, &mut y).is_ok());
    assert!(q4_1_matvec_range(&[0; 19], 32, 0, 1, &x[..32], &mut y).is_err());
    assert!(pq2_matmul_n(&[0; 34], 128, 0, 1, &x, 2, &mut y).is_err());
    assert!(dot_pq2_0_row(&[0; 34], 128, 1, &x).is_err());
    assert!(dot_pq2_0_row(&[0; 34], 128, 0, &x[..1]).is_err());
}

#[test]
fn rows_must_divide() {
    assert!(check_rows("softmax_rows", 8, 4).is_ok());
    assert!(check_rows("softmax_rows", 8, 3).is_err());
    assert!(check_weight(4, 4).is_ok());
    assert!(check_weight(2, 4).is_err());
}

#[test]
fn shares_cover_all_rows_once() {
    for (n, w) in [(10usize, 3usize), (3, 8), (0, 2), (12, 4), (1, 1)] {
        let parts = shares(n, w);
        let mut at = 0;
        for p in &parts {
            assert_eq!(p.start, at);
            at = p.end;
        }
        assert_eq!(at, n, "{n} rows over {w}");
    }
}

#[test]
fn threads_scale_with_the_share() {
    assert_eq!(bw_fraction(None), 1.0f32.to_bits());
    assert_eq!(bw_fraction(Some("50")), 0.5f32.to_bits());
    assert_eq!(bw_fraction(Some("500")), 1.0f32.to_bits());
    assert_eq!(bw_fraction(Some("0")), 0.01f32.to_bits());
    assert_eq!(bw_fraction(Some("fast")), 1.0f32.to_bits());
    assert_eq!(scaled_threads(8, 0.5f32.to_bits()), 4);
    assert_eq!(scaled_threads(8, 1.0f32.to_bits()), 8);
    assert_eq!(scaled_threads(3, 0.0f32.to_bits()), 1);
    assert!(workers(100, 4, 1) <= 4);
    assert_eq!(div_ceil(7, 3), 3);
    assert_eq!(div_ceil(6, 3), 2);
}

#[test]
fn rows_of_a_tensor_are_counted() {
    let t = TensorInfo { name: "t".to_string(), dims: vec![4, 3, 2], ty: 0, offset: 0 };
    assert_eq!(n_rows(&t), 6);
    let t = TensorInfo { name: "t".to_string(), dims: vec![4], ty: 0, offset: 0 };
    assert_eq!(n_rows(&t), 1);
}

#[test]
fn pauses_keep_to_a_share_of_the_machine() {
    let f = |e: f32, b: f32, p: f32| {
        bonsai::kernels::pause_millis(e.to_bits(), b.to_bits(), p.to_bits())
    };
    assert_eq!(f(2.0, 2.0, 0.25), 6000);
    assert_eq!(f(2.5, 2.0, 0.25), 5500);
    assert_eq!(f(1.0, 1.0, 0.75), 333);
    assert_eq!(f(0.1, 0.1, 0.5), 100);
    assert_eq!(f(9.0, 2.0, 0.25), 0);
    assert_eq!(f(2.0, 2.0, 1.0), 0);
    assert_eq!(f(2.0, 0.0, 0.25), 0);
}

#[test]
fn one_thread_multiplies_like_many() {
    let ne0 = 128usize;
    // Two rows of one block each: a scale of one, and codes for one and for minus one.
    let mut raw = Vec::new();
    for code in [0xAAu8, 0x00] {
        raw.extend_from_slice(&[0x00, 0x3C]);
        raw.extend_from_slice(&[code; 32]);
    }
    let x = vec![0.5f32.to_bits(); ne0];
    let mut a = vec![0u32; 2];
    let mut b = vec![0u32; 2];
    bonsai::dots::pq2_matvec_range_single(&raw, ne0, 0, 2, &x, &mut a).unwrap();
    bonsai::dots::pq2_matvec_range(&raw, ne0, 0, 2, &x, &mut b).unwrap();
    assert_eq!(a, b);
    assert_eq!(a, vec![64.0f32.to_bits(), (-64.0f32).to_bits()]);
    let mut f = |n: usize, x: &[u32]| {
        bonsai::dots::pq2_matvec_range_single(&raw, ne0, 0, n, x, &mut a).unwrap_err()
    };
    assert_eq!(f(2, &x[..1]), "pq2_matvec_range_single: x length mismatch");
    assert_eq!(f(3, &x), "pq2_matvec_range_single: y too small");
    let mut wide = vec![0u32; 3];
    let e = bonsai::dots::pq2_matvec_range_single(&raw, ne0, 0, 3, &x, &mut wide).unwrap_err();
    assert_eq!(e, "pq2_matvec_range_single: row range exceeds payload");
}

#[test]
fn rows_sum_in_the_order_of_their_bytes() {
    // Two blocks of nibbles, the second one cut off after twenty columns.
    let ne0 = 52usize;
    let mut raw = Vec::new();
    for blk in 0..2u8 {
        raw.extend_from_slice(&[0x66, 0x2E, 0x33, 0xB2]);
        for j in 0..16u8 {
            raw.push((j * 7 + blk * 3) % 16 + 16 * ((j * 5 + blk) % 16));
        }
    }
    let mut w = vec![0u32; ne0];
    dequant_row(TYPE_Q4_1, &raw, ne0, &mut w);
    let w = floats(&w);
    let x: Vec<f32> = (0..ne0).map(|i| ((i * 37 % 11) as f32 - 5.0) * 1234.567 / (i + 1) as f32).collect();
    let mut sum = 0.0f32;
    for base in [0, 32] {
        for j in 0..16 {
            for c in [base + j, base + j + 16] {
                if c < ne0 {
                    sum += x[c] * w[c];
                }
            }
        }
    }
    assert_eq!(row_dot(TYPE_Q4_1, &raw, 0, ne0, &bits(&x)), sum.to_bits());
    let mut one = vec![0u32; 1];
    matvec_scalar(TYPE_Q4_1, &raw, ne0, &bits(&x), &mut one).unwrap();
    let straight = x.iter().zip(w.iter()).fold(0.0f32, |a, (x, w)| a + x * w);
    assert_eq!(one[0], straight.to_bits());
}

#[test]
fn ternary_rows_take_the_scale_once_a_block() {
    let ne0 = 200usize;
    let mut raw = Vec::new();
    for blk in 0..2u8 {
        raw.extend_from_slice(&[0x66, 0x2E]);
        for j in 0..32u8 {
            raw.push(j.wrapping_mul(73).wrapping_add(blk * 19));
        }
    }
    let x: Vec<f32> = (0..ne0).map(|i| 1.0 / (i as f32 + 3.0)).collect();
    let scale = f32::from_bits(half_to_f32(0x2E66));
    let mut sum = 0.0f32;
    for blk in 0..2 {
        let mut part = 0.0f32;
        for j in 0..128 {
            let i = blk * 128 + j;
            if i < ne0 {
                let code = (raw[blk * 34 + 2 + j / 4] >> (j % 4 * 2)) & 3;
                part += x[i] * (code as i32 - 1) as f32;
            }
        }
        sum += part * scale;
    }
    assert_eq!(row_dot(TYPE_PQ2_0, &raw, 0, ne0, &bits(&x)), sum.to_bits());
    assert_eq!(row_dot(7, &raw, 0, ne0, &bits(&x)), 0);
}

#[test]
fn a_short_row_of_nibbles_is_decoded_in_part() {
    let mut raw = vec![0x00u8, 0x3C, 0x00, 0x00];
    raw.extend_from_slice(&[0x21; 16]);
    raw.extend_from_slice(&[0x00, 0x3C, 0x00]);
    let mut out = vec![9.0f32.to_bits(); 40];
    dequant_row(TYPE_Q4_1, &raw, 40, &mut out);
    let out = floats(&out);
    assert_eq!(out[..16], [1.0; 16]);
    assert_eq!(out[16..32], [2.0; 16]);
    assert_eq!(out[32..], [9.0; 8]);
}
