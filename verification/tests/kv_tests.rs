//! The key/value cache, its quantizer, rotations and the recurrent state.

use bonsai::codebook::{givens_angles, Codebooks, Lloyd, Powers};
use bonsai::config::Qwen35;
use bonsai::forward::{
    add_residual, check_attn_rows, check_embedding, check_ffn_rows, convolve, forward_hidden_taps,
    gated, kv_head, mix, rotate_conv, score_scale, scores, split_gate, vocab_size, AttnCache,
    HeadLoop, KvForm, Role,
    SsmCache, Step,
};
use bonsai::gdn::{gdn_head, gdn_step, key_head};
use bonsai::gguf::TensorInfo;
use bonsai::kvquant::{
    from_env, mode_from_env, pack_bits, packed_bytes, quantizers_for, splitmix64, unpack_bits,
    KvMode, PlanarQuant,
};
use bonsai::planar::nearest;
use bonsai::rope::{band, imrope_angles, neox_angles, turn, Band, Positions};

const DEFAULT_HD: usize = 256;

fn bits(v: &[f32]) -> Vec<u32> {
    v.iter().map(|x| x.to_bits()).collect()
}

fn floats(v: &[u32]) -> Vec<f32> {
    v.iter().map(|&x| f32::from_bits(x)).collect()
}

fn rng(seed: u64) -> impl FnMut() -> f32 {
    let mut s = seed | 1;
    move || {
        s ^= s << 13;
        s ^= s >> 7;
        s ^= s << 17;
        ((s >> 40) as f32 / (1u64 << 24) as f32) * 2.0 - 1.0
    }
}

/// The rotation table: angles from the fixed seed.
fn givens(d: usize) -> Vec<(u32, u32)> {
    let mut state: u64 = 42;
    (0..d.div_ceil(2))
        .map(|_| {
            let r = splitmix64(&mut state);
            let u = (r >> 11) as f64 / (1u64 << 53) as f64;
            let t = u * std::f64::consts::TAU;
            ((t.cos() as f32).to_bits(), (t.sin() as f32).to_bits())
        })
        .collect()
}

fn erf(x: f64) -> f64 {
    let sign = if x < 0.0 { -1.0 } else { 1.0 };
    let x = x.abs();
    let t = 1.0 / (1.0 + 0.3275911 * x);
    let y = 1.0
        - (((((1.061405429 * t - 1.453152027) * t) + 1.421413741) * t - 0.284496736) * t
            + 0.254829592)
            * t
            * (-x * x).exp();
    sign * y
}

/// Levels for coordinates of a unit vector: the best scalar quantizer of a normal variable.
fn levels(d: usize, width: u32) -> Vec<u32> {
    let sigma = 1.0 / (d as f64).sqrt();
    let cdf = |x: f64| 0.5 * (1.0 + erf(x / (sigma * std::f64::consts::SQRT_2)));
    let pdf = |x: f64| {
        (-(x * x) / (2.0 * sigma * sigma)).exp() / (sigma * (2.0 * std::f64::consts::PI).sqrt())
    };
    let n = 1usize << width;
    let (lo, hi) = (-3.5 * sigma, 3.5 * sigma);
    let mut c: Vec<f64> = (0..n).map(|i| lo + (hi - lo) * (i as f64 + 0.5) / n as f64).collect();
    let outer = 12.0 * sigma;
    for _ in 0..300 {
        let mut edges = vec![-outer];
        for i in 0..n - 1 {
            edges.push((c[i] + c[i + 1]) / 2.0);
        }
        edges.push(outer);
        let mut moved = Vec::new();
        for i in 0..n {
            let (a, b) = (edges[i], edges[i + 1]);
            let mass = cdf(b) - cdf(a);
            if mass > 1e-15 {
                moved.push(sigma * sigma * (pdf(a) - pdf(b)) / mass);
            } else {
                moved.push(c[i]);
            }
        }
        let shift = moved.iter().zip(&c).map(|(a, b)| (a - b).abs()).fold(0.0f64, f64::max);
        c = moved;
        if shift < 1e-12 {
            break;
        }
    }
    c.iter().map(|&v| (v as f32).to_bits()).collect()
}

fn norm_of(x: &[f32]) -> f32 {
    x.iter().map(|v| v * v).sum::<f32>().sqrt()
}

#[test]
fn bit_packing_roundtrips_both_widths() {
    for bits in [3u32, 4u32] {
        let n = 256usize;
        let mut next = rng(5 + bits as u64);
        let idx: Vec<u8> = (0..n)
            .map(|_| ((next().abs() * 1000.0) as u32 % (1 << bits)) as u8)
            .collect();
        let mut packed = vec![0u8; packed_bytes(n, bits)];
        pack_bits(&idx, bits, &mut packed);
        let mut back = vec![0u8; n];
        unpack_bits(&packed, bits, n, &mut back);
        assert_eq!(idx, back, "bits={bits}");
    }
}

#[test]
fn givens_is_orthogonal() {
    let p = PlanarQuant::new(DEFAULT_HD, 4);
    let table = givens(p.hd);
    let mut next = rng(7);
    let x: Vec<f32> = (0..p.hd).map(|_| next()).collect();
    let mut rot = vec![0u32; p.hd_padded];
    let mut back = vec![0u32; p.hd_padded];
    p.rotate(&bits(&x), &table, &mut rot);
    p.rotate_inv(&rot, &table, &mut back);
    let back = floats(&back);
    for i in 0..p.hd {
        assert!((back[i] - x[i]).abs() < 1e-5, "i={i} {} vs {}", back[i], x[i]);
    }
    p.rotate_inv_inplace(&mut rot, &table);
    assert_eq!(floats(&rot), back);
}

#[test]
fn quantize_roundtrip_error_is_small() {
    let p = PlanarQuant::new(DEFAULT_HD, 4);
    let table = givens(p.hd);
    let c = levels(p.hd, 4);
    let mut next = rng(11);
    let mut worst_rel = 0.0f32;
    for _ in 0..64 {
        let x: Vec<f32> = (0..p.hd).map(|_| next()).collect();
        let mut packed = vec![0u8; p.packed_len()];
        let norm = f32::from_bits(p.quantize(&bits(&x), &c, &table, &mut packed));
        assert_eq!(norm, norm_of(&x));
        let mut y = vec![0u32; p.hd];
        p.dequantize(&packed, norm.to_bits(), &c, &table, &mut y);
        let y = floats(&y);
        let err: f32 =
            x.iter().zip(&y).map(|(a, b)| (a - b) * (a - b)).sum::<f32>().sqrt();
        let xn: f32 = norm_of(&x);
        worst_rel = worst_rel.max(err / xn.max(1e-9));
    }
    assert!(worst_rel < 0.12, "worst relative L2 error {worst_rel}");
}

#[test]
fn dot_rotated_matches_dequantized_dot() {
    let p = PlanarQuant::new(DEFAULT_HD, 4);
    let table = givens(p.hd);
    let c = levels(p.hd, 4);
    let mut next = rng(23);
    let k: Vec<f32> = (0..p.hd).map(|_| next()).collect();
    let q: Vec<f32> = (0..p.hd).map(|_| next()).collect();
    let mut packed = vec![0u8; p.packed_len()];
    let norm = f32::from_bits(p.quantize(&bits(&k), &c, &table, &mut packed));
    let mut khat = vec![0u32; p.hd];
    p.dequantize(&packed, norm.to_bits(), &c, &table, &mut khat);
    let khat = floats(&khat);
    let mut qrot = vec![0u32; p.hd_padded];
    p.rotate(&bits(&q), &table, &mut qrot);
    let a = f32::from_bits(p.dot_rotated(&qrot, &packed, norm.to_bits(), &c));
    let b: f32 = q.iter().zip(&khat).map(|(a, b)| a * b).sum();
    assert!((a - b).abs() < 1e-4, "dot {a} vs {b}");
}

#[test]
fn nearest_level_is_the_first_of_equals() {
    let c = bits(&[-1.0, 0.0, 1.0, 3.0]);
    assert_eq!(nearest(&c, 0.4f32.to_bits()), 1);
    assert_eq!(nearest(&c, 0.5f32.to_bits()), 1);
    assert_eq!(nearest(&c, 2.5f32.to_bits()), 3);
    assert_eq!(nearest(&c, (-9.0f32).to_bits()), 0);
    assert_eq!(nearest(&c, f32::NAN.to_bits()), 0);
}

#[test]
fn a_vector_of_no_length_quantizes_to_zeros() {
    let p = PlanarQuant::new(3, 2);
    let table = givens(3);
    let c = bits(&[-0.5, -0.1, 0.1, 0.5]);
    let mut packed = vec![0xFFu8; 2];
    assert_eq!(p.quantize(&bits(&[0.0; 3]), &c, &table, &mut packed), 0);
    let mut idx = vec![9u8; 4];
    unpack_bits(&packed, 2, 4, &mut idx);
    assert_eq!(idx, vec![1; 4]);
    let mut held = vec![0u32; 4];
    p.unpack_centroids_into(&packed, &c, &mut held);
    assert_eq!(floats(&held), vec![-0.1; 4]);
    let mut y = vec![7u32; 4];
    p.dequantize(&packed, 0, &c, &table, &mut y);
    assert_eq!(floats(&y[..3]), vec![0.0; 3]);
    assert_eq!(y[3], 7);
}

#[test]
fn packing_clears_what_is_left() {
    let mut out = vec![0xAAu8; 4];
    pack_bits(&[5, 7, 1], 3, &mut out);
    assert_eq!(out, vec![0b01_111_101, 0, 0, 0]);
    assert_eq!(packed_bytes(256, 3), 96);
    assert_eq!(packed_bytes(3, 3), 2);
}

#[test]
fn kv_settings_select_quantizers() {
    assert_eq!(mode_from_env(None), KvMode::F32);
    assert_eq!(from_env(256, None), (None, None));
    assert_eq!(from_env(256, Some("f32")), (None, None));
    assert_eq!(from_env(256, Some("")), (None, None));
    let q3 = PlanarQuant::new(256, 3);
    let q4 = PlanarQuant::new(256, 4);
    assert_eq!(from_env(256, Some("planar3")), (Some(q3), Some(q3)));
    assert_eq!(from_env(256, Some("iso4")), (Some(q4), Some(q4)));
    assert_eq!(from_env(256, Some("planar4k")), (Some(q4), None));
    assert_eq!(from_env(256, Some("planar9")), (None, None));
    assert_eq!(from_env(256, Some("what")), (None, None));
    let q5 = PlanarQuant::new(7, 5);
    assert_eq!((q5.n_groups, q5.hd_padded), (4, 8));
    assert_eq!(quantizers_for(mode_from_env(Some("iso5")), 7), (Some(q5), Some(q5)));
}

fn mini_cfg() -> Qwen35 {
    Qwen35 {
        n_layer: 4,
        n_embd: 128,
        n_ff: 256,
        n_head: 8,
        n_head_kv: 2,
        n_embd_head: 16,
        n_ctx_train: 4096,
        eps: 1e-6f32.to_bits(),
        interval: 4,
        n_rot: 8,
        sections: [2, 1, 1, 0],
        freq_base: 1e4f32.to_bits(),
        ssm_conv_kernel: 4,
        ssm_state: 16,
        ssm_group_count: 2,
        ssm_dt_rank: 8,
        ssm_inner: 128,
    }
}

#[test]
fn cache_grows_per_token_and_indexes() {
    let cfg = mini_cfg();
    let mut c = AttnCache::new(&cfg, None);
    assert_eq!(c.n_kv_elems, 32);
    assert_eq!(c.n_pos(3), 0);
    let krow: Vec<f32> = (0..32).map(|i| i as f32).collect();
    let vrow: Vec<f32> = (0..32).map(|i| -i as f32).collect();
    c.append(3, &bits(&krow), &bits(&vrow));
    c.append(3, &bits(&krow), &bits(&vrow));
    assert_eq!(c.n_pos(3), 2);
    assert_eq!(f32::from_bits(c.k[3][0]), 0.0);
    assert_eq!(f32::from_bits(c.k[3][31]), 31.0);
    assert_eq!(f32::from_bits(c.k[3][32]), 0.0);
    assert_eq!(f32::from_bits(c.v[3][32 + 16]), -16.0);
    assert_eq!(c.n_pos(0), 0);
}

#[test]
fn cache_forms_follow_the_setting() {
    let cfg = mini_cfg();
    assert_eq!(AttnCache::new(&cfg, None).kv_form(), KvForm::Singles);
    assert_eq!(AttnCache::new(&cfg, Some("planar3")).kv_form(), KvForm::Planar { values: true });
    assert_eq!(AttnCache::new(&cfg, Some("planar3k")).kv_form(), KvForm::Planar { values: false });
    let mut h = AttnCache::new(&cfg, Some("f16"));
    assert_eq!(h.kv_form(), KvForm::Halves);
    let row = bits(&[1.5; 32]);
    h.append_f16(1, &row, &row);
    assert_eq!(h.n_pos(1), 1);
    assert_eq!(h.k16[1], vec![0x3E00; 32]);
    h.reset();
    assert_eq!(h.n_pos(1), 0);
}

#[test]
fn quantized_heads_are_scored_and_mixed() {
    let cfg = mini_cfg();
    let mut c = AttnCache::new(&cfg, Some("planar4"));
    let p = PlanarQuant::new(16, 4);
    assert_eq!(c.pq, Some(p));
    let table = givens(16);
    let book = levels(16, 4);
    let mut next = rng(3);
    let rows: Vec<Vec<f32>> = (0..3).map(|_| (0..32).map(|_| next()).collect()).collect();
    for r in &rows {
        c.append_k_quantized(&p, 3, &bits(r), &book, &table);
        c.append_v_quantized(&p, 3, &bits(r), &book, &table);
    }
    assert_eq!(c.n_pos(3), 3);
    assert_eq!(c.kn[3].len(), 6);
    assert_eq!(f32::from_bits(c.kn[3][2]), norm_of(&rows[1][..16]));
    let q: Vec<f32> = (0..128).map(|_| next()).collect();
    let mut heads = HeadLoop::new(3, 2);
    let probs = bits(&[0.5, 0.0, 0.5]);
    for h in 0..8 {
        let s = floats(&heads.planar_scores(
            &cfg,
            &c,
            &p,
            &bits(&q),
            1.0f32.to_bits(),
            &book,
            &table,
        ));
        for j in 0..3 {
            let kv = h / 4;
            let want: f32 =
                (0..16).map(|d| q[h * 16 + d] * rows[j][kv * 16 + d]).sum();
            assert!((s[j] - want).abs() < 0.6, "head {h} token {j}: {} {want}", s[j]);
        }
        heads.planar_accept(&cfg, &c, &p, &probs, &book, &table);
    }
    let out = floats(&heads.out);
    assert_eq!(out.len(), 128);
    for h in 0..8 {
        for d in 0..16 {
            let kv = h / 4;
            let want = 0.5 * rows[0][kv * 16 + d] + 0.5 * rows[2][kv * 16 + d];
            assert!((out[h * 16 + d] - want).abs() < 0.5, "head {h} dim {d}");
        }
    }
}

#[test]
fn attention_scores_and_mixes() {
    let keys = bits(&[1.0, 0.0, 9.0, 9.0, 0.0, 2.0, 9.0, 9.0]);
    let q = bits(&[3.0, 4.0]);
    let s = scores(&q, &keys, 2, 0, 4, 2, 0.5f32.to_bits());
    assert_eq!(floats(&s), vec![1.5, 4.0]);
    let m = mix(&bits(&[0.25, 0.75]), &keys, 0, 4, 2);
    assert_eq!(floats(&m), vec![0.25, 1.5]);
    assert_eq!(floats(&gated(&bits(&[2.0, 3.0]), &bits(&[0.5, 1.0]))), vec![1.0, 3.0]);
    assert_eq!(floats(&add_residual(&bits(&[1.0, 2.0]), &bits(&[3.0, 4.0]))), vec![4.0, 6.0]);
    let (a, b) = split_gate(&bits(&[1.0, 2.0, 3.0, 4.0, 5.0, 6.0, 7.0, 8.0]), 2, 2);
    assert_eq!(floats(&a), vec![1.0, 2.0, 5.0, 6.0]);
    assert_eq!(floats(&b), vec![3.0, 4.0, 7.0, 8.0]);
}

#[test]
fn heads_share_keys_in_groups() {
    let cfg = mini_cfg();
    let kv: Vec<usize> = (0..8).map(|h| kv_head(&cfg, h)).collect();
    assert_eq!(kv, vec![0, 0, 0, 0, 1, 1, 1, 1]);
    let mut c = AttnCache::new(&cfg, None);
    let row: Vec<f32> = (0..32).map(|i| if i < 16 { 1.0 } else { 2.0 }).collect();
    c.append(3, &bits(&row), &bits(&row));
    let mut heads = HeadLoop::new(3, 0);
    let q = bits(&[1.0; 128]);
    for h in 0..8 {
        let s = heads.scores(&cfg, &c, &q, 1.0f32.to_bits());
        assert_eq!(floats(&s), vec![if h < 4 { 16.0 } else { 32.0 }]);
        heads.accept(&cfg, &c, &bits(&[1.0]));
    }
    let out = floats(&heads.out);
    assert_eq!(out.len(), 128);
    assert_eq!(out[0], 1.0);
    assert_eq!(out[127], 2.0);
}

#[test]
fn projections_are_checked() {
    let cfg = mini_cfg();
    assert!(check_attn_rows(&cfg, 3, 256, 32, 32).is_ok());
    assert!(check_attn_rows(&cfg, 3, 255, 32, 32).is_err());
    assert!(check_ffn_rows(&cfg, 0, 256, 256).is_ok());
    assert!(check_ffn_rows(&cfg, 0, 256, 255).is_err());
    assert!(check_embedding(&cfg, 128).is_ok());
    assert!(check_embedding(&cfg, 127).is_err());
    let head = TensorInfo { name: "output.weight".to_string(), dims: vec![128, 77], ty: 0, offset: 0 };
    assert_eq!(vocab_size(Some(&head)), 77);
}

#[test]
fn a_pass_visits_every_layer_once() {
    let cfg = mini_cfg();
    let plain = forward_hidden_taps(&cfg, &[], 0).unwrap();
    assert_eq!(
        plain,
        vec![
            Step::Recurrent { il: 0 },
            Step::Ffn { il: 0 },
            Step::Recurrent { il: 1 },
            Step::Ffn { il: 1 },
            Step::Recurrent { il: 2 },
            Step::Ffn { il: 2 },
            Step::Attention { il: 3 },
            Step::Ffn { il: 3 },
            Step::Output,
        ]
    );
    let tapped = forward_hidden_taps(&cfg, &[2, 0], 2).unwrap();
    assert_eq!(tapped[0], Step::Tap { place: 1 });
    assert_eq!(tapped.iter().filter(|s| matches!(s, Step::Tap { .. })).count(), 2);
    // A layer that is wanted twice is handed out twice.
    let twice = forward_hidden_taps(&cfg, &[1, 1], 2).unwrap();
    assert_eq!(twice[2..5], [Step::Tap { place: 0 }, Step::Tap { place: 1 }, Step::Recurrent { il: 1 }]);
    assert!(forward_hidden_taps(&cfg, &[1], 2).is_err());
}

#[test]
fn the_window_convolves_and_moves_on() {
    let mut conv = bits(&[1.0, 2.0, 10.0, 20.0]);
    let qkv = bits(&[3.0, 30.0]);
    let w = bits(&[1.0, 0.5, 2.0, 0.0, 1.0, -1.0]);
    let y = floats(&convolve(&conv, &qkv, &w, 2));
    assert_eq!(y, vec![1.0 + 1.0 + 6.0, 20.0 - 30.0]);
    rotate_conv(&mut conv, &qkv, 2);
    assert_eq!(floats(&conv), vec![2.0, 3.0, 20.0, 30.0]);
    let s = SsmCache::new(&mini_cfg());
    assert_eq!(s.conv.len(), 4);
    assert_eq!(s.conv[0].len(), 3 * (2 * 2 * 16 + 128));
}

#[test]
fn the_recurrent_state_follows_the_delta_rule() {
    let mut state = bits(&[0.0; 4]);
    let one = 1.0f32.to_bits();
    let k = bits(&[1.0, 0.0]);
    let v = bits(&[5.0, 7.0]);
    let out = gdn_head(&mut state, one, &k, &k, &v, one, one);
    assert_eq!(floats(&out), vec![5.0, 7.0]);
    let again = gdn_head(&mut state, one, &k, &k, &v, one, one);
    assert_eq!(floats(&again), vec![5.0, 7.0]);
    let half = 0.5f32.to_bits();
    let decayed = gdn_head(&mut state, half, &k, &k, &v, 0, one);
    assert_eq!(floats(&decayed), vec![2.5, 3.5]);
    assert_eq!(key_head(5, 2), 1);
    let mut states = vec![bits(&[0.0; 4]), bits(&[0.0; 4])];
    let o = gdn_step(
        &k,
        &k,
        &bits(&[1.0, 2.0, 3.0, 4.0]),
        &[one, one],
        &[one, one],
        &mut states,
        1,
        2,
        one,
    );
    assert_eq!(floats(&o), vec![1.0, 2.0, 3.0, 4.0]);
}

fn neox(head: &mut Vec<u32>, pos: f32, n_dims: usize, freq_base: f32) {
    let scale = freq_base.powf(-2.0 / n_dims as f32);
    let angles = floats(&neox_angles(pos.to_bits(), n_dims / 2, scale.to_bits()));
    let cos: Vec<u32> = angles.iter().map(|a| a.cos().to_bits()).collect();
    let sin: Vec<u32> = angles.iter().map(|a| a.sin().to_bits()).collect();
    turn(head, &cos, &sin);
}

#[test]
fn neox_pos0_is_identity() {
    let orig = vec![1.0, 2.0, 3.0, 4.0];
    let mut h = bits(&orig);
    neox(&mut h, 0.0, 4, 10000.0);
    for (a, b) in floats(&h).iter().zip(orig.iter()) {
        assert!((a - b).abs() < 1e-6);
    }
}

#[test]
fn neox_preserves_pair_norm() {
    let h = vec![0.7f32, -0.3, 1.1, 0.2];
    let n0 = h[0] * h[0] + h[2] * h[2];
    let n1 = h[1] * h[1] + h[3] * h[3];
    let mut t = bits(&h);
    neox(&mut t, 3.5, 4, 10000.0);
    let h = floats(&t);
    assert!((h[0] * h[0] + h[2] * h[2] - n0).abs() < 1e-5);
    assert!((h[1] * h[1] + h[3] * h[3] - n1).abs() < 1e-5);
}

#[test]
fn sections_interleave() {
    let s = [11, 11, 10, 0];
    assert_eq!(band(&s, 0), Band::Time);
    assert_eq!(band(&s, 1), Band::Height);
    assert_eq!(band(&s, 2), Band::Width);
    assert_eq!(band(&s, 31), Band::Height);
    assert_eq!(band(&s, 32), Band::Time);
    assert_eq!(band(&[1, 0, 0, 3], 1), Band::Extra);
}

#[test]
fn text_positions_turn_like_plain_ones() {
    let p = 7.0f32.to_bits();
    let all = Positions { time: p, height: p, width: p, extra: p };
    let scale = 0.5f32.to_bits();
    let a = imrope_angles(all, 8, &[11, 11, 10, 0], scale);
    let b = neox_angles(p, 8, scale);
    assert_eq!(a, b);
    assert_eq!(floats(&b)[..3], [7.0, 3.5, 1.75]);
    let mixed = Positions { time: p, height: 0, width: 0, extra: 0 };
    let c = floats(&imrope_angles(mixed, 4, &[11, 11, 10, 0], scale));
    assert_eq!(c, vec![7.0, 0.0, 0.0, 0.875]);
}

fn powers_of(e: &Powers) -> Powers {
    let map = |v: &Vec<u64>| v.iter().map(|&x| f64::from_bits(x).exp().to_bits()).collect();
    Powers { mass: map(&e.mass), density: map(&e.density) }
}

/// The levels for a coordinate of a unit vector.
fn codebook(d: usize, width: u32) -> Vec<f32> {
    let sigma = 1.0 / (d as f64).sqrt();
    let mut l = Lloyd::new(sigma.to_bits(), width);
    while !l.step(&powers_of(&l.exponents())) {
        assert!(l.rounds < 300);
    }
    floats(&l.levels())
}

fn expected_distortion(d: usize, width: u32) -> f32 {
    let sigma = 1.0 / (d as f64).sqrt();
    let l = Lloyd::of_levels(sigma.to_bits(), &bits(&codebook(d, width)));
    f32::from_bits(l.kvquant_expected_distortion(&powers_of(&l.exponents())))
}

#[test]
fn centroids_are_sorted_symmetric_and_sized() {
    for width in [3u32, 4u32] {
        let c = codebook(DEFAULT_HD, width);
        assert_eq!(c.len(), 1 << width);
        for w in c.windows(2) {
            assert!(w[0] < w[1], "centroids must ascend: {c:?}");
        }
        let n = c.len();
        for i in 0..n / 2 {
            assert!(
                (c[i] + c[n - 1 - i]).abs() < 1e-6,
                "not symmetric: {} vs {}",
                c[i],
                c[n - 1 - i]
            );
        }
        assert!(c[n - 1] < 4.0 / 16.0, "outermost centroid {}", c[n - 1]);
    }
}

#[test]
fn lloyd_max_beats_uniform() {
    let sigma2 = 1.0f32 / DEFAULT_HD as f32;
    let d3 = expected_distortion(DEFAULT_HD, 3);
    let d4 = expected_distortion(DEFAULT_HD, 4);
    assert!(d3 < sigma2 && d4 < d3, "d3={d3} d4={d4} var={sigma2}");
}

#[test]
fn levels_are_those_of_floating_point() {
    for width in [1u32, 2, 3] {
        assert_eq!(bits(&codebook(DEFAULT_HD, width)), levels(DEFAULT_HD, width));
    }
}

#[test]
fn rotations_are_those_of_floating_point() {
    let mut state: u64 = 42;
    let angles = givens_angles(7);
    assert_eq!(angles.len(), 4);
    for a in angles {
        let u = (splitmix64(&mut state) >> 11) as f64 / (1u64 << 53) as f64;
        assert_eq!(f64::from_bits(a), u * std::f64::consts::TAU);
    }
}

#[test]
fn steps_name_their_tensors_in_order() {
    let cfg = mini_cfg();
    let names = |s: Step| -> Vec<String> { s.tensors(&cfg).into_iter().map(|t| t.name).collect() };
    assert_eq!(
        names(Step::Ffn { il: 2 }),
        vec![
            "blk.2.post_attention_norm.weight",
            "blk.2.ffn_gate.weight",
            "blk.2.ffn_up.weight",
            "blk.2.ffn_down.weight",
        ]
    );
    let a = names(Step::Attention { il: 3 });
    assert_eq!((a.len(), a[0].as_str(), a[6].as_str()), (7, "blk.3.attn_norm.weight", "blk.3.attn_output.weight"));
    let r = Step::Recurrent { il: 0 }.tensors(&cfg);
    let roles: Vec<Role> = r.iter().map(|t| t.role).collect();
    assert_eq!(roles[..2], [Role::Norm, Role::Input]);
    assert_eq!(roles[5..], [Role::Values, Role::Values, Role::Values, Role::Values, Role::Output]);
    assert_eq!(names(Step::Output), vec!["output_norm.weight"]);
    assert!(names(Step::Tap { place: 0 }).is_empty());
    assert_eq!(f32::from_bits(score_scale(64)), 0.125);
    assert_eq!(f32::from_bits(score_scale(2)), 1.0 / 2.0f32.sqrt());
}

#[test]
fn unpacking_undoes_packing_at_every_width() {
    for bits in 1..=8u32 {
        let top = (1u32 << bits) - 1;
        let idx: Vec<u8> = (0..37u32).map(|i| ((i * 29 + 3) & top) as u8).collect();
        let mut packed = vec![0xAAu8; packed_bytes(37, bits) + 2];
        pack_bits(&idx, bits, &mut packed);
        let mut back = vec![7u8; 40];
        unpack_bits(&packed, bits, 37, &mut back);
        assert_eq!(back[..37], idx[..], "bits={bits}");
        assert_eq!(back[37..], [7, 7, 7]);
    }
}

#[test]
fn odd_lengths_keep_their_products() {
    let p = PlanarQuant::new(5, 8);
    assert_eq!((p.hd_padded, p.n_groups), (6, 3));
    let table = givens(5);
    let c = levels(5, 8);
    let k = [0.5f32, -0.25, 1.0, 0.125, 2.0];
    let q = [1.0f32, 2.0, -1.0, 0.5, 3.0];
    let mut packed = vec![0u8; p.packed_len()];
    let norm = p.quantize(&bits(&k), &c, &table, &mut packed);
    let mut qrot = vec![0u32; p.hd_padded];
    p.rotate(&bits(&q), &table, &mut qrot);
    let a = f32::from_bits(p.dot_rotated(&qrot, &packed, norm, &c));
    let want: f32 = q.iter().zip(&k).map(|(a, b)| a * b).sum();
    assert!((a - want).abs() < 0.05 * want.abs(), "dot {a} vs {want}");
}

#[test]
fn codebooks_are_kept_for_each_dimension_and_width() {
    let mut books = Codebooks::new();
    assert!(books.get(256, 2).is_none());
    let [a, b, c] = [(256usize, 2u32), (128, 2), (128, 1)].map(|(d, width)| {
        let v = codebook(d, width);
        assert_eq!(v.len(), 1 << width);
        assert!(v.windows(2).all(|w| w[0] < w[1]), "{v:?}");
        books.keep(d, width, bits(&v));
        bits(&v)
    });
    assert_eq!(books.get(256, 2), Some(&a));
    assert_eq!(books.get(128, 2), Some(&b));
    assert_eq!(books.get(128, 1), Some(&c));
    assert_ne!(a, b);
    assert!(books.get(256, 1).is_none());
    books.keep(128, 2, vec![0]);
    assert_eq!(books.get(128, 2), Some(&b));
}

#[test]
fn sixteen_levels_ascend_for_a_smaller_dimension() {
    let v = codebook(128, 4);
    assert_eq!(v.len(), 16);
    assert!(v.windows(2).all(|w| w[0] < w[1]), "{v:?}");
}
