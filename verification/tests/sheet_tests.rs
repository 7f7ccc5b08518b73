//! The matrices of a draft.

use bonsai::draft::{DraftCache, Rows, Weight};
use bonsai::dspark::{Dspark, DsparkCfg};
use bonsai::gguf::{Value, TYPE_F32};
use bonsai::gguf_write::write_gguf;
use bonsai::manifest::{expected, problem, Problem};
use bonsai::sheets::{snr_angles, snr_exponents, snr_time, Sheets};

fn bits(v: &[f32]) -> Vec<u32> {
    v.iter().map(|x| x.to_bits()).collect()
}

fn reals(v: &[u32]) -> Vec<f32> {
    v.iter().map(|&x| f32::from_bits(x)).collect()
}

fn cfg() -> DsparkCfg {
    DsparkCfg {
        n_layer: 1,
        n_embd: 2,
        n_ff: 2,
        n_head: 2,
        n_head_kv: 1,
        head_dim: 2,
        n_vocab: 3,
        eps: 0,
        rope_freq_base: 1e4f32.to_bits(),
        block_size: 2,
        context_length: 8,
        mask_token_id: 0,
        target_layers: vec![0],
        markov_rank: 1,
        confidence_head: true,
        log_snr: None,
    }
}

#[test]
fn rows_are_embedded_normed_and_added() {
    let mut s = Sheets::new(&cfg(), 2);
    s.embed(1, &bits(&[3.0, -3.0]));
    assert_eq!(reals(s.sheet(Rows::X)), vec![0.0, 0.0, 3.0, -3.0]);
    s.add_row(1, &bits(&[1.0, -1.0]));
    assert_eq!(reals(s.row(Rows::X, 1)), vec![4.0, -4.0]);
    s.norm(Rows::X, Rows::Xn, 1, &bits(&[1.0, 2.0]), 0);
    assert_eq!(reals(s.sheet(Rows::Xn)), vec![0.0, 0.0, 1.0, -2.0]);
    s.sum(Rows::X, Rows::Xn, Rows::Y);
    assert_eq!(reals(s.row(Rows::Y, 1)), vec![5.0, -6.0]);
    assert_eq!(reals(s.row(Rows::Y, 0)), vec![0.0, 0.0]);
}

/// A sidecar whose output weight has three rows of two.
fn sidecar() -> Vec<u8> {
    let mut meta: Vec<(String, Value)> = Vec::new();
    let mut add = |k: &str, v: Value| meta.push((k.to_string(), v));
    add("general.architecture", Value::Str("dspark".to_string()));
    let counts: [(&str, u32); 11] = [
        ("dspark.block_count", 1),
        ("dspark.embedding_length", 2),
        ("dspark.feed_forward_length", 2),
        ("dspark.attention.head_count", 2),
        ("dspark.attention.head_count_kv", 1),
        ("dspark.attention.key_length", 2),
        ("dspark.vocab_size", 3),
        ("dspark.context_length", 8),
        ("dspark.dspark.block_size", 2),
        ("dspark.dspark.mask_token_id", 0),
        ("dspark.dspark.markov_rank", 1),
    ];
    for (k, v) in counts {
        add(k, Value::U32(v));
    }
    add("dspark.attention.layer_norm_rms_epsilon", Value::F32(0));
    add("dspark.rope.freq_base", Value::F32(1e4f32.to_bits()));
    let layers = Value::Array { elem_type: 4, items: vec![Value::U32(0)] };
    add("dspark.dspark.target_layers", layers);
    let l = write_gguf(3, &meta, &vec![("output.weight".to_string(), vec![2, 3], TYPE_F32)]);
    let mut out = l.header;
    for v in [1.0f32, 0.0, 0.0, 1.0, 1.0, 1.0] {
        out.extend_from_slice(&v.to_le_bytes());
    }
    out.resize((l.data_start + l.data_size) as usize, 0);
    out
}

#[test]
fn a_weight_multiplies_every_row() {
    let bytes = sidecar();
    let ds = Dspark::open_with_target("s.gguf", &bytes, Some(&bytes)).unwrap();
    let mut s = Sheets::new(&cfg(), 2);
    s.embed(0, &bits(&[2.0, 3.0]));
    s.embed(1, &bits(&[5.0, 7.0]));
    s.matmul(&ds, Weight::Output, 0, Rows::X, Rows::Base).unwrap();
    assert_eq!(reals(s.sheet(Rows::Base)), vec![2.0, 3.0, 5.0, 5.0, 7.0, 12.0]);
    assert!(s.matmul(&ds, Weight::FfnUp, 0, Rows::X, Rows::Up).is_err());
}

#[test]
fn heads_attend_to_cached_positions() {
    let c = cfg();
    let mut cache = DraftCache::new(&c, 4);
    let mut s = Sheets::new(&c, 2);
    let k = [bits(&[1.0, 0.0]), bits(&[0.0, 1.0])];
    let v = [bits(&[2.0, 4.0]), bits(&[6.0, 8.0])];
    for p in 0..2 {
        cache.put(0, p, &k[p], &v[p]);
    }
    cache.fill_to(2);
    let (keys, values) = cache.prefix_f32(0);
    let e = s.exponents(&keys, 0, 1, 0, 2, 1.0f32.to_bits());
    assert_eq!(reals(&e), vec![0.0, 0.0]);
    s.attend(&values, 0, 1, 0, &bits(&[1.0, 3.0]));
    assert_eq!(reals(s.row(Rows::Attn, 0)), vec![0.0, 0.0, 5.0, 7.0]);
}

#[test]
fn rows_of_keys_and_values_are_cached() {
    let c = cfg();
    let mut cache = DraftCache::new(&c, 4);
    let s = Sheets::new(&c, 2);
    s.put(&mut cache, 0, 1, 3);
    cache.fill_to(4);
    let (keys, _) = cache.prefix_f32(0);
    assert_eq!(keys, vec![0; 8]);
}

#[test]
fn a_head_is_normed_and_turned_in_place() {
    let bytes = sidecar();
    let ds = Dspark::open_with_target("s.gguf", &bytes, Some(&bytes)).unwrap();
    let c = DsparkCfg { n_vocab: 3, n_head: 1, n_head_kv: 1, head_dim: 3, ..cfg() };
    let mut s = Sheets::new(&c, 1);
    s.embed(0, &bits(&[1.0, 1.0]));
    s.matmul(&ds, Weight::Output, 0, Rows::X, Rows::K).unwrap();
    assert_eq!(reals(s.sheet(Rows::K)), vec![1.0, 1.0, 2.0]);
    s.head(Rows::K, 0, 0, &bits(&[2.0, 2.0, 2.0]), 2.25f32.to_bits(), &[0], &bits(&[1.0]));
    let got = reals(s.sheet(Rows::K));
    let f = 2.0 / (2.0f32 + 2.25).sqrt();
    assert!((got[0] + f).abs() < 1e-6 && (got[1] - f).abs() < 1e-6);
    assert!((got[2] - 2.0 * f).abs() < 1e-6);
}

#[test]
fn gates_open_by_their_powers() {
    let bytes = sidecar();
    let ds = Dspark::open_with_target("s.gguf", &bytes, Some(&bytes)).unwrap();
    let c = DsparkCfg { n_ff: 3, ..cfg() };
    let mut s = Sheets::new(&c, 1);
    s.embed(0, &bits(&[2.0, 4.0]));
    s.matmul(&ds, Weight::Output, 0, Rows::X, Rows::Gate).unwrap();
    s.matmul(&ds, Weight::Output, 0, Rows::X, Rows::Up).unwrap();
    s.gate(&bits(&[0.0, 1.0, 1.0]));
    assert_eq!(reals(s.sheet(Rows::Gate)), vec![4.0, 8.0, 18.0]);
}

#[test]
fn a_log_snr_becomes_angles() {
    let t = snr_time(1.0f32.to_bits(), (-1.0f32).to_bits(), 3.0f32.to_bits());
    assert_eq!(f32::from_bits(t), 500.0);
    let e = reals(&snr_exponents((-64.0f32).to_bits()));
    assert_eq!(e.len(), 64);
    assert_eq!((e[0], e[1], e[63]), (-0.0, -1.0, -63.0));
    assert_eq!(reals(&snr_angles(t, &bits(&[2.0, 0.5]))), vec![1000.0, 250.0]);
}

#[test]
fn a_sidecar_is_held_to_its_manifest() {
    let bytes = sidecar();
    let ds = Dspark::open_with_target("s.gguf", &bytes, Some(&bytes)).unwrap();
    let all = expected(&ds.cfg);
    assert_eq!(all.len(), 13 + 11);
    assert_eq!((all[0].name.as_str(), &all[0].dims), ("dspark.fc.weight", &vec![2, 2]));
    assert_eq!((all[14].name.as_str(), &all[14].dims), ("blk.0.attn_q.weight", &vec![2, 4]));
    assert!(problem(&ds, &all[3]).is_none());
    assert!(matches!(problem(&ds, &all[0]), Some(Problem::Missing(_))));
    let other = DsparkCfg { n_vocab: 4, ..cfg() };
    match problem(&ds, &expected(&other)[3]) {
        Some(Problem::Dims(d)) => assert_eq!(d, vec![2, 3]),
        _ => panic!("the shape differs"),
    }
}
