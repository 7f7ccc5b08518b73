//! Containers: reading, writing and rewriting.

use bonsai::config::Qwen35;
use bonsai::dspark::{Dspark, DsparkCfg};
use bonsai::gguf::{
    align_up, tensor_nbytes_for, Value, GGUF, TYPE_BF16, TYPE_F16, TYPE_F32, TYPE_PQ2_0, TYPE_Q2_0_LEGACY,
    TYPE_Q4_1,
};
use bonsai::gguf_retag::{
    read_le_u32_at, read_le_u64_at, retag_legacy_ternary, write_le_u32_at, write_le_u64_at,
};
use bonsai::gguf_write::{
    check_payload, convert_dspark_sidecar, dflash_kv_key, dflash_tensor_name, write_gguf, NewTensor,
};
use bonsai::half::{f32_to_half, half_to_f32};
use bonsai::inspect::{check_range, name_of_type, parse_tokens, type_counts};
use bonsai::limits::{all_counted, sizes_fit, tensor_size};
use bonsai::repack::{part_bytes, repack_ternary};

fn wide(h: u16) -> f32 {
    f32::from_bits(half_to_f32(h))
}

fn narrow(v: f32) -> u16 {
    f32_to_half(v.to_bits())
}

fn text(s: &str) -> Value {
    Value::Str(s.to_string())
}

fn key(k: &str, v: Value) -> (String, Value) {
    (k.to_string(), v)
}

fn tensor(name: &str, dims: &[u64], ty: u32) -> NewTensor {
    (name.to_string(), dims.to_vec(), ty)
}

/// A container with the given payloads.
fn container(meta: &Vec<(String, Value)>, tensors: &Vec<NewTensor>, payloads: &[Vec<u8>]) -> Vec<u8> {
    let l = write_gguf(3, meta, tensors);
    let mut out = l.header;
    out.resize((l.data_start + l.data_size) as usize, 0);
    for (i, p) in payloads.iter().enumerate() {
        assert_eq!(p.len() as u64, l.sizes[i]);
        let at = (l.data_start + l.offsets[i]) as usize;
        out[at..at + p.len()].copy_from_slice(p);
    }
    out
}

fn single_bytes(v: &[f32]) -> Vec<u8> {
    v.iter().flat_map(|x| x.to_le_bytes()).collect()
}

#[test]
fn half_conversions() {
    assert_eq!(wide(0x3C00), 1.0);
    assert_eq!(wide(0xC000), -2.0);
    assert_eq!(wide(0x0000), 0.0);
    assert_eq!(wide(0x3800), 0.5);
    assert_eq!(wide(0x0001), 5.9604645e-8);
    assert!((wide(0x03FF) - 6.097555e-5).abs() < 1e-10);
    assert_eq!(wide(0x7C00).to_bits(), f32::INFINITY.to_bits());
    assert!(wide(0x7E00).is_nan());
}

#[test]
fn f32_to_half_roundtrips_and_rounds() {
    assert_eq!(narrow(1.0), 0x3C00);
    assert_eq!(narrow(-2.0), 0xC000);
    assert_eq!(narrow(0.5), 0x3800);
    assert_eq!(narrow(0.0), 0x0000);
    assert_eq!(narrow(f32::INFINITY), 0x7C00);
    assert_eq!(narrow(-f32::INFINITY), 0xFC00);
    let mut s: u64 = 0x1234_5678;
    for _ in 0..2000 {
        s ^= s << 13;
        s ^= s >> 7;
        s ^= s << 17;
        let v = ((s >> 40) as f32 / (1u64 << 24) as f32) * 20.0 - 10.0;
        let back = wide(narrow(v));
        let tol = v.abs().max(1e-3) * 1e-3;
        assert!((back - v).abs() <= tol, "{v} -> {back}");
    }
}

#[test]
fn every_half_survives_the_round_trip() {
    for h in 0..=0xFFFFu16 {
        let w = wide(h);
        if !w.is_nan() {
            assert_eq!(narrow(w), h);
        }
    }
    assert_eq!(narrow(65520.0), 0x7C00);
    assert_eq!(narrow(65519.0), 0x7BFF);
    assert_eq!(narrow(1.0 + 1.0 / 2048.0), 0x3C00);
    assert_eq!(narrow(1.0 + 3.0 / 2048.0), 0x3C02);
    assert_eq!(narrow(2.9802322e-8), 0);
    assert_eq!(narrow(2.980233e-8), 1);
}

#[test]
fn pq2_0_decode_matches_reference() {
    let mut data = Vec::new();
    data.extend_from_slice(&0x3800u16.to_le_bytes());
    data.extend_from_slice(&[0u8; 32]);
    data.extend_from_slice(&0x4000u16.to_le_bytes());
    let mut qs = [0u8; 32];
    qs[0] = 0b11;
    qs[1] = 0b10_01;
    data.extend_from_slice(&qs);

    let file = container(
        &vec![],
        &vec![tensor("t", &[128, 2], TYPE_PQ2_0)],
        &[data],
    );
    let g = GGUF::open(&file).unwrap();
    let all: Vec<f32> = g
        .read_pq2_0_range(&g.tensors[0], 0, 256)
        .unwrap()
        .iter()
        .map(|&b| f32::from_bits(b))
        .collect();
    assert_eq!(all[0], -0.5);
    assert_eq!(all[128], 4.0);
    assert_eq!(all[129], -2.0);
    assert_eq!(all[132], 0.0);
    assert_eq!(all[133], 2.0);
    let part = g.read_pq2_0_range(&g.tensors[0], 128, 6).unwrap();
    assert_eq!(f32::from_bits(part[0]), 4.0);
    assert!(g.read_pq2_0_range(&g.tensors[0], 200, 57).is_err());
}

#[test]
fn a_container_reads_back() {
    let meta = vec![
        key("general.architecture", text("qwen35")),
        key("a.u8", Value::U8(7)),
        key("a.i8", Value::I8(-7)),
        key("a.u16", Value::U16(700)),
        key("a.i16", Value::I16(-700)),
        key("a.u32", Value::U32(70000)),
        key("a.i32", Value::I32(-70000)),
        key("a.f32", Value::F32(1.5f32.to_bits())),
        key("a.bool", Value::Bool(true)),
        key("a.u64", Value::U64(1 << 40)),
        key("a.i64", Value::I64(-(1 << 40))),
        key("a.f64", Value::F64(2.5f64.to_bits())),
        key("a.list", Value::Array { elem_type: 8, items: vec![text("x"), text("é")] }),
    ];
    let ts = vec![tensor("w", &[3, 2], TYPE_F32), tensor("b", &[4], TYPE_F16)];
    let w = single_bytes(&[1.0, 2.0, 3.0, 4.0, 5.0, 6.0]);
    let b: Vec<u8> = [0x3C00u16, 0x4000, 0xC000, 0].iter().flat_map(|h| h.to_le_bytes()).collect();
    let file = container(&meta, &ts, &[w.clone(), b]);
    let g = GGUF::open(&file).unwrap();
    assert_eq!(g.version, 3);
    assert_eq!(g.n_tensors, 2);
    assert_eq!(g.get("general.architecture").unwrap().as_str(), Some("qwen35"));
    assert_eq!(g.get("a.u8").unwrap().as_u64(), Some(7));
    assert_eq!(g.get("a.u32").unwrap().as_u32(), Some(70000));
    assert_eq!(g.get("a.f32").unwrap().as_f32(), Some(1.5f32.to_bits()));
    assert_eq!(g.get("a.bool").unwrap().as_bool(), Some(true));
    assert_eq!(g.get("a.u64").unwrap().as_u64(), Some(1 << 40));
    assert_eq!(g.get("a.list").unwrap().as_array().unwrap()[1].as_str(), Some("é"));
    assert!(g.get("absent").is_none());
    assert_eq!(g.payload_slice(&g.tensors[0]).unwrap(), &w[..]);
    let halves = g.read_tensor(&g.tensors[1]).unwrap();
    let halves: Vec<f32> = halves.iter().map(|&x| f32::from_bits(x)).collect();
    assert_eq!(halves, vec![1.0, 2.0, -2.0, 0.0]);
    assert_eq!(g.tensors[0].n_elem(), 6);
    assert_eq!(g.tensor_nbytes(&g.tensors[0]), 24);
    let (data, size) = g.check_layout().unwrap();
    assert_eq!(data, 64);
    assert_eq!(size, file.len() as u64);
    assert!(sizes_fit(&g));
    assert!(all_counted(&g));
    assert_eq!(type_counts(&g.tensors), vec![(0, 1), (1, 1)]);
}

#[test]
fn broken_containers_are_refused() {
    assert!(GGUF::open(b"GGU").is_err());
    assert_eq!(GGUF::open(b"ABCD\x03\0\0\0\0\0\0\0\0\0\0\0\0\0\0\0\0\0\0\0").unwrap_err(), {
        let m = GGUF::open(b"ABCD").unwrap_err();
        m
    });
    let file = container(&vec![key("k", text("v"))], &vec![tensor("t", &[2], 0)], &[vec![0; 8]]);
    for cut in [4, 10, 23, 30, 50] {
        assert!(GGUF::open(&file[..cut]).is_err(), "{cut}");
    }
    let mut not_text = file.clone();
    not_text[32] = 0xFF;
    let e = GGUF::open(&not_text).unwrap_err();
    assert!(e.contains("utf8") || e.contains("utf-8") || e.contains("non"), "{e}");
    let short = &file[..file.len() - 32];
    let g = GGUF::open(short).unwrap();
    assert!(g.payload_slice(&g.tensors[0]).is_err());
    assert!(g.check_layout().is_err());
}

#[test]
fn sizes_follow_block_rules() {
    assert_eq!(tensor_nbytes_for(TYPE_F32, 10), 40);
    assert_eq!(tensor_nbytes_for(TYPE_F16, 10), 20);
    assert_eq!(tensor_nbytes_for(TYPE_Q4_1, 64), 40);
    assert_eq!(tensor_nbytes_for(TYPE_PQ2_0, 129), 68);
    assert_eq!(tensor_nbytes_for(34, 256), 54);
    // Each row is padded to whole blocks of its own.
    let file = container(&vec![], &vec![tensor("t", &[64, 2], TYPE_PQ2_0)], &[vec![0; 68]]);
    let g = GGUF::open(&file).unwrap();
    assert_eq!(g.tensor_nbytes(&g.tensors[0]), 68);
    assert_eq!(bonsai::limits::tensor_size(&g.tensors[0]), Some(68));
    assert_eq!(g.payload_slice(&g.tensors[0]).unwrap().len(), 68);
    let mut rows = vec![0x00, 0x3C];
    rows.extend([0xAA; 32]);
    rows.extend([0x00, 0x40]);
    rows.extend([0x00; 32]);
    let file = container(&vec![], &vec![tensor("t", &[64, 2], TYPE_PQ2_0)], &[rows]);
    let g = GGUF::open(&file).unwrap();
    let all = g.read_tensor(&g.tensors[0]).unwrap();
    assert_eq!(all[..64], [1.0f32.to_bits(); 64]);
    assert_eq!(all[64..], [(-2.0f32).to_bits(); 64]);
    let two = g.read_pq2_0_range(&g.tensors[0], 63, 2).unwrap();
    assert_eq!(two, vec![1.0f32.to_bits(), (-2.0f32).to_bits()]);
    assert_eq!(align_up(33, 32), 64);
    assert_eq!(align_up(32, 32), 32);
    assert!(check_payload("t", 8, 8).is_ok());
    assert_eq!(
        check_payload("t", 7, 8),
        Err("write_gguf: tensor 't' payload 7 != expected 8".to_string())
    );
}

#[test]
fn absurd_sizes_are_noticed() {
    let file = container(&vec![], &vec![tensor("t", &[2], 0)], &[vec![0; 8]]);
    let mut g = GGUF::open(&file).unwrap();
    assert_eq!(tensor_size(&g.tensors[0]), Some(8));
    g.tensors[0].dims = vec![1 << 40, 1 << 40];
    assert_eq!(tensor_size(&g.tensors[0]), None);
    assert!(!sizes_fit(&g));
    assert!(!all_counted(&g));
    g.tensors[0].dims = vec![1 << 62];
    assert_eq!(tensor_size(&g.tensors[0]), None);
    g.tensors[0].ty = TYPE_PQ2_0;
    assert_eq!(tensor_size(&g.tensors[0]), Some((1u64 << 62) / 128 * 34));
}

#[test]
fn legacy_types_are_retagged() {
    let file = container(
        &vec![key("general.file_type", Value::U32(28))],
        &vec![tensor("a", &[128], TYPE_Q2_0_LEGACY), tensor("b", &[2], TYPE_F32)],
        &[vec![0; 512], vec![1; 8]],
    );
    let r = retag_legacy_ternary(&file).unwrap();
    assert_eq!((r.n_ty, r.n_ft), (1, 1));
    let mut out = r.header.clone();
    out.extend_from_slice(&file[r.header.len()..]);
    assert_eq!(out.len(), file.len());
    let g = GGUF::open(&out).unwrap();
    assert_eq!(g.tensors[0].ty, TYPE_PQ2_0);
    assert_eq!(g.tensors[1].ty, TYPE_F32);
    assert_eq!(g.get("general.file_type").unwrap().as_u32(), Some(128));
    let again = retag_legacy_ternary(&out).unwrap();
    assert_eq!((again.n_ty, again.n_ft), (0, 0));
    assert_eq!(again.header, r.header);
    // One byte of each changed integer differs, and nothing else.
    let differ: Vec<(u8, u8)> =
        file.iter().zip(&out).filter(|(a, b)| a != b).map(|(a, b)| (*a, *b)).collect();
    assert_eq!(differ, vec![(28, 128), (42, 142)]);
    assert_eq!(retag_legacy_ternary(b"nope and more").unwrap_err(), "not a GGUF file");
}

#[test]
fn words_in_buffers() {
    let mut b = vec![1u8, 2, 3, 4, 5, 6, 7, 8, 9];
    assert_eq!(read_le_u32_at(&b, 1), Ok(0x0504_0302));
    assert_eq!(read_le_u64_at(&b, 1), Ok(0x0908_0706_0504_0302));
    assert!(read_le_u32_at(&b, 6).is_err());
    assert!(read_le_u64_at(&b, 2).is_err());
    write_le_u32_at(&mut b, 0, 0xAABB_CCDD).unwrap();
    assert_eq!(b[..5], [0xDD, 0xCC, 0xBB, 0xAA, 5]);
    write_le_u64_at(&mut b, 1, 0).unwrap();
    assert_eq!(b, vec![0xDD, 0, 0, 0, 0, 0, 0, 0, 0]);
    assert!(write_le_u32_at(&mut b, 6, 0).is_err());
    assert!(write_le_u64_at(&mut b, 2, 0).is_err());
}

fn sidecar() -> (Vec<(String, Value)>, Vec<NewTensor>, Vec<Vec<u8>>) {
    let meta = vec![
        key("general.architecture", text("dspark")),
        key("dspark.block_count", Value::U32(1)),
        key("dspark.embedding_length", Value::U32(128)),
        key("dspark.feed_forward_length", Value::U32(256)),
        key("dspark.attention.head_count", Value::U32(2)),
        key("dspark.attention.head_count_kv", Value::U32(1)),
        key("dspark.attention.key_length", Value::U32(64)),
        key("dspark.vocab_size", Value::U32(4)),
        key("dspark.attention.layer_norm_rms_epsilon", Value::F32(1e-6f32.to_bits())),
        key("dspark.rope.freq_base", Value::F32(1e4f32.to_bits())),
        key("dspark.dspark.block_size", Value::U32(4)),
        key("dspark.context_length", Value::U32(64)),
        key("dspark.dspark.mask_token_id", Value::U32(3)),
        key("dspark.dspark.markov_rank", Value::U32(2)),
        key(
            "dspark.dspark.target_layers",
            Value::Array { elem_type: 4, items: vec![Value::U32(1), Value::U32(3)] },
        ),
    ];
    let tensors = vec![
        tensor("output_norm.weight", &[4], TYPE_F32),
        tensor("blk.0.attn_q.weight", &[128, 2], TYPE_BF16),
        tensor("token_embd.weight", &[4, 2], TYPE_F32),
    ];
    let ramp: Vec<u8> = (0..256)
        .flat_map(|i| (((i % 128) as f32 - 64.0).to_bits() >> 16).to_le_bytes()[..2].to_vec())
        .collect();
    let payloads = vec![
        single_bytes(&[1.0, 2.0, 3.0, 4.0]),
        ramp,
        single_bytes(&[1.0, 0.0, 2.0, 0.0, 0.0, 1.0, 0.0, 3.0]),
    ];
    (meta, tensors, payloads)
}

#[test]
fn a_sidecar_is_opened_and_multiplied() {
    let (meta, ts, ps) = sidecar();
    let file = container(&meta, &ts, &ps);
    let d = Dspark::open_with_target("side.gguf", &file, None).unwrap();
    assert_eq!(d.cfg.n_layer, 1);
    assert_eq!(d.cfg.target_layers, vec![1, 3]);
    assert_eq!(d.cfg.n_embd_enc(), 256);
    assert_eq!(d.cfg.log_snr, None);
    assert!(!d.cfg.confidence_head);
    assert_eq!(d.tensor("token_embd.weight").unwrap().dims, vec![4, 2]);
    assert!(d.tensor("absent").is_err());
    let row: Vec<f32> =
        d.row_f32("token_embd.weight", 1).unwrap().iter().map(|&x| f32::from_bits(x)).collect();
    assert_eq!(row, vec![0.0, 1.0, 0.0, 3.0]);
    let x: Vec<u32> = [1.0f32, 1.0, 1.0, 1.0].iter().map(|v| v.to_bits()).collect();
    let y: Vec<f32> =
        d.matvec2("token_embd.weight", &x).unwrap().iter().map(|&v| f32::from_bits(v)).collect();
    assert_eq!(y, vec![3.0, 4.0]);
    assert_eq!(d.matvec("token_embd.weight", &x), d.matvec2("token_embd.weight", &x));
    assert!(d.matvec("token_embd.weight", &x[1..]).is_err());
    assert!(d.check_features(512, 2).is_ok());
    assert!(d.check_features(511, 2).is_err());
    let norm: Vec<f32> =
        d.read_f32("output_norm.weight").unwrap().iter().map(|&v| f32::from_bits(v)).collect();
    assert_eq!(norm, vec![1.0, 2.0, 3.0, 4.0]);
}

#[test]
fn incomplete_sidecars_are_refused() {
    let (meta, ts, ps) = sidecar();
    let mut wrong: Vec<(String, Value)> = vec![key("general.architecture", text("qwen35"))];
    wrong.extend(meta.into_iter().skip(1));
    let file = container(&wrong, &ts, &ps);
    let g = GGUF::open(&file).unwrap();
    assert_eq!(
        DsparkCfg::from_gguf(&g).unwrap_err(),
        "dspark cfg: architecture is 'qwen35', expected 'dspark'"
    );
    let (meta, ts, ps) = sidecar();
    let fewer: Vec<(String, Value)> =
        meta.into_iter().filter(|(k, _)| k != "dspark.vocab_size").collect();
    let file = container(&fewer, &ts, &ps);
    let g = GGUF::open(&file).unwrap();
    assert_eq!(
        DsparkCfg::from_gguf(&g).unwrap_err(),
        "dspark cfg: missing/invalid 'dspark.vocab_size'"
    );
}

#[test]
fn sidecars_convert_for_the_flash_loader() {
    let (mut meta, ts, ps) = sidecar();
    meta.push(key("general.name", text("side")));
    let file = container(&meta, &ts, &ps);
    let r = convert_dspark_sidecar("side.gguf", &file).unwrap();
    // One key is dropped and the name stays as it is: neither counts.
    assert_eq!(r.n_kv, 14);
    assert_eq!(r.n_ty, 0);
    let mut out = r.header.clone();
    out.resize(r.end as usize, 0);
    for p in &r.parts {
        let at = p.at as usize;
        out[at..at + (p.end - p.begin)].copy_from_slice(&file[p.begin..p.end]);
    }
    let g = GGUF::open(&out).unwrap();
    assert!(g.check_layout().is_ok());
    assert_eq!(g.get("general.architecture").unwrap().as_str(), Some("dflash"));
    assert_eq!(g.tensors.len(), 3);
    for (i, t) in g.tensors.iter().enumerate() {
        let old = ts.iter().position(|(n, _, _)| dflash_tensor_name(n) == t.name).unwrap();
        assert_eq!(g.payload_slice(t).unwrap(), &ps[old][..], "{i}");
    }
    let other = container(&vec![key("general.architecture", text("x"))], &vec![], &[]);
    assert!(convert_dspark_sidecar("side.gguf", &other).is_err());
    assert_eq!(dflash_tensor_name("output.weight"), dflash_tensor_name("output.weight"));
    assert!(dflash_kv_key("dspark.block_count").unwrap().starts_with("dflash."));
}

#[test]
fn sidecars_repack_to_ternary() {
    let (meta, ts, ps) = sidecar();
    let file = container(&meta, &ts, &ps);
    let r = repack_ternary(&file, None).unwrap();
    let mut out = r.header.clone();
    out.resize(r.end as usize, 0);
    for p in &r.parts {
        let b = part_bytes(&file, p);
        let at = p.at as usize;
        out[at..at + b.len()].copy_from_slice(&b);
    }
    let g = GGUF::open(&out).unwrap();
    assert!(g.check_layout().is_ok());
    assert_eq!(r.converted, g.tensors.iter().filter(|t| t.ty == TYPE_PQ2_0).count());
    assert_eq!(r.converted, 1);
    let q = g.tensors.iter().find(|t| t.name == "blk.0.attn_q.weight").unwrap();
    assert_eq!(q.ty, TYPE_PQ2_0);
    let back = g.read_pq2_0_range(q, 0, 256).unwrap();
    assert_eq!(f32::from_bits(back[0]), -64.0);
    assert_eq!(f32::from_bits(back[64]), 0.0);
    let norm = g.tensors.iter().find(|t| t.name == "output_norm.weight").unwrap();
    assert_eq!(g.payload_slice(norm).unwrap(), &ps[0][..]);
}

#[test]
fn tools_name_types_and_read_lists() {
    assert_eq!(name_of_type(0), "f32");
    assert_eq!(name_of_type(142), "pq2_0");
    assert_eq!(name_of_type(42), "q2_0(legacy-g128)");
    assert_eq!(name_of_type(99), "unknown");
    assert!(check_range(3, 2, 5).is_ok());
    assert_eq!(
        check_range(4, 2, 5),
        Err("range out of bounds (start+count > n_elem)".to_string())
    );
    assert!(check_range(usize::MAX, usize::MAX, 5).is_err());
    assert_eq!(parse_tokens("1, 2 ,3"), Some(vec![1, 2, 3]));
    assert_eq!(parse_tokens("7"), Some(vec![7]));
    assert_eq!(parse_tokens(""), None);
    assert_eq!(parse_tokens("1,,2"), None);
    assert_eq!(parse_tokens("4294967296"), None);
}

/// The metadata of a model small enough to count by hand.
fn model_meta() -> Vec<(String, Value)> {
    let counts: [(&str, u32); 14] = [
        ("block_count", 4),
        ("embedding_length", 8),
        ("feed_forward_length", 16),
        ("attention.head_count", 4),
        ("attention.head_count_kv", 2),
        ("attention.key_length", 6),
        ("context_length", 32),
        ("full_attention_interval", 4),
        ("rope.dimension_count", 4),
        ("ssm.conv_kernel", 3),
        ("ssm.state_size", 2),
        ("ssm.group_count", 1),
        ("ssm.time_step_rank", 3),
        ("ssm.inner_size", 6),
    ];
    let mut meta: Vec<(String, Value)> =
        counts.iter().map(|(k, v)| key(&format!("qwen35.{k}"), Value::U32(*v))).collect();
    meta.push(key("qwen35.attention.layer_norm_rms_epsilon", Value::F32(1e-6f32.to_bits())));
    meta.push(key("qwen35.rope.freq_base", Value::F32(1e4f32.to_bits())));
    let sections = [1, 1, 0, 0].iter().map(|&n| Value::I32(n)).collect();
    meta.push(key("qwen35.rope.dimension_sections", Value::Array { elem_type: 5, items: sections }));
    meta
}

#[test]
fn a_model_is_configured_by_its_metadata() {
    let bytes = container(&model_meta(), &Vec::new(), &[]);
    let g = GGUF::open(&bytes).unwrap();
    let c = Qwen35::from_gguf(&g).unwrap();
    assert_eq!((c.n_layer, c.n_embd, c.n_ff, c.n_ctx_train), (4, 8, 16, 32));
    assert_eq!((c.n_head, c.n_head_kv, c.n_embd_head, c.interval), (4, 2, 6, 4));
    assert_eq!((c.n_rot, c.sections, c.freq_base), (4, [1, 1, 0, 0], 1e4f32.to_bits()));
    assert_eq!((c.ssm_conv_kernel, c.ssm_state, c.ssm_group_count), (3, 2, 1));
    assert_eq!((c.ssm_dt_rank, c.ssm_inner, c.eps), (3, 6, 1e-6f32.to_bits()));
    assert!(c.is_sized());
    assert!(!Qwen35 { n_head_kv: 3, ..c }.is_sized());
    assert!(!Qwen35 { n_rot: 7, ..c }.is_sized());
    assert!(!Qwen35 { sections: [0, 0, 0, 0], ..c }.is_sized());
    assert!(!Qwen35 { ssm_inner: 5, ..c }.is_sized());
    assert!(!Qwen35 { ssm_state: usize::MAX, ..c }.is_sized());
}

#[test]
fn a_model_without_a_setting_is_not_configured() {
    let whole = model_meta();
    for i in 0..whole.len() {
        let meta: Vec<(String, Value)> = model_meta()
            .into_iter()
            .enumerate()
            .filter(|(k, _)| *k != i)
            .map(|(_, e)| e)
            .collect();
        let bytes = container(&meta, &Vec::new(), &[]);
        assert!(Qwen35::from_gguf(&GGUF::open(&bytes).unwrap()).is_none());
    }
}

#[test]
fn a_matrix_takes_several_columns_or_leaves_the_results() {
    let (meta, ts, ps) = sidecar();
    let file = container(&meta, &ts, &ps);
    let d = Dspark::open_with_target("side.gguf", &file, None).unwrap();
    let x: Vec<u32> =
        [1.0f32, 1.0, 1.0, 1.0, 2.0, 0.0, 0.0, 1.0].iter().map(|v| v.to_bits()).collect();
    let nine = 9.0f32.to_bits();
    let mut y = vec![nine; 5];
    d.matvec_multi("token_embd.weight", &x, 2, &mut y).unwrap();
    let got: Vec<f32> = y.iter().map(|&v| f32::from_bits(v)).collect();
    assert_eq!(got, vec![3.0, 4.0, 2.0, 3.0, 9.0]);
    let mut y = vec![nine; 5];
    let e = d.matvec_multi("token_embd.weight", &x[1..], 2, &mut y).unwrap_err();
    assert_eq!(e, "matvec_multi token_embd.weight: shape mismatch");
    assert!(d.matvec_multi("absent", &x, 2, &mut y).is_err());
    assert_eq!(y, vec![nine; 5]);
}
