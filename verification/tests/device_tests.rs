//! Devices: recorded work, tiles and the runtime's decisions.

use bonsai::draft::{confidence, draft_block, inject, DraftCache, DraftOp, Markov, Rows, Weight};
use bonsai::dspark::DsparkCfg;
use bonsai::gdev::{batch_cfg, n_ctx_env, prefill_batch_usable, rec_add, rec_rms, DEFAULT_BATCH_WINDOW,
    N_CTX_DEFAULT};
use bonsai::gpu::{DevBuf, Gpu, Kernel, Op, Push};
use bonsai::opencl::{
    buffer_flags, check, check_read, check_write, err_name, launch_sizes, text_in, Call, Opening,
    Reply, CL_MEM_READ_ONLY, CL_MEM_READ_WRITE,
};
use bonsai::prefill::{batch_enabled, batch_width, Tile};

fn bits(v: &[f32]) -> Vec<u32> {
    v.iter().map(|x| x.to_bits()).collect()
}

#[test]
fn tile_layout_roundtrips_rows() {
    let mut t = Tile::new(3, 4);
    assert_eq!(t.n_tokens(), 3);
    assert_eq!(t.n_feat(), 4);
    assert_eq!(t.len(), 12);
    assert_eq!(t.row(2).unwrap(), &bits(&[0.0; 4])[..]);

    t.set_row(1, &bits(&[1.0, 2.0, 3.0, 4.0])).unwrap();
    assert_eq!(t.row(1).unwrap(), &bits(&[1.0, 2.0, 3.0, 4.0])[..]);
    assert_eq!(t.as_slice()[4..8], bits(&[1.0, 2.0, 3.0, 4.0])[..]);
    assert_eq!(t.bytes().len(), 12 * 4);
    assert_eq!(t.bytes()[16..20], 1.0f32.to_le_bytes());
}

#[test]
fn tile_validates_row_width_and_range() {
    let mut t = Tile::new(2, 4);
    assert!(t.set_row(0, &bits(&[1.0, 2.0, 3.0])).is_err());
    assert!(t.set_row(2, &bits(&[0.0; 4])).is_err());
    assert!(t.row(5).is_err());
    assert!(t.set_row(1, &bits(&[0.0; 4])).is_ok());
}

#[test]
fn from_rows_gathers_equal_width_rows() {
    let rows = vec![bits(&[1.0, 2.0]), bits(&[3.0, 4.0]), bits(&[5.0, 6.0])];
    let t = Tile::from_rows(2, &rows).unwrap();
    assert_eq!(t.n_tokens(), 3);
    assert_eq!(t.row(0).unwrap(), &bits(&[1.0, 2.0])[..]);
    assert_eq!(t.row(2).unwrap(), &bits(&[5.0, 6.0])[..]);
    let err = Tile::from_rows(2, &vec![bits(&[1.0, 2.0]), bits(&[9.0])]);
    assert!(err.is_err());
}

#[test]
fn batch_env_gates_off_by_default() {
    assert!(!batch_enabled(None));
    assert_eq!(batch_width(None), 0);
    assert!(!batch_enabled(Some("1")));
    assert!(batch_enabled(Some("4")));
    assert_eq!(batch_width(Some("4")), 4);
    assert!(!batch_enabled(Some("junk")));
}

#[test]
fn device_settings_have_defaults() {
    assert_eq!(n_ctx_env(None), N_CTX_DEFAULT);
    assert_eq!(n_ctx_env(Some("4096")), 4096);
    assert_eq!(n_ctx_env(Some("x")), N_CTX_DEFAULT);
    let (_, window) = batch_cfg(None, true);
    assert_eq!(window, DEFAULT_BATCH_WINDOW);
    assert!(!prefill_batch_usable(1, true, 64));
    assert!(prefill_batch_usable(2, true, 64));
    assert!(!prefill_batch_usable(2, false, 64));
}

#[test]
fn work_is_recorded_in_order() {
    let mut g = Gpu::new(false, true);
    let a = g.alloc_bytes(16);
    let b = g.alloc_bytes(32);
    assert_eq!(a, DevBuf { id: a.id, len: 16 });
    assert_ne!(a.id, b.id);
    rec_rms(&mut g, a, b, a, 4);
    rec_add(&mut g, a, b, 4);
    let ops = g.take_ops();
    assert!(matches!(ops[0], Op::Alloc { .. }));
    assert!(ops.iter().any(|o| matches!(o, Op::Dispatch { kernel: Kernel::RmsNorm, .. })));
    assert!(matches!(ops[ops.len() - 1], Op::Dispatch { kernel: Kernel::AddResidual, .. }));
    assert!(g.ops.is_empty());
    assert_eq!(Push::P3(1, 2, 3).words(), vec![1, 2, 3]);
    assert_eq!(Push::P0.words(), Vec::<u32>::new());
}

fn draft_cfg() -> DsparkCfg {
    DsparkCfg {
        n_layer: 2,
        n_embd: 8,
        n_ff: 16,
        n_head: 2,
        n_head_kv: 1,
        head_dim: 4,
        n_vocab: 5,
        eps: 1e-6f32.to_bits(),
        rope_freq_base: 1e4f32.to_bits(),
        block_size: 3,
        context_length: 16,
        mask_token_id: 4,
        target_layers: vec![0],
        markov_rank: 2,
        confidence_head: true,
        log_snr: None,
    }
}

#[test]
fn the_draft_cache_holds_halves() {
    let c = draft_cfg();
    let mut d = DraftCache::new(&c, 6);
    assert_eq!((d.n_ctx, d.n_kv_dim, d.filled), (6, 4, 0));
    d.put(1, 2, &bits(&[1.0, 2.0, 3.0, 4.0]), &bits(&[0.5; 4]));
    d.fill_to(3);
    assert_eq!(d.filled, 3);
    let (k, v) = d.prefix_f32(1);
    assert_eq!(k.len(), 12);
    assert_eq!(k[8..], bits(&[1.0, 2.0, 3.0, 4.0])[..]);
    assert_eq!(v[8..], bits(&[0.5; 4])[..]);
    d.truncate(1);
    assert_eq!(d.filled, 1);
    assert_eq!(d.prefix_f32(1).0.len(), 4);
}

#[test]
fn a_block_starts_with_the_last_token_and_masks() {
    let c = draft_cfg();
    let d = draft_block(&c, 16, 4, 2, 4, false, false);
    assert_eq!(d.n_tok, 3);
    assert!(d.error.is_none());
    assert_eq!(d.ops[0], DraftOp::Embed { t: 0, token: 2 });
    assert_eq!(d.ops[1], DraftOp::Embed { t: 1, token: 4 });
    assert_eq!(d.ops[2], DraftOp::Embed { t: 2, token: 4 });
    for o in &d.ops {
        if let DraftOp::Attend { t, n_pos, .. } = o {
            assert_eq!(*n_pos, 4 + t + 1);
        }
    }
    let full = draft_block(&c, 5, 4, 2, 4, false, false);
    assert!(full.error.is_some());
    assert_eq!(Weight::AttnQ.tensor(1), "blk.1.attn_q.weight");
    assert_eq!(Weight::OutputNorm.tensor(1), "output_norm.weight");
    assert!(d.ops.iter().any(|o| matches!(o, DraftOp::Sum { dst: Rows::X, .. })));
}

#[test]
fn context_is_injected_in_order() {
    let c = draft_cfg();
    let d = inject(&c, 16, 16, &[0, 1]);
    assert!(d.error.is_none());
    let puts: Vec<(usize, usize)> = d
        .ops
        .iter()
        .filter_map(|o| match o {
            DraftOp::Put { il, pos, .. } => Some((*il, *pos)),
            _ => None,
        })
        .collect();
    assert_eq!(puts, vec![(0, 0), (0, 1), (1, 0), (1, 1)]);
    assert!(inject(&c, 16, 15, &[0, 1]).error.is_some());
    assert!(inject(&c, 1, 16, &[0, 1]).error.is_some());
}

#[test]
fn the_markov_head_biases_by_the_last_token() {
    let mut m = Markov::new(2, 3, false, false);
    assert_eq!(m.prev, 2);
    let out = m.step(&bits(&[1.0, 2.0, 0.0]), &bits(&[0.0, 0.0, 5.0]));
    assert_eq!(out, bits(&[1.0, 2.0, 5.0]));
    assert_eq!((m.t, m.prev), (1, 2));
    let mut off = Markov::new(2, 3, false, true);
    let out = off.step(&bits(&[1.0, 2.0, 0.0]), &bits(&[0.0, 0.0, 5.0]));
    assert_eq!(out, bits(&[1.0, 2.0, 0.0]));
    assert_eq!(off.prev, 1);
    let c = confidence(1.0f32.to_bits(), &bits(&[1.0, 2.0]), &bits(&[3.0, 4.0]));
    assert_eq!(f32::from_bits(c), 12.0);
}

fn reply(err: i32, word: u32, wide: u64, bytes: &[u8], null: bool) -> Reply {
    Reply { err, null, word, wide, bytes: bytes.to_vec() }
}

#[test]
fn opening_takes_the_first_gpu() {
    let mut o = Opening::new();
    assert_eq!(o.call, Call::CountPlatforms);
    o.step(reply(0, 2, 0, b"", false)).unwrap();
    assert_eq!(o.call, Call::ListPlatforms(2));
    o.step(reply(0, 2, 0, b"", false)).unwrap();
    assert_eq!(o.call, Call::CountDevices(0));
    o.step(reply(-1, 0, 0, b"", false)).unwrap();
    assert_eq!(o.call, Call::CountDevices(1));
    o.step(reply(0, 3, 0, b"", false)).unwrap();
    assert_eq!(o.call, Call::FirstDevice(1));
    o.step(reply(0, 1, 0, b"", false)).unwrap();
    assert_eq!(o.call, Call::NameLength);
    o.step(reply(0, 0, 6, b"", false)).unwrap();
    assert_eq!(o.call, Call::Name(6));
    o.step(reply(0, 0, 0, b"A\xFFC\0xx", false)).unwrap();
    for w in [32u32, 2400] {
        o.step(reply(0, w, 0, b"", false)).unwrap();
    }
    for w in [65536u64, 1 << 33] {
        o.step(reply(0, 0, w, b"", false)).unwrap();
    }
    assert_eq!(o.call, Call::CreateContext);
    o.step(reply(0, 0, 0, b"", false)).unwrap();
    o.step(reply(0, 0, 0, b"", false)).unwrap();
    assert_eq!(o.call, Call::Opened);
    assert_eq!(o.info.name, "A\u{FFFD}C");
    assert_eq!((o.info.compute_units, o.info.max_clock_mhz), (32, 2400));
    assert_eq!((o.info.local_mem, o.info.global_mem), (65536, 1 << 33));
}

#[test]
fn opening_fails_where_a_call_fails() {
    let mut o = Opening::new();
    assert_eq!(
        o.step(reply(-6, 0, 0, b"", false)),
        Err("OpenCL error -6 in clGetPlatformIDs count".to_string())
    );
    let mut o = Opening::new();
    assert_eq!(
        o.step(reply(0, 0, 0, b"", false)),
        Err("no OpenCL platforms found".to_string())
    );
    let mut o = Opening::new();
    o.step(reply(0, 1, 0, b"", false)).unwrap();
    o.step(reply(0, 1, 0, b"", false)).unwrap();
    assert_eq!(
        o.step(reply(0, 0, 0, b"", false)),
        Err("no OpenCL GPU device found".to_string())
    );
}

#[test]
fn runtime_calls_are_checked() {
    assert!(check(0, "clFinish").is_ok());
    assert_eq!(check(-5, "clFinish"), Err("OpenCL error -5 in clFinish".to_string()));
    assert_eq!(err_name(-52), "CL_INVALID_KERNEL_NAME");
    assert_eq!(err_name(0), "CL_SUCCESS");
    assert_eq!(err_name(7), "unknown");
    assert_eq!(check_write(5, 4), Err("buffer write 5 > buffer 4".to_string()));
    assert!(check_write(4, 4).is_ok());
    assert_eq!(check_read(5, 4), Err("buffer read larger than buffer".to_string()));
    assert!(check_read(0, 4).is_ok());
    assert_eq!(launch_sizes(0, 0), (1, 1));
    assert_eq!(launch_sizes(10, 64), (10, 10));
    assert_eq!(launch_sizes(128, 64), (128, 64));
    assert_eq!(buffer_flags(true), CL_MEM_READ_ONLY);
    assert_eq!(buffer_flags(false), CL_MEM_READ_WRITE);
    assert_eq!(text_in(&b"log\0rest".to_vec()), "log");
}

#[test]
fn embeddings_are_gathered_into_a_tile() {
    let t = bonsai::prefill::batch_embed(&vec![vec![1, 2], vec![3, 4]], 2).unwrap();
    assert_eq!((t.n_tokens(), t.n_feat()), (2, 2));
    assert_eq!(t.as_slice(), &[1, 2, 3, 4]);
    let t = bonsai::prefill::batch_embed(&Vec::new(), 2).unwrap();
    assert_eq!((t.n_tokens(), t.n_feat()), (0, 0));
    assert!(bonsai::prefill::batch_embed(&vec![vec![1, 2], vec![3]], 2).is_err());
}

#[test]
fn a_block_keeps_its_states_and_takes_rows() {
    let mut b = bonsai::draft::DraftBlock::new(3, 2, vec![9, 8, 7]);
    assert_eq!((b.logits.clone(), b.conf.clone()), (vec![0; 6], vec![0; 3]));
    b.set(1, 3, &[5, 6], 4);
    assert_eq!(b.logits, vec![0, 0, 5, 6, 0, 0]);
    assert_eq!(b.conf, vec![0, 4, 0]);
    assert_eq!(b.emb, vec![9, 8, 7]);
}
