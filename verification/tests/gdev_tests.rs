//! Recording a model's passes for a device.

use bonsai::config::Qwen35;
use bonsai::gdev::{GDev, GDN_HV, HEAD_D, N_EMBD, N_FF, N_HEAD, N_KV};
use bonsai::gguf::{GGUF, TYPE_F32};
use bonsai::gguf_write::{write_gguf, NewTensor};
use bonsai::gpu::{Kernel, Op};

/// Two layers: a recurrent one and one of full attention.
fn two_layers() -> Qwen35 {
    Qwen35 {
        n_layer: 2,
        n_embd: N_EMBD,
        n_ff: N_FF,
        n_head: N_HEAD,
        n_head_kv: N_KV,
        n_embd_head: HEAD_D,
        n_ctx_train: 64,
        eps: 1e-6f32.to_bits(),
        interval: 2,
        n_rot: 64,
        sections: [11, 11, 10, 0],
        freq_base: 1e7f32.to_bits(),
        ssm_conv_kernel: 4,
        ssm_state: 128,
        ssm_group_count: 16,
        ssm_dt_rank: GDN_HV,
        ssm_inner: 6144,
    }
}

/// A container that holds every tensor by name, of no interest otherwise, but for one.
fn model(without: &str) -> Vec<u8> {
    let both = [
        "attn_norm.weight",
        "post_attention_norm.weight",
        "ffn_gate.weight",
        "ffn_up.weight",
        "ffn_down.weight",
    ];
    let recurrent = [
        "attn_qkv.weight",
        "attn_gate.weight",
        "ssm_alpha.weight",
        "ssm_beta.weight",
        "ssm_conv1d.weight",
        "ssm_norm.weight",
        "ssm_out.weight",
        "ssm_a",
        "ssm_dt.bias",
    ];
    let full = [
        "attn_q.weight",
        "attn_k.weight",
        "attn_v.weight",
        "attn_q_norm.weight",
        "attn_k_norm.weight",
        "attn_output.weight",
    ];
    let mut names: Vec<String> = vec!["output_norm.weight".to_string()];
    names.extend(both.iter().map(|n| format!("blk.0.{n}")));
    names.extend(both.iter().map(|n| format!("blk.1.{n}")));
    names.extend(recurrent.iter().map(|n| format!("blk.0.{n}")));
    names.extend(full.iter().map(|n| format!("blk.1.{n}")));
    let tensors: Vec<NewTensor> = names
        .into_iter()
        .filter(|n| n != without)
        .map(|n| (n, vec![GDN_HV as u64], TYPE_F32))
        .collect();
    let l = write_gguf(3, &Vec::new(), &tensors);
    let mut out = l.header;
    out.resize((l.data_start + l.data_size) as usize, 0);
    out
}

fn open(bytes: &[u8]) -> GDev {
    let g = GGUF::open(bytes).unwrap();
    GDev::open(&g, two_layers(), true, false, None, Some("256")).unwrap()
}

fn kernels(ops: &[Op]) -> Vec<Kernel> {
    ops.iter()
        .filter_map(|o| match o {
            Op::Dispatch { kernel, .. } => Some(*kernel),
            _ => None,
        })
        .collect()
}

#[test]
fn a_device_gets_weights_and_buffers() {
    let bytes = model("");
    let mut d = open(&bytes);
    assert_eq!(d.n_ctx, 256);
    let ops = d.gpu.take_ops();
    let n = |f: fn(&Op) -> bool| ops.iter().filter(|o| f(o)).count();
    assert_eq!(n(|o| matches!(o, Op::Weights { .. })), 26);
    assert!(n(|o| matches!(o, Op::Alloc { local: true, .. })) > 26);
    assert_eq!(n(|o| matches!(o, Op::Submit)), 0);
}

#[test]
fn a_model_of_other_sizes_is_refused() {
    let bytes = model("");
    let g = GGUF::open(&bytes).unwrap();
    let cfg = Qwen35 { n_embd: 8, ..two_layers() };
    let e = GDev::open(&g, cfg, true, false, None, None).err().unwrap();
    assert_eq!(e, "gdev: model hyperparameters do not match gdev constants");
}

#[test]
fn a_token_is_recorded_as_one_submission() {
    let bytes = model("");
    let mut d = open(&bytes);
    d.gpu.take_ops();
    d.forward_token(3).unwrap();
    let ops = d.gpu.take_ops();
    assert_eq!(ops.iter().filter(|o| matches!(o, Op::Submit)).count(), 1);
    assert!(matches!(ops.last(), Some(Op::Read { .. })));
    let ks = kernels(&ops);
    assert_eq!(ks.first(), Some(&Kernel::RmsNorm));
    assert_eq!(ks.iter().filter(|k| **k == Kernel::GdnStep).count(), 1);
    assert_eq!(ks.iter().filter(|k| **k == Kernel::Conv1dSilu).count(), 1);
    // One for the keys, one for the values.
    assert_eq!(ks.iter().filter(|k| **k == Kernel::KvStore).count(), 2);
    assert_eq!(ks.iter().filter(|k| **k == Kernel::AddResidual).count(), 4);
    assert_eq!(
        d.forward_token(256).unwrap_err(),
        "gdev: position 256 exceeds context 256/256 (raise BONSAI_CTX)"
    );
    assert!(d.gpu.take_ops().is_empty());
}

#[test]
fn a_missing_tensor_is_named() {
    let bytes = model("blk.1.attn_v.weight");
    let mut d = open(&bytes);
    d.gpu.take_ops();
    assert!(d.forward_token(0).unwrap_err().contains("blk.1.attn_v.weight"));
    assert!(d.gpu.take_ops().is_empty());
}

#[test]
fn a_prompt_is_recorded_window_by_window() {
    let bytes = model("");
    let mut d = open(&bytes);
    d.gpu.take_ops();
    d.prefill_batch_windowed(3 * N_EMBD, 3, 2).unwrap();
    let ops = d.gpu.take_ops();
    let submits = ops.iter().filter(|o| matches!(o, Op::Submit)).count();
    let steps = kernels(&ops).iter().filter(|k| **k == Kernel::GdnStep).count();
    assert!(submits >= 2);
    assert_eq!(steps, 3);
    let made: Vec<u64> = ops
        .iter()
        .filter_map(|o| match o {
            Op::Alloc { buf, .. } => Some(buf.id),
            _ => None,
        })
        .collect();
    let gone: Vec<u64> = ops
        .iter()
        .filter_map(|o| match o {
            Op::Destroy { buf } => Some(buf.id),
            _ => None,
        })
        .collect();
    assert!(!made.is_empty());
    for id in made {
        assert!(gone.contains(&id));
    }
    assert_eq!(
        d.prefill_batch(2, 3).unwrap_err(),
        "prefill_batch_windowed: expected 15360 embeddings, got 2"
    );
    assert!(d.prefill_batch(2 * N_EMBD, 2).is_ok());
}

#[test]
fn caches_are_read_back_and_reset() {
    let bytes = model("");
    let mut d = open(&bytes);
    d.gpu.take_ops();
    assert!(d.dump_kv(1, 2).is_ok());
    assert_eq!(d.gpu.take_ops().iter().filter(|o| matches!(o, Op::Read { .. })).count(), 2);
    assert!(d.dump_kv(0, 2).is_err());
    assert!(d.dump_state(0) && d.dump_conv(0));
    assert!(!d.dump_state(1) && !d.dump_conv(1));
    d.gpu.take_ops();
    d.reset_sequence();
    assert!(d.gpu.take_ops().iter().all(|o| matches!(o, Op::Zero { .. })));
}

#[test]
fn bytes_are_read_at_any_offset() {
    let bytes = model("");
    let g = GGUF::open(&bytes).unwrap();
    assert_eq!(g.file_bytes().len(), bytes.len());
    let mut four = vec![0u8; 4];
    g.read_bytes(0, &mut four).unwrap();
    assert_eq!(four, b"GGUF");
    assert!(g.read_bytes(bytes.len() as u64 - 3, &mut four).is_err());
}
