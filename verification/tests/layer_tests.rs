use bonsai::attn_layer::{full_attention_layer, Tables};
use bonsai::config::Qwen35;
use bonsai::forward::AttnCache;
use bonsai::layers;

fn bits(v: &[f32]) -> Vec<u32> {
    v.iter().map(|x| x.to_bits()).collect()
}

fn reals(v: &[u32]) -> Vec<f32> {
    v.iter().map(|&x| f32::from_bits(x)).collect()
}

#[test]
fn every_head_is_turned_by_the_same_angles() {
    // A quarter turn takes (a, b) to (-b, a); the rest of a head stays.
    let x = bits(&[1.0, 2.0, 9.0, 3.0, 4.0, 8.0]);
    let r = layers::turn_heads(&x, 2, 3, &bits(&[0.0]), &bits(&[1.0]));
    assert_eq!(reals(&r), vec![-2.0, 1.0, 9.0, -4.0, 3.0, 8.0]);
}

#[test]
fn heads_are_normalized_before_they_are_turned() {
    let x = bits(&[3.0, 3.0, -2.0, 2.0]);
    let w = bits(&[1.0, 0.5]);
    let r = layers::ready_heads(&x, &w, 2, 0.0f32.to_bits(), &bits(&[0.0]), &bits(&[1.0]));
    assert_eq!(reals(&r), vec![-0.5, 1.0, -0.5, -1.0]);
}

#[test]
fn a_gate_that_is_open_passes_the_up_projection() {
    // A power of zero opens a gate wholly, a power of one halves it.
    let r = layers::ffn_inner(&bits(&[2.0, 2.0]), &bits(&[0.0, 1.0]), &bits(&[5.0, 5.0]));
    assert_eq!(reals(&r), vec![10.0, 5.0]);
    assert_eq!(reals(&layers::activate(&bits(&[6.0]), &bits(&[1.0]))), vec![3.0]);
    assert_eq!(reals(&layers::corrections(&bits(&[1.0, 0.0]))), vec![0.5, 1.0]);
}

#[test]
fn large_sums_are_their_own_softplus() {
    let sums = bits(&[1.0, 21.0]);
    let logs = bits(&[1.25, 7.0]);
    let r = layers::keep_exponents(&sums, &logs, &bits(&[-2.0, -1.0]));
    assert_eq!(reals(&r), vec![-2.5, -21.0]);
}

#[test]
fn the_window_moves_by_one_input() {
    let mut conv = bits(&[1.0, 2.0]);
    let out = layers::take_in(&mut conv, &bits(&[3.0]), &bits(&[100.0, 10.0, 1.0]), 2);
    assert_eq!(reals(&out), vec![123.0]);
    assert_eq!(reals(&conv), vec![2.0, 3.0]);
}

#[test]
fn a_token_decays_corrects_and_asks_the_state() {
    // One head of side one: half of 2 is kept, the value 3 corrects it to 3.
    let mut state = bits(&[2.0]);
    let r = layers::recur(
        &mut state,
        &bits(&[2.0, 4.0, 3.0]),
        &bits(&[0.5]),
        &bits(&[1.0]),
        1,
        &bits(&[5.0]),
        &bits(&[0.5]),
        0.0f32.to_bits(),
        1.0f32.to_bits(),
    );
    assert_eq!(reals(&state), vec![3.0]);
    assert_eq!(reals(&r), vec![2.5]);
}

#[test]
fn value_heads_share_key_heads_in_turn() {
    // Three value heads, two key heads: the third uses the keys of the first.
    let mut state = bits(&[0.0, 0.0, 0.0]);
    let r = layers::recur(
        &mut state,
        &bits(&[1.0, -1.0, 1.0, 1.0, 2.0, 4.0, 8.0]),
        &bits(&[1.0, 1.0, 1.0]),
        &bits(&[1.0, 1.0, 1.0]),
        2,
        &bits(&[1.0]),
        &bits(&[1.0, 1.0, 1.0]),
        0.0f32.to_bits(),
        1.0f32.to_bits(),
    );
    assert_eq!(reals(&state), vec![2.0, 4.0, 8.0]);
    assert_eq!(reals(&r), vec![1.0, -1.0, 1.0]);
}

fn small() -> Qwen35 {
    Qwen35 {
        n_layer: 2,
        n_embd: 4,
        n_ff: 2,
        n_head: 2,
        n_head_kv: 1,
        n_embd_head: 2,
        n_ctx_train: 16,
        eps: 0,
        interval: 2,
        n_rot: 2,
        sections: [1, 0, 0, 0],
        freq_base: 1e4f32.to_bits(),
        ssm_conv_kernel: 2,
        ssm_state: 1,
        ssm_group_count: 1,
        ssm_dt_rank: 1,
        ssm_inner: 1,
    }
}

#[test]
fn a_token_attends_to_itself_and_to_those_before() {
    let cfg = small();
    assert!(cfg.is_sized());
    for form in [None, Some("f16")] {
        let mut cache = AttnCache::new(&cfg, form);
        let one = bits(&[1.0, 1.0]);
        let (cos, sin) = (bits(&[1.0]), bits(&[0.0]));
        let scale = 1.0f32.to_bits();
        let none: Option<Tables> = None;
        let mut out = Vec::new();
        for (pos, v) in [[2.0, 4.0], [6.0, 8.0]].iter().enumerate() {
            // Two heads: query and gate of the first, then of the second.
            let q = bits(&[1.0, 1.0, 5.0, 6.0, 2.0, 2.0, 7.0, 8.0]);
            let k = bits(&[3.0, 3.0]);
            let mut t = full_attention_layer(
                &cfg, 1, pos, &q, &k, &bits(v), &one, &one, &cos, &sin, &mut cache, &none, &none,
            )
            .unwrap();
            assert_eq!(reals(&t.q), vec![1.0, 1.0, 1.0, 1.0]);
            assert_eq!(reals(&t.gate), vec![5.0, 6.0, 7.0, 8.0]);
            while t.heads.h < cfg.n_head {
                let e = t.exponents(&cfg, &cache, scale, &none, &none);
                assert_eq!(reals(&e), vec![0.0; pos + 1]);
                // Equal scores have equal powers.
                t.accept(&cfg, &cache, &bits(&vec![1.0; pos + 1]), &none, &none);
            }
            out = t.finish(&bits(&[0.0, 0.0, 1.0, 1.0]));
        }
        assert_eq!(cache.n_pos(1), 2);
        assert_eq!(reals(&out), vec![4.0, 6.0, 2.0, 3.0]);
        let short = bits(&[1.0]);
        let r = full_attention_layer(
            &cfg, 1, 2, &short, &short, &short, &one, &one, &cos, &sin, &mut cache, &none, &none,
        );
        assert_eq!(
            r.unwrap_err(),
            "attention_layer(1): unexpected projection rows (1 / 1 / 1)"
        );
        assert_eq!(cache.n_pos(1), 2);
    }
}

#[test]
fn a_token_runs_through_a_recurrent_layer() {
    let cfg = small();
    let mut conv = bits(&[0.0, 0.0, 0.0]);
    // The kernel takes the current input alone.
    let conv_w = bits(&[0.0, 1.0, 0.0, 1.0, 0.0, 1.0]);
    let (one, bias) = (bits(&[1.0]), bits(&[0.5]));
    let qkv = bits(&[2.0, 4.0, 3.0]);
    let z = bits(&[8.0]);
    let t =
        layers::recurrent_layer(&cfg, 0, &qkv, z, one.clone(), &one, &bias, &conv_w, &mut conv)
            .unwrap();
    assert_eq!(reals(&conv), vec![2.0, 4.0, 3.0]);
    assert_eq!(reals(&t.mixed), vec![2.0, 4.0, 3.0]);
    assert_eq!(reals(&t.sums), vec![1.5]);
    assert_eq!(reals(&t.decay(&bits(&[2.0]), &bits(&[-3.0]))), vec![-6.0]);
    let mut state = bits(&[2.0]);
    let zero = bits(&[0.0]);
    let out =
        t.finish(&cfg, &mut state, &bits(&[0.5]), &zero, &one, &bits(&[0.0; 3]), &one, one[0]);
    assert_eq!(reals(&state), vec![3.0]);
    assert_eq!(reals(&out), vec![4.0]);
    let r = layers::recurrent_layer(
        &cfg, 0, &one, one.clone(), one.clone(), &one, &bias, &conv_w, &mut conv,
    );
    assert_eq!(
        r.unwrap_err(),
        "recurrent_layer(0): unexpected projection rows (1 / 1 / 1 / 1)"
    );
}

#[test]
fn a_feed_forward_layer_checks_its_projections() {
    let cfg = small();
    let two = bits(&[2.0, 2.0]);
    let r = layers::ffn_layer(&cfg, 0, &two, &bits(&[0.0, 1.0]), &bits(&[5.0, 5.0]));
    assert_eq!(reals(&r.unwrap()), vec![10.0, 5.0]);
    let r = layers::ffn_layer(&cfg, 0, &two, &two, &bits(&[5.0]));
    assert_eq!(r.unwrap_err(), "ffn_layer(0): unexpected rows (2 / 1)");
}
