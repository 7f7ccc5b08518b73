//! Sampling.

use bonsai::sampler::{argmax, keep_at_least, nucleus_len, top_candidates, Rng, Sampler, SamplerConfig};
use bonsai::sampling::{prepare, Prepared};

fn bits(v: &[f32]) -> Vec<u32> {
    v.iter().map(|x| x.to_bits()).collect()
}

fn sample(s: &mut Sampler, logits: &[f32], cfg: &SamplerConfig) -> i32 {
    match prepare(&bits(logits), cfg) {
        Prepared::Token(t) => t,
        Prepared::Weigh { order, exponents } => {
            let powers: Vec<u32> =
                exponents.iter().map(|&e| f32::from_bits(e).exp().to_bits()).collect();
            s.sample(&order, &powers, cfg)
        }
    }
}

/// The draw in the machine's arithmetic, over candidates in the given order.
fn draw_in_floats(rng: &mut Rng, order: &[usize], exponents: &[u32], cfg: &SamplerConfig) -> i32 {
    let mut scores: Vec<(usize, f32)> =
        order.iter().zip(exponents).map(|(&i, &e)| (i, f32::from_bits(e).exp())).collect();
    let mut sum = 0.0f64;
    for (_, s) in &scores {
        sum += *s as f64;
    }
    let inv = 1.0 / sum;
    for (_, s) in scores.iter_mut() {
        *s = (*s as f64 * inv) as f32;
    }
    let min_p = f32::from_bits(cfg.min_p);
    if min_p > 0.0 && min_p < 1.0 {
        let max_p = scores.iter().map(|&(_, p)| p).fold(0.0f32, f32::max);
        let cutoff = min_p * max_p;
        scores.retain(|&(_, p)| p >= cutoff);
    }
    scores.sort_by(|a, b| b.1.partial_cmp(&a.1).unwrap());
    let top_p = f32::from_bits(cfg.top_p);
    let mut keep = scores.len();
    if top_p < 1.0 {
        let mut acc = 0.0f32;
        for (i, &(_, p)) in scores.iter().enumerate() {
            acc += p;
            if acc >= top_p {
                keep = i + 1;
                break;
            }
        }
    }
    scores.truncate(keep);
    let total: f32 = scores.iter().map(|&(_, p)| p).sum();
    let r = f64::from_bits(rng.next_f64()) * total as f64;
    let mut acc = 0.0f64;
    for &(id, p) in &scores {
        acc += p as f64;
        if acc >= r {
            return id as i32;
        }
    }
    scores.last().unwrap().0 as i32
}

fn with(temp: f32, top_k: i32, top_p: f32, min_p: f32, seed: u64) -> SamplerConfig {
    SamplerConfig {
        temp: temp.to_bits(),
        top_k,
        top_p: top_p.to_bits(),
        min_p: min_p.to_bits(),
        seed,
    }
}

#[test]
fn greedy_picks_argmax() {
    let s = SamplerConfig { temp: 0.0f32.to_bits(), ..Default::default() };
    let mut smp = Sampler::new(&s, None);
    let logits = vec![-3.0, 5.0, 1.0, 2.0];
    assert_eq!(sample(&mut smp, &logits, &s), 1);
}

#[test]
fn deterministic_with_seed() {
    let cfg = SamplerConfig { seed: 42, temp: 0.8f32.to_bits(), top_k: 20, ..Default::default() };
    let logits: Vec<f32> = (0..64).map(|i| (i as f32 / 64.0).sin()).collect();
    let mut a = Sampler::new(&cfg, None);
    let mut b = Sampler::new(&cfg, Some(9));
    for _ in 0..5 {
        assert_eq!(sample(&mut a, &logits, &cfg), sample(&mut b, &logits, &cfg));
    }
}

#[test]
fn result_is_in_vocab_range() {
    let cfg = SamplerConfig { seed: 1, ..Default::default() };
    let mut smp = Sampler::new(&cfg, None);
    let logits: Vec<f32> = (0..248_320).map(|i| (i % 997) as f32 / 997.0).collect();
    let id = sample(&mut smp, &logits, &cfg);
    assert!((0..248_320).contains(&(id as usize)));
}

#[test]
fn draws_are_those_of_machine_arithmetic() {
    let logits: Vec<f32> = (0..50).map(|i| ((i * 37 % 50) as f32).sqrt() - 3.0).collect();
    for (k, cfg) in [
        with(0.6, 20, 0.9, 0.0, 7),
        with(1.0, 0, 1.0, 0.0, 8),
        with(0.3, 5, 0.5, 0.2, 9),
        with(2.0, 50, 0.95, 0.1, 10),
    ]
    .iter()
    .enumerate()
    {
        let mut smp = Sampler::new(cfg, None);
        let mut rng = Rng::new(cfg.seed);
        for round in 0..8 {
            match prepare(&bits(&logits), cfg) {
                Prepared::Token(_) => panic!("not greedy"),
                Prepared::Weigh { order, exponents } => {
                    let powers: Vec<u32> =
                        exponents.iter().map(|&e| f32::from_bits(e).exp().to_bits()).collect();
                    let got = smp.sample(&order, &powers, cfg);
                    let want = draw_in_floats(&mut rng, &order, &exponents, cfg);
                    assert_eq!(got, want, "configuration {k}, draw {round}");
                }
            }
        }
    }
}

#[test]
fn preparing_scales_and_shifts() {
    let cfg = with(0.5, 2, 1.0, 0.0, 1);
    match prepare(&bits(&[1.0, 3.0, 2.0]), &cfg) {
        Prepared::Weigh { order, exponents } => {
            assert_eq!(order, vec![1, 2]);
            assert_eq!(exponents, bits(&[0.0, -2.0]));
        }
        Prepared::Token(_) => panic!("not greedy"),
    }
    let all = with(0.5, 0, 1.0, 0.0, 1);
    match prepare(&bits(&[1.0, 3.0, 2.0]), &all) {
        Prepared::Weigh { order, exponents } => {
            assert_eq!(order, vec![0, 1, 2]);
            assert_eq!(exponents, bits(&[-4.0, 0.0, -2.0]));
        }
        Prepared::Token(_) => panic!("not greedy"),
    }
    assert!(matches!(prepare(&[], &cfg), Prepared::Token(0)));
}

#[test]
fn nothing_likely_falls_back_to_the_front() {
    let cfg = with(1.0, 2, 0.9, 0.5, 3);
    let nan = f32::NAN.to_bits();
    let mut smp = Sampler::new(&cfg, None);
    let before = smp.rng.0;
    assert_eq!(smp.sample(&vec![4, 2], &[nan, nan], &cfg), 4);
    assert_eq!(smp.rng.0, before);
}

#[test]
fn largest_score_wins_and_the_first_of_equals() {
    assert_eq!(argmax(&bits(&[1.0, 7.0, 7.0, -1.0])), 1);
    assert_eq!(argmax(&bits(&[f32::NAN, f32::NEG_INFINITY])), 0);
    assert_eq!(argmax(&bits(&[-0.0, 0.0])), 0);
    assert_eq!(argmax(&[]), 0);
}

#[test]
fn candidates_come_best_first() {
    let v = bits(&[0.5, f32::NAN, 2.0, -1.0, 2.0]);
    assert_eq!(top_candidates(&v, 3), vec![2, 4, 0]);
    assert_eq!(top_candidates(&v, 0), vec![2, 4, 0, 3, 1]);
}

#[test]
fn the_nucleus_reaches_the_share() {
    let sums = bits(&[0.5, 0.8, 0.95, 1.0]);
    assert_eq!(nucleus_len(&sums, 0.9f32.to_bits()), 3);
    assert_eq!(nucleus_len(&sums, 1.0f32.to_bits()), 4);
    assert_eq!(nucleus_len(&bits(&[0.1, 0.2]), 0.9f32.to_bits()), 2);
    assert_eq!(keep_at_least(&bits(&[0.5, 0.1, 0.3]), 0.3f32.to_bits()), vec![0, 2]);
}

#[test]
fn seeds_come_from_the_clock_only_when_asked() {
    let asks = SamplerConfig::default();
    assert_eq!(Sampler::new(&asks, Some(5)).rng.0, 5);
    assert_eq!(Sampler::new(&asks, None).rng.0, 0x9E37_79B9);
    let set = SamplerConfig { seed: 3, ..Default::default() };
    assert_eq!(Sampler::new(&set, Some(5)).rng.0, 3);
}

#[test]
fn generator_output_is_known() {
    let mut r = Rng::new(0);
    assert_eq!(r.next_u64(), 0xE220_A839_7B1D_CDAF);
    let mut r = Rng::new(0);
    let u = f64::from_bits(r.next_f64());
    assert_eq!(u, (0xE220_A839_7B1D_CDAFu64 >> 11) as f64 / (1u64 << 53) as f64);
}
