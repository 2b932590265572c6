use gguf_infer::arith::{Numbers, Op};
use gguf_infer::sampler::{Sampler, SamplerConfig, NEGATIVE_INFINITY, ONE};

fn calc(op: Op<u32>) -> u32 {
    let f = f32::from_bits;
    let r = match op {
        Op::Plus(a, b) => f(a) + f(b),
        Op::Minus(a, b) => f(a) - f(b),
        Op::Times(a, b) => f(a) * f(b),
        Op::Over(a, b) => f(a) / f(b),
        Op::Larger(a, b) => f(a).max(f(b)),
        Op::Exp(a) => f(a).exp(),
        _ => panic!("not asked for"),
    };
    r.to_bits()
}

fn ops() -> Numbers<u32, fn(Op<u32>) -> u32> {
    Numbers { zero: 0, one: ONE, lowest: NEGATIVE_INFINITY, calc }
}

fn bits(v: &[f32]) -> Vec<u32> {
    v.iter().map(|x| x.to_bits()).collect()
}

fn floats(v: &[u32]) -> Vec<f32> {
    v.iter().map(|x| f32::from_bits(*x)).collect()
}

fn config(temperature: f32, top_k: usize, top_p: f32, penalty: f32) -> SamplerConfig {
    SamplerConfig {
        temperature: temperature.to_bits(),
        top_k,
        top_p: top_p.to_bits(),
        repetition_penalty: penalty.to_bits(),
        repetition_window: 2,
        seed: 12345,
    }
}

#[test]
fn the_default_configuration_has_its_values() {
    let c = SamplerConfig::default();
    assert_eq!(f32::from_bits(c.temperature), 0.8);
    assert_eq!(c.top_k, 40);
    assert_eq!(f32::from_bits(c.top_p), 0.95);
    assert_eq!(f32::from_bits(c.repetition_penalty), 1.1);
    assert_eq!(c.repetition_window, 64);
    assert_eq!(c.seed, 12345);
}

#[test]
fn random_numbers_follow_the_generator() {
    let mut s = Sampler::new(SamplerConfig::default());
    assert_eq!(s.next_random(), 0x354163A4);
    assert_eq!(s.next_random(), 0x3F1C0EB9);
    assert_eq!(s.next_random(), 0x3F222809);
}

#[test]
fn random_numbers_are_at_most_one() {
    let mut s = Sampler::new(SamplerConfig { seed: 1, ..SamplerConfig::default() });
    for _ in 0..1000 {
        let r = f32::from_bits(s.next_random());
        assert!(0.0 <= r && r <= 1.0);
    }
}

#[test]
fn a_seed_of_zero_stays_at_zero_and_no_other_dies() {
    let mut dead = Sampler::new(SamplerConfig { seed: 0, ..SamplerConfig::default() });
    for _ in 0..10 {
        assert_eq!(dead.next_random(), 0);
    }
    let mut alive = Sampler::new(SamplerConfig { seed: 1 << 63, ..SamplerConfig::default() });
    for _ in 0..100 {
        assert_ne!(alive.next_random(), 0);
    }
}

#[test]
fn without_temperature_the_largest_logit_wins() {
    let mut s = Sampler::new(config(0.0, 40, 0.95, 1.0));
    let mut logits = bits(&[1.0, 5.0, 3.0, 5.0]);
    assert_eq!(s.sample(&ops(), &mut logits, &[1, 1]), 1);
    assert_eq!(floats(&logits), vec![1.0, 5.0, 3.0, 5.0]);
    assert_eq!(s.next_random(), 0x354163A4);
    let mut cold = Sampler::new(config(-1.0, 40, 0.95, 1.0));
    assert_eq!(cold.sample(&ops(), &mut bits(&[0.0, 2.0]), &[]), 1);
}

#[test]
fn recent_tokens_are_penalised() {
    let mut s = Sampler::new(config(0.0, 0, 0.0, 2.0));
    let mut logits = bits(&[4.0, 3.0, -1.0, 0.5]);
    assert_eq!(s.sample(&ops(), &mut logits, &[3, 0, 2]), 1);
    assert_eq!(floats(&logits), vec![2.0, 3.0, -2.0, 0.5]);
    let mut twice = bits(&[4.0, 3.0]);
    assert_eq!(s.sample(&ops(), &mut twice, &[0, 0]), 1);
    assert_eq!(floats(&twice), vec![1.0, 3.0]);
    let mut outside = bits(&[4.0, 3.0]);
    assert_eq!(s.sample(&ops(), &mut outside, &[7, 2]), 0);
    assert_eq!(floats(&outside), vec![4.0, 3.0]);
    let mut none = bits(&[4.0, 3.0]);
    assert_eq!(s.sample(&ops(), &mut none, &[]), 0);
}

#[test]
fn temperature_spreads_the_probabilities() {
    let mut s = Sampler::new(config(2.0, 0, 0.0, 1.0));
    let mut logits = bits(&[0.0, 2.0]);
    let token = s.sample(&ops(), &mut logits, &[]);
    let e = (0.0f32 / 2.0 - 1.0).exp();
    let inv = 1.0 / (0.0 + e + 1.0);
    assert_eq!(floats(&logits), vec![e * inv, 1.0 * inv]);
    assert_eq!(token, 0);
    let mut again = bits(&[0.0, 2.0]);
    assert_eq!(s.sample(&ops(), &mut again, &[]), 1);
}

#[test]
fn only_the_most_probable_tokens_are_kept() {
    let mut s = Sampler::new(config(1.0, 2, 0.0, 1.0));
    let mut logits = bits(&[1.0, 3.0, 2.0, 0.0]);
    s.sample(&ops(), &mut logits, &[]);
    let p = floats(&logits);
    assert_eq!((p[0], p[3]), (0.0, 0.0));
    assert!(p[1] > p[2] && p[2] > 0.0);
    assert!((p[1] + p[2] - 1.0).abs() < 1e-6);
}

#[test]
fn of_equal_tokens_the_first_are_kept() {
    let mut s = Sampler::new(config(1.0, 2, 0.0, 1.0));
    let mut logits = bits(&[0.0, 0.0, 0.0, 0.0]);
    s.sample(&ops(), &mut logits, &[]);
    assert_eq!(floats(&logits), vec![0.5, 0.5, 0.0, 0.0]);
}

#[test]
fn a_number_of_tokens_outside_the_vocabulary_keeps_all() {
    for k in [0, 4, 9] {
        let mut s = Sampler::new(config(1.0, k, 0.0, 1.0));
        let mut logits = bits(&[0.0, 0.0, 0.0, 0.0]);
        s.sample(&ops(), &mut logits, &[]);
        assert_eq!(floats(&logits), vec![0.25; 4]);
    }
}

#[test]
fn the_nucleus_is_the_smallest_set_that_reaches_the_threshold() {
    let mut s = Sampler::new(config(1.0, 0, 0.5, 1.0));
    let mut logits = bits(&[0.0, 0.0, 0.0, 0.0]);
    s.sample(&ops(), &mut logits, &[]);
    assert_eq!(floats(&logits), vec![0.5, 0.5, 0.0, 0.0]);
    let mut t = Sampler::new(config(1.0, 0, 0.5, 1.0));
    let mut steep = bits(&[0.0, 9.0, 0.0]);
    assert_eq!(t.sample(&ops(), &mut steep, &[]), 1);
    let p = floats(&steep);
    assert_eq!((p[0], p[2]), (0.0, 0.0));
    assert!((p[1] - 1.0).abs() < 1e-6);
}

#[test]
fn a_threshold_of_one_or_zero_keeps_all() {
    for p in [0.0, 1.0, 2.0, -1.0] {
        let mut s = Sampler::new(config(1.0, 0, p, 1.0));
        let mut logits = bits(&[0.0, 0.0]);
        s.sample(&ops(), &mut logits, &[]);
        assert_eq!(floats(&logits), vec![0.5, 0.5]);
    }
}

#[test]
fn the_random_number_picks_the_token() {
    let mut s = Sampler::new(config(1.0, 0, 0.0, 1.0));
    let mut first = bits(&[0.0, 0.0, 0.0, 0.0]);
    assert_eq!(s.sample(&ops(), &mut first, &[]), 0);
    let mut second = bits(&[0.0, 0.0, 0.0, 0.0]);
    assert_eq!(s.sample(&ops(), &mut second, &[]), 2);
}

#[test]
fn a_token_that_was_filtered_out_is_not_drawn() {
    for seed in [0u64, 1, 42] {
        let mut s = Sampler::new(SamplerConfig { seed, ..config(1.0, 1, 1.0, 1.0) });
        let mut logits = bits(&[0.0, 10.0]);
        assert_eq!(s.sample(&ops(), &mut logits, &[]), 1);
        assert_eq!(floats(&logits)[0], 0.0);
    }
}

#[test]
fn where_no_sum_is_large_enough_the_last_kept_token_is_drawn() {
    let sums_stay_low = Numbers {
        calc: |op: Op<u32>| match op {
            Op::Plus(_, _) => 0,
            other => calc(other),
        },
        zero: 0,
        one: 1.0f32.to_bits(),
        lowest: f32::NEG_INFINITY.to_bits(),
    };
    let mut s = Sampler::new(config(1.0, 2, 1.0, 1.0));
    let mut logits = bits(&[5.0, 4.0, 1.0]);
    assert_eq!(s.sample(&sums_stay_low, &mut logits, &[]), 1);
    assert_eq!(floats(&logits)[2], 0.0);
}

#[test]
fn without_probabilities_above_zero_the_first_sum_that_is_large_enough_counts() {
    let nothing_left = Numbers {
        calc: |op: Op<u32>| match op {
            Op::Times(_, _) => 0,
            other => calc(other),
        },
        zero: 0,
        one: 1.0f32.to_bits(),
        lowest: f32::NEG_INFINITY.to_bits(),
    };
    let mut s = Sampler::new(SamplerConfig { seed: 0, ..config(1.0, 0, 1.0, 1.0) });
    assert_eq!(s.sample(&nothing_left, &mut bits(&[1.0, 2.0, 3.0]), &[]), 0);
    let mut s = Sampler::new(SamplerConfig { seed: 1, ..config(1.0, 0, 1.0, 1.0) });
    assert_eq!(s.sample(&nothing_left, &mut bits(&[1.0, 2.0, 3.0]), &[]), 2);
}

#[test]
fn sampling_is_reproducible() {
    let draw = |seed: u64| {
        let mut s = Sampler::new(SamplerConfig { seed, ..SamplerConfig::default() });
        let mut tokens = Vec::new();
        for step in 0..50usize {
            let v: Vec<f32> = (0..60).map(|i| ((i * 7 + step * 3) % 13) as f32 / 4.0).collect();
            let from = tokens.len() - tokens.len().min(5);
            let recent: Vec<usize> = tokens[from..].to_vec();
            tokens.push(s.sample(&ops(), &mut bits(&v), &recent));
        }
        tokens
    };
    assert_eq!(draw(12345), draw(12345));
    assert_ne!(draw(12345), draw(54321));
}
