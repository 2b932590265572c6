use gguf_infer::arith::{Numbers, Op};
use gguf_infer::attention::Attention;
use gguf_infer::gguf::GgufDataType;
use gguf_infer::kv_cache::KVCache;
use gguf_infer::math::{
    apply_rope, argmax, dot_product, mat_mul, mat_vec_mul, mat_vec_mul_transposed,
    precompute_rope_freqs, relu, rmsnorm, rmsnorm_inplace, silu, silu_inplace, silu_single, softmax,
    softmax_inplace, top_k, vec_add, vec_add_inplace, vec_mul, vec_mul_inplace, vec_norm, vec_scale,
    vec_scale_inplace, vec_sum,
};
use gguf_infer::mlp::Mlp;
use gguf_infer::projection::Projector;
use gguf_infer::quant::QuantizedMatrix;
use gguf_infer::rmsnorm::RmsNorm;
use gguf_infer::rope::RoPE;

fn calc(op: Op<f32>) -> f32 {
    match op {
        Op::Plus(a, b) => a + b,
        Op::Minus(a, b) => a - b,
        Op::Times(a, b) => a * b,
        Op::Over(a, b) => a / b,
        Op::Larger(a, b) => a.max(b),
        Op::Power(a, b) => a.powf(b),
        Op::Negative(a) => -a,
        Op::Exp(a) => a.exp(),
        Op::Root(a) => a.sqrt(),
        Op::Cosine(a) => a.cos(),
        Op::Sine(a) => a.sin(),
        Op::Count(n) => n as f32,
        Op::Whole(q) => q as f32,
        Op::Wide(bits) => f32::from_bits(bits),
        Op::Choice(x, a, b) => {
            if x >= 0.0 {
                a
            } else {
                b
            }
        }
    }
}

fn numbers() -> Numbers<f32, fn(Op<f32>) -> f32> {
    Numbers { zero: 0.0, one: 1.0, lowest: f32::NEG_INFINITY, calc }
}

type Gpu = fn(&QuantizedMatrix, &Vec<f32>) -> Option<Vec<f32>>;

fn cpu() -> Projector<Gpu> {
    Projector { gpu: None }
}

fn matrix(rows: usize, cols: usize, w: &[f32]) -> QuantizedMatrix {
    assert_eq!(w.len(), rows * cols);
    let mut raw = Vec::new();
    for x in w {
        raw.extend_from_slice(&x.to_le_bytes());
    }
    QuantizedMatrix::new(raw, GgufDataType::F32, rows, cols)
}

#[test]
fn operations_are_carried_out() {
    let n = numbers();
    assert_eq!(n.run(Op::Minus(5.0, 2.0)), 3.0);
    assert_eq!(n.run(Op::Count(7)), 7.0);
    assert_eq!(n.add_product(1.0, 2.0, 3.0), 7.0);
}

#[test]
fn vectors_are_added_multiplied_and_scaled() {
    let n = numbers();
    let mut out = vec![9.0; 3];
    vec_add(&n, &[1.0, 2.0, 3.0], &[4.0, 5.0, 6.0], &mut out);
    assert_eq!(out, vec![5.0, 7.0, 9.0]);
    vec_mul(&n, &[1.0, 2.0, 3.0], &[4.0, 5.0, 6.0], &mut out);
    assert_eq!(out, vec![4.0, 10.0, 18.0]);
    vec_scale(&n, &[1.0, 2.0, 3.0], -2.0, &mut out);
    assert_eq!(out, vec![-2.0, -4.0, -6.0]);
    let mut a = vec![1.0, 2.0];
    vec_add_inplace(&n, &mut a, &[1.0, 1.0]);
    vec_mul_inplace(&n, &mut a, &[3.0, 4.0]);
    vec_scale_inplace(&n, &mut a, 0.5);
    assert_eq!(a, vec![3.0, 6.0]);
}

#[test]
fn sums_start_from_zero() {
    let n = numbers();
    assert_eq!(vec_sum(&n, &[1.0, 2.5, -0.5]), 3.0);
    assert_eq!(vec_sum(&n, &[]), 0.0);
    assert_eq!(dot_product(&n, &[1.0, 2.0], &[3.0, 4.0]), 11.0);
    assert_eq!(vec_norm(&n, &[3.0, 4.0]), 5.0);
}

#[test]
fn softmax_is_taken_relative_to_the_largest() {
    let n = numbers();
    let mut out = vec![0.0; 2];
    softmax(&n, &[1000.0, 1000.0], &mut out);
    assert_eq!(out, vec![0.5, 0.5]);
    let mut a = vec![0.0, 0.0, f32::NEG_INFINITY, 0.0, 0.0];
    softmax_inplace(&n, &mut a);
    assert_eq!(a, vec![0.25, 0.25, 0.0, 0.25, 0.25]);
    let e = (-1.0f32).exp();
    let mut b = vec![1.0, 2.0];
    softmax_inplace(&n, &mut b);
    let inv = 1.0 / (0.0 + e + 1.0);
    assert_eq!(b, vec![e * inv, 1.0 * inv]);
    let mut none: Vec<f32> = Vec::new();
    softmax_inplace(&n, &mut none);
    assert!(none.is_empty());
}

#[test]
fn silu_takes_the_form_that_does_not_overflow() {
    let n = numbers();
    assert_eq!(silu_single(&n, 0.0), 0.0);
    assert_eq!(silu_single(&n, 2.0), 2.0 / (1.0 + (-2.0f32).exp()));
    let e = (-3.0f32).exp();
    assert_eq!(silu_single(&n, -3.0), -3.0 * e / (1.0 + e));
    assert_eq!(silu_single(&n, -1000.0), 0.0);
    let mut out = vec![0.0; 2];
    silu(&n, &[2.0, -3.0], &mut out);
    let mut a = vec![2.0, -3.0];
    silu_inplace(&n, &mut a);
    assert_eq!(out, a);
}

#[test]
fn relu_cuts_off_below_zero() {
    let mut out = vec![9.0; 3];
    relu(&numbers(), &[-1.0, 0.0, 2.5], &mut out);
    assert_eq!(out, vec![0.0, 0.0, 2.5]);
}

#[test]
fn matrices_are_multiplied() {
    let n = numbers();
    let a = [1.0, 2.0, 3.0, 4.0, 5.0, 6.0];
    let b = [7.0, 8.0, 9.0, 10.0, 11.0, 12.0];
    let mut c = vec![1.0; 4];
    mat_mul(&n, &a, &b, &mut c, 2, 3, 2);
    assert_eq!(c, vec![58.0, 64.0, 139.0, 154.0]);
}

#[test]
fn matrices_are_multiplied_with_vectors() {
    let n = numbers();
    let w = [1.0, 2.0, 3.0, 4.0, 5.0, 6.0];
    let mut y = vec![0.0; 2];
    mat_vec_mul(&n, &w, &[1.0, 0.0, -1.0], &mut y, 2, 3);
    assert_eq!(y, vec![-2.0, -2.0]);
    mat_vec_mul_transposed(&n, &w, &[1.0, 10.0, 100.0], &mut y, 2, 3);
    assert_eq!(y, vec![321.0, 654.0]);
}

#[test]
fn rms_norm_scales_by_the_mean_square() {
    let n = numbers();
    let x = [3.0f32, 4.0];
    let w = [1.0f32, 2.0];
    let scale = 1.0 / (25.0f32 / 2.0 + 0.5).sqrt();
    let mut out = vec![0.0; 2];
    rmsnorm(&n, &x, &w, &mut out, 0.5);
    assert_eq!(out, vec![3.0 * scale * 1.0, 4.0 * scale * 2.0]);
    let mut y = x.to_vec();
    rmsnorm_inplace(&n, &mut y, &w, 0.5);
    assert_eq!(y, out);
    let norm = RmsNorm::new(w.to_vec(), 0.5);
    let mut z = vec![0.0; 2];
    norm.forward(&n, &x, &mut z);
    assert_eq!(z, out);
    let mut v = x.to_vec();
    norm.forward_inplace(&n, &mut v);
    assert_eq!(v, out);
    let longer = RmsNorm::new(vec![1.0, 2.0, 9.0], 0.5);
    let mut u = x.to_vec();
    longer.forward_inplace(&n, &mut u);
    assert_eq!(u, out);
}

#[test]
fn rope_turns_pairs() {
    let n = numbers();
    let mut x = vec![1.0, 2.0, 3.0, 4.0];
    apply_rope(&n, &mut x, 2, &[0.5, 0.25]);
    let (s, c) = (1.0f32.sin(), 1.0f32.cos());
    let (s2, c2) = (0.5f32.sin(), 0.5f32.cos());
    assert_eq!(x[0], 1.0 * c - 2.0 * s);
    assert_eq!(x[1], 1.0 * s + 2.0 * c);
    assert_eq!(x[2], 3.0 * c2 - 4.0 * s2);
    assert_eq!(x[3], 3.0 * s2 + 4.0 * c2);
}

#[test]
fn frequencies_fall_with_the_pair() {
    let n = numbers();
    let f = precompute_rope_freqs(&n, 2, 4, 10000.0);
    assert_eq!(f.len(), 4);
    assert_eq!(f[0], f[2]);
    assert_eq!(f[1], f[3]);
    assert_eq!(f[0], 1.0);
    assert_eq!(f[1], 1.0 / 10000.0f32.powf(2.0 / 4.0));
}

#[test]
fn a_table_turns_as_its_angles_say() {
    let n = numbers();
    let rope = RoPE::new(&n, 4, 10000.0, 3);
    assert_eq!(rope.dim(), 4);
    let (cos, sin) = rope.get_freqs(2).unwrap();
    let f1 = 1.0 / 10000.0f32.powf(2.0 / 4.0);
    assert_eq!(cos, &[(2.0f32 * 1.0).cos(), (2.0 * f1).cos()]);
    assert_eq!(sin, &[(2.0f32 * 1.0).sin(), (2.0 * f1).sin()]);
    assert!(rope.get_freqs(3).is_none());
    let mut x = vec![1.0, 2.0, 3.0, 4.0];
    rope.apply(&n, &mut x, 2);
    let mut y = vec![1.0, 2.0, 3.0, 4.0];
    apply_rope(&n, &mut y, 2, &[1.0, f1]);
    assert_eq!(x, y);
}

#[test]
fn position_zero_turns_nothing() {
    let n = numbers();
    let rope = RoPE::new(&n, 4, 10000.0, 2);
    let mut x = vec![1.0, -2.0, 3.5, 4.0];
    rope.apply(&n, &mut x, 0);
    assert_eq!(x, vec![1.0, -2.0, 3.5, 4.0]);
}

#[test]
fn positions_past_the_table_keep_the_base() {
    let n = numbers();
    let rope = RoPE::new(&n, 4, 500000.0, 1);
    let mut x = vec![1.0, 0.0, 1.0, 0.0];
    rope.apply(&n, &mut x, 5);
    let f = 1.0 / 500000.0f32.powf(2.0 / 4.0);
    assert_eq!(x, vec![5.0f32.cos(), 5.0f32.sin(), (5.0 * f).cos(), (5.0 * f).sin()]);
}

#[test]
fn the_length_of_a_table_does_not_matter() {
    let n = numbers();
    let short = RoPE::new(&n, 4, 500000.0, 2);
    let long = RoPE::new(&n, 4, 500000.0, 16);
    for position in 0..16 {
        let mut x = vec![1.0, 2.0, -3.0, 0.5];
        let mut y = x.clone();
        short.apply(&n, &mut x, position);
        long.apply(&n, &mut y, position);
        assert_eq!(x, y);
    }
}

#[test]
fn heads_are_turned_alike() {
    let n = numbers();
    let rope = RoPE::new(&n, 2, 10000.0, 4);
    let mut x = vec![1.0, 2.0, 1.0, 2.0];
    rope.apply_heads(&n, &mut x, 2, 3);
    assert_eq!(x[0], x[2]);
    assert_eq!(x[1], x[3]);
    let mut y = vec![1.0, 2.0];
    rope.apply(&n, &mut y, 3);
    assert_eq!(&x[..2], &y[..]);
}

#[test]
fn ranking_is_offered_with_the_vector_operations() {
    let v: Vec<u32> = [0.5f32, 2.0].iter().map(|x| x.to_bits()).collect();
    assert_eq!(argmax(&v), 1);
    assert_eq!(top_k(&v, 1), vec![(1, 2.0f32.to_bits())]);
}

#[test]
fn a_feed_forward_network_gates_its_input() {
    let n = numbers();
    let gate = matrix(2, 2, &[1.0, 0.0, 0.0, 1.0]);
    let up = matrix(2, 2, &[2.0, 0.0, 0.0, 3.0]);
    let down = matrix(2, 2, &[1.0, 1.0, 1.0, -1.0]);
    let mlp = Mlp::new(gate, up, down, 2, 2);
    assert!(mlp.is_consistent() && mlp.is_complete());
    let out = mlp.forward(&n, &cpu(), &vec![1.0, -1.0]);
    let a = silu_single(&n, 1.0) * 2.0;
    let b = silu_single(&n, -1.0) * -3.0;
    assert_eq!(out, vec![a + b, a - b]);
}

#[test]
fn a_network_with_other_sizes_is_inconsistent() {
    let m = || matrix(2, 2, &[0.0; 4]);
    assert!(!Mlp::new(m(), m(), m(), 3, 2).is_consistent());
    assert!(!Mlp::new(m(), m(), m(), 2, 1).is_consistent());
}

fn attention(n_heads: usize, n_kv_heads: usize) -> Attention<f32> {
    let q_dim = n_heads * 2;
    let kv_dim = n_kv_heads * 2;
    let w = |rows: usize, cols: usize, k: f32| {
        let v: Vec<f32> = (0..rows * cols).map(|i| ((i % 5) as f32 - 2.0) * k).collect();
        matrix(rows, cols, &v)
    };
    Attention::new(
        0,
        n_heads,
        n_kv_heads,
        2,
        w(q_dim, 4, 0.5),
        w(kv_dim, 4, 0.25),
        w(kv_dim, 4, 1.0),
        w(4, q_dim, 0.125),
        Some(vec![0.1; q_dim]),
        Some(vec![0.2; kv_dim]),
        Some(vec![0.3; kv_dim]),
    )
}

fn dense(m: &QuantizedMatrix, x: &[f32]) -> Vec<f32> {
    let mut y = Vec::new();
    for row in 0..m.rows {
        let mut sum = 0.0f32;
        for col in 0..m.cols {
            let at = (row * m.cols + col) * 4;
            let b = [m.data[at], m.data[at + 1], m.data[at + 2], m.data[at + 3]];
            sum += f32::from_le_bytes(b) * x[col];
        }
        y.push(sum);
    }
    y
}

fn plus(a: &[f32], b: &[f32]) -> Vec<f32> {
    a.iter().zip(b.iter()).map(|(x, y)| x + y).collect()
}

fn turn(x: &mut [f32], position: usize) {
    for pair in x.chunks_mut(2) {
        let (c, s) = ((position as f32).cos(), (position as f32).sin());
        let (a, b) = (pair[0], pair[1]);
        pair[0] = a * c - b * s;
        pair[1] = a * s + b * c;
    }
}

#[test]
fn attention_weighs_the_values_of_all_tokens() {
    let n = numbers();
    let a = attention(2, 1);
    let (bq, bk, bv) = (vec![0.1; 4], vec![0.2; 2], vec![0.3; 2]);
    assert_eq!(a.n_rep(), 2);
    assert!(a.is_consistent(4) && a.is_complete());
    assert!(!a.is_consistent(3));
    let rope = RoPE::new(&n, 2, 10000.0, 4);
    let mut cache = KVCache::new(2, 4, 0.0);
    let mut keys: Vec<Vec<f32>> = Vec::new();
    let mut vals: Vec<Vec<f32>> = Vec::new();
    for (position, x) in [[1.0f32, 2.0, -1.0, 0.5], [0.25, -1.0, 1.0, 2.0]].iter().enumerate() {
        let out = a.forward(&n, &cpu(), &x.to_vec(), position, &rope, &mut cache);
        let mut q = plus(&dense(&a.wq, x), &bq);
        let mut k = plus(&dense(&a.wk, x), &bk);
        turn(&mut q, position);
        turn(&mut k, position);
        keys.push(k);
        vals.push(plus(&dense(&a.wv, x), &bv));
        let mut heads = vec![0.0f32; 4];
        for h in 0..2 {
            let scale = 1.0 / 2.0f32.sqrt();
            let mut scores: Vec<f32> = keys
                .iter()
                .map(|k| (q[2 * h] * k[0] + q[2 * h + 1] * k[1]) * scale)
                .collect();
            let largest = scores.iter().cloned().fold(f32::NEG_INFINITY, f32::max);
            let sum: f32 = scores.iter().map(|s| (s - largest).exp()).sum();
            for s in scores.iter_mut() {
                *s = (*s - largest).exp() * (1.0 / sum);
            }
            for (j, v) in vals.iter().enumerate() {
                for d in 0..2 {
                    heads[2 * h + d] += scores[j] * v[d];
                }
            }
        }
        let expected = dense(&a.wo, &heads);
        for (x, y) in out.iter().zip(expected.iter()) {
            assert!((x - y).abs() < 1e-5);
        }
        assert_eq!(cache.len(), position + 1);
        assert_eq!(cache.get_k_slice(position, 0, 2), &keys[position][..]);
        assert_eq!(cache.get_v_slice(position, 0, 2), &vals[position][..]);
    }
}

#[test]
fn an_absent_bias_adds_nothing() {
    let n = numbers();
    let mut a = attention(2, 1);
    let rope = RoPE::new(&n, 2, 10000.0, 4);
    let x = vec![1.0f32, 2.0, -1.0, 0.5];
    a.bv = None;
    a.bk = None;
    assert!(a.is_consistent(4));
    let mut cache = KVCache::new(2, 4, 0.0);
    a.forward(&n, &cpu(), &x, 0, &rope, &mut cache);
    assert_eq!(cache.get_k_slice(0, 0, 2), &dense(&a.wk, &x)[..]);
    assert_eq!(cache.get_v_slice(0, 0, 2), &dense(&a.wv, &x)[..]);
    a.bv = Some(vec![0.0; 3]);
    assert!(!a.is_consistent(4));
}

#[test]
fn heads_share_key_value_heads_evenly() {
    let a = attention(6, 3);
    assert_eq!(a.n_rep(), 2);
    assert!(a.is_consistent(4));
    let b = attention(5, 3);
    assert_eq!(b.n_rep(), 1);
    assert!(!b.is_consistent(4));
}
