use gguf_infer::arith::{Numbers, Op};
use gguf_infer::generation::Generation;
use gguf_infer::gguf::{GgufDataType, Metadata, MetadataValue, TensorInfo};
use gguf_infer::layout::{
    can_read, feed_forward_warnings, locate_tensors, skip_warning, tensor_read,
};
use gguf_infer::loading::sizes_are_right;
use gguf_infer::model::{Model, ModelConfig};
use gguf_infer::projection::Projector;
use gguf_infer::quant::QuantizedMatrix;
use gguf_infer::run::RunError;
use gguf_infer::sampler::{Sampler, SamplerConfig, NEGATIVE_INFINITY, ONE};
use gguf_infer::tokenizer::Tokenizer;

fn calc(op: Op<f32>) -> f32 {
    match op {
        Op::Plus(a, b) => a + b,
        Op::Minus(a, b) => a - b,
        Op::Times(a, b) => a * b,
        Op::Over(a, b) => a / b,
        Op::Larger(a, b) => a.max(b),
        Op::Power(a, b) => a.powf(b),
        Op::Negative(a) => -a,
        Op::Exp(a) => a.exp(),
        Op::Root(a) => a.sqrt(),
        Op::Cosine(a) => a.cos(),
        Op::Sine(a) => a.sin(),
        Op::Count(n) => n as f32,
        Op::Whole(q) => q as f32,
        Op::Wide(bits) => f32::from_bits(bits),
        Op::Choice(x, a, b) => {
            if x >= 0.0 {
                a
            } else {
                b
            }
        }
    }
}

fn numbers() -> Numbers<f32, fn(Op<f32>) -> f32> {
    Numbers { zero: 0.0, one: 1.0, lowest: f32::NEG_INFINITY, calc }
}

fn calc_bits(op: Op<u32>) -> u32 {
    let f = f32::from_bits;
    let r = match op {
        Op::Plus(a, b) => calc(Op::Plus(f(a), f(b))),
        Op::Minus(a, b) => calc(Op::Minus(f(a), f(b))),
        Op::Times(a, b) => calc(Op::Times(f(a), f(b))),
        Op::Over(a, b) => calc(Op::Over(f(a), f(b))),
        Op::Larger(a, b) => calc(Op::Larger(f(a), f(b))),
        Op::Exp(a) => calc(Op::Exp(f(a))),
        _ => panic!("not asked for"),
    };
    r.to_bits()
}

fn ops() -> Numbers<u32, fn(Op<u32>) -> u32> {
    Numbers { zero: 0, one: ONE, lowest: NEGATIVE_INFINITY, calc: calc_bits }
}

type Gpu = fn(&QuantizedMatrix, &Vec<f32>) -> Option<Vec<f32>>;

fn cpu() -> Projector<Gpu> {
    Projector { gpu: None }
}

const DIM: usize = 4;
const HIDDEN: usize = 3;
const VOCAB: usize = 5;
const LAYERS: usize = 2;

fn weights(seed: usize, n: usize) -> Vec<f32> {
    (0..n).map(|i| ((i * 31 + seed * 17 + 7) % 23) as f32 / 16.0 - 0.6).collect()
}

fn names() -> Vec<(String, usize)> {
    let mut v = vec![
        (String::from("token_embd.weight"), VOCAB * DIM),
        (String::from("output_norm.weight"), DIM),
    ];
    for i in 0..LAYERS {
        for (suffix, n) in [
            ("attn_norm.weight", DIM),
            ("attn_q.weight", DIM * DIM),
            ("attn_k.weight", 2 * DIM),
            ("attn_v.weight", 2 * DIM),
            ("attn_output.weight", DIM * DIM),
            ("attn_q.bias", DIM),
            ("attn_k.bias", 2),
            ("attn_v.bias", 2),
            ("ffn_norm.weight", DIM),
            ("ffn_gate.weight", HIDDEN * DIM),
            ("ffn_up.weight", HIDDEN * DIM),
            ("ffn_down.weight", DIM * HIDDEN),
        ] {
            v.push((format!("blk.{}.{}", i, suffix), n));
        }
    }
    v
}

fn info(name: &str, n: usize, data_type: GgufDataType, offset: u64) -> TensorInfo {
    TensorInfo { name: String::from(name), n_dims: 1, dims: vec![n], data_type, offset }
}

fn tensors(with_head: bool) -> (Vec<TensorInfo>, Vec<Vec<u8>>) {
    let mut list = names();
    if with_head {
        list.push((String::from("output.weight"), VOCAB * DIM));
    }
    list.reverse();
    let mut infos = vec![info("unused", 32, GgufDataType::Q4_1, 0)];
    let mut raw = vec![Vec::new()];
    for (name, n) in &list {
        infos.push(info(name, *n, GgufDataType::F32, 0));
        raw.push(bytes_of(name, *n));
    }
    (infos, raw)
}

fn floats_of(name: &str, n: usize) -> Vec<f32> {
    weights(name.bytes().map(|b| b as usize).sum(), n)
}

fn bytes_of(name: &str, n: usize) -> Vec<u8> {
    let mut raw = Vec::new();
    for x in floats_of(name, n) {
        raw.extend_from_slice(&x.to_le_bytes());
    }
    raw
}

fn config() -> ModelConfig {
    ModelConfig {
        embed_dim: DIM,
        n_layers: LAYERS,
        n_heads: 2,
        n_kv_heads: 1,
        hidden_dim: HIDDEN,
        vocab_size: VOCAB,
        max_seq_len: 8,
        rope_base: 10000.0f32.to_bits(),
        norm_eps: 1e-5f32.to_bits(),
        architecture: String::from("llama"),
    }
}

fn tokenizer() -> Tokenizer {
    let texts = ["a", "b", "c", "d", "e"];
    let mut m = Metadata::new();
    m.insert(
        String::from("tokenizer.ggml.tokens"),
        MetadataValue::Array(
            texts.iter().map(|t| MetadataValue::String(String::from(*t))).collect(),
        ),
    );
    Tokenizer::from_gguf_metadata(&m)
}

fn load(with_head: bool) -> Model<f32> {
    let (infos, raw) = tensors(with_head);
    match Model::load(&numbers(), config(), tokenizer(), &infos, raw) {
        Ok(m) => m,
        Err(e) => panic!("{}", e.message()),
    }
}

fn product(name: &str, rows: usize, cols: usize, x: &[f32]) -> Vec<f32> {
    let w = floats_of(name, rows * cols);
    (0..rows)
        .map(|r| {
            let mut sum = 0.0f32;
            for c in 0..cols {
                sum += w[r * cols + c] * x[c];
            }
            sum
        })
        .collect()
}

fn normed(name: &str, x: &[f32]) -> Vec<f32> {
    let w = floats_of(name, x.len());
    let mut ss = 0.0f32;
    for v in x {
        ss += v * v;
    }
    let s = 1.0 / (ss / x.len() as f32 + 1e-5).sqrt();
    x.iter().zip(w.iter()).map(|(v, w)| v * s * w).collect()
}

fn plus(a: &[f32], b: &[f32]) -> Vec<f32> {
    a.iter().zip(b.iter()).map(|(x, y)| x + y).collect()
}

fn turned(x: &[f32], position: usize) -> Vec<f32> {
    let mut y = x.to_vec();
    for pair in y.chunks_mut(2) {
        let (c, s) = ((position as f32).cos(), (position as f32).sin());
        let (a, b) = (pair[0], pair[1]);
        pair[0] = a * c - b * s;
        pair[1] = a * s + b * c;
    }
    y
}

fn reference(tokens: &[usize], head: &str) -> Vec<f32> {
    reference_with(tokens, head, true)
}

fn reference_with(tokens: &[usize], head: &str, biased: bool) -> Vec<f32> {
    let embd = floats_of("token_embd.weight", VOCAB * DIM);
    let mut keys: Vec<Vec<Vec<f32>>> = vec![Vec::new(); LAYERS];
    let mut vals: Vec<Vec<Vec<f32>>> = vec![Vec::new(); LAYERS];
    let mut logits = vec![0.0; VOCAB];
    for (position, &t) in tokens.iter().enumerate() {
        let mut h = embd[t * DIM..(t + 1) * DIM].to_vec();
        for i in 0..LAYERS {
            let at = |s: &str| format!("blk.{}.{}", i, s);
            let x = normed(&at("attn_norm.weight"), &h);
            let through = |s: &str, rows: usize| {
                let y = product(&at(&format!("{}.weight", s)), rows, DIM, &x);
                if biased {
                    plus(&y, &floats_of(&at(&format!("{}.bias", s)), rows))
                } else {
                    y
                }
            };
            let q = through("attn_q", DIM);
            let k = through("attn_k", 2);
            let v = through("attn_v", 2);
            let q = turned(&q, position);
            keys[i].push(turned(&k, position));
            vals[i].push(v);
            let mut heads = vec![0.0f32; DIM];
            for hd in 0..2 {
                let scale = 1.0 / 2.0f32.sqrt();
                let scores: Vec<f32> = keys[i]
                    .iter()
                    .map(|k| (q[2 * hd] * k[0] + q[2 * hd + 1] * k[1]) * scale)
                    .collect();
                let largest = scores.iter().cloned().fold(f32::NEG_INFINITY, f32::max);
                let e: Vec<f32> = scores.iter().map(|s| (s - largest).exp()).collect();
                let sum: f32 = e.iter().sum();
                for (p, v) in e.iter().zip(vals[i].iter()) {
                    for d in 0..2 {
                        heads[2 * hd + d] += p * (1.0 / sum) * v[d];
                    }
                }
            }
            h = plus(&h, &product(&at("attn_output.weight"), DIM, DIM, &heads));
            let y = normed(&at("ffn_norm.weight"), &h);
            let g = product(&at("ffn_gate.weight"), HIDDEN, DIM, &y);
            let u = product(&at("ffn_up.weight"), HIDDEN, DIM, &y);
            let a: Vec<f32> =
                g.iter().zip(u.iter()).map(|(g, u)| g / (1.0 + (-g).exp()) * u).collect();
            h = plus(&h, &product(&at("ffn_down.weight"), DIM, HIDDEN, &a));
        }
        let y = normed("output_norm.weight", &h);
        logits = product(head, VOCAB, DIM, &y);
    }
    logits
}

fn close(a: &[f32], b: &[f32]) {
    assert_eq!(a.len(), b.len());
    for (x, y) in a.iter().zip(b.iter()) {
        assert!((x - y).abs() < 1e-4, "{:?} {:?}", a, b);
    }
}

fn metadata(entries: Vec<(&str, MetadataValue)>) -> Metadata {
    let mut m = Metadata::new();
    for (k, v) in entries {
        m.insert(String::from(k), v);
    }
    m
}

#[test]
fn a_configuration_is_read_from_metadata() {
    let m = metadata(vec![
        ("general.architecture", MetadataValue::String(String::from("qwen2"))),
        ("qwen2.embedding_length", MetadataValue::UInt32(896)),
        ("qwen2.block_count", MetadataValue::UInt64(24)),
        ("qwen2.attention.head_count", MetadataValue::UInt32(14)),
        ("qwen2.attention.head_count_kv", MetadataValue::UInt32(2)),
        ("qwen2.feed_forward_length", MetadataValue::UInt32(4864)),
        ("qwen2.context_length", MetadataValue::UInt32(4096)),
        ("qwen2.rope.freq_base", MetadataValue::Float32(500000.0f32.to_bits())),
        ("qwen2.attention.layer_norm_rms_epsilon", MetadataValue::Float32(1e-6f32.to_bits())),
    ]);
    let c = ModelConfig::from_metadata(&m);
    assert_eq!((c.embed_dim, c.n_layers, c.n_heads, c.n_kv_heads), (896, 24, 14, 2));
    assert_eq!((c.hidden_dim, c.vocab_size, c.max_seq_len), (4864, 151936, 4096));
    assert_eq!(f32::from_bits(c.rope_base), 500000.0);
    assert_eq!(f32::from_bits(c.norm_eps), 1e-6);
    assert_eq!(c.architecture, "qwen2");
    assert_eq!((c.head_dim(), c.kv_dim()), (64, 128));
}

#[test]
fn architectures_have_defaults() {
    let of = |name: &str| {
        let v = MetadataValue::String(String::from(name));
        ModelConfig::from_metadata(&metadata(vec![("general.architecture", v)]))
    };
    let q = of("qwen2");
    assert_eq!((q.embed_dim, q.n_layers, q.n_heads, q.hidden_dim), (3584, 28, 28, 18944));
    assert_eq!(f32::from_bits(q.rope_base), 1000000.0);
    let m = of("mistral");
    assert_eq!((m.embed_dim, m.n_layers, m.n_heads, m.hidden_dim), (4096, 32, 32, 14336));
    for name in ["llama", "gemma"] {
        let l = of(name);
        assert_eq!((l.embed_dim, l.n_layers, l.n_heads, l.hidden_dim), (4096, 32, 32, 11008));
        assert_eq!((l.n_kv_heads, l.vocab_size, l.max_seq_len), (32, 32000, 32768));
        assert_eq!(f32::from_bits(l.rope_base), 10000.0);
        assert_eq!(f32::from_bits(l.norm_eps), 1e-5);
    }
    assert_eq!(ModelConfig::from_metadata(&Metadata::new()).architecture, "llama");
}

#[test]
fn the_epsilon_has_two_keys() {
    let m = metadata(vec![(
        "llama.attention.layer_norm_epsilon",
        MetadataValue::Float64(0.25f64.to_bits()),
    )]);
    assert_eq!(f32::from_bits(ModelConfig::from_metadata(&m).norm_eps), 0.25);
    let m = metadata(vec![
        ("llama.attention.layer_norm_epsilon", MetadataValue::Float32(ONE)),
        ("llama.attention.layer_norm_rms_epsilon", MetadataValue::UInt8(1)),
    ]);
    assert_eq!(f32::from_bits(ModelConfig::from_metadata(&m).norm_eps), 1e-5);
    let m = metadata(vec![("llama.rope.freq_base", MetadataValue::Float32(0x8000_0000))]);
    assert_eq!(f32::from_bits(ModelConfig::from_metadata(&m).rope_base), 10000.0);
}

#[test]
fn the_context_length_can_be_overridden() {
    let mut c = config();
    c.override_max_seq_len(None);
    assert_eq!(c.max_seq_len, 8);
    c.override_max_seq_len(Some(3));
    assert_eq!(c.max_seq_len, 3);
}

#[test]
fn sizes_that_cannot_be_counted_are_noticed() {
    assert!(config().is_countable());
    assert!(!ModelConfig { n_heads: 0, ..config() }.is_countable());
    assert!(!ModelConfig { n_kv_heads: usize::MAX, ..config() }.is_countable());
    assert!(!ModelConfig { max_seq_len: usize::MAX, n_kv_heads: 4, ..config() }.is_countable());
    assert!(!ModelConfig { hidden_dim: usize::MAX, ..config() }.is_countable());
}

#[test]
fn tensors_are_read_at_their_offset() {
    let t = info("t", 40, GgufDataType::Q8_0, 160);
    assert!(can_read(&t));
    assert_eq!(tensor_read(&t), Some((160, 68)));
    assert_eq!(tensor_read(&info("t", 3, GgufDataType::F16, 96)), Some((96, 6)));
    assert_eq!(tensor_read(&info("t", 3, GgufDataType::Q5_1, 96)), None);
}

#[test]
fn tensors_that_cannot_be_counted_are_noticed() {
    assert!(!can_read(&info("t", usize::MAX, GgufDataType::F32, 0)));
    assert!(!can_read(&info("t", usize::MAX / 4 + 1, GgufDataType::F32, 0)));
    assert!(can_read(&info("t", 1, GgufDataType::F32, u64::MAX)));
    assert!(can_read(&info("t", usize::MAX, GgufDataType::Q4_1, u64::MAX)));
    let mut t = info("t", 1, GgufDataType::F32, 0);
    t.dims = vec![usize::MAX, 2];
    assert!(!can_read(&t));
}

#[test]
fn passed_over_tensors_are_reported() {
    assert_eq!(
        skip_warning(&info("blk.0.x", 1, GgufDataType::Q3_K, 0)),
        "  WARNING: Unsupported type Q3_K for tensor 'blk.0.x', skipping"
    );
}

#[test]
fn tensors_are_located_by_name() {
    let (infos, _) = tensors(true);
    let l = locate_tensors(&infos, LAYERS).unwrap();
    assert_eq!(infos[l.token_embd].name, "token_embd.weight");
    assert_eq!(infos[l.output_norm].name, "output_norm.weight");
    assert_eq!(infos[l.lm_head].name, "output.weight");
    assert_eq!(l.layers.len(), LAYERS);
    for (i, p) in l.layers.iter().enumerate() {
        let name = |k: usize| infos[k].name.as_str();
        assert_eq!(name(p.attn_norm), format!("blk.{}.attn_norm.weight", i));
        assert_eq!(name(p.attn_q), format!("blk.{}.attn_q.weight", i));
        assert_eq!(name(p.attn_k), format!("blk.{}.attn_k.weight", i));
        assert_eq!(name(p.attn_v), format!("blk.{}.attn_v.weight", i));
        assert_eq!(name(p.attn_output), format!("blk.{}.attn_output.weight", i));
        assert_eq!(name(p.attn_q_bias.unwrap()), format!("blk.{}.attn_q.bias", i));
        assert_eq!(name(p.attn_k_bias.unwrap()), format!("blk.{}.attn_k.bias", i));
        assert_eq!(name(p.attn_v_bias.unwrap()), format!("blk.{}.attn_v.bias", i));
        assert_eq!(name(p.ffn_norm), format!("blk.{}.ffn_norm.weight", i));
        assert_eq!(name(p.ffn_gate), format!("blk.{}.ffn_gate.weight", i));
        assert_eq!(name(p.ffn_up), format!("blk.{}.ffn_up.weight", i));
        assert_eq!(name(p.ffn_down), format!("blk.{}.ffn_down.weight", i));
    }
}

#[test]
fn places_of_tensors_are_distinct() {
    let (infos, _) = tensors(true);
    let l = locate_tensors(&infos, LAYERS).unwrap();
    let mut seen = vec![l.token_embd, l.output_norm, l.lm_head];
    for p in &l.layers {
        for k in [
            p.attn_norm,
            p.attn_q,
            p.attn_k,
            p.attn_v,
            p.attn_output,
            p.attn_q_bias.unwrap(),
            p.attn_k_bias.unwrap(),
            p.attn_v_bias.unwrap(),
            p.ffn_norm,
            p.ffn_gate,
            p.ffn_up,
            p.ffn_down,
        ] {
            assert!(!seen.contains(&k));
            seen.push(k);
        }
    }
}

#[test]
fn the_last_tensor_of_a_name_counts() {
    let (mut infos, _) = tensors(false);
    infos.push(info("output_norm.weight", DIM, GgufDataType::F32, 9));
    infos.push(info("output_norm.weight", DIM, GgufDataType::Q2_K, 9));
    let l = locate_tensors(&infos, LAYERS).unwrap();
    assert_eq!(l.output_norm, infos.len() - 2);
    assert_eq!(l.lm_head, l.token_embd);
}

#[test]
fn each_missing_tensor_is_named() {
    let (infos, _) = tensors(false);
    for (name, _) in names() {
        let mut less: Vec<TensorInfo> = infos.clone();
        less.retain(|t| t.name != name);
        let r = locate_tensors(&less, LAYERS);
        if name.ends_with(".bias") {
            assert!(r.is_ok());
        } else {
            assert_eq!(r.err().unwrap().message(), format!("Missing {}", name));
        }
    }
    let e = locate_tensors(&infos, LAYERS + 1).err().unwrap();
    assert_eq!(e.message(), "Missing blk.2.attn_norm.weight");
}

#[test]
fn the_first_missing_tensor_is_reported() {
    let e = locate_tensors(&Vec::new(), LAYERS).err().unwrap();
    assert_eq!(e.message(), "Missing token_embd.weight");
    let only = vec![info("token_embd.weight", VOCAB * DIM, GgufDataType::F32, 0)];
    let e = locate_tensors(&only, LAYERS).err().unwrap();
    assert_eq!(e.message(), "Missing output_norm.weight");
}

#[test]
fn feed_forward_tensors_are_held_against_the_configuration() {
    let c = config();
    assert_eq!(feed_forward_warnings(&c, 0, 12, 12, 12), (None, None, None));
    let (g, u, d) = feed_forward_warnings(&c, 7, 11, 12, 13);
    let text = "  WARNING: blk.7.ffn_gate.weight: expected 12 elements, got 11";
    assert_eq!(g, Some(String::from(text)));
    assert_eq!(u, None);
    let text = "  WARNING: blk.7.ffn_down.weight: expected 12 elements, got 13";
    assert_eq!(d, Some(String::from(text)));
}

#[test]
fn matching_sizes_make_a_model_that_runs() {
    let (infos, _) = tensors(false);
    let l = locate_tensors(&infos, LAYERS).unwrap();
    assert!(sizes_are_right(&config(), &infos, &l));
    let m = load(false);
    let caches = m.new_caches(0.0);
    assert_eq!(caches.len(), LAYERS);
    assert_eq!((caches[0].kv_dim(), caches[0].max_len(), caches[0].len()), (2, 8, 0));
    assert!(m.is_ready(&caches));
    assert_eq!(m.config().vocab_size, VOCAB);
}

#[test]
fn other_sizes_are_noticed() {
    let (infos, raw) = tensors(false);
    let l = locate_tensors(&infos, LAYERS).unwrap();
    for c in [
        ModelConfig { vocab_size: VOCAB + 1, ..config() },
        ModelConfig { hidden_dim: HIDDEN + 1, ..config() },
        ModelConfig { n_kv_heads: 2, ..config() },
        ModelConfig { embed_dim: DIM + 2, ..config() },
    ] {
        assert!(!sizes_are_right(&c, &infos, &l));
        let m = Model::load(&numbers(), c, tokenizer(), &infos, raw.clone());
        let m = m.ok().unwrap();
        assert!(!m.is_ready(&m.new_caches(0.0)));
    }
}

#[test]
fn a_model_that_misses_a_tensor_is_not_loaded() {
    let (mut infos, mut raw) = tensors(false);
    infos.pop();
    raw.pop();
    let e = Model::load(&numbers(), config(), tokenizer(), &infos, raw).err().unwrap();
    assert_eq!(e.message(), "Missing token_embd.weight");
}

#[test]
fn bytes_end_up_in_the_matrices() {
    let m = load(true);
    assert_eq!(m.transformer.token_embd.data, bytes_of("token_embd.weight", VOCAB * DIM));
    assert_eq!(m.transformer.lm_head.data, bytes_of("output.weight", VOCAB * DIM));
    assert_eq!((m.transformer.lm_head.rows, m.transformer.lm_head.cols), (VOCAB, DIM));
    let layer = &m.transformer.layers[1];
    assert_eq!(layer.attention.wk.data, bytes_of("blk.1.attn_k.weight", 2 * DIM));
    assert_eq!(layer.attention.bv, Some(floats_of("blk.1.attn_v.bias", 2)));
    assert_eq!(layer.mlp.down_proj.data, bytes_of("blk.1.ffn_down.weight", DIM * HIDDEN));
    assert_eq!(layer.ffn_norm.weight, floats_of("blk.1.ffn_norm.weight", DIM));
    assert_eq!(layer.ffn_norm.eps, 1e-5);
    assert_eq!(m.transformer.final_norm.weight, floats_of("output_norm.weight", DIM));
    let tied = load(false);
    assert_eq!(tied.transformer.lm_head.data, bytes_of("token_embd.weight", VOCAB * DIM));
}

#[test]
fn a_prompt_runs_through_the_model() {
    for (with_head, head) in [(true, "output.weight"), (false, "token_embd.weight")] {
        let m = load(with_head);
        let mut caches = m.new_caches(0.0);
        let tokens = [3usize, 0, 4, 1];
        let logits = m.prefill(&numbers(), &cpu(), &tokens, &mut caches);
        close(&logits, &reference(&tokens, head));
        for c in &caches {
            assert_eq!(c.len(), 4);
        }
    }
}

#[test]
fn a_model_without_biases_runs() {
    let (infos, raw) = tensors(true);
    let (mut less, mut bytes) = (Vec::new(), Vec::new());
    for (t, r) in infos.into_iter().zip(raw) {
        if !t.name.ends_with(".bias") {
            less.push(t);
            bytes.push(r);
        }
    }
    let l = locate_tensors(&less, LAYERS).unwrap();
    assert!(sizes_are_right(&config(), &less, &l));
    for p in &l.layers {
        assert_eq!((p.attn_q_bias, p.attn_k_bias, p.attn_v_bias), (None, None, None));
    }
    let m = Model::load(&numbers(), config(), tokenizer(), &less, bytes).ok().unwrap();
    assert_eq!(m.transformer.layers[0].attention.bq, None);
    let mut caches = m.new_caches(0.0);
    assert!(m.is_ready(&caches));
    let tokens = [3usize, 0, 4, 1];
    let logits = m.prefill(&numbers(), &cpu(), &tokens, &mut caches);
    close(&logits, &reference_with(&tokens, "output.weight", false));
}

#[test]
fn a_bias_of_another_size_is_noticed() {
    let (mut infos, mut raw) = tensors(false);
    let at = infos.iter().position(|t| t.name == "blk.1.attn_k.bias").unwrap();
    infos[at] = info("blk.1.attn_k.bias", 3, GgufDataType::F32, 0);
    raw[at] = bytes_of("blk.1.attn_k.bias", 3);
    let l = locate_tensors(&infos, LAYERS).unwrap();
    assert!(!sizes_are_right(&config(), &infos, &l));
    let m = Model::load(&numbers(), config(), tokenizer(), &infos, raw).ok().unwrap();
    assert!(!m.is_ready(&m.new_caches(0.0)));
}

#[test]
fn fresh_caches_are_zero() {
    let m = load(true);
    let zeros = format!("{:?}", vec![0.0f32; 16]);
    for c in &m.new_caches(0.0) {
        let shown = format!("{:?}", c);
        assert!(shown.contains(&format!("keys: {}, values: {}", zeros, zeros)));
        assert!(c.is_empty());
    }
}

fn standard(seed: u64) -> SamplerConfig {
    SamplerConfig { seed, ..SamplerConfig::default() }
}

fn generated(
    m: &Model<f32>,
    prompt: &str,
    max_tokens: usize,
    seed: u64,
) -> (Result<String, RunError>, String) {
    let emit = |out: String, text: &str| out + text;
    let bits = |x: f32| x.to_bits();
    let (out, r) = m.generate(
        &numbers(),
        &cpu(),
        &ops(),
        &bits,
        &emit,
        prompt,
        max_tokens,
        standard(seed),
        String::new(),
    );
    (r, out)
}

#[test]
fn generations_are_reproducible() {
    let m = load(true);
    for seed in [0u64, 1, 42, 7777] {
        let (r, out) = generated(&m, "ab", 5, seed);
        let text = r.unwrap();
        assert_eq!(text.len(), 5);
        assert_eq!(text, out);
        assert_eq!(generated(&m, "ab", 5, seed), (Ok(text), out));
    }
}

#[test]
fn rounds_make_up_a_generation() {
    let m = load(true);
    let bits = |x: f32| x.to_bits();
    let mut caches = m.new_caches(0.0);
    let mut g = Generation::start(&m.tokenizer, "ab", 5);
    let mut sampler = Sampler::new(standard(42));
    let mut logits = m.prefill(&numbers(), &cpu(), g.tokens(), &mut caches);
    let mut by_hand = caches.clone();
    let mut h = Generation::start(&m.tokenizer, "ab", 5);
    let mut s = Sampler::new(standard(42));
    let mut l = logits.clone();
    while !g.finished() {
        let (out, r) = m.step(
            &numbers(),
            &cpu(),
            &ops(),
            &bits,
            &|out: Vec<String>, text: &str| [out, vec![String::from(text)]].concat(),
            &mut logits,
            &mut sampler,
            &mut g,
            &mut caches,
            vec![String::from("before")],
        );
        assert_eq!(r, Ok(()));
        let piece = m.next_token(&ops(), &bits, &l, &mut s, &mut h).unwrap();
        assert_eq!(out, vec![String::from("before"), piece]);
        l = m.feed(&numbers(), &cpu(), &h, &mut by_hand);
        assert_eq!(logits, l);
        assert_eq!(g.tokens(), h.tokens());
        assert_eq!(caches[1].all_keys(), by_hand[1].all_keys());
    }
    assert_eq!(generated(&m, "ab", 5, 42), (Ok(String::from(g.text())), String::from(h.text())));
}

#[test]
fn the_text_is_the_decoding_of_the_added_tokens() {
    let m = load(true);
    let mut g = Generation::start(&m.tokenizer, "ab", 3);
    for token in [4usize, 0, 2] {
        g.accept(&m.tokenizer, token);
    }
    assert_eq!(g.text(), m.tokenizer.decode(&g.tokens()[2..]));
    assert_eq!(g.text(), "eac");
}

#[test]
fn pieces_are_put_out_in_order_each_once() {
    let m = load(true);
    let bits = |x: f32| x.to_bits();
    let emit = |mut out: Vec<String>, text: &str| {
        out.push(String::from(text));
        out
    };
    let (out, r) = m.generate(
        &numbers(),
        &cpu(),
        &ops(),
        &bits,
        &emit,
        "ab",
        5,
        standard(42),
        Vec::new(),
    );
    assert_eq!(out.len(), 5);
    assert_eq!(out.concat(), r.unwrap());
}

#[test]
fn a_token_that_ends_the_sequence_puts_nothing_out() {
    let mut m = load(true);
    m.tokenizer.eos_token_id = Some(2);
    let mut caches = m.new_caches(0.0);
    let mut g = Generation::start(&m.tokenizer, "a", 4);
    let mut sampler = Sampler::new(SamplerConfig {
        temperature: 0,
        repetition_penalty: ONE,
        ..SamplerConfig::default()
    });
    let mut logits = vec![0.0, 1.0, 7.0, 2.0, 3.0];
    let (out, r) = m.step(
        &numbers(),
        &cpu(),
        &ops(),
        &|x: f32| x.to_bits(),
        &|n: usize, _: &str| n + 1,
        &mut logits,
        &mut sampler,
        &mut g,
        &mut caches,
        0usize,
    );
    assert_eq!((out, r), (0, Ok(())));
    assert!(g.finished());
    assert_eq!(g.text(), "");
}

#[test]
fn a_full_cache_breaks_a_generation_off() {
    let m = load(true);
    let (r, out) = generated(&m, "ab", 7, 1);
    assert_eq!(r, Err(RunError::CacheFull));
    assert_eq!(out.len(), 7);
    assert_eq!(RunError::CacheFull.message(), "KV cache overflow");
    assert_eq!(generated(&m, "ab", 6, 1).0.unwrap().len(), 6);
    assert_eq!(generated(&m, "abcdeabcd", 1, 1), (Err(RunError::CacheFull), String::new()));
    assert_eq!(generated(&m, "abcdeabc", 0, 1), (Ok(String::new()), String::new()));
}

#[test]
fn a_full_cache_does_not_matter_where_the_sequence_ends() {
    let mut m = load(true);
    let mut plain = load(true);
    plain.config.max_seq_len = 9;
    let next = generated(&plain, "abcdeabc", 1, 3).0.unwrap();
    m.tokenizer.eos_token_id = Some("abcde".find(&next).unwrap());
    assert_eq!(generated(&m, "abcdeabc", 1, 3), (Ok(String::new()), String::new()));
}

#[test]
fn a_token_without_an_embedding_breaks_a_generation_off() {
    let mut m = load(true);
    m.transformer.token_embd.rows = 1;
    assert_eq!(generated(&m, "ab", 1, 1), (Err(RunError::UnknownToken(1)), String::new()));
    assert_eq!(RunError::UnknownToken(1).message(), "token outside the embedding: 1");
    let (r, out) = generated(&m, "a", 6, 1);
    let token = "abcde".find(&out[out.len() - 1..]).unwrap();
    assert_eq!(r, Err(RunError::UnknownToken(token)));
}

#[test]
fn an_empty_prompt_leaves_zeros() {
    let m = load(true);
    let mut caches = m.new_caches(0.0);
    assert_eq!(m.prefill(&numbers(), &cpu(), &[], &mut caches), vec![0.0; VOCAB]);
    assert!(caches[0].is_empty());
}

#[test]
fn the_embedding_may_have_more_rows_than_the_head() {
    let (mut infos, mut raw) = tensors(true);
    let at = infos.iter().position(|t| t.name == "token_embd.weight").unwrap();
    infos[at].dims = vec![DIM, VOCAB + 2];
    raw[at] = bytes_of("token_embd.weight", (VOCAB + 2) * DIM);
    let m = Model::load(&numbers(), config(), tokenizer(), &infos, raw).ok().unwrap();
    assert_eq!(m.transformer.token_embd.rows, VOCAB + 2);
    let mut caches = m.new_caches(0.0);
    assert!(m.is_ready(&caches));
    let logits = m.prefill(&numbers(), &cpu(), &[VOCAB + 1], &mut caches);
    assert_eq!(logits.len(), VOCAB);
}

#[test]
fn tokens_are_generated_one_after_the_other() {
    let m = load(true);
    let mut caches = m.new_caches(0.0);
    let mut g = Generation::start(&m.tokenizer, "ab", 4);
    let mut sampler = Sampler::new(SamplerConfig {
        temperature: 0,
        repetition_penalty: ONE,
        ..SamplerConfig::default()
    });
    let mut logits = m.prefill(&numbers(), &cpu(), g.tokens(), &mut caches);
    let mut text = String::new();
    let mut tokens = vec![0usize, 1];
    while !g.finished() {
        let expected = reference(&tokens, "output.weight");
        let mut best = 0;
        for i in 0..VOCAB {
            if expected[i] > expected[best] {
                best = i;
            }
        }
        let piece = m.next_token(&ops(), &|x: f32| x.to_bits(), &logits, &mut sampler, &mut g).unwrap();
        assert_eq!(piece, ["a", "b", "c", "d", "e"][best]);
        text.push_str(&piece);
        tokens.push(best);
        assert_eq!(g.tokens(), &tokens[..]);
        logits = m.feed(&numbers(), &cpu(), &g, &mut caches);
        close(&logits, &reference(&tokens, "output.weight"));
    }
    assert_eq!(g.text(), text);
    assert_eq!(tokens.len(), 6);
    assert_eq!(caches[1].len(), 6);
}

#[test]
fn the_end_token_ends_a_generation() {
    let mut m = load(true);
    m.tokenizer.eos_token_id = Some(2);
    let mut g = Generation::start(&m.tokenizer, "a", 4);
    let mut sampler = Sampler::new(SamplerConfig {
        temperature: 0,
        repetition_penalty: ONE,
        ..SamplerConfig::default()
    });
    let logits = vec![0.0, 1.0, 7.0, 2.0, 3.0];
    let bits = |x: f32| x.to_bits();
    assert_eq!(m.next_token(&ops(), &bits, &logits, &mut sampler, &mut g), None);
    assert!(g.finished());
    assert_eq!(g.tokens(), &[0]);
}
