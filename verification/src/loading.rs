//! Building a transformer from the bytes of a model's tensors.
//!
//! Matrices keep their quantized bytes. Norms and biases are small and are decoded.

use crate::arith::{Numbers, Op};
use crate::attention::{kv_head_of, law_heads_share_kv_heads_evenly, Attention};
use crate::gguf::{tensor_views, TensorInfo};
use crate::kv_cache::CacheView;
use crate::layout::{biases_located, countable, law_bias_places_are_distinct};
use crate::layout::{law_places_are_distinct, lays_out, lemma_places_of_layers};
use crate::layout::{LayerLayout, ModelLayout};
use crate::mlp::Mlp;
use crate::model::ModelConfig;
use crate::quant::{blocks_for, bytes_for, decodable, dequantize, flat_weight, QuantizedMatrix};
use crate::rmsnorm::RmsNorm;
use crate::rope::RopeView;
use crate::tensor::product;
use crate::transformer::{Transformer, TransformerLayer};
use vstd::prelude::*;

verus! {

/// The bytes of a tensor's elements are all there.
pub open spec fn bytes_read(t: TensorInfo, bytes: Vec<u8>) -> bool {
    &&& countable(t)
    &&& decodable(t.data_type)
    &&& bytes_for(t.data_type, product(t.dims@)) <= bytes@.len()
}

/// A matrix that keeps the bytes of a tensor.
pub open spec fn is_matrix(
    m: QuantizedMatrix,
    t: TensorInfo,
    bytes: Vec<u8>,
    rows: int,
    cols: int,
) -> bool {
    m.data@ == bytes@ && m.dtype == t.data_type && m.rows == rows && m.cols == cols
}

/// The values of all elements of a tensor.
pub open spec fn are_values<T: Copy, F: Fn(Op<T>) -> T>(
    v: Seq<T>,
    n: Numbers<T, F>,
    t: TensorInfo,
    bytes: Vec<u8>,
) -> bool {
    &&& v.len() == product(t.dims@)
    &&& forall|i: int|
        0 <= i < v.len() ==> n.weighs(flat_weight(t.data_type, bytes@, i), #[trigger] v[i])
}

/// A normalization whose weights are the values of a tensor.
pub open spec fn is_norm<T: Copy, F: Fn(Op<T>) -> T>(
    norm: RmsNorm<T>,
    n: Numbers<T, F>,
    eps: T,
    t: TensorInfo,
    bytes: Vec<u8>,
) -> bool {
    norm.eps == eps && are_values(norm.weight@, n, t, bytes)
}

/// A bias whose values are those of the tensor at its place; none where it has no place.
pub open spec fn is_bias<T: Copy, F: Fn(Op<T>) -> T>(
    bias: Option<Vec<T>>,
    n: Numbers<T, F>,
    tensors: Seq<TensorInfo>,
    raw: Seq<Vec<u8>>,
    place: Option<usize>,
) -> bool {
    match (bias, place) {
        (Some(b), Some(i)) => are_values(b@, n, tensors[i as int], raw[i as int]),
        (None, None) => true,
        _ => false,
    }
}

/// An attention layer made of the tensors of a layer.
pub open spec fn is_attention<T: Copy, F: Fn(Op<T>) -> T>(
    a: Attention<T>,
    n: Numbers<T, F>,
    config: ModelConfig,
    tensors: Seq<TensorInfo>,
    raw: Seq<Vec<u8>>,
    l: LayerLayout,
) -> bool {
    let dim = config.embed_dim as int;
    let head_dim = config.embed_dim / config.n_heads;
    let q_dim = config.n_heads * head_dim;
    let kv_dim = config.n_kv_heads * head_dim;
    let p = l.parts();
    &&& a.n_heads == config.n_heads
    &&& a.n_kv_heads == config.n_kv_heads
    &&& a.head_dim == head_dim
    &&& a.n_rep == config.n_heads / config.n_kv_heads
    &&& is_matrix(a.wq, tensors[p[1]], raw[p[1]], q_dim, dim)
    &&& is_matrix(a.wk, tensors[p[2]], raw[p[2]], kv_dim, dim)
    &&& is_matrix(a.wv, tensors[p[3]], raw[p[3]], kv_dim, dim)
    &&& is_matrix(a.wo, tensors[p[4]], raw[p[4]], dim, q_dim)
    &&& is_bias(a.bq, n, tensors, raw, l.attn_q_bias)
    &&& is_bias(a.bk, n, tensors, raw, l.attn_k_bias)
    &&& is_bias(a.bv, n, tensors, raw, l.attn_v_bias)
}

/// A feed-forward network made of the tensors of a layer.
pub open spec fn is_mlp(
    m: Mlp,
    config: ModelConfig,
    tensors: Seq<TensorInfo>,
    raw: Seq<Vec<u8>>,
    l: LayerLayout,
) -> bool {
    let dim = config.embed_dim as int;
    let hidden = config.hidden_dim as int;
    let p = l.parts();
    &&& m.hidden_dim == hidden
    &&& m.embed_dim == dim
    &&& is_matrix(m.gate_proj, tensors[p[6]], raw[p[6]], hidden, dim)
    &&& is_matrix(m.up_proj, tensors[p[7]], raw[p[7]], hidden, dim)
    &&& is_matrix(m.down_proj, tensors[p[8]], raw[p[8]], dim, hidden)
}

/// A layer made of the tensors at its places.
pub open spec fn is_layer<T: Copy, F: Fn(Op<T>) -> T>(
    layer: TransformerLayer<T>,
    idx: int,
    n: Numbers<T, F>,
    config: ModelConfig,
    eps: T,
    tensors: Seq<TensorInfo>,
    raw: Seq<Vec<u8>>,
    l: LayerLayout,
) -> bool {
    let p = l.parts();
    &&& layer.layer_idx == idx
    &&& layer.attention.layer_idx == idx
    &&& is_norm(layer.attention_norm, n, eps, tensors[p[0]], raw[p[0]])
    &&& is_attention(layer.attention, n, config, tensors, raw, l)
    &&& is_norm(layer.ffn_norm, n, eps, tensors[p[5]], raw[p[5]])
    &&& is_mlp(layer.mlp, config, tensors, raw, l)
}

/// A transformer made of a file's tensors. The embedding has as many rows as its
/// tensor; the head has one for each token of the vocabulary.
pub open spec fn is_transformer<T: Copy, F: Fn(Op<T>) -> T>(
    t: Transformer<T>,
    n: Numbers<T, F>,
    config: ModelConfig,
    eps: T,
    tensors: Seq<TensorInfo>,
    raw: Seq<Vec<u8>>,
    layout: ModelLayout,
) -> bool {
    let dim = config.embed_dim as int;
    let (embd, norm, head) = (
        layout.token_embd as int,
        layout.output_norm as int,
        layout.lm_head as int,
    );
    &&& t.embed_dim == dim
    &&& t.vocab_size == config.vocab_size
    &&& t.max_seq_len == config.max_seq_len
    &&& is_matrix(
        t.token_embd,
        tensors[embd],
        raw[embd],
        product(tensors[embd].dims@) as int / dim,
        dim,
    )
    &&& is_norm(t.final_norm, n, eps, tensors[norm], raw[norm])
    &&& is_matrix(t.lm_head, tensors[head], raw[head], config.vocab_size as int, dim)
    &&& t.layers@.len() == layout.layers@.len()
    &&& forall|i: int|
        0 <= i < t.layers@.len() ==> is_layer(
            #[trigger] t.layers@[i],
            i,
            n,
            config,
            eps,
            tensors,
            raw,
            layout.layers@[i],
        )
}

fn take_bytes(raw: &mut Vec<Vec<u8>>, i: usize) -> (r: Vec<u8>)
    requires
        i < old(raw)@.len(),
    ensures
        r == old(raw)@[i as int],
        final(raw)@.len() == old(raw)@.len(),
        forall|j: int| 0 <= j < old(raw)@.len() && j != i ==> #[trigger] final(raw)@[j] == old(raw)@[j],
{
    let mut r: Vec<u8> = Vec::new();
    let place = &mut raw[i];
    std::mem::swap(&mut r, place);
    r
}

fn take_matrix(
    raw: &mut Vec<Vec<u8>>,
    tensors: &Vec<TensorInfo>,
    i: usize,
    rows: usize,
    cols: usize,
) -> (r: QuantizedMatrix)
    requires
        i < old(raw)@.len() == tensors@.len(),
    ensures
        is_matrix(r, tensors@[i as int], old(raw)@[i as int], rows as int, cols as int),
        final(raw)@.len() == old(raw)@.len(),
        forall|j: int| 0 <= j < old(raw)@.len() && j != i ==> #[trigger] final(raw)@[j] == old(raw)@[j],
{
    QuantizedMatrix::new(take_bytes(raw, i), tensors[i].data_type, rows, cols)
}

fn decode_values<T: Copy, F: Fn(Op<T>) -> T>(
    n: &Numbers<T, F>,
    raw: &Vec<Vec<u8>>,
    tensors: &Vec<TensorInfo>,
    i: usize,
) -> (r: Vec<T>)
    requires
        n.total(),
        i < raw@.len() == tensors@.len(),
        bytes_read(tensors@[i as int], raw@[i as int]),
    ensures
        are_values(r@, *n, tensors@[i as int], raw@[i as int]),
{
    let n_elements: usize = tensors[i].n_elements();
    let mut r: Vec<T> = Vec::new();
    match dequantize(raw[i].as_slice(), tensors[i].data_type, n_elements) {
        Ok(weights) => {
            let mut k: usize = 0;
            while k < weights.len()
                invariant
                    n.total(),
                    k <= weights@.len(),
                    r@.len() == k,
                    forall|j: int|
                        0 <= j < k ==> n.weighs(weights@[j], #[trigger] r@[j]),
                decreases weights@.len() - k,
            {
                r.push(n.weight_value(weights[k]));
                k += 1;
            }
        },
        Err(_) => {},
    }
    r
}

fn decode_bias<T: Copy, F: Fn(Op<T>) -> T>(
    n: &Numbers<T, F>,
    raw: &Vec<Vec<u8>>,
    tensors: &Vec<TensorInfo>,
    place: Option<usize>,
) -> (r: Option<Vec<T>>)
    requires
        n.total(),
        raw@.len() == tensors@.len(),
        place matches Some(i) ==> i < tensors@.len() && bytes_read(
            tensors@[i as int],
            raw@[i as int],
        ),
    ensures
        is_bias(r, *n, tensors@, raw@, place),
{
    match place {
        Some(i) => Some(decode_values(n, raw, tensors, i)),
        None => None,
    }
}

/// The places of a layer's tensors are different places below `n`.
pub open spec fn distinct_parts(l: LayerLayout, n: nat) -> bool {
    &&& forall|k: int| 0 <= k < 9 ==> 0 <= #[trigger] l.parts()[k] < n
    &&& forall|j: int, k: int|
        0 <= j < k < 9 ==> #[trigger] l.parts()[j] != #[trigger] l.parts()[k]
    &&& forall|k: int|
        0 <= k < 3 ==> (#[trigger] l.biases()[k] matches Some(b) ==> b < n && !l.parts().contains(
            b as int,
        ))
}

/// The bytes of the biases that a layer has are there.
pub open spec fn biases_read(
    l: LayerLayout,
    tensors: Seq<TensorInfo>,
    raw: Seq<Vec<u8>>,
) -> bool {
    forall|k: int|
        0 <= k < 3 ==> (#[trigger] l.biases()[k] matches Some(b) ==> bytes_read(
            tensors[b as int],
            raw[b as int],
        ))
}

/// The bytes of every tensor that can be decoded are there.
pub open spec fn all_read(tensors: Seq<TensorInfo>, raw: Seq<Vec<u8>>) -> bool {
    &&& raw.len() == tensors.len()
    &&& forall|i: int|
        0 <= i < tensors.len() && decodable((#[trigger] tensors[i]).data_type) ==> bytes_read(
            tensors[i],
            raw[i],
        )
}

/// Heads and rows of a model can be counted.
pub open spec fn heads_fit(config: ModelConfig) -> bool {
    &&& config.embed_dim > 0
    &&& config.n_heads > 0
    &&& config.n_kv_heads > 0
    &&& config.n_kv_heads * (config.embed_dim / config.n_heads) <= usize::MAX
}

proof fn lemma_query_rows(config: ModelConfig)
    requires
        config.n_heads > 0,
    ensures
        0 <= config.n_heads * (config.embed_dim / config.n_heads) <= config.embed_dim,
{
    let (e, h) = (config.embed_dim as int, config.n_heads as int);
    vstd::arithmetic::div_mod::lemma_fundamental_div_mod(e, h);
    vstd::arithmetic::div_mod::lemma_div_pos_is_pos(e, h);
    assert(h * (e / h) >= 0) by (nonlinear_arith)
        requires
            h > 0,
            e / h >= 0,
    ;
}

fn take_attention<T: Copy, F: Fn(Op<T>) -> T>(
    n: &Numbers<T, F>,
    config: &ModelConfig,
    tensors: &Vec<TensorInfo>,
    raw: &mut Vec<Vec<u8>>,
    l: &LayerLayout,
    idx: usize,
) -> (r: Attention<T>)
    requires
        n.total(),
        heads_fit(*config),
        old(raw)@.len() == tensors@.len(),
        distinct_parts(*l, tensors@.len()),
        biases_read(*l, tensors@, old(raw)@),
    ensures
        r.layer_idx == idx,
        is_attention(r, *n, *config, tensors@, old(raw)@, *l),
        final(raw)@.len() == old(raw)@.len(),
        forall|j: int|
            0 <= j < old(raw)@.len() && j != l.parts()[1] && j != l.parts()[2] && j != l.parts()[3]
                && j != l.parts()[4] ==> #[trigger] final(raw)@[j] == old(raw)@[j],
{
    let ghost p = l.parts();
    proof {
        assert(p[1] == l.attn_q && p[2] == l.attn_k && p[3] == l.attn_v && p[4] == l.attn_output);
        let b = l.biases();
        assert(b[0] == l.attn_q_bias && b[1] == l.attn_k_bias && b[2] == l.attn_v_bias);
        lemma_query_rows(*config);
    }
    let dim: usize = config.embed_dim;
    let head_dim: usize = config.head_dim();
    let q_dim: usize = config.n_heads * head_dim;
    let kv_dim: usize = config.kv_dim();
    let bq = decode_bias(n, raw, tensors, l.attn_q_bias);
    let bk = decode_bias(n, raw, tensors, l.attn_k_bias);
    let bv = decode_bias(n, raw, tensors, l.attn_v_bias);
    let wq = take_matrix(raw, tensors, l.attn_q, q_dim, dim);
    let wk = take_matrix(raw, tensors, l.attn_k, kv_dim, dim);
    let wv = take_matrix(raw, tensors, l.attn_v, kv_dim, dim);
    let wo = take_matrix(raw, tensors, l.attn_output, dim, q_dim);
    Attention::new(
        idx,
        config.n_heads,
        config.n_kv_heads,
        head_dim,
        wq,
        wk,
        wv,
        wo,
        bq,
        bk,
        bv,
    )
}

fn take_mlp(
    config: &ModelConfig,
    tensors: &Vec<TensorInfo>,
    raw: &mut Vec<Vec<u8>>,
    l: &LayerLayout,
) -> (r: Mlp)
    requires
        old(raw)@.len() == tensors@.len(),
        distinct_parts(*l, tensors@.len()),
    ensures
        is_mlp(r, *config, tensors@, old(raw)@, *l),
        final(raw)@.len() == old(raw)@.len(),
        forall|j: int|
            0 <= j < old(raw)@.len() && j != l.parts()[6] && j != l.parts()[7] && j
                != l.parts()[8] ==> #[trigger] final(raw)@[j] == old(raw)@[j],
{
    let ghost p = l.parts();
    assert(p[6] == l.ffn_gate && p[7] == l.ffn_up && p[8] == l.ffn_down);
    let gate_proj = take_matrix(raw, tensors, l.ffn_gate, config.hidden_dim, config.embed_dim);
    let up_proj = take_matrix(raw, tensors, l.ffn_up, config.hidden_dim, config.embed_dim);
    let down_proj = take_matrix(raw, tensors, l.ffn_down, config.embed_dim, config.hidden_dim);
    Mlp::new(gate_proj, up_proj, down_proj, config.hidden_dim, config.embed_dim)
}

fn take_layer<T: Copy, F: Fn(Op<T>) -> T>(
    n: &Numbers<T, F>,
    config: &ModelConfig,
    eps: T,
    tensors: &Vec<TensorInfo>,
    raw: &mut Vec<Vec<u8>>,
    l: &LayerLayout,
    idx: usize,
) -> (r: TransformerLayer<T>)
    requires
        n.total(),
        heads_fit(*config),
        old(raw)@.len() == tensors@.len(),
        distinct_parts(*l, tensors@.len()),
        forall|k: int|
            0 <= k < 9 ==> bytes_read(
                tensors@[#[trigger] l.parts()[k]],
                old(raw)@[l.parts()[k]],
            ),
        biases_read(*l, tensors@, old(raw)@),
    ensures
        is_layer(r, idx as int, *n, *config, eps, tensors@, old(raw)@, *l),
        final(raw)@.len() == old(raw)@.len(),
        forall|j: int|
            0 <= j < old(raw)@.len() && !l.parts().contains(j) ==> #[trigger] final(raw)@[j]
                == old(raw)@[j],
{
    let ghost p = l.parts();
    let ghost start = raw@;
    proof {
        assert(p[0] == l.attn_norm && p[5] == l.ffn_norm);
        assert(bytes_read(tensors@[p[0]], raw@[p[0]]) && bytes_read(tensors@[p[5]], raw@[p[5]]));
    }
    let attention_norm = RmsNorm::new(decode_values(n, raw, tensors, l.attn_norm), eps);
    let ffn_norm = RmsNorm::new(decode_values(n, raw, tensors, l.ffn_norm), eps);
    let attention = take_attention(n, config, tensors, raw, l, idx);
    let ghost mid = raw@;
    let mlp = take_mlp(config, tensors, raw, l);
    proof {
        assert(mid[p[6]] == start[p[6]] && mid[p[7]] == start[p[7]] && mid[p[8]]
            == start[p[8]]);
        assert forall|j: int| 0 <= j < start.len() && !p.contains(j) implies #[trigger] raw@[j]
            == start[j] by {
            assert(p.contains(p[1]) && p.contains(p[2]) && p.contains(p[3]) && p.contains(p[4]));
            assert(p.contains(p[6]) && p.contains(p[7]) && p.contains(p[8]));
        }
    }
    TransformerLayer { layer_idx: idx, attention_norm, attention, ffn_norm, mlp }
}

proof fn lemma_layer_parts(tensors: Seq<TensorInfo>, layout: ModelLayout, i: int)
    requires
        lays_out(layout, tensors, layout.layers@.len()),
        0 <= i < layout.layers@.len(),
    ensures
        distinct_parts(layout.layers@[i], tensors.len()),
        forall|k: int|
            0 <= k < 9 ==> decodable(tensors[#[trigger] layout.layers@[i].parts()[k]].data_type),
        !layout.layers@[i].parts().contains(layout.token_embd as int),
        !layout.layers@[i].parts().contains(layout.output_norm as int),
        !layout.layers@[i].parts().contains(layout.lm_head as int),
        forall|j: int, k: int|
            0 <= j < layout.layers@.len() && j != i && 0 <= k < 9
                ==> !layout.layers@[i].parts().contains(#[trigger] layout.layers@[j].parts()[k]),
        forall|j: int, k: int|
            0 <= j < layout.layers@.len() && 0 <= k < 3 ==> (
            #[trigger] layout.layers@[j].biases()[k] matches Some(b)
                ==> !layout.layers@[i].parts().contains(b as int)),
        forall|k: int|
            0 <= k < 3 ==> (#[trigger] layout.layers@[i].biases()[k] matches Some(b) ==> decodable(
                tensors[b as int].data_type,
            )),
{
    let n = layout.layers@.len();
    let v = layout.places(n);
    let p = layout.layers@[i].parts();
    law_places_are_distinct(tensor_views(tensors), 2 + 9 * n);
    lemma_places_of_layers(layout, n);
    assert forall|k: int| 0 <= k < 9 implies #[trigger] p[k] == v[2 + 9 * i + k] && 0 <= p[k]
        < tensors.len() && decodable(tensors[p[k]].data_type) by {
        assert(tensor_views(tensors)[v[2 + 9 * i + k]] == tensors[p[k]]@);
    }
    assert forall|j: int, k: int|
        0 <= j < layout.layers@.len() && j != i && 0 <= k < 9 implies !p.contains(
        #[trigger] layout.layers@[j].parts()[k],
    ) by {
        let q = layout.layers@[j].parts();
        if p.contains(q[k]) {
            let m = p.index_of(q[k]);
            assert(p[m] == v[2 + 9 * i + m] && q[k] == v[2 + 9 * j + k]);
            if i < j {
                assert(v[2 + 9 * i + m] != v[2 + 9 * j + k]);
            } else {
                assert(v[2 + 9 * j + k] != v[2 + 9 * i + m]);
            }
        }
    }
    assert forall|k: int| 0 <= k < 9 implies #[trigger] p[k] != layout.token_embd && p[k]
        != layout.output_norm && p[k] != layout.lm_head by {
        assert(v[0] != v[2 + 9 * i + k] && v[1] != v[2 + 9 * i + k]);
    }
    assert forall|j: int, k: int| 0 <= j < layout.layers@.len() && 0 <= k < 3 implies (
    #[trigger] layout.layers@[j].biases()[k] matches Some(b) ==> b < tensors.len() && decodable(
        tensors[b as int].data_type,
    ) && !p.contains(b as int)) by {
        assert(biases_located(layout.layers@[j], tensor_views(tensors), j as nat));
        law_bias_places_are_distinct(tensor_views(tensors), 2 + 9 * n, j as nat, 9 + k);
        if let Some(b) = layout.layers@[j].biases()[k] {
            assert(tensor_views(tensors)[b as int] == tensors[b as int]@);
            if p.contains(b as int) {
                let m = p.index_of(b as int);
                assert(p[m] == v[2 + 9 * i + m]);
            }
        }
    }
}

fn copy_bytes(bytes: &Vec<u8>) -> (r: Vec<u8>)
    ensures
        r@ == bytes@,
{
    let mut r: Vec<u8> = Vec::new();
    r.extend_from_slice(bytes.as_slice());
    assert(r@ =~= bytes@);
    r
}

proof fn lemma_same_layer<T: Copy, F: Fn(Op<T>) -> T>(
    layer: TransformerLayer<T>,
    idx: int,
    n: Numbers<T, F>,
    config: ModelConfig,
    eps: T,
    tensors: Seq<TensorInfo>,
    raw: Seq<Vec<u8>>,
    start: Seq<Vec<u8>>,
    l: LayerLayout,
)
    requires
        is_layer(layer, idx, n, config, eps, tensors, raw, l),
        forall|k: int| 0 <= k < 9 ==> raw[#[trigger] l.parts()[k]] == start[l.parts()[k]],
        forall|k: int|
            0 <= k < 3 ==> (#[trigger] l.biases()[k] matches Some(b) ==> raw[b as int]
                == start[b as int]),
    ensures
        is_layer(layer, idx, n, config, eps, tensors, start, l),
{
    let p = l.parts();
    assert(raw[p[0]] == start[p[0]] && raw[p[1]] == start[p[1]] && raw[p[2]] == start[p[2]]);
    assert(raw[p[3]] == start[p[3]] && raw[p[4]] == start[p[4]] && raw[p[5]] == start[p[5]]);
    assert(raw[p[6]] == start[p[6]] && raw[p[7]] == start[p[7]] && raw[p[8]] == start[p[8]]);
    let b = l.biases();
    assert(b[0] == l.attn_q_bias && b[1] == l.attn_k_bias && b[2] == l.attn_v_bias);
}

/// Builds a transformer from the bytes of a file's tensors, which end up in its
/// matrices
pub fn build_transformer<T: Copy, F: Fn(Op<T>) -> T>(
    n: &Numbers<T, F>,
    config: &ModelConfig,
    eps: T,
    tensors: &Vec<TensorInfo>,
    raw: Vec<Vec<u8>>,
    layout: &ModelLayout,
) -> (r: Transformer<T>)
    requires
        n.total(),
        heads_fit(*config),
        all_read(tensors@, raw@),
        lays_out(*layout, tensors@, layout.layers@.len()),
    ensures
        is_transformer(r, *n, *config, eps, tensors@, raw@, *layout),
{
    let mut raw = raw;
    let ghost start = raw@;
    let ghost count = layout.layers@.len();
    proof {
        law_places_are_distinct(tensor_views(tensors@), 2 + 9 * count);
        lemma_places_of_layers(*layout, count);
        let (a, b) = (layout.places(count)[0], layout.places(count)[1]);
        assert(a != b);
        assert(tensor_views(tensors@)[a] == tensors@[a]@);
        assert(tensor_views(tensors@)[b] == tensors@[b]@);
        assert(layout.lm_head != layout.token_embd ==> tensor_views(tensors@)[layout.lm_head as int]
            == tensors@[layout.lm_head as int]@);
    }
    let dim: usize = config.embed_dim;
    let mut layers: Vec<TransformerLayer<T>> = Vec::new();
    let mut i: usize = 0;
    while i < layout.layers.len()
        invariant
            i <= layout.layers@.len() == count,
            n.total(),
            heads_fit(*config),
            all_read(tensors@, start),
            lays_out(*layout, tensors@, count),
            raw@.len() == tensors@.len(),
            layers@.len() == i,
            layout.token_embd < tensors@.len(),
            layout.output_norm < tensors@.len(),
            layout.lm_head < tensors@.len(),
            raw@[layout.token_embd as int] == start[layout.token_embd as int],
            raw@[layout.output_norm as int] == start[layout.output_norm as int],
            raw@[layout.lm_head as int] == start[layout.lm_head as int],
            forall|j: int, k: int|
                i <= j < count && 0 <= k < 9 ==> raw@[#[trigger] layout.layers@[j].parts()[k]]
                    == start[layout.layers@[j].parts()[k]],
            forall|j: int, k: int|
                i <= j < count && 0 <= k < 3 ==> (#[trigger] layout.layers@[j].biases()[k] matches Some(
                    b,
                ) ==> raw@[b as int] == start[b as int]),
            forall|j: int|
                0 <= j < i ==> is_layer(
                    #[trigger] layers@[j],
                    j,
                    *n,
                    *config,
                    eps,
                    tensors@,
                    start,
                    layout.layers@[j],
                ),
        decreases count - i,
    {
        let ghost before = raw@;
        let ghost p = layout.layers@[i as int].parts();
        proof {
            lemma_layer_parts(tensors@, *layout, i as int);
            assert forall|k: int| 0 <= k < 9 implies bytes_read(
                tensors@[#[trigger] p[k]],
                raw@[p[k]],
            ) by {
                assert(raw@[p[k]] == start[p[k]]);
                assert(decodable(tensors@[p[k]].data_type));
            }
            let bs = layout.layers@[i as int].biases();
            assert forall|k: int| 0 <= k < 3 implies (#[trigger] bs[k] matches Some(b)
                ==> bytes_read(tensors@[b as int], raw@[b as int])) by {}
        }
        let layer = take_layer(n, config, eps, tensors, &mut raw, &layout.layers[i], i);
        proof {
            lemma_same_layer(
                layer,
                i as int,
                *n,
                *config,
                eps,
                tensors@,
                before,
                start,
                layout.layers@[i as int],
            );
            assert forall|j: int, k: int| i < j < count && 0 <= k < 9 implies raw@[
            #[trigger] layout.layers@[j].parts()[k]] == start[layout.layers@[j].parts()[k]] by {
                lemma_layer_parts(tensors@, *layout, j);
                assert(!p.contains(layout.layers@[j].parts()[k]));
                assert(before[layout.layers@[j].parts()[k]] == start[layout.layers@[j].parts()[k]]);
            }
            assert forall|j: int, k: int| i < j < count && 0 <= k < 3 implies (
            #[trigger] layout.layers@[j].biases()[k] matches Some(b) ==> raw@[b as int]
                == start[b as int]) by {
                lemma_layer_parts(tensors@, *layout, j);
            }
        }
        layers.push(layer);
        i += 1;
    }
    let final_norm = RmsNorm::new(decode_values(n, &raw, tensors, layout.output_norm), eps);
    let n_elements: usize = tensors[layout.token_embd].n_elements();
    let token_embd = take_matrix(&mut raw, tensors, layout.token_embd, n_elements / dim, dim);
    let lm_head = if layout.lm_head == layout.token_embd {
        QuantizedMatrix::new(
            copy_bytes(&token_embd.data),
            token_embd.dtype,
            config.vocab_size,
            dim,
        )
    } else {
        take_matrix(&mut raw, tensors, layout.lm_head, config.vocab_size, dim)
    };
    Transformer {
        token_embd,
        embed_dim: dim,
        vocab_size: config.vocab_size,
        layers,
        final_norm,
        lm_head,
        max_seq_len: config.max_seq_len,
    }
}

/// A bias, where it has a place, has `len` elements.
pub open spec fn bias_matches(tensors: Seq<TensorInfo>, place: Option<usize>, len: int) -> bool {
    place matches Some(i) ==> product(tensors[i as int].dims@) == len
}

/// A layer's tensors have as many elements as the configuration asks for.
pub open spec fn layer_sizes_match(
    config: ModelConfig,
    tensors: Seq<TensorInfo>,
    l: LayerLayout,
) -> bool {
    let dim = config.embed_dim as int;
    let hidden = config.hidden_dim as int;
    let head_dim = config.embed_dim / config.n_heads;
    let q_dim = config.n_heads * head_dim;
    let kv_dim = config.n_kv_heads * head_dim;
    let p = l.parts();
    &&& product(tensors[p[0]].dims@) == dim
    &&& product(tensors[p[1]].dims@) == q_dim * dim
    &&& product(tensors[p[2]].dims@) == kv_dim * dim
    &&& product(tensors[p[3]].dims@) == kv_dim * dim
    &&& product(tensors[p[4]].dims@) == dim * q_dim
    &&& bias_matches(tensors, l.attn_q_bias, q_dim)
    &&& bias_matches(tensors, l.attn_k_bias, kv_dim)
    &&& bias_matches(tensors, l.attn_v_bias, kv_dim)
    &&& product(tensors[p[5]].dims@) == dim
    &&& product(tensors[p[6]].dims@) == hidden * dim
    &&& product(tensors[p[7]].dims@) == hidden * dim
    &&& product(tensors[p[8]].dims@) == dim * hidden
}

/// The tensors of a model have as many elements as the configuration asks for. The
/// embedding may have any number of rows, and the final norm more elements.
pub open spec fn sizes_match(
    config: ModelConfig,
    tensors: Seq<TensorInfo>,
    layout: ModelLayout,
) -> bool {
    let dim = config.embed_dim as int;
    &&& dim <= product(tensors[layout.output_norm as int].dims@)
    &&& product(tensors[layout.lm_head as int].dims@) == config.vocab_size * dim
    &&& forall|i: int|
        0 <= i < layout.layers@.len() ==> layer_sizes_match(
            config,
            tensors,
            #[trigger] layout.layers@[i],
        )
}

fn has_elements(t: &TensorInfo, rows: usize, cols: usize) -> (r: bool)
    requires
        countable(*t),
    ensures
        r == (product(t.dims@) == rows * cols),
{
    proof {
        assert(rows * cols >= 0) by (nonlinear_arith);
        assert(t.dims@.take(t.dims@.len() as int) =~= t.dims@);
    }
    match rows.checked_mul(cols) {
        Some(n) => t.n_elements() == n,
        None => false,
    }
}

fn bias_is_right(tensors: &Vec<TensorInfo>, place: Option<usize>, len: usize) -> (r: bool)
    requires
        forall|i: int| 0 <= i < tensors@.len() ==> countable(#[trigger] tensors@[i]),
        place matches Some(i) ==> i < tensors@.len(),
    ensures
        r == bias_matches(tensors@, place, len as int),
{
    match place {
        Some(i) => has_elements(&tensors[i], len, 1),
        None => true,
    }
}

fn layer_is_right(config: &ModelConfig, tensors: &Vec<TensorInfo>, l: &LayerLayout) -> (r: bool)
    requires
        heads_fit(*config),
        forall|i: int| 0 <= i < tensors@.len() ==> countable(#[trigger] tensors@[i]),
        distinct_parts(*l, tensors@.len()),
    ensures
        r == layer_sizes_match(*config, tensors@, *l),
{
    proof {
        let p = l.parts();
        assert(p[0] == l.attn_norm && p[1] == l.attn_q && p[2] == l.attn_k && p[3] == l.attn_v);
        let b = l.biases();
        assert(b[0] == l.attn_q_bias && b[1] == l.attn_k_bias && b[2] == l.attn_v_bias);
        assert(p[4] == l.attn_output && p[5] == l.ffn_norm && p[6] == l.ffn_gate);
        assert(p[7] == l.ffn_up && p[8] == l.ffn_down);
        lemma_query_rows(*config);
    }
    let dim: usize = config.embed_dim;
    let hidden: usize = config.hidden_dim;
    let q_dim: usize = config.n_heads * config.head_dim();
    let kv_dim: usize = config.kv_dim();
    has_elements(&tensors[l.attn_norm], dim, 1) && has_elements(&tensors[l.attn_q], q_dim, dim)
        && has_elements(&tensors[l.attn_k], kv_dim, dim) && has_elements(
        &tensors[l.attn_v],
        kv_dim,
        dim,
    ) && has_elements(&tensors[l.attn_output], dim, q_dim) && bias_is_right(
        tensors,
        l.attn_q_bias,
        q_dim,
    ) && bias_is_right(tensors, l.attn_k_bias, kv_dim) && bias_is_right(
        tensors,
        l.attn_v_bias,
        kv_dim,
    ) && has_elements(&tensors[l.ffn_norm], dim, 1) && has_elements(
        &tensors[l.ffn_gate],
        hidden,
        dim,
    ) && has_elements(&tensors[l.ffn_up], hidden, dim) && has_elements(
        &tensors[l.ffn_down],
        dim,
        hidden,
    )
}

/// Whether the tensors of a model have as many elements as the configuration asks for
pub fn sizes_are_right(
    config: &ModelConfig,
    tensors: &Vec<TensorInfo>,
    layout: &ModelLayout,
) -> (r: bool)
    requires
        heads_fit(*config),
        forall|i: int| 0 <= i < tensors@.len() ==> countable(#[trigger] tensors@[i]),
        lays_out(*layout, tensors@, layout.layers@.len()),
    ensures
        r == sizes_match(*config, tensors@, *layout),
{
    let ghost n = layout.layers@.len();
    proof {
        law_places_are_distinct(tensor_views(tensors@), 2 + 9 * n);
        lemma_places_of_layers(*layout, n);
        let (a, b) = (layout.places(n)[0], layout.places(n)[1]);
        assert(0 <= a < tensors@.len() && 0 <= b < tensors@.len());
    }
    if tensors[layout.output_norm].n_elements() < config.embed_dim {
        return false;
    }
    if !has_elements(&tensors[layout.lm_head], config.vocab_size, config.embed_dim) {
        return false;
    }
    let mut i: usize = 0;
    while i < layout.layers.len()
        invariant
            i <= n == layout.layers@.len(),
            heads_fit(*config),
            forall|j: int| 0 <= j < tensors@.len() ==> countable(#[trigger] tensors@[j]),
            lays_out(*layout, tensors@, n),
            forall|j: int|
                0 <= j < i ==> layer_sizes_match(*config, tensors@, #[trigger] layout.layers@[j]),
        decreases n - i,
    {
        proof {
            lemma_layer_parts(tensors@, *layout, i as int);
        }
        if !layer_is_right(config, tensors, &layout.layers[i]) {
            assert(!layer_sizes_match(*config, tensors@, layout.layers@[i as int]));
            return false;
        }
        i += 1;
    }
    true
}

proof fn lemma_matrix_is_complete(
    m: QuantizedMatrix,
    t: TensorInfo,
    bytes: Vec<u8>,
    rows: int,
    cols: int,
)
    requires
        bytes_read(t, bytes),
        is_matrix(m, t, bytes, rows, cols),
        rows * cols <= product(t.dims@),
    ensures
        m.complete(),
{
    let (n, k) = (m.total(), product(t.dims@));
    let (len, width) = (t.data_type.block_len(), t.data_type.block_width());
    assert(n == rows * cols);
    vstd::arithmetic::div_mod::lemma_div_is_ordered(n + len - 1, k + len - 1, len as int);
    vstd::arithmetic::mul::lemma_mul_inequality(
        blocks_for(n, len) as int,
        blocks_for(k, len) as int,
        width as int,
    );
}

proof fn lemma_layer_is_ready<T: Copy, F: Fn(Op<T>) -> T>(
    layer: TransformerLayer<T>,
    idx: int,
    n: Numbers<T, F>,
    config: ModelConfig,
    eps: T,
    tensors: Seq<TensorInfo>,
    raw: Seq<Vec<u8>>,
    l: LayerLayout,
    table: RopeView<T>,
    cache: CacheView<T>,
)
    requires
        heads_fit(config),
        config.n_heads % config.n_kv_heads == 0,
        is_layer(layer, idx, n, config, eps, tensors, raw, l),
        layer_sizes_match(config, tensors, l),
        forall|k: int|
            0 <= k < 9 ==> bytes_read(tensors[#[trigger] l.parts()[k]], raw[l.parts()[k]]),
        table.wf(),
        2 * table.half_dim == config.embed_dim / config.n_heads,
        cache.wf(),
        cache.dim == config.n_kv_heads * (config.embed_dim / config.n_heads),
    ensures
        layer.fits(config.embed_dim as nat, table, cache),
        layer.complete(),
{
    let p = l.parts();
    let a = layer.attention;
    let m = layer.mlp;
    let dim = config.embed_dim as int;
    let hidden = config.hidden_dim as int;
    let head_dim = config.embed_dim / config.n_heads;
    let q_dim = config.n_heads * head_dim;
    let kv_dim = config.n_kv_heads * head_dim;
    lemma_matrix_is_complete(a.wq, tensors[p[1]], raw[p[1]], q_dim, dim);
    lemma_matrix_is_complete(a.wk, tensors[p[2]], raw[p[2]], kv_dim, dim);
    lemma_matrix_is_complete(a.wv, tensors[p[3]], raw[p[3]], kv_dim, dim);
    lemma_matrix_is_complete(a.wo, tensors[p[4]], raw[p[4]], dim, q_dim);
    lemma_matrix_is_complete(m.gate_proj, tensors[p[6]], raw[p[6]], hidden, dim);
    lemma_matrix_is_complete(m.up_proj, tensors[p[7]], raw[p[7]], hidden, dim);
    lemma_matrix_is_complete(m.down_proj, tensors[p[8]], raw[p[8]], dim, hidden);
    law_heads_share_kv_heads_evenly(config.n_heads as int, config.n_kv_heads as int, 0);
    assert forall|h: int| 0 <= h < a.n_heads implies 0 <= #[trigger] kv_head_of(h, a.n_rep as int)
        < a.n_kv_heads by {
        law_heads_share_kv_heads_evenly(config.n_heads as int, config.n_kv_heads as int, h);
    }
}

/// A file whose tensors have the sizes that its configuration asks for makes a model
/// that can run: all parts fit together, and all bytes are there. The heads divide
/// evenly among the key-value heads and have an even length.
pub proof fn law_matching_sizes_make_a_model_that_runs<T: Copy, F: Fn(Op<T>) -> T>(
    n: Numbers<T, F>,
    t: Transformer<T>,
    config: ModelConfig,
    eps: T,
    base: T,
    tensors: Seq<TensorInfo>,
    raw: Seq<Vec<u8>>,
    layout: ModelLayout,
    table: RopeView<T>,
    caches: Seq<CacheView<T>>,
)
    requires
        heads_fit(config),
        config.n_heads % config.n_kv_heads == 0,
        (config.embed_dim / config.n_heads) % 2 == 0,
        all_read(tensors, raw),
        lays_out(layout, tensors, config.n_layers as nat),
        sizes_match(config, tensors, layout),
        is_transformer(t, n, config, eps, tensors, raw, layout),
        n.tabulates(
            base,
            (config.embed_dim / config.n_heads) as int,
            config.max_seq_len as int,
            table,
        ),
        caches.len() == config.n_layers,
        forall|i: int|
            0 <= i < caches.len() ==> (#[trigger] caches[i]).wf() && caches[i].dim
                == config.n_kv_heads * (config.embed_dim / config.n_heads),
    ensures
        t.fits(table, caches),
        t.complete(),
{
    let k = layout.layers@.len();
    let dim = config.embed_dim as int;
    let (embd, norm, head) = (
        layout.token_embd as int,
        layout.output_norm as int,
        layout.lm_head as int,
    );
    law_places_are_distinct(tensor_views(tensors), 2 + 9 * k);
    lemma_places_of_layers(layout, k);
    let (a, b) = (layout.places(k)[0], layout.places(k)[1]);
    assert(a == embd && b == norm);
    assert(tensor_views(tensors)[embd] == tensors[embd]@);
    assert(tensor_views(tensors)[head] == tensors[head]@);
    let rows = product(tensors[embd].dims@) as int / dim;
    vstd::arithmetic::div_mod::lemma_fundamental_div_mod(product(tensors[embd].dims@) as int, dim);
    assert(rows * dim == dim * rows) by (nonlinear_arith);
    lemma_matrix_is_complete(t.token_embd, tensors[embd], raw[embd], rows, dim);
    lemma_matrix_is_complete(t.lm_head, tensors[head], raw[head], config.vocab_size as int, dim);
    assert forall|i: int| 0 <= i < t.layers@.len() implies (#[trigger] t.layers@[i]).fits(
        config.embed_dim as nat,
        table,
        caches[i],
    ) && t.layers@[i].complete() by {
        let l = layout.layers@[i];
        lemma_layer_parts(tensors, layout, i);
        assert forall|j: int| 0 <= j < 9 implies bytes_read(
            tensors[#[trigger] l.parts()[j]],
            raw[l.parts()[j]],
        ) by {
            assert(decodable(tensors[l.parts()[j]].data_type));
        }
        assert(layer_sizes_match(config, tensors, l));
        assert(caches[i].wf());
        lemma_layer_is_ready(
            t.layers@[i],
            i,
            n,
            config,
            eps,
            tensors,
            raw,
            l,
            table,
            caches[i],
        );
    }
}

} // verus!
