//! Which tensor of a file each part of a model comes from, by name.

use crate::arith::{Numbers, Op};
use crate::exact::Calculus;
use crate::gguf::{tensor_views, TensorInfo, TensorView};
use crate::layout::{
    is_place, layer_tensor_name, lays_out, lemma_located, lemma_places_of_layers,
    lemma_tensor_index, required_name, tensor_index, ModelLayout,
};
use crate::loading::{are_values, is_bias, is_layer, is_transformer};
use crate::model::{Model, ModelConfig};
use crate::quant::{decodable, QuantizedMatrix};
use crate::text::decimal;
use crate::transformer::Transformer;
use vstd::prelude::*;

verus! {

/// Tensor `p` is the last of a name that can be decoded.
pub open spec fn is_last(tensors: Seq<TensorInfo>, name: Seq<char>, p: int) -> bool {
    &&& 0 <= p < tensors.len()
    &&& tensors[p].name@ == name
    &&& decodable(tensors[p].data_type)
    &&& forall|q: int|
        p < q < tensors.len() && #[trigger] tensors[q].name@ == name ==> !decodable(
            tensors[q].data_type,
        )
}

/// The bytes of a matrix are those of the last tensor of a name that can be decoded.
pub open spec fn is_stored_as(
    m: QuantizedMatrix,
    tensors: Seq<TensorInfo>,
    raw: Seq<Vec<u8>>,
    name: Seq<char>,
) -> bool {
    exists|p: int| #[trigger]
        is_last(tensors, name, p) && m.dtype == tensors[p].data_type && m.data@ == raw[p]@
}

/// Numbers are the values of the last tensor of a name that can be decoded.
pub open spec fn are_stored_as<T: Copy, F: Fn(Op<T>) -> T>(
    v: Seq<T>,
    n: Numbers<T, F>,
    tensors: Seq<TensorInfo>,
    raw: Seq<Vec<u8>>,
    name: Seq<char>,
) -> bool {
    exists|p: int| #[trigger] is_last(tensors, name, p) && are_values(v, n, tensors[p], raw[p])
}

/// The name of a tensor of layer `i`.
pub open spec fn of_layer(i: nat, suffix: Seq<char>) -> Seq<char> {
    "blk."@ + decimal(i) + suffix
}

proof fn lemma_is_last(tensors: Seq<TensorInfo>, name: Seq<char>, p: int)
    requires
        tensor_index(tensor_views(tensors), name) == Some(p),
    ensures
        is_last(tensors, name, p),
{
    let v = tensor_views(tensors);
    lemma_tensor_index(v, name);
    assert(v[p] == tensors[p]@);
    assert forall|q: int| p < q < tensors.len() && #[trigger] tensors[q].name@ == name implies !decodable(
        tensors[q].data_type,
    ) by {
        assert(v[q] == tensors[q]@);
        if decodable(tensors[q].data_type) {
            lemma_found(v, name, q);
        }
    }
}

proof fn lemma_place(layout: ModelLayout, tensors: Seq<TensorInfo>, n_layers: nat, i: int, k: int)
    requires
        lays_out(layout, tensors, n_layers),
        0 <= i < n_layers,
        0 <= k < 9,
    ensures
        ({
            let p = layout.layers@[i].parts()[k];
            is_last(tensors, layer_tensor_name(i as nat, k), p)
        }),
{
    let v = tensor_views(tensors);
    lemma_places_of_layers(layout, n_layers);
    lemma_located(v, 2 + 9 * n_layers);
    let j = 2 + 9 * i + k;
    let p = layout.layers@[i].parts()[k];
    assert(layout.places(n_layers)[j] == p);
    assert((j - 2) / 9 == i && (j - 2) % 9 == k);
    assert(required_name(j) == layer_tensor_name(i as nat, k));
    assert(tensor_index(v, required_name(j)) == Some(p));
    lemma_is_last(tensors, required_name(j), p);
}

proof fn lemma_first_places(layout: ModelLayout, tensors: Seq<TensorInfo>, n_layers: nat)
    requires
        lays_out(layout, tensors, n_layers),
    ensures
        is_last(tensors, "token_embd.weight"@, layout.token_embd as int),
        is_last(tensors, "output_norm.weight"@, layout.output_norm as int),
{
    let v = tensor_views(tensors);
    lemma_places_of_layers(layout, n_layers);
    lemma_located(v, 2 + 9 * n_layers);
    assert(layout.places(n_layers)[0] == layout.token_embd);
    assert(layout.places(n_layers)[1] == layout.output_norm);
    assert(tensor_index(v, required_name(0)) == Some(layout.token_embd as int));
    assert(tensor_index(v, required_name(1)) == Some(layout.output_norm as int));
    lemma_is_last(tensors, required_name(0), layout.token_embd as int);
    lemma_is_last(tensors, required_name(1), layout.output_norm as int);
}

/// Each matrix and each norm of layer `i` comes from the tensor that has the number of the
/// layer and the name of the part.
pub proof fn law_layer_parts_come_from_their_tensors<T: Copy, F: Fn(Op<T>) -> T>(
    t: Transformer<T>,
    n: Numbers<T, F>,
    config: ModelConfig,
    eps: T,
    tensors: Seq<TensorInfo>,
    raw: Seq<Vec<u8>>,
    layout: ModelLayout,
    i: int,
)
    requires
        is_transformer(t, n, config, eps, tensors, raw, layout),
        lays_out(layout, tensors, t.layers@.len()),
        0 <= i < t.layers@.len(),
    ensures
        ({
            let l = t.layers@[i];
            let a = l.attention;
            let k = i as nat;
            &&& are_stored_as(
                l.attention_norm.weight@,
                n,
                tensors,
                raw,
                of_layer(k, ".attn_norm.weight"@),
            )
            &&& is_stored_as(a.wq, tensors, raw, of_layer(k, ".attn_q.weight"@))
            &&& is_stored_as(a.wk, tensors, raw, of_layer(k, ".attn_k.weight"@))
            &&& is_stored_as(a.wv, tensors, raw, of_layer(k, ".attn_v.weight"@))
            &&& is_stored_as(a.wo, tensors, raw, of_layer(k, ".attn_output.weight"@))
            &&& are_stored_as(l.ffn_norm.weight@, n, tensors, raw, of_layer(k, ".ffn_norm.weight"@))
            &&& is_stored_as(l.mlp.gate_proj, tensors, raw, of_layer(k, ".ffn_gate.weight"@))
            &&& is_stored_as(l.mlp.up_proj, tensors, raw, of_layer(k, ".ffn_up.weight"@))
            &&& is_stored_as(l.mlp.down_proj, tensors, raw, of_layer(k, ".ffn_down.weight"@))
        }),
{
    let n_layers = t.layers@.len();
    let p = layout.layers@[i].parts();
    assert(is_layer(t.layers@[i], i, n, config, eps, tensors, raw, layout.layers@[i]));
    assert forall|k: int| 0 <= k < 9 implies is_last(
        tensors,
        layer_tensor_name(i as nat, k),
        #[trigger] p[k],
    ) by {
        lemma_place(layout, tensors, n_layers, i, k);
    }
    assert(is_last(tensors, of_layer(i as nat, ".attn_norm.weight"@), p[0]));
    assert(is_last(tensors, of_layer(i as nat, ".attn_q.weight"@), p[1]));
    assert(is_last(tensors, of_layer(i as nat, ".attn_k.weight"@), p[2]));
    assert(is_last(tensors, of_layer(i as nat, ".attn_v.weight"@), p[3]));
    assert(is_last(tensors, of_layer(i as nat, ".attn_output.weight"@), p[4]));
    assert(is_last(tensors, of_layer(i as nat, ".ffn_norm.weight"@), p[5]));
    assert(is_last(tensors, of_layer(i as nat, ".ffn_gate.weight"@), p[6]));
    assert(is_last(tensors, of_layer(i as nat, ".ffn_up.weight"@), p[7]));
    assert(is_last(tensors, of_layer(i as nat, ".ffn_down.weight"@), p[8]));
}

/// A bias of layer `i` holds the values of the tensor that has the number of the layer and
/// the name of the bias; there is one just where there is such a tensor that can be
/// decoded.
pub proof fn law_biases_come_from_their_tensors<T: Copy, F: Fn(Op<T>) -> T>(
    t: Transformer<T>,
    n: Numbers<T, F>,
    config: ModelConfig,
    eps: T,
    tensors: Seq<TensorInfo>,
    raw: Seq<Vec<u8>>,
    layout: ModelLayout,
    i: int,
)
    requires
        is_transformer(t, n, config, eps, tensors, raw, layout),
        lays_out(layout, tensors, t.layers@.len()),
        0 <= i < t.layers@.len(),
    ensures
        ({
            let a = t.layers@[i].attention;
            let k = i as nat;
            &&& a.bq matches Some(b) ==> are_stored_as(
                b@,
                n,
                tensors,
                raw,
                of_layer(k, ".attn_q.bias"@),
            )
            &&& a.bk matches Some(b) ==> are_stored_as(
                b@,
                n,
                tensors,
                raw,
                of_layer(k, ".attn_k.bias"@),
            )
            &&& a.bv matches Some(b) ==> are_stored_as(
                b@,
                n,
                tensors,
                raw,
                of_layer(k, ".attn_v.bias"@),
            )
            &&& forall|p: int|
                0 <= p < tensors.len() && decodable(tensors[p].data_type) ==> {
                    &&& #[trigger] tensors[p].name@ == of_layer(k, ".attn_q.bias"@) ==> a.bq is Some
                    &&& tensors[p].name@ == of_layer(k, ".attn_k.bias"@) ==> a.bk is Some
                    &&& tensors[p].name@ == of_layer(k, ".attn_v.bias"@) ==> a.bv is Some
                }
        }),
{
    let v = tensor_views(tensors);
    let l = layout.layers@[i];
    let k = i as nat;
    let a = t.layers@[i].attention;
    assert(is_layer(t.layers@[i], i, n, config, eps, tensors, raw, l));
    assert(crate::layout::biases_located(l, v, k));
    assert(is_place(l.biases()[0], tensor_index(v, layer_tensor_name(k, 9))));
    assert(is_place(l.biases()[1], tensor_index(v, layer_tensor_name(k, 10))));
    assert(is_place(l.biases()[2], tensor_index(v, layer_tensor_name(k, 11))));
    lemma_bias(a.bq, n, tensors, raw, l.attn_q_bias, of_layer(k, ".attn_q.bias"@));
    lemma_bias(a.bk, n, tensors, raw, l.attn_k_bias, of_layer(k, ".attn_k.bias"@));
    lemma_bias(a.bv, n, tensors, raw, l.attn_v_bias, of_layer(k, ".attn_v.bias"@));
}

proof fn lemma_bias<T: Copy, F: Fn(Op<T>) -> T>(
    bias: Option<Vec<T>>,
    n: Numbers<T, F>,
    tensors: Seq<TensorInfo>,
    raw: Seq<Vec<u8>>,
    place: Option<usize>,
    name: Seq<char>,
)
    requires
        is_bias(bias, n, tensors, raw, place),
        is_place(place, tensor_index(tensor_views(tensors), name)),
    ensures
        bias matches Some(b) ==> are_stored_as(b@, n, tensors, raw, name),
        forall|p: int|
            0 <= p < tensors.len() && decodable(tensors[p].data_type)
                && #[trigger] tensors[p].name@ == name ==> bias is Some,
{
    let v = tensor_views(tensors);
    if let Some(i) = place {
        lemma_is_last(tensors, name, i as int);
    }
    assert forall|p: int|
        0 <= p < tensors.len() && decodable(tensors[p].data_type)
            && #[trigger] tensors[p].name@ == name implies bias is Some by {
        assert(v[p] == tensors[p]@);
        lemma_found(v, name, p);
    }
}

proof fn lemma_found(v: Seq<TensorView>, name: Seq<char>, p: int)
    requires
        0 <= p < v.len(),
        decodable(v[p].data_type),
        v[p].name == name,
    ensures
        tensor_index(v, name) matches Some(i) && p <= i,
    decreases v.len(),
{
    if p < v.len() - 1 {
        lemma_found(v.drop_last(), name, p);
    }
}

/// The embedding and the last norm come from the tensors of their names; the head comes
/// from its own tensor where the file has one, and else it is the embedding.
pub proof fn law_ends_come_from_their_tensors<T: Copy, F: Fn(Op<T>) -> T>(
    t: Transformer<T>,
    n: Numbers<T, F>,
    config: ModelConfig,
    eps: T,
    tensors: Seq<TensorInfo>,
    raw: Seq<Vec<u8>>,
    layout: ModelLayout,
)
    requires
        is_transformer(t, n, config, eps, tensors, raw, layout),
        lays_out(layout, tensors, t.layers@.len()),
    ensures
        is_stored_as(t.token_embd, tensors, raw, "token_embd.weight"@),
        are_stored_as(t.final_norm.weight@, n, tensors, raw, "output_norm.weight"@),
        (exists|p: int|
            0 <= p < tensors.len() && decodable(tensors[p].data_type)
                && #[trigger] tensors[p].name@ == "output.weight"@) ==> is_stored_as(
            t.lm_head,
            tensors,
            raw,
            "output.weight"@,
        ),
        !(exists|p: int|
            0 <= p < tensors.len() && decodable(tensors[p].data_type)
                && #[trigger] tensors[p].name@ == "output.weight"@) ==> is_stored_as(
            t.lm_head,
            tensors,
            raw,
            "token_embd.weight"@,
        ),
{
    let v = tensor_views(tensors);
    lemma_first_places(layout, tensors, t.layers@.len());
    let name = "output.weight"@;
    match tensor_index(v, name) {
        Some(i) => {
            lemma_is_last(tensors, name, i);
        },
        None => {
            assert forall|p: int|
                0 <= p < tensors.len() && decodable(
                    tensors[p].data_type,
                ) implies #[trigger] tensors[p].name@ != name by {
                assert(v[p] == tensors[p]@);
                if v[p].name == name {
                    lemma_found(v, name, p);
                }
            }
        },
    }
}

/// The sizes follow the configuration: the heads share the vector evenly, the queries are
/// as long as the heads together and the keys and values as long as the key-value heads
/// together, and each matrix takes what the one before it gives.
pub proof fn law_sizes_follow_the_configuration<T: Copy, F: Fn(Op<T>) -> T>(
    t: Transformer<T>,
    n: Numbers<T, F>,
    config: ModelConfig,
    eps: T,
    tensors: Seq<TensorInfo>,
    raw: Seq<Vec<u8>>,
    layout: ModelLayout,
    i: int,
)
    requires
        is_transformer(t, n, config, eps, tensors, raw, layout),
        0 <= i < t.layers@.len(),
        config.n_heads > 0,
        config.n_kv_heads > 0,
        config.embed_dim as int % config.n_heads as int == 0,
        config.n_heads as int % config.n_kv_heads as int == 0,
    ensures
        ({
            let l = t.layers@[i];
            let a = l.attention;
            &&& a.head_dim * config.n_heads == config.embed_dim
            &&& a.n_rep * config.n_kv_heads == config.n_heads
            &&& a.wq.rows == config.embed_dim && a.wq.cols == config.embed_dim
            &&& a.wk.rows == config.n_kv_heads * a.head_dim && a.wk.cols == config.embed_dim
            &&& a.wv.rows == config.n_kv_heads * a.head_dim && a.wv.cols == config.embed_dim
            &&& a.wo.rows == config.embed_dim && a.wo.cols == config.embed_dim
            &&& l.mlp.gate_proj.rows == config.hidden_dim && l.mlp.gate_proj.cols
                == config.embed_dim
            &&& l.mlp.up_proj.rows == config.hidden_dim && l.mlp.up_proj.cols == config.embed_dim
            &&& l.mlp.down_proj.rows == config.embed_dim && l.mlp.down_proj.cols
                == config.hidden_dim
            &&& t.lm_head.rows == config.vocab_size && t.lm_head.cols == config.embed_dim
            &&& t.token_embd.cols == config.embed_dim
            &&& l.attention_norm.eps == eps && l.ffn_norm.eps == eps && t.final_norm.eps == eps
        }),
{
    let (d, h, k) = (config.embed_dim as int, config.n_heads as int, config.n_kv_heads as int);
    assert(is_layer(t.layers@[i], i, n, config, eps, tensors, raw, layout.layers@[i]));
    vstd::arithmetic::div_mod::lemma_fundamental_div_mod(d, h);
    vstd::arithmetic::div_mod::lemma_fundamental_div_mod(h, k);
    assert(h * (d / h) == (d / h) * h) by (nonlinear_arith);
    assert(k * (h / k) == (h / k) * k) by (nonlinear_arith);
}

/// The numbers of the configuration are those that the model works with: the norms' epsilon
/// and the rotation's base are the numbers of the patterns, and the rotation is that of one
/// head, for all positions.
pub proof fn law_model_uses_its_configuration<T: Copy, F: Fn(Op<T>) -> T>(
    model: Model<T>,
    n: Numbers<T, F>,
    val: spec_fn(T) -> real,
    c: Calculus,
    tensors: Seq<TensorInfo>,
    raw: Seq<Vec<u8>>,
    layout: ModelLayout,
)
    requires
        n.exact(val, c),
        model.made_of(n, tensors, raw, layout),
        model.config.n_heads > 0,
        model.config.embed_dim as int % model.config.n_heads as int == 0,
    ensures
        val(model.transformer.final_norm.eps) == (c.wide)(model.config.norm_eps),
        forall|i: int|
            0 <= i < model.transformer.layers@.len() ==> {
                let l = #[trigger] model.transformer.layers@[i];
                &&& val(l.attention_norm.eps) == (c.wide)(model.config.norm_eps)
                &&& val(l.ffn_norm.eps) == (c.wide)(model.config.norm_eps)
            },
        val(model.rope@.base) == (c.wide)(model.config.rope_base),
        model.rope@.dim * model.config.n_heads == model.config.embed_dim,
        model.rope@.max_pos == model.config.max_seq_len,
{
    let config = model.config;
    let (eps, base) = choose|eps: T, base: T|
        {
            &&& #[trigger] n.gives(Op::Wide(config.norm_eps), eps)
            &&& #[trigger] n.gives(Op::Wide(config.rope_base), base)
            &&& is_transformer(model.transformer, n, config, eps, tensors, raw, layout)
            &&& n.tabulates(
                base,
                (config.embed_dim / config.n_heads) as int,
                config.max_seq_len as int,
                model.rope@,
            )
        };
    assert forall|i: int| 0 <= i < model.transformer.layers@.len() implies {
        let l = #[trigger] model.transformer.layers@[i];
        &&& val(l.attention_norm.eps) == (c.wide)(config.norm_eps)
        &&& val(l.ffn_norm.eps) == (c.wide)(config.norm_eps)
    } by {
        assert(is_layer(
            model.transformer.layers@[i],
            i,
            n,
            config,
            eps,
            tensors,
            raw,
            layout.layers@[i],
        ));
    }
    let (d, h) = (config.embed_dim as int, config.n_heads as int);
    vstd::arithmetic::div_mod::lemma_fundamental_div_mod(d, h);
    assert(h * (d / h) == (d / h) * h) by (nonlinear_arith);
}

} // verus!
