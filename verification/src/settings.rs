//! Where the settings of a model come from: which key of the metadata says what, and what
//! is used where it says nothing.

use crate::gguf::MetadataView;
use crate::model::{arch_key, ModelConfig};
use vstd::prelude::*;

verus! {

/// The architecture that the metadata names is `a`.
pub open spec fn names_architecture(m: Map<Seq<char>, MetadataView>, a: Seq<char>) -> bool {
    m.contains_key("general.architecture"@) && m["general.architecture"@] == MetadataView::String(a)
}

/// The count `n` stands under a key.
pub open spec fn counts(m: Map<Seq<char>, MetadataView>, key: Seq<char>, n: u32) -> bool {
    m.contains_key(key) && m[key] == MetadataView::UInt32(n)
}

proof fn lemma_key(a: Seq<char>, name: Seq<char>, key: Seq<char>)
    requires
        "."@ + name == key,
    ensures
        arch_key(a, name) == a + key,
{
    assert(a + "."@ + name =~= a + ("."@ + name));
}

proof fn lemma_size_keys(a: Seq<char>)
    ensures
        arch_key(a, "embedding_length"@) == a + ".embedding_length"@,
        arch_key(a, "block_count"@) == a + ".block_count"@,
        arch_key(a, "feed_forward_length"@) == a + ".feed_forward_length"@,
        arch_key(a, "vocab_size"@) == a + ".vocab_size"@,
        arch_key(a, "context_length"@) == a + ".context_length"@,
{
    reveal_strlit(".");
    reveal_strlit("embedding_length");
    reveal_strlit(".embedding_length");
    reveal_strlit("block_count");
    reveal_strlit(".block_count");
    reveal_strlit("feed_forward_length");
    reveal_strlit(".feed_forward_length");
    reveal_strlit("vocab_size");
    reveal_strlit(".vocab_size");
    reveal_strlit("context_length");
    reveal_strlit(".context_length");
    assert("."@ + "embedding_length"@ =~= ".embedding_length"@);
    assert("."@ + "block_count"@ =~= ".block_count"@);
    assert("."@ + "feed_forward_length"@ =~= ".feed_forward_length"@);
    assert("."@ + "vocab_size"@ =~= ".vocab_size"@);
    assert("."@ + "context_length"@ =~= ".context_length"@);
    lemma_key(a, "embedding_length"@, ".embedding_length"@);
    lemma_key(a, "block_count"@, ".block_count"@);
    lemma_key(a, "feed_forward_length"@, ".feed_forward_length"@);
    lemma_key(a, "vocab_size"@, ".vocab_size"@);
    lemma_key(a, "context_length"@, ".context_length"@);
}

proof fn lemma_attention_keys(a: Seq<char>)
    ensures
        arch_key(a, "attention.head_count"@) == a + ".attention.head_count"@,
        arch_key(a, "attention.head_count_kv"@) == a + ".attention.head_count_kv"@,
        arch_key(a, "attention.layer_norm_rms_epsilon"@) == a
            + ".attention.layer_norm_rms_epsilon"@,
        arch_key(a, "attention.layer_norm_epsilon"@) == a + ".attention.layer_norm_epsilon"@,
        arch_key(a, "rope.freq_base"@) == a + ".rope.freq_base"@,
{
    reveal_strlit(".");
    reveal_strlit("attention.head_count");
    reveal_strlit(".attention.head_count");
    reveal_strlit("attention.head_count_kv");
    reveal_strlit(".attention.head_count_kv");
    reveal_strlit("attention.layer_norm_rms_epsilon");
    reveal_strlit(".attention.layer_norm_rms_epsilon");
    reveal_strlit("attention.layer_norm_epsilon");
    reveal_strlit(".attention.layer_norm_epsilon");
    reveal_strlit("rope.freq_base");
    reveal_strlit(".rope.freq_base");
    assert("."@ + "attention.head_count"@ =~= ".attention.head_count"@);
    assert("."@ + "attention.head_count_kv"@ =~= ".attention.head_count_kv"@);
    assert("."@ + "attention.layer_norm_rms_epsilon"@ =~= ".attention.layer_norm_rms_epsilon"@);
    assert("."@ + "attention.layer_norm_epsilon"@ =~= ".attention.layer_norm_epsilon"@);
    assert("."@ + "rope.freq_base"@ =~= ".rope.freq_base"@);
    lemma_key(a, "attention.head_count"@, ".attention.head_count"@);
    lemma_key(a, "attention.head_count_kv"@, ".attention.head_count_kv"@);
    lemma_key(a, "attention.layer_norm_rms_epsilon"@, ".attention.layer_norm_rms_epsilon"@);
    lemma_key(a, "attention.layer_norm_epsilon"@, ".attention.layer_norm_epsilon"@);
    lemma_key(a, "rope.freq_base"@, ".rope.freq_base"@);
}

/// A count that the metadata gives under its key, behind the name of the architecture, is
/// the one that the model has.
pub proof fn law_counts_are_taken_from_their_keys(
    config: ModelConfig,
    m: Map<Seq<char>, MetadataView>,
    a: Seq<char>,
    n: u32,
)
    requires
        config.describes(m),
        names_architecture(m, a),
        n > 0,
    ensures
        config.architecture@ == a,
        counts(m, a + ".embedding_length"@, n) ==> config.embed_dim == n,
        counts(m, a + ".block_count"@, n) ==> config.n_layers == n,
        counts(m, a + ".attention.head_count"@, n) ==> config.n_heads == n,
        counts(m, a + ".attention.head_count_kv"@, n) ==> config.n_kv_heads == n,
        counts(m, a + ".feed_forward_length"@, n) ==> config.hidden_dim == n,
        counts(m, a + ".vocab_size"@, n) ==> config.vocab_size == n,
        counts(m, a + ".context_length"@, n) ==> config.max_seq_len == n,
{
    lemma_size_keys(a);
    lemma_attention_keys(a);
}

/// Without a number of key-value heads every head has its own.
pub proof fn law_heads_have_their_own_keys_by_default(
    config: ModelConfig,
    m: Map<Seq<char>, MetadataView>,
    a: Seq<char>,
)
    requires
        config.describes(m),
        names_architecture(m, a),
        !m.contains_key(a + ".attention.head_count_kv"@),
    ensures
        config.n_kv_heads == config.n_heads,
{
    lemma_attention_keys(a);
}

/// The base of the rotation and the norm's epsilon are the floats under their keys; the
/// epsilon has two keys, of which the first counts. A base of zero counts as none.
pub proof fn law_floats_are_taken_from_their_keys(
    config: ModelConfig,
    m: Map<Seq<char>, MetadataView>,
    a: Seq<char>,
    x: u32,
)
    requires
        config.describes(m),
        names_architecture(m, a),
    ensures
        m.contains_key(a + ".rope.freq_base"@) && m[a + ".rope.freq_base"@]
            == MetadataView::Float32(x) && x != 0 && x != 0x8000_0000 ==> config.rope_base == x,
        m.contains_key(a + ".attention.layer_norm_rms_epsilon"@) && m[a
            + ".attention.layer_norm_rms_epsilon"@] == MetadataView::Float32(x)
            ==> config.norm_eps == x,
        !m.contains_key(a + ".attention.layer_norm_rms_epsilon"@) && m.contains_key(
            a + ".attention.layer_norm_epsilon"@,
        ) && m[a + ".attention.layer_norm_epsilon"@] == MetadataView::Float32(x)
            ==> config.norm_eps == x,
{
    lemma_attention_keys(a);
}

/// What is missing comes from the architecture: those of Qwen2 and Mistral have sizes of
/// their own, and every other, named or not, has those of Llama. A file that names no
/// architecture is one of Llama.
pub proof fn law_missing_counts_are_the_architectures(
    config: ModelConfig,
    m: Map<Seq<char>, MetadataView>,
    a: Seq<char>,
)
    requires
        config.describes(m),
        names_architecture(m, a) || (!m.contains_key("general.architecture"@) && a == "llama"@),
    ensures
        config.architecture@ == a,
        !m.contains_key(a + ".embedding_length"@) ==> config.embed_dim == (if a == "qwen2"@ {
            3584int
        } else {
            4096
        }),
        !m.contains_key(a + ".block_count"@) ==> config.n_layers == (if a == "qwen2"@ {
            28int
        } else {
            32
        }),
        !m.contains_key(a + ".attention.head_count"@) ==> config.n_heads == (if a == "qwen2"@ {
            28int
        } else {
            32
        }),
        !m.contains_key(a + ".feed_forward_length"@) ==> config.hidden_dim == (if a == "qwen2"@ {
            18944int
        } else if a == "mistral"@ {
            14336
        } else {
            11008
        }),
        !m.contains_key(a + ".vocab_size"@) ==> config.vocab_size == (if a == "qwen2"@ {
            151936int
        } else {
            32000
        }),
        !m.contains_key(a + ".context_length"@) ==> config.max_seq_len == 32768,
        !m.contains_key(a + ".rope.freq_base"@) ==> config.rope_base == (if a == "qwen2"@ {
            0x4974_2400int
        } else {
            0x461C_4000
        }),
        !m.contains_key(a + ".attention.layer_norm_rms_epsilon"@) && !m.contains_key(
            a + ".attention.layer_norm_epsilon"@,
        ) ==> config.norm_eps == 0x3727_C5AC,
{
    lemma_size_keys(a);
    lemma_attention_keys(a);
    reveal_strlit("qwen2");
    reveal_strlit("mistral");
    reveal_strlit("llama");
    assert("qwen2"@.len() == 5 && "mistral"@.len() == 7);
    assert("qwen2"@[0] != "llama"@[0]);
}

} // verus!
