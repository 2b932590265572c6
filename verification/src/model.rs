//! Model configuration, loading a model, and generating with it.

use crate::arith::{Numbers, Op};
use crate::generation::{recent_tokens, Generation, GenerationView};
use crate::gguf::{tensor_views, Metadata, MetadataView, TensorInfo};
use crate::kv_cache::{CacheView, KVCache};
use crate::layout::{lays_out, locate_tensors, located, MissingTensor, ModelLayout};
use crate::loading::{all_read, build_transformer, heads_fit, is_transformer};
use crate::projection::{projecting, Projector};
use crate::quant::QuantizedMatrix;
use crate::rope::RoPE;
use crate::sampler::{samples, Sampler, SamplerView};
use crate::text::text_eq;
use crate::tokenizer::{token_bytes, Tokenizer};
use crate::transformer::{cache_views, one_longer, Transformer};
use crate::utf8::streamed;
use vstd::prelude::*;
use vstd::string::StringExecFns;

verus! {

broadcast use vstd::string::group_string_axioms;

/// Model configuration. `rope_base` and `norm_eps` are single-precision patterns.
#[derive(Debug, Clone)]
pub struct ModelConfig {
    pub embed_dim: usize,
    pub n_layers: usize,
    pub n_heads: usize,
    pub n_kv_heads: usize,
    pub hidden_dim: usize,
    pub vocab_size: usize,
    pub max_seq_len: usize,
    pub rope_base: u32,
    pub norm_eps: u32,
    pub architecture: String,
}

/// The count under a key, or zero.
pub open spec fn count_at(m: Map<Seq<char>, MetadataView>, key: Seq<char>) -> usize {
    if m.contains_key(key) {
        match m[key].as_u64() {
            Some(n) => n as usize,
            None => 0,
        }
    } else {
        0
    }
}

/// The float under a key.
pub open spec fn float_at(m: Map<Seq<char>, MetadataView>, key: Seq<char>) -> Option<u32> {
    if m.contains_key(key) {
        m[key].as_f32()
    } else {
        None
    }
}

/// The model's architecture; "llama" where none is given.
pub open spec fn architecture_of(m: Map<Seq<char>, MetadataView>) -> Seq<char> {
    let key = "general.architecture"@;
    if m.contains_key(key) && m[key] is String {
        m[key]->String_0
    } else {
        "llama"@
    }
}

/// A key of an architecture.
pub open spec fn arch_key(architecture: Seq<char>, name: Seq<char>) -> Seq<char> {
    architecture + "."@ + name
}

/// What is used where the metadata gives no count.
#[derive(Debug, Clone, Copy, PartialEq, Eq, Structural)]
pub struct Defaults {
    pub embed_dim: usize,
    pub n_layers: usize,
    pub n_heads: usize,
    pub hidden_dim: usize,
    pub vocab_size: usize,
    pub rope_base: u32,
}

/// One million in single precision.
pub const MILLION: u32 = 0x4974_2400;

/// Ten thousand in single precision.
pub const TEN_THOUSAND: u32 = 0x461C_4000;

/// `1e-5` in single precision.
pub const DEFAULT_EPS: u32 = 0x3727_C5AC;

/// The context length where the metadata gives none.
pub const DEFAULT_CONTEXT: usize = 32768;

/// The defaults of an architecture.
pub open spec fn defaults_of(architecture: Seq<char>) -> Defaults {
    if architecture == "qwen2"@ {
        Defaults {
            embed_dim: 3584,
            n_layers: 28,
            n_heads: 28,
            hidden_dim: 18944,
            vocab_size: 151936,
            rope_base: MILLION,
        }
    } else if architecture == "mistral"@ {
        Defaults {
            embed_dim: 4096,
            n_layers: 32,
            n_heads: 32,
            hidden_dim: 14336,
            vocab_size: 32000,
            rope_base: TEN_THOUSAND,
        }
    } else {
        Defaults {
            embed_dim: 4096,
            n_layers: 32,
            n_heads: 32,
            hidden_dim: 11008,
            vocab_size: 32000,
            rope_base: TEN_THOUSAND,
        }
    }
}

/// A count, or another where it is zero.
pub open spec fn or_else(n: usize, other: usize) -> usize {
    if n == 0 {
        other
    } else {
        n
    }
}

/// The rope base: a float that is not zero, else the default.
pub open spec fn rope_base_of(f: Option<u32>, default: u32) -> u32 {
    match f {
        Some(b) => if b % 0x8000_0000 == 0 {
            default
        } else {
            b
        },
        None => default,
    }
}

/// The norm's epsilon, under one of two keys.
pub open spec fn norm_eps_of(m: Map<Seq<char>, MetadataView>, architecture: Seq<char>) -> u32 {
    let key = arch_key(architecture, "attention.layer_norm_rms_epsilon"@);
    let other = arch_key(architecture, "attention.layer_norm_epsilon"@);
    let f = if m.contains_key(key) {
        m[key].as_f32()
    } else {
        float_at(m, other)
    };
    match f {
        Some(b) => b,
        None => DEFAULT_EPS,
    }
}

fn arch_defaults(architecture: &str) -> (r: Defaults)
    ensures
        r == defaults_of(architecture@),
{
    if text_eq(architecture, "qwen2") {
        Defaults {
            embed_dim: 3584,
            n_layers: 28,
            n_heads: 28,
            hidden_dim: 18944,
            vocab_size: 151936,
            rope_base: MILLION,
        }
    } else if text_eq(architecture, "mistral") {
        Defaults {
            embed_dim: 4096,
            n_layers: 32,
            n_heads: 32,
            hidden_dim: 14336,
            vocab_size: 32000,
            rope_base: TEN_THOUSAND,
        }
    } else {
        Defaults {
            embed_dim: 4096,
            n_layers: 32,
            n_heads: 32,
            hidden_dim: 11008,
            vocab_size: 32000,
            rope_base: TEN_THOUSAND,
        }
    }
}

fn make_key(architecture: &str, name: &str) -> (r: String)
    ensures
        r@ == arch_key(architecture@, name@),
{
    let mut s = architecture.to_owned();
    s.append(".");
    s.append(name);
    s
}

fn get_count(m: &Metadata, architecture: &str, name: &str) -> (r: usize)
    ensures
        r == count_at(m@, arch_key(architecture@, name@)),
{
    let key = make_key(architecture, name);
    match m.get(key.as_str()) {
        Some(v) => match v.to_u64() {
            Some(n) => n as usize,
            None => 0,
        },
        None => 0,
    }
}

fn get_float(m: &Metadata, architecture: &str, name: &str) -> (r: Option<u32>)
    ensures
        r == float_at(m@, arch_key(architecture@, name@)),
{
    let key = make_key(architecture, name);
    match m.get(key.as_str()) {
        Some(v) => v.to_f32(),
        None => None,
    }
}

fn get_norm_eps(m: &Metadata, architecture: &str) -> (r: u32)
    ensures
        r == norm_eps_of(m@, architecture@),
{
    let key = make_key(architecture, "attention.layer_norm_rms_epsilon");
    let f = match m.get(key.as_str()) {
        Some(v) => v.to_f32(),
        None => get_float(m, architecture, "attention.layer_norm_epsilon"),
    };
    match f {
        Some(b) => b,
        None => DEFAULT_EPS,
    }
}

fn pick(n: usize, other: usize) -> (r: usize)
    ensures
        r == or_else(n, other),
{
    if n == 0 {
        other
    } else {
        n
    }
}

impl ModelConfig {
    /// The configuration is the one that the metadata gives.
    pub open spec fn describes(&self, m: Map<Seq<char>, MetadataView>) -> bool {
        let a = architecture_of(m);
        let d = defaults_of(a);
        &&& self.architecture@ == a
        &&& self.embed_dim == or_else(count_at(m, arch_key(a, "embedding_length"@)), d.embed_dim)
        &&& self.n_layers == or_else(count_at(m, arch_key(a, "block_count"@)), d.n_layers)
        &&& self.n_heads == or_else(count_at(m, arch_key(a, "attention.head_count"@)), d.n_heads)
        &&& self.n_kv_heads == or_else(
            count_at(m, arch_key(a, "attention.head_count_kv"@)),
            self.n_heads,
        )
        &&& self.hidden_dim == or_else(
            count_at(m, arch_key(a, "feed_forward_length"@)),
            d.hidden_dim,
        )
        &&& self.vocab_size == or_else(count_at(m, arch_key(a, "vocab_size"@)), d.vocab_size)
        &&& self.max_seq_len == or_else(
            count_at(m, arch_key(a, "context_length"@)),
            DEFAULT_CONTEXT,
        )
        &&& self.rope_base == rope_base_of(
            float_at(m, arch_key(a, "rope.freq_base"@)),
            d.rope_base,
        )
        &&& self.norm_eps == norm_eps_of(m, a)
    }

    /// No count is zero.
    pub open spec fn positive(&self) -> bool {
        &&& self.embed_dim > 0
        &&& self.n_layers > 0
        &&& self.n_heads > 0
        &&& self.n_kv_heads > 0
        &&& self.hidden_dim > 0
        &&& self.vocab_size > 0
        &&& self.max_seq_len > 0
    }

    /// Parse model configuration from GGUF metadata
    pub fn from_metadata(metadata: &Metadata) -> (r: Self)
        ensures
            r.describes(metadata@),
            r.positive(),
    {
        let architecture = match metadata.get("general.architecture") {
            Some(v) => match v.to_string_ref() {
                Some(s) => s.to_owned(),
                None => "llama".to_owned(),
            },
            None => "llama".to_owned(),
        };
        let a = architecture.as_str();
        let d = arch_defaults(a);
        let n_heads: usize = pick(get_count(metadata, a, "attention.head_count"), d.n_heads);
        let embed_dim: usize = pick(get_count(metadata, a, "embedding_length"), d.embed_dim);
        let n_layers: usize = pick(get_count(metadata, a, "block_count"), d.n_layers);
        let n_kv_heads: usize = pick(get_count(metadata, a, "attention.head_count_kv"), n_heads);
        let hidden_dim: usize = pick(get_count(metadata, a, "feed_forward_length"), d.hidden_dim);
        let vocab_size: usize = pick(get_count(metadata, a, "vocab_size"), d.vocab_size);
        let max_seq_len: usize = pick(get_count(metadata, a, "context_length"), DEFAULT_CONTEXT);
        let rope_base: u32 = match get_float(metadata, a, "rope.freq_base") {
            Some(b) => if b % 0x8000_0000 == 0 {
                d.rope_base
            } else {
                b
            },
            None => d.rope_base,
        };
        let norm_eps: u32 = get_norm_eps(metadata, a);
        ModelConfig {
            embed_dim,
            n_layers,
            n_heads,
            n_kv_heads,
            hidden_dim,
            vocab_size,
            max_seq_len,
            rope_base,
            norm_eps,
            architecture,
        }
    }

    /// The length of one head's part of a query, key or value.
    pub fn head_dim(&self) -> (r: usize)
        requires
            self.n_heads > 0,
        ensures
            r == self.embed_dim / self.n_heads,
    {
        self.embed_dim / self.n_heads
    }

    /// The length of a key or value row.
    pub fn kv_dim(&self) -> (r: usize)
        requires
            self.n_heads > 0,
            self.n_kv_heads * (self.embed_dim / self.n_heads) <= usize::MAX,
        ensures
            r == self.n_kv_heads * (self.embed_dim / self.n_heads),
    {
        proof {
            let d = self.embed_dim / self.n_heads;
            assert(self.n_kv_heads * d >= 0) by (nonlinear_arith);
        }
        self.n_kv_heads * (self.embed_dim / self.n_heads)
    }
    /// Puts another context length in place of the one from the metadata, where one is
    /// given.
    pub fn override_max_seq_len(&mut self, max_seq_len: Option<usize>)
        ensures
            *final(self) == (ModelConfig {
                max_seq_len: (match max_seq_len {
                    Some(n) => n,
                    None => old(self).max_seq_len,
                }),
                ..*old(self)
            }),
    {
        if let Some(n) = max_seq_len {
            self.max_seq_len = n;
        }
    }

    /// A table for all positions can be counted.
    pub open spec fn table_fits(&self) -> bool {
        self.max_seq_len * (self.embed_dim / self.n_heads / 2) <= usize::MAX
    }

    /// A cache for all positions can be counted.
    pub open spec fn cache_fits(&self) -> bool {
        self.max_seq_len * (self.n_kv_heads * (self.embed_dim / self.n_heads)) <= usize::MAX
    }

    /// Whether heads, tables, caches and the feed-forward matrices can be counted
    pub fn is_countable(&self) -> (r: bool)
        ensures
            r == (heads_fit(*self) && self.table_fits() && self.cache_fits() && self.hidden_dim
                * self.embed_dim <= usize::MAX),
    {
        if self.embed_dim == 0 || self.n_heads == 0 || self.n_kv_heads == 0 {
            return false;
        }
        let head_dim: usize = self.head_dim();
        proof {
            let (m, h, k) = (self.max_seq_len as int, head_dim as int, self.n_kv_heads as int);
            assert(m * (h / 2) >= 0) by (nonlinear_arith)
                requires
                    m >= 0,
                    h >= 0,
            ;
            assert(k * h >= 0) by (nonlinear_arith)
                requires
                    k >= 0,
                    h >= 0,
            ;
            assert(m * (k * h) >= 0) by (nonlinear_arith)
                requires
                    m >= 0,
                    k * h >= 0,
            ;
            assert(self.hidden_dim * self.embed_dim >= 0) by (nonlinear_arith);
        }
        let kv_dim: usize = match self.n_kv_heads.checked_mul(head_dim) {
            Some(d) => d,
            None => {
                return false;
            },
        };
        self.max_seq_len.checked_mul(head_dim / 2).is_some() && self.max_seq_len.checked_mul(
            kv_dim,
        ).is_some() && self.hidden_dim.checked_mul(self.embed_dim).is_some()
    }
}

/// A loaded model.
pub struct Model<T> {
    pub transformer: Transformer<T>,
    pub tokenizer: Tokenizer,
    pub config: ModelConfig,
    pub rope: RoPE<T>,
}

/// Values as single-precision patterns.
pub open spec fn patterns<T, C: Fn(T) -> u32>(bits: C, x: Seq<T>, y: Seq<u32>) -> bool {
    &&& y.len() == x.len()
    &&& forall|i: int| 0 <= i < x.len() ==> call_ensures(bits, (x[i],), #[trigger] y[i])
}

fn filled<T: Copy>(x: T, n: usize) -> (r: Vec<T>)
    ensures
        r@ == Seq::new(n as nat, |i: int| x),
{
    let mut r: Vec<T> = Vec::new();
    let mut i: usize = 0;
    while i < n
        invariant
            i <= n,
            r@ =~= Seq::new(i as nat, |j: int| x),
        decreases n - i,
    {
        r.push(x);
        i += 1;
    }
    r
}

fn to_patterns<T: Copy, C: Fn(T) -> u32>(bits: &C, x: &Vec<T>) -> (y: Vec<u32>)
    requires
        forall|v: T| call_requires(*bits, (v,)),
    ensures
        patterns(*bits, x@, y@),
{
    let mut y: Vec<u32> = Vec::new();
    let mut i: usize = 0;
    while i < x.len()
        invariant
            forall|v: T| call_requires(*bits, (v,)),
            i <= x@.len(),
            y@.len() == i,
            forall|j: int| 0 <= j < i ==> call_ensures(*bits, (x@[j],), #[trigger] y@[j]),
        decreases x@.len() - i,
    {
        let b: u32 = bits(x[i]);
        y.push(b);
        i += 1;
    }
    y
}

impl<T: Copy> Model<T> {
    /// The model is made of a file's tensors, and its table is that of its
    /// configuration.
    pub open spec fn made_of<F: Fn(Op<T>) -> T>(
        &self,
        n: Numbers<T, F>,
        tensors: Seq<TensorInfo>,
        raw: Seq<Vec<u8>>,
        layout: ModelLayout,
    ) -> bool {
        let config = self.config;
        exists|eps: T, base: T|
            {
                &&& #[trigger] n.gives(Op::Wide(config.norm_eps), eps)
                &&& #[trigger] n.gives(Op::Wide(config.rope_base), base)
                &&& is_transformer(self.transformer, n, config, eps, tensors, raw, layout)
                &&& n.tabulates(
                    base,
                    (config.embed_dim / config.n_heads) as int,
                    config.max_seq_len as int,
                    self.rope@,
                )
            }
    }

    /// Load a model from its configuration, its tokenizer and the bytes of a file's
    /// tensors. `raw` holds the bytes of each tensor that can be decoded.
    pub fn load<F: Fn(Op<T>) -> T>(
        n: &Numbers<T, F>,
        config: ModelConfig,
        tokenizer: Tokenizer,
        tensors: &Vec<TensorInfo>,
        raw: Vec<Vec<u8>>,
    ) -> (r: Result<Self, MissingTensor>)
        requires
            n.total(),
            heads_fit(config),
            config.table_fits(),
            all_read(tensors@, raw@),
        ensures
            match r {
                Ok(model) => {
                    &&& model.config == config
                    &&& model.tokenizer == tokenizer
                    &&& exists|layout: ModelLayout| #[trigger]
                        lays_out(layout, tensors@, config.n_layers as nat) && model.made_of(
                            *n,
                            tensors@,
                            raw@,
                            layout,
                        )
                },
                Err(m) => located(tensor_views(tensors@), (2 + 9 * config.n_layers) as nat)
                    == Err::<Seq<int>, Seq<char>>(m.name@),
            },
    {
        let layout = match locate_tensors(tensors, config.n_layers) {
            Ok(layout) => layout,
            Err(m) => {
                return Err(m);
            },
        };
        let base: T = n.run(Op::Wide(config.rope_base));
        let rope = RoPE::new(n, config.head_dim(), base, config.max_seq_len);
        let eps: T = n.run(Op::Wide(config.norm_eps));
        let transformer = build_transformer(n, &config, eps, tensors, raw, &layout);
        let model = Model { transformer, tokenizer, config, rope };
        proof {
            assert(n.gives(Op::Wide(config.norm_eps), eps));
            assert(n.gives(Op::Wide(config.rope_base), base));
            assert(is_transformer(
                model.transformer,
                *n,
                model.config,
                eps,
                tensors@,
                raw@,
                layout,
            ));
            assert(n.tabulates(
                base,
                (config.embed_dim / config.n_heads) as int,
                config.max_seq_len as int,
                model.rope@,
            ));
            assert(model.made_of(*n, tensors@, raw@, layout));
        }
        Ok(model)
    }

    /// Get model config
    pub fn config(&self) -> (r: &ModelConfig)
        ensures
            *r == self.config,
    {
        &self.config
    }

    /// A layer's cache for this model, without tokens and all zeros.
    pub open spec fn empty_cache(&self, zero: T) -> CacheView<T> {
        CacheView::empty(
            self.config.max_seq_len as nat,
            (self.config.n_kv_heads * (self.config.embed_dim / self.config.n_heads)) as nat,
            zero,
        )
    }

    /// Empty caches, one for each layer.
    pub fn new_caches(&self, zero: T) -> (r: Vec<KVCache<T>>)
        requires
            heads_fit(self.config),
            self.config.cache_fits(),
        ensures
            r@.len() == self.config.n_layers,
            forall|i: int|
                0 <= i < r@.len() ==> (#[trigger] r@[i])@.wf() && r@[i]@ == self.empty_cache(zero),
    {
        let kv_dim: usize = self.config.kv_dim();
        let mut r: Vec<KVCache<T>> = Vec::new();
        let mut i: usize = 0;
        while i < self.config.n_layers
            invariant
                i <= self.config.n_layers,
                r@.len() == i,
                kv_dim == self.config.n_kv_heads * (self.config.embed_dim / self.config.n_heads),
                self.config.cache_fits(),
                forall|j: int|
                    0 <= j < i ==> (#[trigger] r@[j])@.wf() && r@[j]@ == self.empty_cache(zero),
            decreases self.config.n_layers - i,
        {
            r.push(KVCache::new(kv_dim, self.config.max_seq_len, zero));
            i += 1;
        }
        r
    }

    /// The parts of the model and the caches fit together, and all bytes are there.
    pub open spec fn ready(&self, caches: Seq<CacheView<T>>) -> bool {
        self.transformer.fits(self.rope@, caches) && self.transformer.complete()
    }

    /// Whether the parts of the model and the caches fit together, and all bytes are
    /// there
    pub fn is_ready(&self, caches: &Vec<KVCache<T>>) -> (r: bool)
        requires
            self.rope@.wf(),
            2 * self.rope@.half_dim <= usize::MAX,
            forall|i: int| 0 <= i < caches@.len() ==> (#[trigger] caches@[i])@.wf(),
        ensures
            r == self.ready(cache_views(caches@)),
    {
        self.transformer.is_consistent(&self.rope, caches) && self.transformer.is_complete()
    }

    /// What running tokens through the model leaves: the caches and the logits after
    /// each of them. Token `i` goes to position `i`.
    pub open spec fn runs<
        F: Fn(Op<T>) -> T,
        H: Fn(&QuantizedMatrix, &Vec<T>) -> Option<Vec<T>>,
    >(
        &self,
        n: Numbers<T, F>,
        project: Projector<H>,
        tokens: Seq<usize>,
        caches: Seq<Seq<CacheView<T>>>,
        logits: Seq<Seq<T>>,
    ) -> bool {
        &&& caches.len() == logits.len()
        &&& forall|i: int|
            0 <= i < logits.len() - 1 ==> self.transformer.predicts(
                n,
                project,
                self.rope@,
                tokens[i] as int,
                i as usize,
                caches[i],
                caches[i + 1],
                #[trigger] logits[i + 1],
            )
    }

    /// What a prompt leaves: its tokens are run one after the other, and the last one's
    /// logits stay; without tokens all logits are zero.
    pub open spec fn prefills<
        F: Fn(Op<T>) -> T,
        H: Fn(&QuantizedMatrix, &Vec<T>) -> Option<Vec<T>>,
    >(
        &self,
        n: Numbers<T, F>,
        project: Projector<H>,
        tokens: Seq<usize>,
        before: Seq<CacheView<T>>,
        after: Seq<CacheView<T>>,
        out: Seq<T>,
    ) -> bool {
        exists|caches: Seq<Seq<CacheView<T>>>, logits: Seq<Seq<T>>|
            {
                &&& #[trigger] self.runs(n, project, tokens, caches, logits)
                &&& logits.len() == tokens.len() + 1
                &&& caches[0] == before
                &&& logits[0] == Seq::new(self.config.vocab_size as nat, |i: int| n.zero)
                &&& caches.last() == after
                &&& logits.last() == out
            }
    }

    /// Runs the tokens of a prompt through the model
    pub fn prefill<
        F: Fn(Op<T>) -> T,
        H: Fn(&QuantizedMatrix, &Vec<T>) -> Option<Vec<T>>,
    >(
        &self,
        n: &Numbers<T, F>,
        project: &Projector<H>,
        tokens: &[usize],
        caches: &mut Vec<KVCache<T>>,
    ) -> (logits: Vec<T>)
        requires
            n.total(),
            projecting::<T, H>(project),
            self.ready(cache_views(old(caches)@)),
            self.transformer.vocab_size == self.config.vocab_size,
            forall|i: int|
                0 <= i < tokens@.len() ==> #[trigger] tokens@[i]
                    < self.transformer.token_embd.rows,
            forall|i: int|
                0 <= i < old(caches)@.len() ==> (#[trigger] old(caches)@[i])@.len + tokens@.len()
                    <= old(caches)@[i]@.max,
        ensures
            logits@.len() == self.config.vocab_size,
            self.ready(cache_views(final(caches)@)),
            final(caches)@.len() == old(caches)@.len(),
            forall|i: int|
                0 <= i < final(caches)@.len() ==> {
                    &&& (#[trigger] final(caches)@[i])@.len == old(caches)@[i]@.len + tokens@.len()
                    &&& final(caches)@[i]@.max == old(caches)@[i]@.max
                },
            self.prefills(
                *n,
                *project,
                tokens@,
                cache_views(old(caches)@),
                cache_views(final(caches)@),
                logits@,
            ),
    {
        let vocab_size: usize = self.config.vocab_size;
        let mut logits = filled(n.zero, vocab_size);
        let ghost mut states: Seq<Seq<CacheView<T>>> = seq![cache_views(caches@)];
        let ghost mut outs: Seq<Seq<T>> = seq![logits@];
        let mut pos: usize = 0;
        while pos < tokens.len()
            invariant
                n.total(),
                projecting::<T, H>(project),
                pos <= tokens@.len(),
                self.ready(cache_views(caches@)),
                self.transformer.vocab_size == vocab_size == self.config.vocab_size,
                logits@.len() == vocab_size,
                forall|i: int|
                    0 <= i < tokens@.len() ==> #[trigger] tokens@[i]
                        < self.transformer.token_embd.rows,
                caches@.len() == old(caches)@.len(),
                forall|i: int|
                    0 <= i < caches@.len() ==> {
                        &&& (#[trigger] caches@[i])@.len == old(caches)@[i]@.len + pos
                        &&& caches@[i]@.max == old(caches)@[i]@.max
                    },
                forall|i: int|
                    0 <= i < old(caches)@.len() ==> (#[trigger] old(caches)@[i])@.len
                        + tokens@.len() <= old(caches)@[i]@.max,
                states.len() == pos + 1,
                outs.len() == pos + 1,
                states[0] == cache_views(old(caches)@),
                outs[0] == Seq::new(vocab_size as nat, |i: int| n.zero),
                states.last() == cache_views(caches@),
                outs.last() == logits@,
                self.runs(*n, *project, tokens@, states, outs),
            decreases tokens@.len() - pos,
        {
            let ghost before = caches@;
            let ghost old_states = states;
            let ghost old_outs = outs;
            assert(Transformer::has_room(cache_views(caches@))) by {
                assert forall|i: int| 0 <= i < caches@.len() implies (
                #[trigger] cache_views(caches@)[i]).len < cache_views(caches@)[i].max by {
                    assert(caches@[i]@.len == old(caches)@[i]@.len + pos);
                }
            }
            logits = self.transformer.forward(n, project, tokens[pos], pos, &self.rope, caches);
            proof {
                states = states.push(cache_views(caches@));
                outs = outs.push(logits@);
                assert forall|i: int| 0 <= i < caches@.len() implies (#[trigger] caches@[i])@.len
                    == old(caches)@[i]@.len + pos + 1 && caches@[i]@.max
                    == old(caches)@[i]@.max by {
                    assert(one_longer(before[i]@, caches@[i]@));
                }
                assert forall|i: int| 0 <= i < outs.len() - 1 implies self.transformer.predicts(
                    *n,
                    *project,
                    self.rope@,
                    tokens@[i] as int,
                    i as usize,
                    states[i],
                    states[i + 1],
                    #[trigger] outs[i + 1],
                ) by {
                    if i < pos {
                        assert(outs[i + 1] == old_outs[i + 1]);
                        assert(states[i] == old_states[i] && states[i + 1] == old_states[i + 1]);
                    }
                }
            }
            pos += 1;
        }
        logits
    }

    /// Runs the last token of a generation through the model
    pub fn feed<
        F: Fn(Op<T>) -> T,
        H: Fn(&QuantizedMatrix, &Vec<T>) -> Option<Vec<T>>,
    >(
        &self,
        n: &Numbers<T, F>,
        project: &Projector<H>,
        generation: &Generation,
        caches: &mut Vec<KVCache<T>>,
    ) -> (logits: Vec<T>)
        requires
            n.total(),
            projecting::<T, H>(project),
            self.ready(cache_views(old(caches)@)),
            Transformer::has_room(cache_views(old(caches)@)),
            generation@.tokens.len() > 0,
            generation@.tokens.last() < self.transformer.token_embd.rows,
        ensures
            logits@.len() == self.transformer.vocab_size,
            self.ready(cache_views(final(caches)@)),
            final(caches)@.len() == old(caches)@.len(),
            forall|i: int|
                0 <= i < final(caches)@.len() ==> one_longer(
                    old(caches)@[i]@,
                    #[trigger] final(caches)@[i]@,
                ),
            self.transformer.predicts(
                *n,
                *project,
                self.rope@,
                generation@.tokens.last() as int,
                (generation@.tokens.len() - 1) as usize,
                cache_views(old(caches)@),
                cache_views(final(caches)@),
                logits@,
            ),
    {
        let tokens = generation.tokens();
        let position: usize = tokens.len() - 1;
        let token: usize = tokens[position];
        self.transformer.forward(n, project, token, position, &self.rope, caches)
    }

    /// What sampling does: a token is drawn for the logits' patterns and the recent
    /// tokens, and the generation takes it.
    pub open spec fn continues<B: Fn(Op<u32>) -> u32, C: Fn(T) -> u32>(
        &self,
        ops: Numbers<u32, B>,
        bits: C,
        logits: Seq<T>,
        sampler: SamplerView,
        next_sampler: SamplerView,
        generation: GenerationView,
        next_generation: GenerationView,
        token: usize,
    ) -> bool {
        exists|before: Seq<u32>, after: Seq<u32>|
            {
                &&& #[trigger] patterns(bits, logits, before)
                &&& #[trigger] samples(
                    ops,
                    sampler,
                    before,
                    recent_tokens(generation.tokens),
                    next_sampler,
                    after,
                    token as int,
                )
                &&& next_generation == generation.after(
                    self.tokenizer.entries(),
                    self.tokenizer.eos_token_id,
                    token,
                )
            }
    }

    /// Samples the next token of a generation. Gives back the text to put out, or
    /// nothing where the token ends the sequence
    pub fn next_token<B: Fn(Op<u32>) -> u32, C: Fn(T) -> u32>(
        &self,
        ops: &Numbers<u32, B>,
        bits: &C,
        logits: &Vec<T>,
        sampler: &mut Sampler,
        generation: &mut Generation,
    ) -> (r: Option<String>)
        requires
            ops.single(),
            forall|v: T| call_requires(*bits, (v,)),
            logits@.len() > 0,
            !old(generation)@.finished(),
        ensures
            exists|token: usize|
                {
                    &&& token < logits@.len()
                    &&& #[trigger] self.continues(
                        *ops,
                        *bits,
                        logits@,
                        old(sampler)@,
                        final(sampler)@,
                        old(generation)@,
                        final(generation)@,
                        token,
                    )
                    &&& r is None <==> self.tokenizer.eos_token_id == Some(token)
                    &&& r matches Some(t) ==> t@ == streamed(
                        token_bytes(self.tokenizer.entries(), token),
                    )
                },
    {
        let mut patterns_of = to_patterns(bits, logits);
        let ghost before = patterns_of@;
        let token: usize = sampler.sample(ops, &mut patterns_of, generation.recent());
        let r = generation.accept(&self.tokenizer, token);
        proof {
            assert(patterns(*bits, logits@, before));
            assert(samples(
                *ops,
                old(sampler)@,
                before,
                recent_tokens(old(generation)@.tokens),
                sampler@,
                patterns_of@,
                token as int,
            ));
            assert(self.continues(
                *ops,
                *bits,
                logits@,
                old(sampler)@,
                sampler@,
                old(generation)@,
                generation@,
                token,
            ));
        }
        r
    }
}

} // verus!
