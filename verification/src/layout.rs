//! Where a model's tensors stand in a file.

use crate::gguf::{tensor_views, TensorInfo, TensorView};
use crate::model::ModelConfig;
use crate::quant::{bytes_for, decodable, dtype_label, dtype_label_view, is_decodable};
use crate::tensor::{checked_elements, product, product_fits};
use crate::text::{decimal, law_decimal_is_unique, lemma_decimal_digits, push_decimal, text_eq};
use vstd::prelude::*;
use vstd::string::StringExecFns;

verus! {

broadcast use vstd::string::group_string_axioms;

/// The elements of a tensor can be counted, and its bytes where its type can be
/// decoded.
pub open spec fn countable(info: TensorInfo) -> bool {
    &&& product_fits(info.dims@)
    &&& decodable(info.data_type) ==> {
        &&& product(info.dims@) + info.data_type.block_len() <= usize::MAX
        &&& bytes_for(info.data_type, product(info.dims@)) <= usize::MAX
    }
}

/// Whether the elements and the bytes of a tensor can be counted
pub fn can_read(info: &TensorInfo) -> (r: bool)
    ensures
        r == countable(*info),
{
    let n_elements: usize = match checked_elements(info.dims.as_slice()) {
        Some(n) => n,
        None => {
            return false;
        },
    };
    if !is_decodable(info.data_type) {
        return true;
    }
    let block_size: usize = info.data_type.block_size();
    let padded: usize = match n_elements.checked_add(block_size) {
        Some(p) => p,
        None => {
            return false;
        },
    };
    let n_blocks: usize = (padded - 1) / block_size;
    let width: usize = info.data_type.bytes_per_block();
    proof {
        assert(n_blocks * width >= 0) by (nonlinear_arith);
    }
    n_blocks.checked_mul(width).is_some()
}

/// Where the bytes of a tensor are read: from which offset of the file on, and how
/// many. Tensors of a type that cannot be decoded are passed over.
pub fn tensor_read(info: &TensorInfo) -> (r: Option<(u64, usize)>)
    requires
        countable(*info),
    ensures
        r is Some <==> decodable(info.data_type),
        r matches Some(at) ==> at.0 == info.offset && at.1 == bytes_for(
            info.data_type,
            product(info.dims@),
        ),
{
    let n_elements: usize = info.n_elements();
    if !is_decodable(info.data_type) {
        return None;
    }
    let block_size: usize = info.data_type.block_size();
    let n_blocks: usize = (n_elements + block_size - 1) / block_size;
    let byte_size: usize = n_blocks * info.data_type.bytes_per_block();
    Some((info.offset, byte_size))
}

/// What is said of a tensor that is passed over.
pub open spec fn skip_warning_view(t: TensorView) -> Seq<char> {
    "  WARNING: Unsupported type "@ + dtype_label_view(t.data_type) + " for tensor '"@ + t.name
        + "', skipping"@
}

/// What is said of a tensor that is passed over.
pub fn skip_warning(info: &TensorInfo) -> (r: String)
    ensures
        r@ == skip_warning_view(info@),
{
    let mut s = "  WARNING: Unsupported type ".to_owned();
    s.append(dtype_label(info.data_type));
    s.append(" for tensor '");
    s.append(info.name.as_str());
    s.append("', skipping");
    s
}

/// The tensor of a name: the last descriptor of that name whose type can be
/// decoded.
pub open spec fn tensor_index(tensors: Seq<TensorView>, name: Seq<char>) -> Option<int>
    decreases tensors.len(),
{
    if tensors.len() == 0 {
        None
    } else if tensors.last().name == name && decodable(tensors.last().data_type) {
        Some(tensors.len() - 1)
    } else {
        tensor_index(tensors.drop_last(), name)
    }
}

fn find_tensor(tensors: &Vec<TensorInfo>, name: &str) -> (r: Option<usize>)
    ensures
        match r {
            Some(i) => tensor_index(tensor_views(tensors@), name@) == Some(i as int) && i
                < tensors@.len(),
            None => tensor_index(tensor_views(tensors@), name@) is None,
        },
{
    let ghost v = tensor_views(tensors@);
    let mut i: usize = tensors.len();
    assert(v.take(i as int) =~= v);
    while i > 0
        invariant
            i <= tensors@.len(),
            v == tensor_views(tensors@),
            tensor_index(v, name@) == tensor_index(v.take(i as int), name@),
        decreases i,
    {
        proof {
            let t = v.take(i as int);
            assert(t.last() == tensors@[i - 1]@);
            assert(t.drop_last() =~= v.take(i - 1));
        }
        if is_decodable(tensors[i - 1].data_type) && text_eq(tensors[i - 1].name.as_str(), name) {
            return Some(i - 1);
        }
        i -= 1;
    }
    None
}


/// The end of the name of a layer's tensor: nine that every layer has, then the three
/// biases that it may have.
pub open spec fn layer_suffix_view(k: int) -> Seq<char> {
    if k == 0 {
        ".attn_norm.weight"@
    } else if k == 1 {
        ".attn_q.weight"@
    } else if k == 2 {
        ".attn_k.weight"@
    } else if k == 3 {
        ".attn_v.weight"@
    } else if k == 4 {
        ".attn_output.weight"@
    } else if k == 5 {
        ".ffn_norm.weight"@
    } else if k == 6 {
        ".ffn_gate.weight"@
    } else if k == 7 {
        ".ffn_up.weight"@
    } else if k == 8 {
        ".ffn_down.weight"@
    } else if k == 9 {
        ".attn_q.bias"@
    } else if k == 10 {
        ".attn_k.bias"@
    } else {
        ".attn_v.bias"@
    }
}

fn layer_suffix(k: usize) -> (r: &'static str)
    ensures
        r@ == layer_suffix_view(k as int),
{
    match k {
        0 => ".attn_norm.weight",
        1 => ".attn_q.weight",
        2 => ".attn_k.weight",
        3 => ".attn_v.weight",
        4 => ".attn_output.weight",
        5 => ".ffn_norm.weight",
        6 => ".ffn_gate.weight",
        7 => ".ffn_up.weight",
        8 => ".ffn_down.weight",
        9 => ".attn_q.bias",
        10 => ".attn_k.bias",
        _ => ".attn_v.bias",
    }
}

/// The name of a layer's tensor.
pub open spec fn layer_tensor_name(layer: nat, k: int) -> Seq<char> {
    "blk."@ + decimal(layer) + layer_suffix_view(k)
}

fn make_layer_tensor_name(layer: usize, k: usize) -> (r: String)
    ensures
        r@ == layer_tensor_name(layer as nat, k as int),
{
    let mut s = "blk.".to_owned();
    push_decimal(&mut s, layer as u64);
    s.append(layer_suffix(k));
    s
}

/// The names of the tensors that a model cannot do without, in the order in which
/// they are looked up: the embedding, the final norm, then layer after layer.
pub open spec fn required_name(j: int) -> Seq<char> {
    if j == 0 {
        "token_embd.weight"@
    } else if j == 1 {
        "output_norm.weight"@
    } else {
        layer_tensor_name(((j - 2) / 9) as nat, (j - 2) % 9)
    }
}

proof fn lemma_suffix_is_unique(j: int, k: int)
    requires
        0 <= j < 12,
        0 <= k < 12,
        layer_suffix_view(j) == layer_suffix_view(k),
    ensures
        j == k,
{
    reveal_strlit(".attn_norm.weight");
    reveal_strlit(".attn_q.weight");
    reveal_strlit(".attn_k.weight");
    reveal_strlit(".attn_v.weight");
    reveal_strlit(".attn_output.weight");
    reveal_strlit(".attn_q.bias");
    reveal_strlit(".attn_k.bias");
    reveal_strlit(".attn_v.bias");
    reveal_strlit(".ffn_norm.weight");
    reveal_strlit(".ffn_gate.weight");
    reveal_strlit(".ffn_up.weight");
    reveal_strlit(".ffn_down.weight");
    let (a, b) = (layer_suffix_view(j), layer_suffix_view(k));
    assert(a.len() == b.len());
    assert(a[1] == b[1] && a[5] == b[5] && a[6] == b[6]);
}

proof fn lemma_suffix_starts_with_a_dot(k: int)
    ensures
        layer_suffix_view(k).len() > 0,
        layer_suffix_view(k)[0] == '.',
{
    reveal_strlit(".attn_norm.weight");
    reveal_strlit(".attn_q.weight");
    reveal_strlit(".attn_k.weight");
    reveal_strlit(".attn_v.weight");
    reveal_strlit(".attn_output.weight");
    reveal_strlit(".attn_q.bias");
    reveal_strlit(".attn_k.bias");
    reveal_strlit(".attn_v.bias");
    reveal_strlit(".ffn_norm.weight");
    reveal_strlit(".ffn_gate.weight");
    reveal_strlit(".ffn_up.weight");
    reveal_strlit(".ffn_down.weight");
}

/// The name of a layer's tensor tells the layer and the tensor.
pub proof fn law_layer_names_are_unique(a: nat, j: int, b: nat, k: int)
    requires
        0 <= j < 12,
        0 <= k < 12,
        layer_tensor_name(a, j) == layer_tensor_name(b, k),
    ensures
        a == b,
        j == k,
{
    let (x, y) = (layer_tensor_name(a, j), layer_tensor_name(b, k));
    let (dx, dy) = (decimal(a), decimal(b));
    reveal_strlit("blk.");
    lemma_decimal_digits(a);
    lemma_decimal_digits(b);
    lemma_suffix_starts_with_a_dot(j);
    lemma_suffix_starts_with_a_dot(k);
    let (m, n) = (dx.len() as int, dy.len() as int);
    if m < n {
        assert(x[4 + m] == '.');
        assert(y[4 + m] == dy[m]);
    } else if n < m {
        assert(y[4 + n] == '.');
        assert(x[4 + n] == dx[n]);
    }
    assert(m == n);
    assert(dx =~= x.subrange(4, 4 + m));
    assert(dy =~= y.subrange(4, 4 + m));
    law_decimal_is_unique(a, b);
    assert(layer_suffix_view(j) =~= x.skip(4 + m));
    assert(layer_suffix_view(k) =~= y.skip(4 + m));
    lemma_suffix_is_unique(j, k);
}

/// No two tensors that a model cannot do without have the same name, and none has the
/// name of the head.
pub proof fn law_required_names_are_distinct(i: int, j: int)
    requires
        0 <= i,
        0 <= j,
    ensures
        required_name(i) == required_name(j) ==> i == j,
        required_name(i) != "output.weight"@,
{
    reveal_strlit("blk.");
    reveal_strlit("token_embd.weight");
    reveal_strlit("output_norm.weight");
    reveal_strlit("output.weight");
    let (x, y) = (required_name(i), required_name(j));
    if i >= 2 {
        assert(x[0] == 'b');
    }
    if j >= 2 {
        assert(y[0] == 'b');
    }
    if x == y {
        if i < 2 && j < 2 {
            assert(x[0] == y[0]);
        } else if i >= 2 && j >= 2 {
            law_layer_names_are_unique(
                ((i - 2) / 9) as nat,
                (i - 2) % 9,
                ((j - 2) / 9) as nat,
                (j - 2) % 9,
            );
        }
    }
    assert("output.weight"@[0] == 'o');
    assert("output.weight"@.len() == 13);
}

/// The places of the first `n` required tensors, or the first name that is
/// missing.
pub open spec fn located(tensors: Seq<TensorView>, n: nat) -> Result<Seq<int>, Seq<char>>
    decreases n,
{
    if n == 0 {
        Ok(Seq::empty())
    } else {
        match located(tensors, (n - 1) as nat) {
            Err(name) => Err(name),
            Ok(v) => match tensor_index(tensors, required_name(n - 1)) {
                Some(i) => Ok(v.push(i)),
                None => Err(required_name(n - 1)),
            },
        }
    }
}

proof fn lemma_located_fails(tensors: Seq<TensorView>, i: nat, n: nat)
    requires
        i <= n,
        located(tensors, i) is Err,
    ensures
        located(tensors, n) == located(tensors, i),
    decreases n,
{
    if i < n {
        lemma_located_fails(tensors, i, (n - 1) as nat);
    }
}

pub(crate) proof fn lemma_tensor_index(tensors: Seq<TensorView>, name: Seq<char>)
    ensures
        tensor_index(tensors, name) matches Some(i) ==> {
            &&& 0 <= i < tensors.len()
            &&& tensors[i].name == name
            &&& decodable(tensors[i].data_type)
        },
    decreases tensors.len(),
{
    if tensors.len() > 0 {
        lemma_tensor_index(tensors.drop_last(), name);
    }
}

pub(crate) proof fn lemma_located(tensors: Seq<TensorView>, n: nat)
    ensures
        located(tensors, n) matches Ok(v) ==> {
            &&& v.len() == n
            &&& forall|j: int|
                0 <= j < n ==> tensor_index(tensors, required_name(j)) == Some(#[trigger] v[j])
        },
    decreases n,
{
    if n > 0 {
        lemma_located(tensors, (n - 1) as nat);
    }
}

/// The required tensors stand in different places, each of which holds a tensor of
/// the name looked for, of a type that can be decoded. The head, where it has a
/// tensor of its own, stands in none of them.
pub proof fn law_places_are_distinct(tensors: Seq<TensorView>, n: nat)
    ensures
        located(tensors, n) matches Ok(v) ==> {
            &&& v.len() == n
            &&& forall|j: int|
                0 <= j < n ==> 0 <= #[trigger] v[j] < tensors.len() && tensors[v[j]].name
                    == required_name(j) && decodable(tensors[v[j]].data_type)
            &&& forall|i: int, j: int| 0 <= i < j < n ==> #[trigger] v[i] != #[trigger] v[j]
            &&& tensor_index(tensors, "output.weight"@) matches Some(h) ==> {
                &&& 0 <= h < tensors.len() && decodable(tensors[h].data_type)
                &&& forall|j: int| 0 <= j < n ==> #[trigger] v[j] != h
            }
        },
{
    lemma_located(tensors, n);
    lemma_tensor_index(tensors, "output.weight"@);
    if let Ok(v) = located(tensors, n) {
        assert forall|j: int| 0 <= j < n implies 0 <= #[trigger] v[j] < tensors.len()
            && tensors[v[j]].name == required_name(j) && decodable(tensors[v[j]].data_type)
            && tensors[v[j]].name != "output.weight"@ by {
            lemma_tensor_index(tensors, required_name(j));
            law_required_names_are_distinct(j, j);
        }
        assert forall|i: int, j: int| 0 <= i < j < n implies #[trigger] v[i]
            != #[trigger] v[j] by {
            law_required_names_are_distinct(i, j);
        }
    }
}

/// The bias of a layer, where it has a tensor, stands in a place of its own: in none of
/// those of the required tensors or of the head, and in none of another bias.
pub proof fn law_bias_places_are_distinct(tensors: Seq<TensorView>, n: nat, layer: nat, k: int)
    requires
        9 <= k < 12,
    ensures
        tensor_index(tensors, layer_tensor_name(layer, k)) matches Some(b) ==> {
            &&& 0 <= b < tensors.len()
            &&& tensors[b].name == layer_tensor_name(layer, k)
            &&& decodable(tensors[b].data_type)
            &&& located(tensors, n) matches Ok(v) ==> forall|j: int|
                0 <= j < n ==> #[trigger] v[j] != b
            &&& tensor_index(tensors, "output.weight"@) != Some(b)
            &&& forall|i: nat, j: int|
                9 <= j < 12 && tensor_index(tensors, #[trigger] layer_tensor_name(i, j)) == Some(b)
                    ==> i == layer && j == k
        },
{
    let name = layer_tensor_name(layer, k);
    lemma_tensor_index(tensors, name);
    if let Some(b) = tensor_index(tensors, name) {
        reveal_strlit("blk.");
        reveal_strlit("token_embd.weight");
        reveal_strlit("output_norm.weight");
        reveal_strlit("output.weight");
        assert(name[0] == 'b');
        lemma_tensor_index(tensors, "output.weight"@);
        assert("output.weight"@[0] == 'o');
        if let Ok(v) = located(tensors, n) {
            lemma_located(tensors, n);
            assert forall|j: int| 0 <= j < n implies #[trigger] v[j] != b by {
                lemma_tensor_index(tensors, required_name(j));
                if j < 2 {
                    assert(required_name(j)[0] != 'b');
                } else if required_name(j) == name {
                    law_layer_names_are_unique(((j - 2) / 9) as nat, (j - 2) % 9, layer, k);
                }
            }
        }
        assert forall|i: nat, j: int|
            9 <= j < 12 && tensor_index(tensors, #[trigger] layer_tensor_name(i, j)) == Some(
                b,
            ) implies i == layer && j == k by {
            lemma_tensor_index(tensors, layer_tensor_name(i, j));
            law_layer_names_are_unique(i, j, layer, k);
        }
    }
}

/// Where the tensors of a layer stand among the descriptors of a file.
#[derive(Debug, Clone, Copy, PartialEq, Eq, Structural)]
pub struct LayerLayout {
    pub attn_norm: usize,
    pub attn_q: usize,
    pub attn_k: usize,
    pub attn_v: usize,
    pub attn_output: usize,
    pub ffn_norm: usize,
    pub ffn_gate: usize,
    pub ffn_up: usize,
    pub ffn_down: usize,
    /// The biases, where there are any.
    pub attn_q_bias: Option<usize>,
    pub attn_k_bias: Option<usize>,
    pub attn_v_bias: Option<usize>,
}

impl LayerLayout {
    /// The places of the tensors that every layer has, in the order in which they are
    /// looked up.
    pub open spec fn parts(self) -> Seq<int> {
        seq![
            self.attn_norm as int,
            self.attn_q as int,
            self.attn_k as int,
            self.attn_v as int,
            self.attn_output as int,
            self.ffn_norm as int,
            self.ffn_gate as int,
            self.ffn_up as int,
            self.ffn_down as int,
        ]
    }

    /// The places of the biases that a layer may have.
    pub open spec fn biases(self) -> Seq<Option<usize>> {
        seq![self.attn_q_bias, self.attn_k_bias, self.attn_v_bias]
    }
}

/// `p` is the place that `i` names, if any.
pub open spec fn is_place(p: Option<usize>, i: Option<int>) -> bool {
    match (p, i) {
        (Some(a), Some(b)) => a == b,
        (None, None) => true,
        _ => false,
    }
}

/// The places of a layer's biases are those of the tensors of their names; a bias whose
/// tensor is missing has none.
pub open spec fn biases_located(l: LayerLayout, tensors: Seq<TensorView>, layer: nat) -> bool {
    forall|k: int|
        0 <= k < 3 ==> is_place(
            #[trigger] l.biases()[k],
            tensor_index(tensors, layer_tensor_name(layer, 9 + k)),
        )
}

/// Where the tensors of a model stand among the descriptors of a file.
#[derive(Debug, Clone)]
pub struct ModelLayout {
    pub token_embd: usize,
    pub output_norm: usize,
    /// The head; the embedding where there is no tensor of its own.
    pub lm_head: usize,
    pub layers: Vec<LayerLayout>,
}

impl ModelLayout {
    /// The places in the order in which they are looked up, for the first `n`
    /// layers.
    pub open spec fn places(&self, n: nat) -> Seq<int>
        decreases n,
    {
        if n == 0 {
            seq![self.token_embd as int, self.output_norm as int]
        } else {
            self.places((n - 1) as nat) + self.layers@[n - 1].parts()
        }
    }
}

/// The places of a layer's tensors among those of all.
pub proof fn lemma_places_of_layers(layout: ModelLayout, n: nat)
    requires
        n <= layout.layers@.len(),
    ensures
        layout.places(n).len() == 2 + 9 * n,
        layout.places(n)[0] == layout.token_embd,
        layout.places(n)[1] == layout.output_norm,
        forall|i: int, k: int|
            0 <= i < n && 0 <= k < 9 ==> layout.places(n)[2 + 9 * i + k]
                == #[trigger] layout.layers@[i].parts()[k],
    decreases n,
{
    if n > 0 {
        let m = (n - 1) as nat;
        lemma_places_of_layers(layout, m);
        assert forall|i: int, k: int| 0 <= i < n && 0 <= k < 9 implies layout.places(n)[2 + 9 * i
            + k] == #[trigger] layout.layers@[i].parts()[k] by {
            if i < m {
                assert(layout.places(m)[2 + 9 * i + k] == layout.layers@[i].parts()[k]);
                assert(layout.places(n)[2 + 9 * i + k] == layout.places(m)[2 + 9 * i + k]);
            }
        }
    }
}

/// A tensor that a model cannot do without is missing.
#[derive(Debug, Clone)]
pub struct MissingTensor {
    pub name: String,
}

impl MissingTensor {
    /// A sentence that names the tensor.
    pub fn message(&self) -> (r: String)
        ensures
            r@ == "Missing "@ + self.name@,
    {
        let mut s = "Missing ".to_owned();
        s.append(self.name.as_str());
        s
    }
}

fn locate_bias(tensors: &Vec<TensorInfo>, layer: usize, k: usize) -> (r: Option<usize>)
    ensures
        is_place(r, tensor_index(tensor_views(tensors@), layer_tensor_name(layer as nat, k as int))),
{
    let name = make_layer_tensor_name(layer, k);
    find_tensor(tensors, name.as_str())
}

fn locate_layer(tensors: &Vec<TensorInfo>, layer: usize, Ghost(before): Ghost<Seq<int>>) -> (r:
    Result<LayerLayout, MissingTensor>)
    requires
        located(tensor_views(tensors@), (2 + 9 * layer) as nat) == Ok::<Seq<int>, Seq<char>>(
            before,
        ),
    ensures
        match r {
            Ok(l) => {
                &&& located(tensor_views(tensors@), (2 + 9 * (layer + 1)) as nat) == Ok::<
                    Seq<int>,
                    Seq<char>,
                >(before + l.parts())
                &&& biases_located(l, tensor_views(tensors@), layer as nat)
                &&& forall|k: int| 0 <= k < 9 ==> 0 <= #[trigger] l.parts()[k] < tensors@.len()
            },
            Err(m) => located(tensor_views(tensors@), (2 + 9 * (layer + 1)) as nat) == Err::<
                Seq<int>,
                Seq<char>,
            >(m.name@),
        },
{
    let ghost v = tensor_views(tensors@);
    let ghost base = (2 + 9 * layer) as nat;
    let mut found: Vec<usize> = Vec::new();
    let mut k: usize = 0;
    assert(before + Seq::new(0, |j: int| found@[j] as int) =~= before);
    while k < 9
        invariant
            k <= 9,
            found@.len() == k,
            v == tensor_views(tensors@),
            base == 2 + 9 * layer,
            forall|j: int| 0 <= j < k ==> #[trigger] found@[j] < tensors@.len(),
            located(v, base + k as nat) == Ok::<Seq<int>, Seq<char>>(
                before + Seq::new(k as nat, |j: int| found@[j] as int),
            ),
        decreases 9 - k,
    {
        let name = make_layer_tensor_name(layer, k);
        proof {
            assert((base + k - 2) / 9 == layer && (base + k - 2) % 9 == k);
            assert(name@ == required_name(base + k));
        }
        let ghost old_found = found@;
        match find_tensor(tensors, name.as_str()) {
            Some(i) => {
                found.push(i);
                assert((before + Seq::new(k as nat, |j: int| old_found[j] as int)).push(i as int)
                    =~= before + Seq::new(k as nat + 1, |j: int| found@[j] as int));
            },
            None => {
                proof {
                    assert(located(v, base + k as nat + 1) == Err::<Seq<int>, Seq<char>>(name@));
                    lemma_located_fails(v, base + k as nat + 1, base + 9);
                }
                return Err(MissingTensor { name });
            },
        }
        k += 1;
    }
    let l = LayerLayout {
        attn_norm: found[0],
        attn_q: found[1],
        attn_k: found[2],
        attn_v: found[3],
        attn_output: found[4],
        ffn_norm: found[5],
        ffn_gate: found[6],
        ffn_up: found[7],
        ffn_down: found[8],
        attn_q_bias: locate_bias(tensors, layer, 9),
        attn_k_bias: locate_bias(tensors, layer, 10),
        attn_v_bias: locate_bias(tensors, layer, 11),
    };
    assert(l.parts() =~= Seq::new(9, |j: int| found@[j] as int));
    Ok(l)
}

/// A layout gives the places of all tensors of a model with `n_layers` layers.
pub open spec fn lays_out(layout: ModelLayout, tensors: Seq<TensorInfo>, n_layers: nat) -> bool {
    let v = tensor_views(tensors);
    &&& layout.layers@.len() == n_layers
    &&& located(v, 2 + 9 * n_layers) == Ok::<Seq<int>, Seq<char>>(layout.places(n_layers))
    &&& forall|i: int|
        0 <= i < n_layers ==> biases_located(#[trigger] layout.layers@[i], v, i as nat)
    &&& layout.lm_head == (match tensor_index(v, "output.weight"@) {
        Some(i) => i,
        None => layout.token_embd as int,
    })
}

/// Finds the tensors of a model with `n_layers` layers
pub fn locate_tensors(tensors: &Vec<TensorInfo>, n_layers: usize) -> (r: Result<
    ModelLayout,
    MissingTensor,
>)
    ensures
        match r {
            Ok(l) => {
                &&& lays_out(l, tensors@, n_layers as nat)
                &&& l.token_embd < tensors@.len() && l.output_norm < tensors@.len() && l.lm_head
                    < tensors@.len()
                &&& forall|i: int, k: int|
                    0 <= i < n_layers && 0 <= k < 9 ==> 0
                        <= #[trigger] l.layers@[i].parts()[k] < tensors@.len()
            },
            Err(m) => located(tensor_views(tensors@), (2 + 9 * n_layers) as nat) == Err::<
                Seq<int>,
                Seq<char>,
            >(m.name@),
        },
{
    let ghost v = tensor_views(tensors@);
    let ghost total = (2 + 9 * n_layers) as nat;
    proof {
        reveal_with_fuel(located, 3);
    }
    let token_embd: usize = match find_tensor(tensors, "token_embd.weight") {
        Some(i) => i,
        None => {
            proof {
                lemma_located_fails(v, 1, total);
            }
            return Err(MissingTensor { name: "token_embd.weight".to_owned() });
        },
    };
    let output_norm: usize = match find_tensor(tensors, "output_norm.weight") {
        Some(i) => i,
        None => {
            proof {
                lemma_located_fails(v, 2, total);
            }
            return Err(MissingTensor { name: "output_norm.weight".to_owned() });
        },
    };
    let lm_head: usize = match find_tensor(tensors, "output.weight") {
        Some(i) => i,
        None => token_embd,
    };
    let mut layout = ModelLayout { token_embd, output_norm, lm_head, layers: Vec::new() };
    let mut i: usize = 0;
    assert(Seq::<int>::empty().push(token_embd as int).push(output_norm as int) =~= layout.places(0));
    assert(located(v, 2) == Ok::<Seq<int>, Seq<char>>(layout.places(0)));
    while i < n_layers
        invariant
            i <= n_layers,
            v == tensor_views(tensors@),
            total == 2 + 9 * n_layers,
            layout.token_embd == token_embd < tensors@.len(),
            layout.output_norm == output_norm < tensors@.len(),
            layout.lm_head == lm_head < tensors@.len(),
            layout.layers@.len() == i,
            located(v, (2 + 9 * i) as nat) == Ok::<Seq<int>, Seq<char>>(layout.places(i as nat)),
            forall|j: int|
                0 <= j < i ==> biases_located(#[trigger] layout.layers@[j], v, j as nat),
            forall|j: int, k: int|
                0 <= j < i && 0 <= k < 9 ==> 0 <= #[trigger] layout.layers@[j].parts()[k]
                    < tensors@.len(),
        decreases n_layers - i,
    {
        let ghost before = layout;
        match locate_layer(tensors, i, Ghost(layout.places(i as nat))) {
            Ok(l) => {
                layout.layers.push(l);
                proof {
                    lemma_places_prefix(before, layout, i as nat);
                }
            },
            Err(m) => {
                proof {
                    lemma_located_fails(v, (2 + 9 * (i + 1)) as nat, total);
                }
                return Err(m);
            },
        }
        i += 1;
    }
    Ok(layout)
}

proof fn lemma_places_prefix(a: ModelLayout, b: ModelLayout, n: nat)
    requires
        a.token_embd == b.token_embd,
        a.output_norm == b.output_norm,
        n <= a.layers@.len() <= b.layers@.len(),
        forall|i: int| 0 <= i < n ==> a.layers@[i] == #[trigger] b.layers@[i],
    ensures
        a.places(n) == b.places(n),
    decreases n,
{
    if n > 0 {
        lemma_places_prefix(a, b, (n - 1) as nat);
        assert(a.layers@[n - 1] == b.layers@[n - 1]);
    }
}

/// What is said of a tensor that has not the expected number of elements.
pub open spec fn length_warning_view(
    layer: nat,
    k: int,
    expected: nat,
    got: nat,
) -> Seq<char> {
    "  WARNING: "@ + layer_tensor_name(layer, k) + ": expected "@ + decimal(expected)
        + " elements, got "@ + decimal(got)
}

fn length_warning(layer: usize, k: usize, expected: usize, got: usize) -> (r: Option<String>)
    ensures
        r is Some <==> expected != got,
        r matches Some(s) ==> s@ == length_warning_view(
            layer as nat,
            k as int,
            expected as nat,
            got as nat,
        ),
{
    if expected == got {
        return None;
    }
    let mut s = "  WARNING: ".to_owned();
    let name = make_layer_tensor_name(layer, k);
    s.append(name.as_str());
    s.append(": expected ");
    push_decimal(&mut s, expected as u64);
    s.append(" elements, got ");
    push_decimal(&mut s, got as u64);
    Some(s)
}

/// Holds the sizes of a layer's feed-forward tensors against the configuration:
/// a warning for each of gate, up and down that differs.
pub fn feed_forward_warnings(
    config: &ModelConfig,
    layer: usize,
    gate: usize,
    up: usize,
    down: usize,
) -> (r: (Option<String>, Option<String>, Option<String>))
    requires
        config.hidden_dim * config.embed_dim <= usize::MAX,
    ensures
        r.0 is Some <==> gate != config.hidden_dim * config.embed_dim,
        r.1 is Some <==> up != config.hidden_dim * config.embed_dim,
        r.2 is Some <==> down != config.hidden_dim * config.embed_dim,
        r.0 matches Some(s) ==> s@ == length_warning_view(
            layer as nat,
            6,
            (config.hidden_dim * config.embed_dim) as nat,
            gate as nat,
        ),
        r.1 matches Some(s) ==> s@ == length_warning_view(
            layer as nat,
            7,
            (config.hidden_dim * config.embed_dim) as nat,
            up as nat,
        ),
        r.2 matches Some(s) ==> s@ == length_warning_view(
            layer as nat,
            8,
            (config.hidden_dim * config.embed_dim) as nat,
            down as nat,
        ),
{
    proof {
        assert(config.hidden_dim * config.embed_dim >= 0) by (nonlinear_arith);
    }
    let expected: usize = config.hidden_dim * config.embed_dim;
    (
        length_warning(layer, 6, expected, gate),
        length_warning(layer, 7, expected, up),
        length_warning(layer, 8, expected, down),
    )
}

} // verus!
