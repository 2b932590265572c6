//! What a GPU is asked to do for a matrix-vector product: which shader, how many
//! workgroups, and which parameters.

use crate::gguf::GgufDataType;
use crate::quant::decodable;
use vstd::prelude::*;
use vstd::string::StringExecFns;

verus! {

broadcast use vstd::string::group_string_axioms;

/// The number that stands for a type's shader; 99 for the types that have none of
/// their own.
pub open spec fn shader_key(t: GgufDataType) -> u32 {
    match t {
        GgufDataType::F32 => 0,
        GgufDataType::F16 => 1,
        GgufDataType::Q8_0 => 2,
        GgufDataType::Q4_0 => 3,
        GgufDataType::Q5_0 => 4,
        GgufDataType::Q4_K => 5,
        GgufDataType::Q5_K => 6,
        GgufDataType::Q6_K => 7,
        _ => 99,
    }
}

/// The number under which a type's pipeline is kept
pub fn dtype_key(dtype: GgufDataType) -> (r: u32)
    ensures
        r == shader_key(dtype),
{
    match dtype {
        GgufDataType::F32 => 0,
        GgufDataType::F16 => 1,
        GgufDataType::Q8_0 => 2,
        GgufDataType::Q4_0 => 3,
        GgufDataType::Q5_0 => 4,
        GgufDataType::Q4_K => 5,
        GgufDataType::Q5_K => 6,
        GgufDataType::Q6_K => 7,
        _ => 99,
    }
}

/// Two types share a pipeline only where they share a shader.
pub proof fn law_pipelines_match_shaders(a: GgufDataType, b: GgufDataType)
    requires
        shader_key(a) == shader_key(b),
    ensures
        shader_body(a) == shader_body(b),
        decodable(a) ==> a == b,
{
}

/// The part of the shader that is a type's own; that of F32 for the types that
/// have none.
pub open spec fn shader_body(t: GgufDataType) -> Seq<char> {
    match t {
        GgufDataType::F32 => WGSL_F32_BODY@,
        GgufDataType::F16 => WGSL_F16_BODY@,
        GgufDataType::Q8_0 => WGSL_Q8_0_BODY@,
        GgufDataType::Q4_0 => WGSL_Q4_0_BODY@,
        GgufDataType::Q5_0 => WGSL_Q5_0_BODY@,
        GgufDataType::Q4_K => WGSL_Q4_K_BODY@,
        GgufDataType::Q5_K => WGSL_Q5_K_BODY@,
        GgufDataType::Q6_K => WGSL_Q6_K_BODY@,
        _ => WGSL_F32_BODY@,
    }
}

/// The WGSL source of a type's shader
pub fn shader_src(dtype: GgufDataType) -> (r: String)
    ensures
        r@ == WGSL_COMMON@ + shader_body(dtype),
{
    let body = match dtype {
        GgufDataType::F32 => WGSL_F32_BODY,
        GgufDataType::F16 => WGSL_F16_BODY,
        GgufDataType::Q8_0 => WGSL_Q8_0_BODY,
        GgufDataType::Q4_0 => WGSL_Q4_0_BODY,
        GgufDataType::Q5_0 => WGSL_Q5_0_BODY,
        GgufDataType::Q4_K => WGSL_Q4_K_BODY,
        GgufDataType::Q5_K => WGSL_Q5_K_BODY,
        GgufDataType::Q6_K => WGSL_Q6_K_BODY,
        _ => WGSL_F32_BODY,
    };
    let mut s = WGSL_COMMON.to_owned();
    s.append(body);
    s
}

/// Whether the GPU is asked for products with a type of weights: not with Q6_K, whose
/// shader some drivers run wrongly.
pub fn runs_on_gpu(dtype: GgufDataType) -> (r: bool)
    ensures
        r == (dtype != GgufDataType::Q6_K),
{
    match dtype {
        GgufDataType::Q6_K => false,
        _ => true,
    }
}

/// The largest number of workgroups along one dimension.
pub const WORKGROUP_LIMIT: u32 = 65535;

/// The workgroups of a product, one for each row, laid out in a grid, and the
/// parameters that the shader sees.
#[derive(Debug, Clone, Copy, PartialEq, Eq, Structural)]
pub struct Dispatch {
    /// The grid's width.
    pub dx: u32,
    /// The grid's height.
    pub dy: u32,
    /// The number of columns, as the shader sees it.
    pub cols: u32,
    /// The number of rows, as the shader sees it.
    pub rows: u32,
    /// The size of the result in bytes.
    pub out_size: u64,
}

/// The width of the grid for a number of rows.
pub open spec fn grid_width(rows: int) -> int {
    if rows > WORKGROUP_LIMIT {
        WORKGROUP_LIMIT as int
    } else {
        rows
    }
}

/// The height of the grid: the fewest lines that hold all rows.
pub open spec fn grid_height(rows: int) -> int {
    (rows + grid_width(rows) - 1) / grid_width(rows)
}

/// Plans the product of a matrix of `rows` rows and `cols` columns
pub fn plan_dispatch(rows: usize, cols: usize) -> (r: Dispatch)
    requires
        rows as u32 > 0,
        rows as u32 + grid_width(rows as u32 as int) <= u32::MAX,
        rows * 4 <= usize::MAX,
    ensures
        r.rows == rows as u32,
        r.cols == cols as u32,
        r.dx == grid_width(rows as u32 as int),
        r.dy == grid_height(rows as u32 as int),
        r.out_size == rows * 4,
{
    let n: u32 = rows as u32;
    let dx: u32 = if n > WORKGROUP_LIMIT {
        WORKGROUP_LIMIT
    } else {
        n
    };
    let dy: u32 = (n + dx - 1) / dx;
    Dispatch { dx, dy, cols: cols as u32, rows: n, out_size: (rows * 4) as u64 }
}

/// Every row has exactly one workgroup: `row` has the one in column `row % width`
/// and line `row / width` of the grid, and a workgroup stands for no other row than
/// its column plus its line times the width.
pub proof fn law_each_row_has_one_workgroup(rows: int, row: int, x: int, y: int)
    requires
        0 <= row < rows,
        0 <= x < grid_width(rows),
        0 <= y,
    ensures
        0 <= row % grid_width(rows) < grid_width(rows),
        0 <= row / grid_width(rows) < grid_height(rows),
        row % grid_width(rows) + row / grid_width(rows) * grid_width(rows) == row,
        x + y * grid_width(rows) == row ==> x == row % grid_width(rows) && y == row / grid_width(
            rows,
        ),
{
    let w = grid_width(rows);
    vstd::arithmetic::div_mod::lemma_fundamental_div_mod(row, w);
    vstd::arithmetic::div_mod::lemma_div_pos_is_pos(row, w);
    let q = row / w;
    assert(w * q == q * w) by (nonlinear_arith);
    vstd::arithmetic::div_mod::lemma_fundamental_div_mod(rows + w - 1, w);
    let h = grid_height(rows);
    assert(w * h == h * w) by (nonlinear_arith);
    assert(q < h) by (nonlinear_arith)
        requires
            q * w <= row,
            row < rows,
            h * w + w > rows + w - 1,
            w > 0,
    ;
    if x + y * w == row {
        vstd::arithmetic::div_mod::lemma_fundamental_div_mod_converse(row, w, y, x);
    }
}

/// Byte `k` of a word in memory, on a machine that stores the lowest byte first or
/// last.
pub open spec fn memory_byte(w: u32, k: int, lowest_last: bool) -> u8 {
    if lowest_last {
        (w >> ((24 - 8 * k) as u32)) as u8
    } else {
        (w >> ((8 * k) as u32)) as u8
    }
}

/// The bytes are those of the words in memory.
pub open spec fn memory_bytes(words: Seq<u32>, bytes: Seq<u8>, lowest_last: bool) -> bool {
    &&& bytes.len() == 4 * words.len()
    &&& forall|i: int|
        0 <= i < bytes.len() ==> #[trigger] bytes[i] == memory_byte(
            words[i / 4],
            i % 4,
            lowest_last,
        )
}

/// `bytemuck::cast_slice` shows the same memory as bytes: four for each word, in the
/// order in which the machine stores them. Nothing is said of which order that is.
#[verifier::external_body]
fn word_bytes(words: &[u32]) -> (r: &[u8])
    ensures
        memory_bytes(words@, r@, false) || memory_bytes(words@, r@, true),
{
    bytemuck::cast_slice(words)
}

impl Dispatch {
    /// The words of the shader's parameters.
    pub open spec fn words(self) -> Seq<u32> {
        seq![self.cols, self.rows, self.dx, 0]
    }

    /// The shader's parameters as they stand in memory
    pub fn param_bytes(&self) -> (r: Vec<u8>)
        ensures
            memory_bytes(self.words(), r@, false) || memory_bytes(self.words(), r@, true),
            r@.len() == 16,
    {
        let words = [self.cols, self.rows, self.dx, 0];
        assert(words@ =~= self.words());
        copy_bytes(word_bytes(&words))
    }
}

/// A vector, given by its single-precision patterns, as it stands in memory
pub fn vector_bytes(x: &[u32]) -> (r: Vec<u8>)
    ensures
        memory_bytes(x@, r@, false) || memory_bytes(x@, r@, true),
{
    copy_bytes(word_bytes(x))
}

fn copy_bytes(bytes: &[u8]) -> (r: Vec<u8>)
    ensures
        r@ == bytes@,
{
    let mut v: Vec<u8> = Vec::new();
    v.extend_from_slice(bytes);
    assert(v@ =~= bytes@);
    v
}

/// The bindings and the readers that all shaders share.
pub const WGSL_COMMON: &'static str = "
struct Params { cols: u32, rows: u32, block_size: u32, _pad: u32, };
@group(0) @binding(0) var<uniform> params: Params;
@group(0) @binding(1) var<storage, read> weight: array<u32>;
@group(0) @binding(2) var<storage, read> x: array<f32>;
@group(0) @binding(3) var<storage, read_write> out: array<f32>;

fn read_u8(base: u32) -> u32 {
  let word = weight[base >> 2u];
  return (word >> ((base & 3u) * 8u)) & 0xFFu;
}
fn read_u16(base: u32) -> u32 {
  let word = weight[base >> 2u];
  return (word >> ((base & 3u) * 8u)) & 0xFFFFu;
}
fn read_f16_val(base: u32) -> f32 {
  let bits = read_u16(base);
  let sign = (bits >> 15u) << 31u; let exp = (bits >> 10u) & 31u; let mantissa = bits & 1023u;
  if (exp == 0u) { let tiny = f32(mantissa) * 0.000000059604644775390625; return select(tiny, -tiny, sign != 0u); }
  if (exp == 31u) { return bitcast<f32>(sign | 0x7F800000u | (mantissa << 13u)); }
  return bitcast<f32>(sign | ((exp + 112u) << 23u) | (mantissa << 13u));
}
var<workgroup> wg_partial: array<f32, 256>;
";

/// Weights of type F32.
pub const WGSL_F32_BODY: &'static str = "
@compute @workgroup_size(256)
fn main(@builtin(workgroup_id) id: vec3<u32>, @builtin(local_invocation_index) lid: u32) {
    let row = id.x + id.y * params.block_size; if (row >= params.rows) { return; }
    var sum = 0.0;
    for (var col = lid; col < params.cols; col += 256u) {
        let flat = row * params.cols + col;
        sum += bitcast<f32>(weight[flat]) * x[col];
    }
    wg_partial[lid] = sum;
    workgroupBarrier();
    for (var s = 128u; s > 0u; s >>= 1u) {
        if (lid < s) { wg_partial[lid] += wg_partial[lid + s]; }
        workgroupBarrier();
    }
    if (lid == 0u) { out[row] = wg_partial[0]; }
}
";

/// Weights of type F16.
pub const WGSL_F16_BODY: &'static str = "
@compute @workgroup_size(256)
fn main(@builtin(workgroup_id) id: vec3<u32>, @builtin(local_invocation_index) lid: u32) {
    let row = id.x + id.y * params.block_size; if (row >= params.rows) { return; }
    var sum = 0.0;
    for (var col = lid; col < params.cols; col += 256u) {
        let base = (row * params.cols + col) * 2u;
        sum += read_f16_val(base) * x[col];
    }
    wg_partial[lid] = sum;
    workgroupBarrier();
    for (var s = 128u; s > 0u; s >>= 1u) {
        if (lid < s) { wg_partial[lid] += wg_partial[lid + s]; }
        workgroupBarrier();
    }
    if (lid == 0u) { out[row] = wg_partial[0]; }
}
";

/// Weights of type Q8_0.
pub const WGSL_Q8_0_BODY: &'static str = "
@compute @workgroup_size(256)
fn main(@builtin(workgroup_id) id: vec3<u32>, @builtin(local_invocation_index) lid: u32) {
    let row = id.x + id.y * params.block_size; if (row >= params.rows) { return; }
    var sum = 0.0;
    for (var col = lid; col < params.cols; col += 256u) {
        let flat = row * params.cols + col;
        let block = flat / 32u; let pos = flat % 32u;
        let d = read_f16_val(block * 34u);
        let b = read_u8(block * 34u + 2u + pos);
        let q = i32(b) - 256 * i32(b >> 7u);
        sum += d * f32(q) * x[col];
    }
    wg_partial[lid] = sum;
    workgroupBarrier();
    for (var s = 128u; s > 0u; s >>= 1u) {
        if (lid < s) { wg_partial[lid] += wg_partial[lid + s]; }
        workgroupBarrier();
    }
    if (lid == 0u) { out[row] = wg_partial[0]; }
}
";

/// Weights of type Q4_0.
pub const WGSL_Q4_0_BODY: &'static str = "
@compute @workgroup_size(256)
fn main(@builtin(workgroup_id) id: vec3<u32>, @builtin(local_invocation_index) lid: u32) {
    let row = id.x + id.y * params.block_size; if (row >= params.rows) { return; }
    var sum = 0.0;
    for (var col = lid; col < params.cols; col += 256u) {
        let flat = row * params.cols + col;
        let block = flat / 32u; let pos = flat % 32u;
        let w_base = block * 18u;
        let d = read_f16_val(w_base);
        let byte_val = read_u8(w_base + 2u + pos / 2u);
        let nibble = select(byte_val >> 4u, byte_val & 0x0Fu, (pos & 1u) == 0u);
        sum += d * f32(i32(nibble) - 8) * x[col];
    }
    wg_partial[lid] = sum;
    workgroupBarrier();
    for (var s = 128u; s > 0u; s >>= 1u) {
        if (lid < s) { wg_partial[lid] += wg_partial[lid + s]; }
        workgroupBarrier();
    }
    if (lid == 0u) { out[row] = wg_partial[0]; }
}
";

/// Weights of type Q5_0.
pub const WGSL_Q5_0_BODY: &'static str = "
@compute @workgroup_size(256)
fn main(@builtin(workgroup_id) id: vec3<u32>, @builtin(local_invocation_index) lid: u32) {
    let row = id.x + id.y * params.block_size; if (row >= params.rows) { return; }
    var sum = 0.0;
    for (var col = lid; col < params.cols; col += 256u) {
        let flat = row * params.cols + col;
        let block = flat / 32u; let pos = flat % 32u;
        let w_base = block * 22u;
        let d = read_f16_val(w_base);
        let qh = read_u8(w_base+2u)|(read_u8(w_base+3u)<<8u)|(read_u8(w_base+4u)<<16u)|(read_u8(w_base+5u)<<24u);
        let qs_addr = w_base + 6u;
        var xl: u32;
        if (pos < 16u) { xl = read_u8(qs_addr + pos) & 0x0Fu; }
        else { xl = read_u8(qs_addr + pos - 16u) >> 4u; }
        let xh = ((qh >> pos) & 1u) << 4u;
        sum += d * f32(i32(xl | xh) - 16) * x[col];
    }
    wg_partial[lid] = sum;
    workgroupBarrier();
    for (var s = 128u; s > 0u; s >>= 1u) {
        if (lid < s) { wg_partial[lid] += wg_partial[lid + s]; }
        workgroupBarrier();
    }
    if (lid == 0u) { out[row] = wg_partial[0]; }
}
";

/// Weights of type Q4_K.
pub const WGSL_Q4_K_BODY: &'static str = "
fn get_scale_min_q4k(w_base: u32, j: u32) -> vec2<f32> {
    let sa = w_base + 4u;
    let sc_b = read_u8(sa + j); let m_b = read_u8(sa + j + 4u);
    var d: u32; var m: u32;
    if (j < 4u) { d = sc_b & 63u; m = m_b & 63u; }
    else {
        d = (read_u8(sa+j+4u) & 0x0Fu) | ((read_u8(sa+j-4u) >> 6u) << 4u);
        m = (read_u8(sa+j+4u) >> 4u) | ((read_u8(sa+j) >> 6u) << 4u);
    }
    return vec2(f32(d), f32(m));
}
@compute @workgroup_size(256)
fn main(@builtin(workgroup_id) id: vec3<u32>, @builtin(local_invocation_index) lid: u32) {
    let row = id.x + id.y * params.block_size; if (row >= params.rows) { return; }
    var sum = 0.0;
    for (var col = lid; col < params.cols; col += 256u) {
        let flat = row * params.cols + col;
        let block = flat / 256u; let pos = flat % 256u;
        let w_base = block * 144u;
        let sub = pos / 32u; let in_sub = pos % 32u;
        let qs_base = (sub / 2u) * 32u + in_sub;
        let qs_byte = read_u8(w_base + 16u + qs_base);
        let is_even = (sub & 1u) == 0u;
        let nibble = select(qs_byte >> 4u, qs_byte & 0x0Fu, is_even);
        let sm = get_scale_min_q4k(w_base, sub);
        let d_scale = read_f16_val(w_base);
        let d_min = read_f16_val(w_base + 2u);
        sum += (d_scale * sm.x * f32(nibble) - d_min * sm.y) * x[col];
    }
    wg_partial[lid] = sum;
    workgroupBarrier();
    for (var s = 128u; s > 0u; s >>= 1u) {
        if (lid < s) { wg_partial[lid] += wg_partial[lid + s]; }
        workgroupBarrier();
    }
    if (lid == 0u) { out[row] = wg_partial[0]; }
}
";

/// Weights of type Q5_K.
pub const WGSL_Q5_K_BODY: &'static str = "
fn get_scale_min(base: u32, j: u32) -> vec2<f32> {
    let sa = base + 4u;
    let sc_b = read_u8(sa + j); let m_b = read_u8(sa + j + 4u);
    var d: u32; var m: u32;
    if (j < 4u) { d = sc_b & 63u; m = m_b & 63u; }
    else {
        d = (read_u8(sa+j+4u) & 0x0Fu) | ((read_u8(sa+j-4u) >> 6u) << 4u);
        m = (read_u8(sa+j+4u) >> 4u) | ((read_u8(sa+j) >> 6u) << 4u);
    }
    return vec2(f32(d), f32(m));
}
@compute @workgroup_size(256)
fn main(@builtin(workgroup_id) id: vec3<u32>, @builtin(local_invocation_index) lid: u32) {
    let row = id.x + id.y * params.block_size; if (row >= params.rows) { return; }
    var sum = 0.0;
    for (var col = lid; col < params.cols; col += 256u) {
        let flat = row * params.cols + col;
        let block = flat / 256u; let pos = flat % 256u;
        let w_base = block * 176u;
        let sub = pos / 32u; let in_sub = pos % 32u;
        let sm = get_scale_min(w_base, sub);
        let d_scale = read_f16_val(w_base); let d_min = read_f16_val(w_base + 2u);
        let qs_base = (sub / 2u) * 32u + in_sub;
        let qs_byte = read_u8(w_base + 48u + qs_base);
        let is_even = (sub & 1u) == 0u;
        let lo = select(qs_byte >> 4u, qs_byte & 0x0Fu, is_even);
        let hi_bit = read_u8(w_base + 16u + in_sub) & (1u << sub);
        let hi = select(0u, 16u, hi_bit != 0u);
        sum += (d_scale * sm.x * f32(lo + hi) - d_min * sm.y) * x[col];
    }
    wg_partial[lid] = sum;
    workgroupBarrier();
    for (var s = 128u; s > 0u; s >>= 1u) {
        if (lid < s) { wg_partial[lid] += wg_partial[lid + s]; }
        workgroupBarrier();
    }
    if (lid == 0u) { out[row] = wg_partial[0]; }
}
";

/// Weights of type Q6_K.
pub const WGSL_Q6_K_BODY: &'static str = "
@compute @workgroup_size(256)
fn main(@builtin(workgroup_id) id: vec3<u32>, @builtin(local_invocation_index) lid: u32) {
    let row = id.x + id.y * params.block_size; if (row >= params.rows) { return; }
    var sum = 0.0;
    for (var col = lid; col < params.cols; col += 256u) {
        let flat = row * params.cols + col;
        let block = flat / 256u; let pos = flat % 256u;
        let w_base = block * 210u;
        let sub = pos / 128u; let idx = pos % 128u;
        let in32 = idx % 32u; let sub2 = idx / 32u;
        let ql_off = sub * 64u + in32;
        let qh_off = sub * 32u + in32;
        let ql0 = read_u8(w_base + ql_off);
        let ql1 = read_u8(w_base + ql_off + 32u);
        let qh = read_u8(w_base + 128u + qh_off);
        var lo: u32; var hi: u32;
        if (sub2 == 0u) { lo = ql0 & 0x0Fu; hi = (qh >> 0u) & 3u; }
        else if (sub2 == 1u) { lo = ql1 & 0x0Fu; hi = (qh >> 2u) & 3u; }
        else if (sub2 == 2u) { lo = ql0 >> 4u; hi = (qh >> 4u) & 3u; }
        else { lo = ql1 >> 4u; hi = (qh >> 6u) & 3u; }
        let q = i32(lo | (hi << 4u)) - 32;
        let sc = read_u8(w_base + 192u + sub * 8u + sub2 * 2u + in32 / 16u);
        let d = read_f16_val(w_base + 208u);
        sum += d * (f32(i32(sc)) - 256.0 * f32(i32(sc >> 7u))) * f32(q) * x[col];
    }
    wg_partial[lid] = sum;
    workgroupBarrier();
    for (var s = 128u; s > 0u; s >>= 1u) {
        if (lid < s) { wg_partial[lid] += wg_partial[lid + s]; }
        workgroupBarrier();
    }
    if (lid == 0u) { out[row] = wg_partial[0]; }
}
";

/// The grid keeps to the limit of 65535 workgroups in a line, has no line without a row, and
/// has more than one line only where one is not enough.
pub proof fn law_grid_is_no_larger_than_needed(rows: int)
    requires
        0 < rows,
    ensures
        0 < grid_width(rows) <= 65535,
        grid_width(rows) <= rows,
        rows <= 65535 ==> grid_width(rows) == rows && grid_height(rows) == 1,
        (grid_height(rows) - 1) * grid_width(rows) < rows <= grid_height(rows) * grid_width(rows),
{
    let w = grid_width(rows);
    let h = grid_height(rows);
    vstd::arithmetic::div_mod::lemma_fundamental_div_mod(rows + w - 1, w);
    assert(w * h == h * w) by (nonlinear_arith);
    assert((h - 1) * w == h * w - w) by (nonlinear_arith);
    if rows <= 65535 {
        vstd::arithmetic::div_mod::lemma_fundamental_div_mod_converse(rows + w - 1, w, 1, w - 1);
    }
}

/// The types that can be decoded are those with a pipeline of their own.
pub proof fn law_decodable_types_have_pipelines(t: GgufDataType)
    ensures
        decodable(t) <==> shader_key(t) < 8,
{
}

} // verus!
