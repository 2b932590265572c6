//! Quantized weight formats: where each weight of a block is stored, and the
//! walk over a matrix whose weights stay quantized.
//!
//! A decoded weight is a small product of a half-precision scale and integers;
//! `Numbers::weight_value` carries it out.

use crate::gguf::GgufDataType;
use crate::ieee::half_widened;
use crate::text::{decimal, push_decimal};
use vstd::prelude::*;
use vstd::string::StringExecFns;

pub use crate::ieee::fp16_to_fp32;

verus! {

broadcast use vstd::string::group_string_axioms;

/// A weight before its product is carried out in single precision. All floats
/// are bit patterns.
#[derive(Debug, Clone, Copy, PartialEq, Eq, Structural)]
pub enum Weight {
    /// The value itself.
    Single(u32),
    /// `d * q`
    Scaled { d: u32, q: i32 },
    /// `(d * sc) * q`
    Grouped { d: u32, sc: i32, q: i32 },
    /// `(d * sc) * q - dmin * m`
    Offset { d: u32, sc: i32, q: i32, dmin: u32, m: i32 },
}

/// The half-precision pattern in two bytes of `s` from `p` on.
pub open spec fn half_bits(s: Seq<u8>, p: int) -> u16 {
    (s[p] as int + 256 * s[p + 1]) as u16
}

/// The single-precision pattern in four bytes of `s` from `p` on.
pub open spec fn single_bits(s: Seq<u8>, p: int) -> u32 {
    (s[p] as int + 256 * (s[p + 1] as int + 256 * (s[p + 2] as int + 256 * s[p + 3]))) as u32
}

/// The half-precision number in two bytes, widened.
pub open spec fn half_at(s: Seq<u8>, p: int) -> u32 {
    half_widened(half_bits(s, p))
}

/// Read f16 from 2 bytes (little-endian) and convert to f32 bits
pub fn read_fp16_le(bytes: &[u8]) -> (r: u32)
    requires
        bytes@.len() >= 2,
    ensures
        r == half_at(bytes@, 0),
{
    fp16_to_fp32(bytes[0] as u16 + 256 * bytes[1] as u16)
}

fn read_half(bytes: &[u8], p: usize) -> (r: u32)
    requires
        p + 2 <= bytes@.len(),
    ensures
        r == half_at(bytes@, p as int),
{
    assert(bytes.len() <= usize::MAX);
    fp16_to_fp32(bytes[p] as u16 + 256 * bytes[p + 1] as u16)
}

/// The low or the high four bits of a byte.
pub open spec fn nibble(b: u8, high: bool) -> int {
    if high {
        b as int / 16
    } else {
        b as int % 16
    }
}

/// The scale and the minimum of sub-block `j`, six bits each, out of twelve
/// packed bytes from `p` on. The first four pairs have a byte for each number;
/// the other four have their low bits in the last four bytes and their high
/// bits at the top of the first eight.
pub open spec fn scale_min(s: Seq<u8>, p: int, j: int) -> (int, int) {
    if j < 4 {
        (s[p + j] as int % 64, s[p + j + 4] as int % 64)
    } else {
        (
            s[p + j + 4] as int % 16 + 16 * (s[p + j - 4] as int / 64),
            s[p + j + 4] as int / 16 + 16 * (s[p + j] as int / 64),
        )
    }
}

fn get_scale_min_k4(j: usize, bytes: &[u8], p: usize) -> (r: (u8, u8))
    requires
        j < 8,
        p + 12 <= bytes@.len(),
    ensures
        r.0 == scale_min(bytes@, p as int, j as int).0,
        r.1 == scale_min(bytes@, p as int, j as int).1,
{
    assert(bytes.len() <= usize::MAX);
    if j < 4 {
        (bytes[p + j] % 64, bytes[p + j + 4] % 64)
    } else {
        (
            bytes[p + j + 4] % 16 + 16 * (bytes[p + j - 4] / 64),
            bytes[p + j + 4] / 16 + 16 * (bytes[p + j] / 64),
        )
    }
}

/// Bit `k` of a byte.
pub open spec fn bit(b: u8, k: int) -> int {
    ((b >> k) & 1) as int
}

/// Bits `2 * k` and `2 * k + 1` of a byte.
pub open spec fn bit_pair(b: u8, k: int) -> int {
    ((b >> (2 * k)) & 3) as int
}

/// Q8_0: a half-precision scale, then 32 signed bytes.
pub open spec fn q8_0_weight(s: Seq<u8>, p: int, i: int) -> Weight {
    Weight::Scaled { d: half_at(s, p), q: s[p + 2 + i] as i8 as i32 }
}

/// Q4_0: a half-precision scale, then 32 nibbles, low before high, each counted
/// from eight.
pub open spec fn q4_0_weight(s: Seq<u8>, p: int, i: int) -> Weight {
    Weight::Scaled {
        d: half_at(s, p),
        q: (nibble(s[p + 2 + i / 2], i % 2 == 1) - 8) as i32,
    }
}

/// Q5_0: a half-precision scale, 32 high bits, then 16 bytes whose low nibbles
/// belong to the first half of the block and whose high ones to the second;
/// each value is counted from sixteen.
pub open spec fn q5_0_weight(s: Seq<u8>, p: int, i: int) -> Weight {
    Weight::Scaled {
        d: half_at(s, p),
        q: (nibble(s[p + 6 + i % 16], i >= 16) + 16 * bit(s[p + 2 + i / 8], i % 8) - 16) as i32,
    }
}

/// Q4_K: two half-precision scales, eight packed pairs of scale and minimum,
/// then four runs of 32 bytes. Each run holds two sub-blocks of 32 weights, in
/// the low and in the high nibbles.
pub open spec fn q4_k_weight(s: Seq<u8>, p: int, i: int) -> Weight {
    let (sc, m) = scale_min(s, p + 4, i / 32);
    Weight::Offset {
        d: half_at(s, p),
        sc: sc as i32,
        q: nibble(s[p + 16 + i / 64 * 32 + i % 32], i / 32 % 2 == 1) as i32,
        dmin: half_at(s, p + 2),
        m: m as i32,
    }
}

/// Q5_K: as Q4_K, with 32 bytes of high bits in front of the nibbles: bit `j` of
/// byte `l` belongs to weight `l` of sub-block `j`.
pub open spec fn q5_k_weight(s: Seq<u8>, p: int, i: int) -> Weight {
    let (sc, m) = scale_min(s, p + 4, i / 32);
    Weight::Offset {
        d: half_at(s, p),
        sc: sc as i32,
        q: (nibble(s[p + 48 + i / 64 * 32 + i % 32], i / 32 % 2 == 1) + 16 * bit(
            s[p + 16 + i % 32],
            i / 32,
        )) as i32,
        dmin: half_at(s, p + 2),
        m: m as i32,
    }
}

/// Q6_K: 128 bytes of low nibbles, 64 bytes of high bit pairs, 16 signed scales,
/// then a half-precision scale. The block has two halves of four runs of 32
/// weights; runs 0 and 2 share their bytes of low nibbles, as do 1 and 3, and all
/// four share their bytes of high bits. Each value is counted from 32.
pub open spec fn q6_k_weight(s: Seq<u8>, p: int, i: int) -> Weight {
    let half = i / 128;
    let run = i % 128 / 32;
    let l = i % 32;
    Weight::Grouped {
        d: half_at(s, p + 208),
        sc: s[p + 192 + 8 * half + 2 * run + l / 16] as i8 as i32,
        q: (nibble(s[p + 64 * half + 32 * (run % 2) + l], run >= 2) + 16 * bit_pair(
            s[p + 128 + 32 * half + l],
            run,
        ) - 32) as i32,
    }
}

/// The types whose weights can be decoded.
pub open spec fn decodable(t: GgufDataType) -> bool {
    match t {
        GgufDataType::F32
        | GgufDataType::F16
        | GgufDataType::Q8_0
        | GgufDataType::Q4_0
        | GgufDataType::Q5_0
        | GgufDataType::Q4_K
        | GgufDataType::Q5_K
        | GgufDataType::Q6_K => true,
        _ => false,
    }
}

/// Weight `i` of the block that starts at `p`.
pub open spec fn weight_at(t: GgufDataType, s: Seq<u8>, p: int, i: int) -> Weight {
    match t {
        GgufDataType::F32 => Weight::Single(single_bits(s, p + 4 * i)),
        GgufDataType::F16 => Weight::Single(half_at(s, p + 2 * i)),
        GgufDataType::Q8_0 => q8_0_weight(s, p, i),
        GgufDataType::Q4_0 => q4_0_weight(s, p, i),
        GgufDataType::Q5_0 => q5_0_weight(s, p, i),
        GgufDataType::Q4_K => q4_k_weight(s, p, i),
        GgufDataType::Q5_K => q5_k_weight(s, p, i),
        GgufDataType::Q6_K => q6_k_weight(s, p, i),
        _ => Weight::Single(0),
    }
}

fn read_bit(b: u8, k: usize) -> (r: u32)
    requires
        k < 8,
    ensures
        r == bit(b, k as int),
        r <= 1,
{
    assert((b >> k) & 1 <= 1) by (bit_vector);
    ((b >> k) & 1) as u32
}

fn read_bit_pair(b: u8, k: usize) -> (r: u32)
    requires
        k < 4,
    ensures
        r == bit_pair(b, k as int),
        r <= 3,
{
    let n: usize = 2 * k;
    assert((b >> n) & 3 <= 3) by (bit_vector);
    ((b >> n) & 3) as u32
}

fn read_nibble(b: u8, high: bool) -> (r: u32)
    ensures
        r == nibble(b, high),
        r < 16,
{
    if high {
        (b / 16) as u32
    } else {
        (b % 16) as u32
    }
}

fn decode_q5_0(data: &[u8], p: usize, i: usize) -> (r: Weight)
    requires
        i < 32,
        p + 22 <= data@.len(),
    ensures
        r == q5_0_weight(data@, p as int, i as int),
{
    assert(data.len() <= usize::MAX);
    let xl: u32 = read_nibble(data[p + 6 + i % 16], i >= 16);
    let xh: u32 = read_bit(data[p + 2 + i / 8], i % 8);
    Weight::Scaled { d: read_half(data, p), q: (xl + 16 * xh) as i32 - 16 }
}

fn decode_q4_k(data: &[u8], p: usize, i: usize) -> (r: Weight)
    requires
        i < 256,
        p + 144 <= data@.len(),
    ensures
        r == q4_k_weight(data@, p as int, i as int),
{
    assert(data.len() <= usize::MAX);
    let (sc, m) = get_scale_min_k4(i / 32, data, p + 4);
    Weight::Offset {
        d: read_half(data, p),
        sc: sc as i32,
        q: read_nibble(data[p + 16 + i / 64 * 32 + i % 32], i / 32 % 2 == 1) as i32,
        dmin: read_half(data, p + 2),
        m: m as i32,
    }
}

fn decode_q5_k(data: &[u8], p: usize, i: usize) -> (r: Weight)
    requires
        i < 256,
        p + 176 <= data@.len(),
    ensures
        r == q5_k_weight(data@, p as int, i as int),
{
    assert(data.len() <= usize::MAX);
    let (sc, m) = get_scale_min_k4(i / 32, data, p + 4);
    let lo: u32 = read_nibble(data[p + 48 + i / 64 * 32 + i % 32], i / 32 % 2 == 1);
    let hi: u32 = read_bit(data[p + 16 + i % 32], i / 32);
    Weight::Offset {
        d: read_half(data, p),
        sc: sc as i32,
        q: (lo + 16 * hi) as i32,
        dmin: read_half(data, p + 2),
        m: m as i32,
    }
}

fn decode_q6_k(data: &[u8], p: usize, i: usize) -> (r: Weight)
    requires
        i < 256,
        p + 210 <= data@.len(),
    ensures
        r == q6_k_weight(data@, p as int, i as int),
{
    assert(data.len() <= usize::MAX);
    let half: usize = i / 128;
    let run: usize = i % 128 / 32;
    let l: usize = i % 32;
    let lo: u32 = read_nibble(data[p + 64 * half + 32 * (run % 2) + l], run >= 2);
    let hi: u32 = read_bit_pair(data[p + 128 + 32 * half + l], run);
    Weight::Grouped {
        d: read_half(data, p + 208),
        sc: data[p + 192 + 8 * half + 2 * run + l / 16] as i8 as i32,
        q: (lo + 16 * hi) as i32 - 32,
    }
}

/// Whether weight `i` of the block at `p` is read from `s`: the formats without
/// sub-blocks pass over what lies behind the end of the bytes.
pub open spec fn present(t: GgufDataType, s: Seq<u8>, p: int, i: int) -> bool {
    match t {
        GgufDataType::F32 => p + 4 * i + 4 <= s.len(),
        GgufDataType::F16 => p + 2 * i + 2 <= s.len(),
        GgufDataType::Q8_0 => p + 2 + i < s.len(),
        _ => decodable(t),
    }
}

/// The bytes of the block at `p` that reading it cannot do without.
pub open spec fn readable(t: GgufDataType, s: Seq<u8>, p: int) -> bool {
    match t {
        GgufDataType::Q8_0 => p + 2 <= s.len(),
        GgufDataType::Q4_0 => p + 18 <= s.len(),
        GgufDataType::Q5_0 => p + 22 <= s.len(),
        GgufDataType::Q4_K => p + 144 <= s.len(),
        GgufDataType::Q5_K => p + 176 <= s.len(),
        GgufDataType::Q6_K => p + 210 <= s.len(),
        _ => true,
    }
}

fn decode_weight(t: GgufDataType, data: &[u8], p: usize, i: usize) -> (r: Option<Weight>)
    requires
        i < t.block_len(),
        readable(t, data@, p as int),
    ensures
        r == (if present(t, data@, p as int, i as int) {
            Some(weight_at(t, data@, p as int, i as int))
        } else {
            None
        }),
{
    assert(data.len() <= usize::MAX);
    match t {
        GgufDataType::F32 => if p < data.len() && data.len() - p >= 4 {
            Some(
                Weight::Single(
                    data[p] as u32 + 256 * (data[p + 1] as u32 + 256 * (data[p + 2] as u32 + 256
                        * data[p + 3] as u32)),
                ),
            )
        } else {
            None
        },
        GgufDataType::F16 => if p < data.len() && data.len() - p >= 2 {
            Some(Weight::Single(read_half(data, p)))
        } else {
            None
        },
        GgufDataType::Q8_0 => if i < data.len() - p - 2 {
            Some(Weight::Scaled { d: read_half(data, p), q: data[p + 2 + i] as i8 as i32 })
        } else {
            None
        },
        GgufDataType::Q4_0 => {
            let n: u32 = read_nibble(data[p + 2 + i / 2], i % 2 == 1);
            Some(Weight::Scaled { d: read_half(data, p), q: n as i32 - 8 })
        },
        GgufDataType::Q5_0 => Some(decode_q5_0(data, p, i)),
        GgufDataType::Q4_K => Some(decode_q4_k(data, p, i)),
        GgufDataType::Q5_K => Some(decode_q5_k(data, p, i)),
        GgufDataType::Q6_K => Some(decode_q6_k(data, p, i)),
        _ => None,
    }
}

/// How many blocks `n` weights take.
pub open spec fn blocks_for(n: nat, len: nat) -> nat
    recommends
        len > 0,
{
    ((n + len - 1) as nat) / len
}

proof fn lemma_blocks_for(n: nat, len: nat)
    requires
        len > 0,
    ensures
        n <= blocks_for(n, len) * len < n + len,
{
    let v = n + len - 1;
    vstd::arithmetic::div_mod::lemma_fundamental_div_mod(v, len as int);
    let q = v / len as int;
    assert(len * q == q * len) by (nonlinear_arith);
}

/// A block in front of the end of the weights is one of the blocks that they
/// take.
proof fn lemma_block_index(n: nat, len: nat, b: nat)
    requires
        len > 0,
    ensures
        b < blocks_for(n, len) <==> b * len < n,
{
    lemma_blocks_for(n, len);
    let q = blocks_for(n, len);
    if b < q {
        assert(b * len + len <= q * len) by (nonlinear_arith)
            requires
                b + 1 <= q,
        ;
    } else {
        assert(q * len <= b * len) by (nonlinear_arith)
            requires
                q <= b,
        ;
    }
}

proof fn lemma_split(f: int, len: int, b: int, k: int)
    requires
        len > 0,
        0 <= k < len,
        f == b * len + k,
    ensures
        f / len == b,
        f % len == k,
{
    vstd::arithmetic::div_mod::lemma_fundamental_div_mod_converse(f, len, b, k);
}

proof fn lemma_fields(f: int, len: int)
    requires
        len > 0,
        f >= 0,
    ensures
        f == f / len * len + f % len,
        0 <= f % len < len,
        f / len >= 0,
{
    vstd::arithmetic::div_mod::lemma_fundamental_div_mod(f, len);
    vstd::arithmetic::div_mod::lemma_div_pos_is_pos(f, len);
    let q = f / len;
    assert(len * q == q * len) by (nonlinear_arith);
}

/// Why weights cannot be decoded.
#[derive(Debug, Clone, Copy, PartialEq, Eq, Structural)]
pub enum QuantError {
    /// There are fewer bytes than the elements take.
    TooShort { dtype: GgufDataType, expected: usize, n_elements: usize, got: usize },
    /// The type cannot be decoded.
    Unsupported(GgufDataType),
}

/// The name of a data type.
pub open spec fn dtype_label_view(t: GgufDataType) -> Seq<char> {
    match t {
        GgufDataType::F32 => "F32"@,
        GgufDataType::F16 => "F16"@,
        GgufDataType::Q4_0 => "Q4_0"@,
        GgufDataType::Q4_1 => "Q4_1"@,
        GgufDataType::Q5_0 => "Q5_0"@,
        GgufDataType::Q5_1 => "Q5_1"@,
        GgufDataType::Q8_0 => "Q8_0"@,
        GgufDataType::Q8_1 => "Q8_1"@,
        GgufDataType::Q2_K => "Q2_K"@,
        GgufDataType::Q3_K => "Q3_K"@,
        GgufDataType::Q4_K => "Q4_K"@,
        GgufDataType::Q5_K => "Q5_K"@,
        GgufDataType::Q6_K => "Q6_K"@,
    }
}

/// The name of a data type.
pub fn dtype_label(t: GgufDataType) -> (r: &'static str)
    ensures
        r@ == dtype_label_view(t),
{
    match t {
        GgufDataType::F32 => "F32",
        GgufDataType::F16 => "F16",
        GgufDataType::Q4_0 => "Q4_0",
        GgufDataType::Q4_1 => "Q4_1",
        GgufDataType::Q5_0 => "Q5_0",
        GgufDataType::Q5_1 => "Q5_1",
        GgufDataType::Q8_0 => "Q8_0",
        GgufDataType::Q8_1 => "Q8_1",
        GgufDataType::Q2_K => "Q2_K",
        GgufDataType::Q3_K => "Q3_K",
        GgufDataType::Q4_K => "Q4_K",
        GgufDataType::Q5_K => "Q5_K",
        GgufDataType::Q6_K => "Q6_K",
    }
}

impl QuantError {
    /// A sentence that names the error.
    pub open spec fn message_view(self) -> Seq<char> {
        match self {
            QuantError::TooShort { dtype, expected, n_elements, got } => if dtype.block_len() == 1 {
                dtype_label_view(dtype) + ": expected "@ + decimal(expected as nat) + " bytes, got "@
                    + decimal(got as nat)
            } else {
                dtype_label_view(dtype) + ": expected at least "@ + decimal(expected as nat)
                    + " bytes for "@ + decimal(n_elements as nat) + " elements, got "@ + decimal(
                    got as nat,
                )
            },
            QuantError::Unsupported(dtype) => "Unsupported quantization type: "@ + dtype_label_view(
                dtype,
            ),
        }
    }

    /// A sentence that names the error.
    pub fn message(&self) -> (r: String)
        ensures
            r@ == self.message_view(),
    {
        match self {
            QuantError::TooShort { dtype, expected, n_elements, got } => {
                let mut s = dtype_label(*dtype).to_owned();
                if dtype.block_size() == 1 {
                    s.append(": expected ");
                    push_decimal(&mut s, *expected as u64);
                    s.append(" bytes, got ");
                } else {
                    s.append(": expected at least ");
                    push_decimal(&mut s, *expected as u64);
                    s.append(" bytes for ");
                    push_decimal(&mut s, *n_elements as u64);
                    s.append(" elements, got ");
                }
                push_decimal(&mut s, *got as u64);
                s
            },
            QuantError::Unsupported(dtype) => {
                let mut s = "Unsupported quantization type: ".to_owned();
                s.append(dtype_label(*dtype));
                s
            },
        }
    }
}

/// Weight `f` of a run of blocks that starts with the bytes.
pub open spec fn flat_weight(t: GgufDataType, s: Seq<u8>, f: int) -> Weight {
    weight_at(t, s, f / t.block_len() as int * t.block_width(), f % t.block_len() as int)
}

/// The bytes that `n` weights take.
pub open spec fn bytes_for(t: GgufDataType, n: nat) -> nat {
    blocks_for(n, t.block_len()) * t.block_width()
}

/// Whether the weights of a type can be decoded.
pub fn is_decodable(t: GgufDataType) -> (r: bool)
    ensures
        r == decodable(t),
{
    match t {
        GgufDataType::F32
        | GgufDataType::F16
        | GgufDataType::Q8_0
        | GgufDataType::Q4_0
        | GgufDataType::Q5_0
        | GgufDataType::Q4_K
        | GgufDataType::Q5_K
        | GgufDataType::Q6_K => true,
        _ => false,
    }
}

proof fn lemma_block_fits(t: GgufDataType, s: Seq<u8>, n: nat, f: int)
    requires
        decodable(t),
        bytes_for(t, n) <= s.len(),
        0 <= f < n,
    ensures
        f / t.block_len() as int * t.block_width() + t.block_width() <= bytes_for(t, n),
        f / t.block_len() as int >= 0,
        0 <= f % (t.block_len() as int) < t.block_len(),
        readable(t, s, f / t.block_len() as int * t.block_width()),
        present(t, s, f / t.block_len() as int * t.block_width(), f % t.block_len() as int),
{
    let len = t.block_len();
    let w = t.block_width();
    lemma_fields(f, len as int);
    let b = f / len as int;
    lemma_block_index(n, len, b as nat);
    let q = blocks_for(n, len);
    assert(b * w + w <= q * w) by (nonlinear_arith)
        requires
            b + 1 <= q,
            w >= 0,
    ;
}

/// Dequantize raw bytes based on the data type.
/// Returns `n_elements` weights.
pub fn dequantize(raw_data: &[u8], dtype: GgufDataType, n_elements: usize) -> (r: Result<
    Vec<Weight>,
    QuantError,
>)
    requires
        decodable(dtype) ==> n_elements + dtype.block_len() <= usize::MAX,
        decodable(dtype) ==> bytes_for(dtype, n_elements as nat) <= usize::MAX,
    ensures
        match r {
            Ok(v) => {
                &&& decodable(dtype)
                &&& bytes_for(dtype, n_elements as nat) <= raw_data@.len()
                &&& v@ == Seq::new(n_elements as nat, |f: int| flat_weight(dtype, raw_data@, f))
            },
            Err(QuantError::TooShort { dtype: t, expected, n_elements: n, got }) => {
                &&& decodable(dtype)
                &&& bytes_for(dtype, n_elements as nat) > raw_data@.len()
                &&& t == dtype && expected == bytes_for(dtype, n_elements as nat)
                &&& n == n_elements && got == raw_data@.len()
            },
            Err(QuantError::Unsupported(t)) => !decodable(dtype) && t == dtype,
        },
{
    if !is_decodable(dtype) {
        return Err(QuantError::Unsupported(dtype));
    }
    let block_size: usize = dtype.block_size();
    let block_bytes: usize = dtype.bytes_per_block();
    let n_blocks: usize = (n_elements + block_size - 1) / block_size;
    let expected: usize = n_blocks * block_bytes;
    if raw_data.len() < expected {
        return Err(QuantError::TooShort { dtype, expected, n_elements, got: raw_data.len() });
    }
    let mut out: Vec<Weight> = Vec::new();
    let mut f: usize = 0;
    while f < n_elements
        invariant
            f <= n_elements,
            out@.len() == f,
            decodable(dtype),
            block_size == dtype.block_len(),
            block_bytes == dtype.block_width(),
            bytes_for(dtype, n_elements as nat) <= raw_data@.len() <= usize::MAX,
            forall|j: int| 0 <= j < f ==> out@[j] == flat_weight(dtype, raw_data@, j),
        decreases n_elements - f,
    {
        proof {
            lemma_block_fits(dtype, raw_data@, n_elements as nat, f as int);
        }
        let p: usize = f / block_size * block_bytes;
        match decode_weight(dtype, raw_data, p, f % block_size) {
            Some(w) => {
                out.push(w);
            },
            None => {},
        }
        f += 1;
    }
    Ok(out)
}

/// The ranges of the integers in a weight of each type.
pub open spec fn in_range(t: GgufDataType, w: Weight) -> bool {
    match t {
        GgufDataType::F32 | GgufDataType::F16 => w is Single,
        GgufDataType::Q8_0 => w matches Weight::Scaled { q, .. } && -128 <= q <= 127,
        GgufDataType::Q4_0 => w matches Weight::Scaled { q, .. } && -8 <= q <= 7,
        GgufDataType::Q5_0 => w matches Weight::Scaled { q, .. } && -16 <= q <= 15,
        GgufDataType::Q4_K => w matches Weight::Offset { sc, q, m, .. } && 0 <= sc <= 63 && 0 <= m
            <= 63 && 0 <= q <= 15,
        GgufDataType::Q5_K => w matches Weight::Offset { sc, q, m, .. } && 0 <= sc <= 63 && 0 <= m
            <= 63 && 0 <= q <= 31,
        GgufDataType::Q6_K => w matches Weight::Grouped { sc, q, .. } && -128 <= sc <= 127 && -32
            <= q <= 31,
        _ => w == Weight::Single(0),
    }
}

proof fn lemma_bits_are_small()
    ensures
        forall|b: u8, k: int| 0 <= k < 8 ==> 0 <= #[trigger] bit(b, k) <= 1,
        forall|b: u8, k: int| 0 <= k < 4 ==> 0 <= #[trigger] bit_pair(b, k) <= 3,
{
    assert forall|b: u8, k: int| 0 <= k < 8 implies 0 <= #[trigger] bit(b, k) <= 1 by {
        let n = b >> k;
        assert(n & 1 <= 1) by (bit_vector);
    }
    assert forall|b: u8, k: int| 0 <= k < 4 implies 0 <= #[trigger] bit_pair(b, k) <= 3 by {
        let n = b >> (2 * k);
        assert(n & 3 <= 3) by (bit_vector);
    }
}

/// Whatever the bytes are, the integers of a decoded weight are in range.
pub proof fn law_weights_are_in_range(t: GgufDataType, s: Seq<u8>, p: int, i: int)
    requires
        0 <= i < t.block_len(),
    ensures
        in_range(t, weight_at(t, s, p, i)),
{
    lemma_bits_are_small();
}

/// Decoding undoes packing: where a Q5_0 block holds the low four bits of the
/// values `x` in its nibbles, first half low and second half high, and their
/// fifth bits in order, weight `i` is `x[i] - 16` scales.
pub proof fn law_q5_0_unpacks(s: Seq<u8>, p: int, x: Seq<u8>, i: int)
    requires
        x.len() == 32,
        forall|j: int| 0 <= j < 32 ==> #[trigger] x[j] < 32,
        forall|j: int| 0 <= j < 16 ==> #[trigger] s[p + 6 + j] == x[j] % 16 + 16 * (x[j + 16] % 16),
        forall|j: int| 0 <= j < 32 ==> bit(#[trigger] s[p + 2 + j / 8], j % 8) == x[j] / 16,
        0 <= i < 32,
    ensures
        weight_at(GgufDataType::Q5_0, s, p, i) == (Weight::Scaled {
            d: half_at(s, p),
            q: (x[i] - 16) as i32,
        }),
{
    assert(s[p + 6 + i % 16] == x[i % 16] % 16 + 16 * (x[i % 16 + 16] % 16));
    assert(x[i % 16] < 32 && x[i % 16 + 16] < 32);
    assert(bit(s[p + 2 + i / 8], i % 8) == x[i] / 16);
}

/// A weight matrix stored in quantized format, row after row.
/// Dequantization happens on-the-fly during mat-vec multiplication.
#[derive(Debug, Clone)]
pub struct QuantizedMatrix {
    /// raw quantized bytes
    pub data: Vec<u8>,
    pub dtype: GgufDataType,
    /// out_dim (slow dimension)
    pub rows: usize,
    /// in_dim (fast dimension)
    pub cols: usize,
}

/// Weights per block of a matrix; 256 for the types that cannot be decoded.
pub open spec fn matrix_block_len(t: GgufDataType) -> nat {
    if decodable(t) {
        t.block_len()
    } else {
        256
    }
}

/// Bytes per block of a matrix; none for the types that cannot be decoded.
pub open spec fn matrix_block_width(t: GgufDataType) -> nat {
    if decodable(t) {
        t.block_width()
    } else {
        0
    }
}

/// What position `i` of the block buffer holds once the blocks from `first` to
/// `b` have been decoded into it, one after the other: the last weight that was
/// there to be read, or zero.
pub open spec fn carried(t: GgufDataType, s: Seq<u8>, first: nat, b: nat, i: int) -> Weight
    decreases b,
{
    if present(t, s, (b * matrix_block_width(t)) as int, i) {
        weight_at(t, s, (b * matrix_block_width(t)) as int, i)
    } else if b <= first {
        Weight::Single(0)
    } else {
        carried(t, s, first, (b - 1) as nat, i)
    }
}

impl QuantizedMatrix {
    /// The number of weights.
    pub open spec fn total(&self) -> nat {
        self.rows as nat * self.cols as nat
    }

    /// The weights and the bytes can be counted.
    pub open spec fn countable(&self) -> bool {
        &&& self.total() + matrix_block_len(self.dtype) <= usize::MAX
        &&& blocks_for(self.total(), matrix_block_len(self.dtype)) * matrix_block_width(self.dtype)
            <= usize::MAX
    }

    /// Block `b` can be read.
    pub open spec fn block_readable(&self, b: nat) -> bool {
        readable(self.dtype, self.data@, (b * matrix_block_width(self.dtype)) as int)
    }

    /// The weight in a cell, when decoding starts with block `first`.
    pub open spec fn cell(&self, first: nat, row: int, col: int) -> Weight {
        let f = row * self.cols + col;
        let len = matrix_block_len(self.dtype) as int;
        carried(self.dtype, self.data@, first, (f / len) as nat, f % len)
    }

    /// The block in which a row starts.
    pub open spec fn first_block(&self, row: int) -> nat {
        (row * self.cols / matrix_block_len(self.dtype) as int) as nat
    }

    /// The blocks that hold weights of a row can be read.
    pub open spec fn row_readable(&self, row: int) -> bool {
        forall|b: nat|
            self.first_block(row) <= b && b * matrix_block_len(self.dtype) < row * self.cols
                + self.cols ==> #[trigger] self.block_readable(b)
    }

    /// All blocks can be read.
    pub open spec fn all_readable(&self) -> bool {
        forall|b: nat|
            b < blocks_for(self.total(), matrix_block_len(self.dtype))
                ==> #[trigger] self.block_readable(b)
    }

    pub fn new(data: Vec<u8>, dtype: GgufDataType, rows: usize, cols: usize) -> (r: Self)
        ensures
            r.data@ == data@,
            r.dtype == dtype,
            r.rows == rows,
            r.cols == cols,
    {
        QuantizedMatrix { data, dtype, rows, cols }
    }

    /// The weights can be decoded and counted, and their bytes are all there.
    pub open spec fn complete(&self) -> bool {
        &&& decodable(self.dtype)
        &&& self.countable()
        &&& bytes_for(self.dtype, self.total()) <= self.data@.len()
    }

    /// Whether the matrix can be read as a whole
    pub fn is_complete(&self) -> (r: bool)
        ensures
            r == self.complete(),
    {
        if !is_decodable(self.dtype) {
            return false;
        }
        proof {
            self.lemma_complete_is_readable();
            assert(self.rows * self.cols >= 0) by (nonlinear_arith);
        }
        let bs: usize = self.block_size();
        let total: usize = match self.rows.checked_mul(self.cols) {
            Some(t) => t,
            None => {
                return false;
            },
        };
        let padded: usize = match total.checked_add(bs) {
            Some(p) => p,
            None => {
                return false;
            },
        };
        let n_blocks: usize = (padded - 1) / bs;
        proof {
            assert(n_blocks * self.dtype.block_width() >= 0) by (nonlinear_arith);
        }
        match n_blocks.checked_mul(self.block_bytes()) {
            Some(n) => n <= self.data.len(),
            None => false,
        }
    }

    /// Every block and every row of a complete matrix can be read.
    pub proof fn lemma_complete_is_readable(&self)
        ensures
            self.complete() ==> self.all_readable(),
            self.complete() ==> forall|row: int|
                0 <= row < self.rows ==> #[trigger] self.row_readable(row),
    {
        if self.complete() {
            let n = self.total();
            let len = self.dtype.block_len();
            assert forall|b: nat| b * len < n implies #[trigger] self.block_readable(b) by {
                let f = (b * len) as int;
                lemma_split(f, len as int, b as int, 0);
                lemma_block_fits(self.dtype, self.data@, n, f);
            }
            assert forall|b: nat| b < blocks_for(n, len) implies #[trigger] self.block_readable(
                b,
            ) by {
                lemma_block_index(n, len, b);
            }
            assert forall|row: int| 0 <= row < self.rows implies #[trigger] self.row_readable(
                row,
            ) by {
                assert(row * self.cols + self.cols <= n) by (nonlinear_arith)
                    requires
                        row + 1 <= self.rows,
                        n == self.rows * self.cols,
                ;
            }
        }
    }

    fn block_size(&self) -> (r: usize)
        ensures
            r == matrix_block_len(self.dtype),
            r > 0,
    {
        if is_decodable(self.dtype) {
            self.dtype.block_size()
        } else {
            256
        }
    }

    fn block_bytes(&self) -> (r: usize)
        ensures
            r == matrix_block_width(self.dtype),
    {
        if is_decodable(self.dtype) {
            self.dtype.bytes_per_block()
        } else {
            0
        }
    }

    /// Dequantize one block into buf (buf.len() must be >= block_size).
    pub fn dequantize_block(&self, block_idx: usize, buf: &mut Vec<Weight>)
        requires
            old(buf)@.len() >= matrix_block_len(self.dtype),
            block_idx * matrix_block_width(self.dtype) <= usize::MAX,
            self.block_readable(block_idx as nat),
        ensures
            final(buf)@.len() == old(buf)@.len(),
            forall|i: int|
                0 <= i < final(buf)@.len() ==> #[trigger] final(buf)@[i] == (if i
                    < matrix_block_len(self.dtype) && present(
                    self.dtype,
                    self.data@,
                    block_idx * matrix_block_width(self.dtype),
                    i,
                ) {
                    weight_at(
                        self.dtype,
                        self.data@,
                        block_idx * matrix_block_width(self.dtype),
                        i,
                    )
                } else {
                    old(buf)@[i]
                }),
    {
        let bs: usize = self.block_size();
        let offset: usize = block_idx * self.block_bytes();
        if !is_decodable(self.dtype) {
            return;
        }
        let mut i: usize = 0;
        while i < bs
            invariant
                i <= bs,
                bs == matrix_block_len(self.dtype),
                decodable(self.dtype),
                buf@.len() == old(buf)@.len(),
                bs <= buf@.len(),
                offset == block_idx * matrix_block_width(self.dtype),
                self.block_readable(block_idx as nat),
                forall|j: int|
                    0 <= j < buf@.len() ==> #[trigger] buf@[j] == (if j < i && present(
                        self.dtype,
                        self.data@,
                        offset as int,
                        j,
                    ) {
                        weight_at(self.dtype, self.data@, offset as int, j)
                    } else {
                        old(buf)@[j]
                    }),
            decreases bs - i,
        {
            match decode_weight(self.dtype, self.data.as_slice(), offset, i) {
                Some(w) => {
                    buf.set(i, w);
                },
                None => {},
            }
            i += 1;
        }
    }

    /// Dequantize a single row (all cols) into buf.
    pub fn dequantize_row(&self, row: usize, buf: &mut Vec<Weight>)
        requires
            row < self.rows,
            old(buf)@.len() >= self.cols,
            self.countable(),
            self.row_readable(row as int),
        ensures
            final(buf)@.len() == old(buf)@.len(),
            forall|c: int|
                0 <= c < final(buf)@.len() ==> #[trigger] final(buf)@[c] == (if c < self.cols {
                    self.cell(self.first_block(row as int), row as int, c)
                } else {
                    old(buf)@[c]
                }),
    {
        let bs: usize = self.block_size();
        let ghost t = self.dtype;
        let ghost n = self.total();
        proof {
            assert(row * self.cols + self.cols <= n) by (nonlinear_arith)
                requires
                    row + 1 <= self.rows,
                    n == self.rows * self.cols,
            ;
            assert(row * self.cols >= 0) by (nonlinear_arith);
        }
        let start: usize = row * self.cols;
        let end: usize = start + self.cols;
        let mut block_buf: Vec<Weight> = vec![Weight::Single(0); bs];
        let first: usize = start / bs;
        let mut b: usize = first;
        proof {
            lemma_fields(start as int, bs as int);
        }
        while b * bs < end
            invariant
                bs == matrix_block_len(t),
                bs > 0,
                t == self.dtype,
                n == self.total(),
                start == row * self.cols,
                end == start + self.cols,
                end <= n,
                first * bs <= start < first * bs + bs,
                first == self.first_block(row as int),
                first <= b,
                b * bs < end + bs,
                self.countable(),
                self.row_readable(row as int),
                block_buf@.len() == bs,
                buf@.len() == old(buf)@.len(),
                buf@.len() >= self.cols,
                forall|i: int|
                    0 <= i < bs ==> #[trigger] block_buf@[i] == buffered(
                        t,
                        self.data@,
                        first as nat,
                        b as nat,
                        i,
                    ),
                forall|c: int|
                    0 <= c < buf@.len() ==> #[trigger] buf@[c] == (if c < self.cols && start + c < b
                        * bs {
                        self.cell(first as nat, row as int, c)
                    } else {
                        old(buf)@[c]
                    }),
            decreases end + bs - b * bs,
        {
            proof {
                self.lemma_block_counts(b as nat);
                assert(self.block_readable(b as nat));
                lemma_next_block(first as int, b as int, bs as int, start as int);
            }
            let base: usize = b * bs;
            self.dequantize_next(b, &mut block_buf, Ghost(first as nat));
            let from: usize = if base < start {
                start - base
            } else {
                0
            };
            let to: usize = if end - base < bs {
                end - base
            } else {
                bs
            };
            let ghost before = buf@;
            copy_weights(&block_buf, from, to, buf, base + from - start);
            proof {
                self.lemma_row_step(
                    row as int,
                    first as nat,
                    b as nat,
                    block_buf@,
                    before,
                    old(buf)@,
                    buf@,
                );
            }
            b += 1;
        }
    }

    /// Dequantize the block behind those from `first` on.
    fn dequantize_next(&self, b: usize, buf: &mut Vec<Weight>, Ghost(first): Ghost<nat>)
        requires
            first <= b,
            old(buf)@.len() == matrix_block_len(self.dtype),
            b * matrix_block_width(self.dtype) <= usize::MAX,
            self.block_readable(b as nat),
            forall|i: int|
                0 <= i < old(buf)@.len() ==> #[trigger] old(buf)@[i] == buffered(
                    self.dtype,
                    self.data@,
                    first,
                    b as nat,
                    i,
                ),
        ensures
            final(buf)@.len() == old(buf)@.len(),
            forall|i: int|
                0 <= i < final(buf)@.len() ==> #[trigger] final(buf)@[i] == buffered(
                    self.dtype,
                    self.data@,
                    first,
                    (b + 1) as nat,
                    i,
                ),
    {
        self.dequantize_block(b, buf);
        assert forall|i: int| 0 <= i < buf@.len() implies #[trigger] buf@[i] == carried(
            self.dtype,
            self.data@,
            first,
            b as nat,
            i,
        ) by {
            assert(old(buf)@[i] == buffered(self.dtype, self.data@, first, b as nat, i));
        }
    }

    proof fn lemma_row_step(
        &self,
        row: int,
        first: nat,
        b: nat,
        block: Seq<Weight>,
        before: Seq<Weight>,
        start: Seq<Weight>,
        after: Seq<Weight>,
    )
        requires
            row >= 0,
            block.len() == matrix_block_len(self.dtype),
            before.len() == start.len() == after.len(),
            self.cols <= after.len(),
            forall|i: int|
                0 <= i < block.len() ==> #[trigger] block[i] == buffered(
                    self.dtype,
                    self.data@,
                    first,
                    b + 1,
                    i,
                ),
            first <= b,
            forall|c: int|
                0 <= c < before.len() ==> #[trigger] before[c] == (if c < self.cols && row
                    * self.cols + c < b * block.len() {
                    self.cell(first, row, c)
                } else {
                    start[c]
                }),
            forall|c: int|
                0 <= c < after.len() ==> #[trigger] after[c] == (if c < self.cols && b
                    * block.len() <= row * self.cols + c < b * block.len() + block.len() {
                    block[row * self.cols + c - b * block.len()]
                } else {
                    before[c]
                }),
        ensures
            forall|c: int|
                0 <= c < after.len() ==> #[trigger] after[c] == (if c < self.cols && row
                    * self.cols + c < (b + 1) * block.len() {
                    self.cell(first, row, c)
                } else {
                    start[c]
                }),
    {
        let len = block.len() as int;
        assert((b + 1) * len == b * len + len) by (nonlinear_arith);
        assert forall|c: int| 0 <= c < after.len() implies #[trigger] after[c] == (if c < self.cols
            && row * self.cols + c < (b + 1) * block.len() {
            self.cell(first, row, c)
        } else {
            start[c]
        }) by {
            let f = row * self.cols + c;
            assert(before[c] == before[c]);
            if c < self.cols && b * len <= f < b * len + len {
                lemma_split(f, len, b as int, f - b * len);
                assert(block[f - b * len] == carried(self.dtype, self.data@, first, b, f - b * len));
            }
        }
    }

    proof fn lemma_block_counts(&self, b: nat)
        requires
            self.countable(),
            b * matrix_block_len(self.dtype) < self.total(),
        ensures
            b < blocks_for(self.total(), matrix_block_len(self.dtype)),
            b * matrix_block_width(self.dtype) <= usize::MAX,
    {
        let w = matrix_block_width(self.dtype);
        let q = blocks_for(self.total(), matrix_block_len(self.dtype));
        lemma_block_index(self.total(), matrix_block_len(self.dtype), b);
        assert(b * w <= q * w) by (nonlinear_arith)
            requires
                b <= q,
                w >= 0,
        ;
    }
}

/// What position `i` of the block buffer holds before block `b` is decoded.
pub open spec fn buffered(t: GgufDataType, s: Seq<u8>, first: nat, b: nat, i: int) -> Weight {
    if b <= first {
        Weight::Single(0)
    } else {
        carried(t, s, first, (b - 1) as nat, i)
    }
}

proof fn lemma_next_block(first: int, b: int, bs: int, start: int)
    requires
        first <= b,
        bs > 0,
        first * bs <= start < first * bs + bs,
    ensures
        (b + 1) * bs == b * bs + bs,
        b * bs < start ==> b == first,
{
    assert((b + 1) * bs == b * bs + bs) by (nonlinear_arith);
    if b > first {
        assert(b * bs >= first * bs + bs) by (nonlinear_arith)
            requires
                b >= first + 1,
                bs > 0,
        ;
    }
}

/// Copies the weights `from..to` to `at` and the places behind it.
fn copy_weights(src: &Vec<Weight>, from: usize, to: usize, dst: &mut Vec<Weight>, at: usize)
    requires
        from <= to <= src@.len(),
        at + (to - from) <= old(dst)@.len(),
    ensures
        final(dst)@.len() == old(dst)@.len(),
        forall|c: int|
            0 <= c < final(dst)@.len() ==> #[trigger] final(dst)@[c] == (if at <= c < at + (to
                - from) {
                src@[from + (c - at)]
            } else {
                old(dst)@[c]
            }),
{
    let mut k: usize = from;
    while k < to
        invariant
            from <= k <= to <= src@.len(),
            at + (to - from) <= dst@.len(),
            dst@.len() == old(dst)@.len(),
            forall|c: int|
                0 <= c < dst@.len() ==> #[trigger] dst@[c] == (if at <= c < at + (k - from) {
                    src@[from + (c - at)]
                } else {
                    old(dst)@[c]
                }),
        decreases to - k,
    {
        assert(dst.len() <= usize::MAX);
        dst.set(at + (k - from), src[k]);
        k += 1;
    }
}

/// The steps of a fold: the first is `zero`, and each next one is what `f` makes
/// of the one before it, a weight and a factor.
pub open spec fn fold_steps<T, F: Fn(T, Weight, T) -> T>(
    f: F,
    zero: T,
    weights: Seq<Weight>,
    x: Seq<T>,
    steps: Seq<T>,
) -> bool {
    &&& steps.len() > 0
    &&& steps[0] == zero
    &&& forall|i: int|
        0 < i < steps.len() ==> call_ensures(
            f,
            (steps[i - 1], weights[i - 1], x[i - 1]),
            #[trigger] steps[i],
        )
}

/// `r` comes out when the first `n` weights and factors are folded by `f`.
pub open spec fn folds<T, F: Fn(T, Weight, T) -> T>(
    f: F,
    zero: T,
    weights: Seq<Weight>,
    x: Seq<T>,
    n: nat,
    r: T,
) -> bool {
    exists|steps: Seq<T>| #[trigger]
        fold_steps(f, zero, weights, x, steps) && steps.len() == n + 1 && steps.last() == r
}

impl QuantizedMatrix {
    /// The weights of a row, when decoding starts with the first block.
    pub open spec fn row_cells(&self, row: int) -> Seq<Weight> {
        Seq::new(self.cols as nat, |col: int| self.cell(0, row, col))
    }

    /// Quantized mat-vec-mul: every row folds its weights and the vector, from
    /// `zero` on and column after column, by `fused(sum, weight, factor)`.
    pub fn mat_vec_mul<T: Copy, F: Fn(T, Weight, T) -> T>(
        &self,
        x: &[T],
        out: &mut Vec<T>,
        zero: T,
        fused: F,
    )
        requires
            x@.len() == self.cols,
            old(out)@.len() == self.rows,
            self.countable(),
            self.all_readable(),
            forall|sum: T, w: Weight, v: T| call_requires(fused, (sum, w, v)),
        ensures
            final(out)@.len() == self.rows,
            forall|row: int|
                0 <= row < self.rows ==> folds(
                    fused,
                    zero,
                    self.row_cells(row),
                    x@,
                    self.cols as nat,
                    #[trigger] final(out)@[row],
                ),
    {
        let bs: usize = self.block_size();
        let mut block_buf: Vec<Weight> = vec![Weight::Single(0); bs];
        let mut next: usize = 0;
        let mut k: usize = bs;
        let mut row: usize = 0;
        while row < self.rows
            invariant
                row <= self.rows,
                bs == matrix_block_len(self.dtype),
                k <= bs,
                row * self.cols + bs == next * bs + k,
                x@.len() == self.cols,
                out@.len() == self.rows,
                self.countable(),
                self.all_readable(),
                forall|sum: T, w: Weight, v: T| call_requires(fused, (sum, w, v)),
                block_buf@.len() == bs,
                forall|i: int|
                    0 <= i < bs ==> #[trigger] block_buf@[i] == buffered(
                        self.dtype,
                        self.data@,
                        0,
                        next as nat,
                        i,
                    ),
                forall|j: int|
                    0 <= j < row ==> folds(
                        fused,
                        zero,
                        self.row_cells(j),
                        x@,
                        self.cols as nat,
                        #[trigger] out@[j],
                    ),
            decreases self.rows - row,
        {
            let (sum, n, p) = self.fold_row(row, x, zero, &fused, &mut block_buf, next, k);
            out.set(row, sum);
            next = n;
            k = p;
            proof {
                assert((row + 1) * self.cols == row * self.cols + self.cols) by (nonlinear_arith);
            }
            row += 1;
        }
    }

    /// Folds one row. `next` blocks have been decoded, and position `k` of the
    /// last one holds the first weight of the row, or is behind its end.
    fn fold_row<T: Copy, F: Fn(T, Weight, T) -> T>(
        &self,
        row: usize,
        x: &[T],
        zero: T,
        fused: &F,
        block_buf: &mut Vec<Weight>,
        next: usize,
        k: usize,
    ) -> (r: (T, usize, usize))
        requires
            row < self.rows,
            k <= matrix_block_len(self.dtype),
            row * self.cols + matrix_block_len(self.dtype) == next * matrix_block_len(self.dtype)
                + k,
            x@.len() == self.cols,
            self.countable(),
            self.all_readable(),
            forall|sum: T, w: Weight, v: T| call_requires(*fused, (sum, w, v)),
            old(block_buf)@.len() == matrix_block_len(self.dtype),
            forall|i: int|
                0 <= i < old(block_buf)@.len() ==> #[trigger] old(block_buf)@[i] == buffered(
                    self.dtype,
                    self.data@,
                    0,
                    next as nat,
                    i,
                ),
        ensures
            folds(*fused, zero, self.row_cells(row as int), x@, self.cols as nat, r.0),
            r.2 <= matrix_block_len(self.dtype),
            row * self.cols + self.cols + matrix_block_len(self.dtype) == r.1 * matrix_block_len(
                self.dtype,
            ) + r.2,
            final(block_buf)@.len() == old(block_buf)@.len(),
            forall|i: int|
                0 <= i < final(block_buf)@.len() ==> #[trigger] final(block_buf)@[i] == buffered(
                    self.dtype,
                    self.data@,
                    0,
                    r.1 as nat,
                    i,
                ),
    {
        let bs: usize = self.block_size();
        let mut n: usize = next;
        let mut p: usize = k;
        let mut sum: T = zero;
        let mut col: usize = 0;
        let ghost mut steps: Seq<T> = seq![zero];
        while col < self.cols
            invariant
                row < self.rows,
                col <= self.cols,
                bs == matrix_block_len(self.dtype),
                bs > 0,
                p <= bs,
                row * self.cols + col + bs == n * bs + p,
                x@.len() == self.cols,
                self.countable(),
                self.all_readable(),
                forall|sum: T, w: Weight, v: T| call_requires(*fused, (sum, w, v)),
                fold_steps(*fused, zero, self.row_cells(row as int), x@, steps),
                steps.len() == col + 1,
                steps.last() == sum,
                block_buf@.len() == bs,
                forall|i: int|
                    0 <= i < bs ==> #[trigger] block_buf@[i] == buffered(
                        self.dtype,
                        self.data@,
                        0,
                        n as nat,
                        i,
                    ),
            decreases self.cols - col,
        {
            if p == bs {
                proof {
                    assert(row * self.cols + self.cols <= self.rows * self.cols) by (nonlinear_arith)
                        requires
                            row + 1 <= self.rows,
                    ;
                    self.lemma_block_counts(n as nat);
                    assert(self.block_readable(n as nat));
                    assert((n + 1) * bs == n * bs + bs) by (nonlinear_arith);
                    assert(n <= n * bs) by (nonlinear_arith)
                        requires
                            bs >= 1,
                            n >= 0,
                    ;
                }
                self.dequantize_next(n, block_buf, Ghost(0));
                n += 1;
                p = 0;
            }
            proof {
                let f = row * self.cols + col;
                if n == 0 {
                    assert(0 * bs == 0);
                }
                assert((n - 1) * bs == n * bs - bs) by (nonlinear_arith);
                lemma_split(f, bs as int, n - 1, p as int);
                assert(self.row_cells(row as int)[col as int] == block_buf@[p as int]);
            }
            sum = fused(sum, block_buf[p], x[col]);
            proof {
                steps = steps.push(sum);
            }
            col += 1;
            p += 1;
        }
        (sum, n, p)
    }
}

/// A matrix with all its bytes can be read, and its cells are the weights that
/// expanding the bytes as a whole gives, row after row.
pub proof fn law_cells_agree_with_dequantize(m: QuantizedMatrix, first: nat, row: int, col: int)
    requires
        m.complete(),
        0 <= row < m.rows,
        0 <= col < m.cols,
    ensures
        m.all_readable(),
        m.row_readable(row),
        m.cell(first, row, col) == flat_weight(m.dtype, m.data@, row * m.cols + col),
{
    let n = m.total();
    assert(row * m.cols + m.cols <= n) by (nonlinear_arith)
        requires
            row + 1 <= m.rows,
            n == m.rows * m.cols,
    ;
    assert(row * m.cols >= 0) by (nonlinear_arith)
        requires
            row >= 0,
    ;
    m.lemma_complete_is_readable();
    lemma_block_fits(m.dtype, m.data@, n, row * m.cols + col);
}

proof fn lemma_half_is_local(s: Seq<u8>, p: int, width: int, k: int)
    requires
        0 <= p,
        p + width <= s.len(),
        0 <= k,
        k + 2 <= width,
    ensures
        half_at(s.subrange(p, p + width), k) == half_at(s, p + k),
{
}

proof fn lemma_scales_are_local(s: Seq<u8>, p: int, width: int, k: int, j: int)
    requires
        0 <= p,
        p + width <= s.len(),
        0 <= k,
        k + 12 <= width,
        0 <= j < 8,
    ensures
        scale_min(s.subrange(p, p + width), k, j) == scale_min(s, p + k, j),
{
}

proof fn lemma_plain_weight_is_local(t: GgufDataType, s: Seq<u8>, p: int, i: int)
    requires
        t == GgufDataType::F32 || t == GgufDataType::F16 || t == GgufDataType::Q8_0 || t
            == GgufDataType::Q4_0 || t == GgufDataType::Q5_0,
        0 <= p,
        p + t.block_width() <= s.len(),
        0 <= i < t.block_len(),
    ensures
        weight_at(t, s.subrange(p, p + t.block_width()), 0, i) == weight_at(t, s, p, i),
{
    let width = t.block_width() as int;
    let u = s.subrange(p, p + width);
    lemma_half_is_local(s, p, width, 0);
    if t == GgufDataType::Q4_0 {
        assert(u[2 + i / 2] == s[p + 2 + i / 2]);
    } else if t == GgufDataType::Q5_0 {
        assert(u[6 + i % 16] == s[p + 6 + i % 16]);
        assert(u[2 + i / 8] == s[p + 2 + i / 8]);
    }
}

proof fn lemma_super_weight_is_local(t: GgufDataType, s: Seq<u8>, p: int, i: int)
    requires
        t == GgufDataType::Q4_K || t == GgufDataType::Q5_K,
        0 <= p,
        p + t.block_width() <= s.len(),
        0 <= i < t.block_len(),
    ensures
        weight_at(t, s.subrange(p, p + t.block_width()), 0, i) == weight_at(t, s, p, i),
{
    let width = t.block_width() as int;
    let u = s.subrange(p, p + width);
    let (k, l) = (i / 64, i % 32);
    assert(0 <= k < 4 && 0 <= l < 32);
    lemma_half_is_local(s, p, width, 0);
    lemma_half_is_local(s, p, width, 2);
    lemma_scales_are_local(s, p, width, 4, i / 32);
    assert(u[16 + k * 32 + l] == s[p + 16 + k * 32 + l]);
    if t == GgufDataType::Q5_K {
        assert(u[48 + k * 32 + l] == s[p + 48 + k * 32 + l]);
        assert(u[16 + l] == s[p + 16 + l]);
    }
}

proof fn lemma_q6_k_weight_is_local(s: Seq<u8>, p: int, i: int)
    requires
        0 <= p,
        p + 210 <= s.len(),
        0 <= i < 256,
    ensures
        q6_k_weight(s.subrange(p, p + 210), 0, i) == q6_k_weight(s, p, i),
{
    let u = s.subrange(p, p + 210);
    let (half, run, l) = (i / 128, i % 128 / 32, i % 32);
    assert(0 <= half < 2 && 0 <= run < 4 && 0 <= l < 32);
    lemma_half_is_local(s, p, 210, 208);
    assert(u[192 + 8 * half + 2 * run + l / 16] == s[p + 192 + 8 * half + 2 * run + l / 16]);
    assert(u[64 * half + 32 * (run % 2) + l] == s[p + 64 * half + 32 * (run % 2) + l]);
    assert(u[128 + 32 * half + l] == s[p + 128 + 32 * half + l]);
}

proof fn lemma_weight_is_local(t: GgufDataType, s: Seq<u8>, p: int, i: int)
    requires
        decodable(t),
        0 <= p,
        p + t.block_width() <= s.len(),
        0 <= i < t.block_len(),
    ensures
        weight_at(t, s.subrange(p, p + t.block_width()), 0, i) == weight_at(t, s, p, i),
{
    if t == GgufDataType::Q6_K {
        lemma_q6_k_weight_is_local(s, p, i);
    } else if t == GgufDataType::Q4_K || t == GgufDataType::Q5_K {
        lemma_super_weight_is_local(t, s, p, i);
    } else {
        lemma_plain_weight_is_local(t, s, p, i);
    }
}

/// A block stands alone: the weights that decoding a block writes are those that
/// dequantizing its bytes alone gives, and those of its elements in the whole matrix.
pub proof fn law_blocks_stand_alone(m: QuantizedMatrix, b: nat, i: int)
    requires
        decodable(m.dtype),
        (b + 1) * m.dtype.block_width() <= m.data@.len(),
        0 <= i < m.dtype.block_len(),
    ensures
        matrix_block_len(m.dtype) == m.dtype.block_len(),
        matrix_block_width(m.dtype) == m.dtype.block_width(),
        m.block_readable(b),
        present(m.dtype, m.data@, (b * m.dtype.block_width()) as int, i),
        weight_at(m.dtype, m.data@, (b * m.dtype.block_width()) as int, i) == flat_weight(
            m.dtype,
            m.data@.subrange(
                (b * m.dtype.block_width()) as int,
                ((b + 1) * m.dtype.block_width()) as int,
            ),
            i,
        ),
        weight_at(m.dtype, m.data@, (b * m.dtype.block_width()) as int, i) == flat_weight(
            m.dtype,
            m.data@,
            b * m.dtype.block_len() + i,
        ),
{
    let (len, width) = (m.dtype.block_len() as int, m.dtype.block_width() as int);
    assert((b + 1) * width == b * width + width && 0 <= b * width) by (nonlinear_arith)
        requires
            width >= 0,
    ;
    lemma_weight_is_local(m.dtype, m.data@, b * width, i);
    assert(i / len == 0 && i % len == i) by {
        vstd::arithmetic::div_mod::lemma_basic_div(i, len);
        vstd::arithmetic::div_mod::lemma_small_mod(i as nat, len as nat);
    }
    assert(0 * width == 0);
    vstd::arithmetic::div_mod::lemma_fundamental_div_mod_converse(
        b * len + i,
        len,
        b as int,
        i,
    );
}

/// The cells of a matrix are its flat weights, each exactly once: a flat index
/// and a row with a column determine each other.
pub proof fn law_flat_index_is_a_cell(rows: int, cols: int, row: int, col: int)
    requires
        0 <= row < rows,
        0 <= col < cols,
    ensures
        0 <= row * cols + col < rows * cols,
        (row * cols + col) / cols == row,
        (row * cols + col) % cols == col,
{
    lemma_split(row * cols + col, cols, row, col);
    assert(0 <= row * cols && row * cols + cols <= rows * cols) by (nonlinear_arith)
        requires
            0 <= row,
            row + 1 <= rows,
            cols > 0,
    ;
}

/// As many blocks are read as it takes: all weights fit into them, and into no fewer.
pub proof fn law_blocks_hold_all_weights(t: GgufDataType, n: nat)
    ensures
        n <= blocks_for(n, t.block_len()) * t.block_len(),
        n > 0 ==> (blocks_for(n, t.block_len()) - 1) * t.block_len() < n,
        bytes_for(t, n) == blocks_for(n, t.block_len()) * t.block_width(),
{
    let len = t.block_len();
    lemma_blocks_for(n, len);
    let q = blocks_for(n, len) as int;
    assert((q - 1) * len == q * len - len) by (nonlinear_arith);
}

} // verus!
