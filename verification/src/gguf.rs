//! The GGUF file format, version 3: header, metadata, tensor descriptors.

use crate::ieee::{double_magnitude, lemma_round_exact, narrow_double, narrowed, round_double};
use crate::ieee::{round_to_bits, widen_single, widened};
use crate::tensor::{product, product_fits, shape_elements};
use crate::text::{decimal, hex_digits, push_decimal, push_hex, text_eq};
use crate::utf8::{decode_text, law_utf8_has_no_fault, utf8_fault, Utf8Fault};
use vstd::arithmetic::power2::pow2;
use vstd::hash_map::StringHashMap;
use vstd::prelude::*;
use vstd::string::StringExecFns;
use vstd::utf8::decode_utf8;

verus! {

broadcast use vstd::string::group_string_axioms;

/// "GGUF" in little-endian byte order.
pub const GGUF_MAGIC: u32 = 0x46554747;

/// The one version that is read.
pub const GGUF_VERSION: u32 = 3;

/// Tensor data starts at a multiple of this many bytes.
pub const ALIGNMENT: usize = 32;

/// How the elements of a tensor are stored.
#[allow(non_camel_case_types)]
#[derive(Debug, Clone, Copy, PartialEq, Eq, Structural)]
pub enum GgufDataType {
    F32,
    F16,
    Q4_0,
    Q4_1,
    Q5_0,
    Q5_1,
    Q8_0,
    Q8_1,
    Q2_K,
    Q3_K,
    Q4_K,
    Q5_K,
    Q6_K,
}

impl GgufDataType {
    /// The number that stands for this type in a file.
    pub open spec fn id(self) -> u32 {
        match self {
            Self::F32 => 0,
            Self::F16 => 1,
            Self::Q4_0 => 2,
            Self::Q4_1 => 3,
            Self::Q5_0 => 6,
            Self::Q5_1 => 7,
            Self::Q8_0 => 8,
            Self::Q8_1 => 9,
            Self::Q2_K => 10,
            Self::Q3_K => 11,
            Self::Q4_K => 12,
            Self::Q5_K => 13,
            Self::Q6_K => 14,
        }
    }

    /// The type that `v` stands for.
    pub open spec fn with_id(v: u32) -> Option<Self> {
        if v <= 3 || 6 <= v <= 14 {
            Some(choose|t: Self| t.id() == v)
        } else {
            None
        }
    }

    /// The type that the number `v` stands for in a file.
    pub fn from_u32(v: u32) -> (r: Option<Self>)
        ensures
            r == Self::with_id(v),
            r is Some <==> (v <= 3 || 6 <= v <= 14),
            r matches Some(t) ==> t.id() == v,
    {
        let r = match v {
            0 => Some(Self::F32),
            1 => Some(Self::F16),
            2 => Some(Self::Q4_0),
            3 => Some(Self::Q4_1),
            6 => Some(Self::Q5_0),
            7 => Some(Self::Q5_1),
            8 => Some(Self::Q8_0),
            9 => Some(Self::Q8_1),
            10 => Some(Self::Q2_K),
            11 => Some(Self::Q3_K),
            12 => Some(Self::Q4_K),
            13 => Some(Self::Q5_K),
            14 => Some(Self::Q6_K),
            _ => None,
        };
        proof {
            if r is Some {
                assert(r->0.id() == v);
                law_type_ids_are_distinct(r->0, choose|t: Self| t.id() == v);
            }
        }
        r
    }

    /// Elements per block.
    pub open spec fn block_len(self) -> nat {
        match self {
            Self::F32 | Self::F16 => 1,
            Self::Q4_0 | Self::Q4_1 | Self::Q5_0 | Self::Q5_1 | Self::Q8_0 | Self::Q8_1 => 32,
            Self::Q2_K | Self::Q3_K | Self::Q4_K | Self::Q5_K | Self::Q6_K => 256,
        }
    }

    /// Block size (number of elements per quantization block)
    pub fn block_size(&self) -> (r: usize)
        ensures
            r == self.block_len(),
    {
        match self {
            Self::F32 | Self::F16 => 1,
            Self::Q4_0 | Self::Q4_1 | Self::Q5_0 | Self::Q5_1 | Self::Q8_0 | Self::Q8_1 => 32,
            Self::Q2_K | Self::Q3_K | Self::Q4_K | Self::Q5_K | Self::Q6_K => 256,
        }
    }

    /// Bytes that one block takes.
    pub open spec fn block_width(self) -> nat {
        match self {
            Self::F32 => 4,
            Self::F16 => 2,
            Self::Q4_0 => 18,
            Self::Q4_1 => 20,
            Self::Q5_0 => 22,
            Self::Q5_1 => 34,
            Self::Q8_0 => 34,
            Self::Q8_1 => 40,
            Self::Q2_K => 84,
            Self::Q3_K => 110,
            Self::Q4_K => 144,
            Self::Q5_K => 176,
            Self::Q6_K => 210,
        }
    }

    /// Bytes per block
    pub fn bytes_per_block(&self) -> (r: usize)
        ensures
            r == self.block_width(),
    {
        match self {
            Self::F32 => 4,
            Self::F16 => 2,
            Self::Q4_0 => 18,
            Self::Q4_1 => 20,
            Self::Q5_0 => 22,
            Self::Q5_1 => 34,
            Self::Q8_0 => 34,
            Self::Q8_1 => 40,
            Self::Q2_K => 84,
            Self::Q3_K => 110,
            Self::Q4_K => 144,
            Self::Q5_K => 176,
            Self::Q6_K => 210,
        }
    }

    /// Bytes per element (average for quantized types), as a double-precision
    /// pattern. The value is exactly the bytes of a block over its elements.
    pub fn bytes_per_element(&self) -> (r: u64)
        ensures
            r < 0x7FF0_0000_0000_0000,
            double_magnitude(r) * self.block_len() == self.block_width() * pow2(1074),
    {
        let r: u64 = match self {
            Self::F32 => 0x4010_0000_0000_0000,
            Self::F16 => 0x4000_0000_0000_0000,
            Self::Q4_0 => 0x3FE2_0000_0000_0000,
            Self::Q4_1 => 0x3FE4_0000_0000_0000,
            Self::Q5_0 => 0x3FE6_0000_0000_0000,
            Self::Q5_1 => 0x3FF1_0000_0000_0000,
            Self::Q8_0 => 0x3FF1_0000_0000_0000,
            Self::Q8_1 => 0x3FF4_0000_0000_0000,
            Self::Q2_K => 0x3FD5_0000_0000_0000,
            Self::Q3_K => 0x3FDB_8000_0000_0000,
            Self::Q4_K => 0x3FE2_0000_0000_0000,
            Self::Q5_K => 0x3FE6_0000_0000_0000,
            Self::Q6_K => 0x3FEA_4000_0000_0000,
        };
        proof {
            lemma_average(r, self.block_len(), self.block_width());
        }
        r
    }
}

proof fn lemma_average(r: u64, len: nat, width: nat)
    requires
        0x3FD0_0000_0000_0000 <= r < 0x4020_0000_0000_0000,
        ({
            let s = 0x10_0000_0000_0000 + r % 0x10_0000_0000_0000;
            let e = r / 0x10_0000_0000_0000;
            ||| e == 1021 && s * len == width * 0x40_0000_0000_0000
            ||| e == 1022 && s * len == width * 0x20_0000_0000_0000
            ||| e == 1023 && s * len == width * 0x10_0000_0000_0000
            ||| e == 1024 && s * len == width * 0x8_0000_0000_0000
            ||| e == 1025 && s * len == width * 0x4_0000_0000_0000
        }),
    ensures
        double_magnitude(r) * len == width * pow2(1074),
{
    let s = (0x10_0000_0000_0000 + r % 0x10_0000_0000_0000) as nat;
    let e = (r / 0x10_0000_0000_0000) as nat;
    let p = pow2((e - 1) as nat);
    vstd::arithmetic::power2::lemma2_to64();
    vstd::arithmetic::power2::lemma2_to64_rest();
    let d = (1075 - e) as nat;
    vstd::arithmetic::power2::lemma_pow2_adds((e - 1) as nat, d);
    assert(double_magnitude(r) == s * p);
    assert(s * len == width * pow2(d));
    assert(s * p * len == s * len * p) by (nonlinear_arith);
    assert(width * pow2(d) * p == width * (p * pow2(d))) by (nonlinear_arith);
}

/// No two types share a number.
pub proof fn law_type_ids_are_distinct(a: GgufDataType, b: GgufDataType)
    requires
        a.id() == b.id(),
    ensures
        a == b,
{
}

/// Reading back a type's number gives the type.
pub proof fn law_type_id_reads_back(t: GgufDataType)
    ensures
        GgufDataType::with_id(t.id()) == Some(t),
{
    let u = choose|u: GgufDataType| u.id() == t.id();
    law_type_ids_are_distinct(t, u);
}

/// What a metadata value holds.
#[verifier::ext_equal]
pub enum MetadataView {
    UInt8(u8),
    Int8(i8),
    UInt16(u16),
    Int16(i16),
    UInt32(u32),
    Int32(i32),
    Float32(u32),
    Bool(bool),
    String(Seq<char>),
    Array(Seq<MetadataView>),
    UInt64(u64),
    Int64(i64),
    Float64(u64),
}

/// A metadata value. Floats are held as their bit patterns.
#[derive(Debug)]
pub enum MetadataValue {
    UInt8(u8),
    Int8(i8),
    UInt16(u16),
    Int16(i16),
    UInt32(u32),
    Int32(i32),
    Float32(u32),
    Bool(bool),
    String(String),
    Array(Vec<MetadataValue>),
    UInt64(u64),
    Int64(i64),
    Float64(u64),
}

impl View for MetadataValue {
    type V = MetadataView;

    open spec fn view(&self) -> MetadataView
        decreases self,
    {
        match self {
            MetadataValue::UInt8(v) => MetadataView::UInt8(*v),
            MetadataValue::Int8(v) => MetadataView::Int8(*v),
            MetadataValue::UInt16(v) => MetadataView::UInt16(*v),
            MetadataValue::Int16(v) => MetadataView::Int16(*v),
            MetadataValue::UInt32(v) => MetadataView::UInt32(*v),
            MetadataValue::Int32(v) => MetadataView::Int32(*v),
            MetadataValue::Float32(v) => MetadataView::Float32(*v),
            MetadataValue::Bool(v) => MetadataView::Bool(*v),
            MetadataValue::String(v) => MetadataView::String(v@),
            MetadataValue::Array(v) => MetadataView::Array(
                Seq::new(
                    v@.len(),
                    |i: int|
                        if 0 <= i < v@.len() {
                            v@[i].view()
                        } else {
                            arbitrary()
                        },
                ),
            ),
            MetadataValue::UInt64(v) => MetadataView::UInt64(*v),
            MetadataValue::Int64(v) => MetadataView::Int64(*v),
            MetadataValue::Float64(v) => MetadataView::Float64(*v),
        }
    }
}

/// What each of the values holds.
pub open spec fn views(v: Seq<MetadataValue>) -> Seq<MetadataView> {
    Seq::new(v.len(), |i: int| v[i]@)
}

/// An array holds what its elements hold.
pub proof fn lemma_array_view(v: MetadataValue)
    ensures
        v matches MetadataValue::Array(a) ==> v@ == MetadataView::Array(views(a@)),
{
    match v {
        MetadataValue::Array(a) => {
            reveal_with_fuel(<MetadataValue as View>::view, 2);
            assert(v@->Array_0 =~= views(a@));
        },
        _ => {},
    }
}

impl MetadataView {
    /// The value as an unsigned byte, where it is one byte wide.
    pub open spec fn as_u8(self) -> Option<u8> {
        match self {
            MetadataView::UInt8(v) => Some(v),
            MetadataView::Int8(v) => Some(v as u8),
            _ => None,
        }
    }

    /// The value as a signed 32-bit integer, where it is at most that wide.
    pub open spec fn as_i32(self) -> Option<i32> {
        match self {
            MetadataView::Int32(v) => Some(v),
            MetadataView::UInt32(v) => Some(v as i32),
            MetadataView::Int8(v) => Some(v as i32),
            MetadataView::UInt8(v) => Some(v as i32),
            MetadataView::Int16(v) => Some(v as i32),
            MetadataView::UInt16(v) => Some(v as i32),
            _ => None,
        }
    }

    /// The value as an unsigned 64-bit integer, where it is that wide or an
    /// unsigned 32-bit one.
    pub open spec fn as_u64(self) -> Option<u64> {
        match self {
            MetadataView::UInt64(v) => Some(v),
            MetadataView::Int64(v) => Some(v as u64),
            MetadataView::UInt32(v) => Some(v as u64),
            _ => None,
        }
    }

    /// The value as a single-precision pattern, where it is a float.
    pub open spec fn as_f32(self) -> Option<u32> {
        match self {
            MetadataView::Float32(v) => Some(v),
            MetadataView::Float64(v) => Some(narrowed(v)),
            _ => None,
        }
    }

    /// The value as a double-precision pattern, where it is a float.
    pub open spec fn as_f64(self) -> Option<u64> {
        match self {
            MetadataView::Float64(v) => Some(v),
            MetadataView::Float32(v) => Some(widened(v)),
            _ => None,
        }
    }
}

impl MetadataValue {
    pub fn to_u8(&self) -> (r: Option<u8>)
        ensures
            r == self@.as_u8(),
    {
        match self {
            MetadataValue::UInt8(v) => Some(*v),
            MetadataValue::Int8(v) => Some(*v as u8),
            _ => None,
        }
    }

    pub fn to_i32(&self) -> (r: Option<i32>)
        ensures
            r == self@.as_i32(),
    {
        match self {
            MetadataValue::Int32(v) => Some(*v),
            MetadataValue::UInt32(v) => Some(*v as i32),
            MetadataValue::Int8(v) => Some(*v as i32),
            MetadataValue::UInt8(v) => Some(*v as i32),
            MetadataValue::Int16(v) => Some(*v as i32),
            MetadataValue::UInt16(v) => Some(*v as i32),
            _ => None,
        }
    }

    pub fn to_u64(&self) -> (r: Option<u64>)
        ensures
            r == self@.as_u64(),
    {
        match self {
            MetadataValue::UInt64(v) => Some(*v),
            MetadataValue::Int64(v) => Some(*v as u64),
            MetadataValue::UInt32(v) => Some(*v as u64),
            _ => None,
        }
    }

    /// The float as a single-precision pattern.
    pub fn to_f32(&self) -> (r: Option<u32>)
        ensures
            r == self@.as_f32(),
    {
        match self {
            MetadataValue::Float32(v) => Some(*v),
            MetadataValue::Float64(v) => Some(narrow_double(*v)),
            _ => None,
        }
    }

    /// The float as a double-precision pattern.
    pub fn to_f64(&self) -> (r: Option<u64>)
        ensures
            r == self@.as_f64(),
    {
        match self {
            MetadataValue::Float64(v) => Some(*v),
            MetadataValue::Float32(v) => Some(widen_single(*v)),
            _ => None,
        }
    }

    pub fn to_string_ref(&self) -> (r: Option<&str>)
        ensures
            match r {
                Some(t) => self@ == MetadataView::String(t@),
                None => !(self@ is String),
            },
    {
        match self {
            MetadataValue::String(s) => Some(s.as_str()),
            _ => None,
        }
    }

    pub fn to_str(&self) -> (r: Option<&str>)
        ensures
            match r {
                Some(t) => self@ == MetadataView::String(t@),
                None => !(self@ is String),
            },
    {
        self.to_string_ref()
    }

    pub fn to_array(&self) -> (r: Option<&Vec<MetadataValue>>)
        ensures
            match r {
                Some(a) => self@ == MetadataView::Array(views(a@)),
                None => !(self@ is Array),
            },
    {
        proof {
            lemma_array_view(*self);
        }
        match self {
            MetadataValue::Array(arr) => Some(arr),
            _ => None,
        }
    }
}

/// The metadata of a file: values by key.
pub struct Metadata {
    entries: StringHashMap<MetadataValue>,
}

impl View for Metadata {
    type V = Map<Seq<char>, MetadataView>;

    closed spec fn view(&self) -> Map<Seq<char>, MetadataView> {
        self.entries@.map_values(|v: MetadataValue| v@)
    }
}

impl Metadata {
    /// No entries.
    pub fn new() -> (r: Self)
        ensures
            r@ == Map::<Seq<char>, MetadataView>::empty(),
    {
        let r = Metadata { entries: StringHashMap::new() };
        assert(r@ =~= Map::empty());
        r
    }

    /// Sets the value of a key, in place of an earlier one.
    pub fn insert(&mut self, key: String, value: MetadataValue)
        ensures
            final(self)@ == old(self)@.insert(key@, value@),
    {
        self.entries.insert(key, value);
        assert(self@ =~= old(self)@.insert(key@, value@));
    }

    /// The value of a key.
    pub fn get(&self, key: &str) -> (r: Option<&MetadataValue>)
        ensures
            match r {
                Some(v) => self@.contains_key(key@) && v@ == self@[key@],
                None => !self@.contains_key(key@),
            },
    {
        self.entries.get(key)
    }
}

/// What a tensor descriptor says.
#[verifier::ext_equal]
pub struct TensorView {
    pub name: Seq<char>,
    pub n_dims: usize,
    pub dims: Seq<usize>,
    pub data_type: GgufDataType,
    pub offset: u64,
}

/// A tensor descriptor.
#[derive(Debug, Clone)]
pub struct TensorInfo {
    pub name: String,
    pub n_dims: usize,
    pub dims: Vec<usize>,
    pub data_type: GgufDataType,
    /// Where the data starts in the file.
    pub offset: u64,
}

impl View for TensorInfo {
    type V = TensorView;

    open spec fn view(&self) -> TensorView {
        TensorView {
            name: self.name@,
            n_dims: self.n_dims,
            dims: self.dims@,
            data_type: self.data_type,
            offset: self.offset,
        }
    }
}

/// The bytes that `n` elements take, computed as the product of `n` and the
/// average bytes per element in double precision, rounded down to an integer.
pub open spec fn average_bytes(n: nat, t: GgufDataType) -> nat {
    let y = round_to_bits(round_to_bits(n, 53) * t.block_width(), 53) / t.block_len();
    if y > usize::MAX {
        usize::MAX as nat
    } else {
        y
    }
}

impl TensorInfo {
    /// Total number of elements in this tensor
    pub fn n_elements(&self) -> (r: usize)
        requires
            product_fits(self.dims@),
        ensures
            r == product(self.dims@),
    {
        shape_elements(self.dims.as_slice())
    }

    /// Total size in bytes of the raw tensor data
    pub fn n_bytes(&self) -> (r: usize)
        requires
            product_fits(self.dims@),
        ensures
            r == average_bytes(product(self.dims@), self.data_type),
    {
        let n: u128 = round_double(self.n_elements() as u128);
        let width: u128 = self.data_type.bytes_per_block() as u128;
        assert(n * width <= 0x2_0000_0000_0000_0000 * 256) by (nonlinear_arith)
            requires
                0 <= n <= 0x2_0000_0000_0000_0000,
                0 <= width <= 256,
        ;
        let y: u128 = round_double(n * width) / self.data_type.block_size() as u128;
        if y > usize::MAX as u128 {
            usize::MAX
        } else {
            y as usize
        }
    }
}

/// Where the elements times the bytes of a block stay below `2^53`, the size is
/// exact: whole blocks take the bytes of a block each.
pub proof fn law_whole_blocks_are_counted_exactly(blocks: nat, t: GgufDataType)
    requires
        blocks * t.block_width() * t.block_len() < pow2(53),
        blocks * t.block_width() <= usize::MAX,
    ensures
        average_bytes(blocks * t.block_len(), t) == blocks * t.block_width(),
{
    let n = blocks * t.block_len();
    let w = t.block_width();
    let len = t.block_len();
    assert(n * w == blocks * w * len) by (nonlinear_arith)
        requires
            n == blocks * len,
    ;
    assert(n <= n * w) by (nonlinear_arith)
        requires
            w >= 1,
            n >= 0,
    ;
    lemma_round_exact(n, 53);
    lemma_round_exact(n * w, 53);
    vstd::arithmetic::div_mod::lemma_div_by_multiple((blocks * w) as int, len as int);
}

/// Why bytes are not a GGUF file.
#[derive(Debug, Clone, Copy, PartialEq, Eq, Structural)]
pub enum GgufError {
    /// The bytes end too early.
    UnexpectedEof,
    /// The first four bytes are not the magic number.
    InvalidMagic(u32),
    /// The version is not the one that is read.
    UnsupportedVersion(u32),
    /// A tensor has an unknown data type.
    UnknownTensorType(u32),
    /// A string is not UTF-8.
    InvalidUtf8(Utf8Fault),
    /// A metadata value has an unknown type.
    UnknownValueType(u32),
    /// The elements of a metadata array have an unknown type.
    UnknownArrayType(u32),
    /// A tensor's data would start past the offsets that a file can have.
    OffsetTooLarge,
}

impl GgufError {
    /// A sentence that names the error.
    pub open spec fn message_view(self) -> Seq<char> {
        match self {
            GgufError::UnexpectedEof => "failed to fill whole buffer"@,
            GgufError::InvalidMagic(m) => "Invalid GGUF magic: 0x"@ + hex_digits(m as nat, 8)
                + " (expected 0x"@ + hex_digits(GGUF_MAGIC as nat, 8) + ")"@,
            GgufError::UnsupportedVersion(v) => "Unsupported GGUF version: "@ + decimal(v as nat)
                + " (only v3 supported)"@,
            GgufError::UnknownTensorType(t) => "Unknown tensor data type: "@ + decimal(t as nat),
            GgufError::InvalidUtf8(f) => "Invalid UTF-8: "@ + f.message_view(),
            GgufError::UnknownValueType(t) => "Unknown metadata value type: "@ + decimal(t as nat),
            GgufError::UnknownArrayType(t) => "Unknown metadata array element type: "@ + decimal(
                t as nat,
            ),
            GgufError::OffsetTooLarge => "Tensor offset too large"@,
        }
    }

    /// A sentence that names the error.
    pub fn message(&self) -> (r: String)
        ensures
            r@ == self.message_view(),
    {
        match self {
            GgufError::UnexpectedEof => "failed to fill whole buffer".to_owned(),
            GgufError::InvalidMagic(m) => {
                let mut s = "Invalid GGUF magic: 0x".to_owned();
                push_hex(&mut s, *m, 8);
                s.append(" (expected 0x");
                push_hex(&mut s, GGUF_MAGIC, 8);
                s.append(")");
                s
            },
            GgufError::UnsupportedVersion(v) => {
                let mut s = "Unsupported GGUF version: ".to_owned();
                push_decimal(&mut s, *v as u64);
                s.append(" (only v3 supported)");
                s
            },
            GgufError::UnknownTensorType(t) => {
                let mut s = "Unknown tensor data type: ".to_owned();
                push_decimal(&mut s, *t as u64);
                s
            },
            GgufError::InvalidUtf8(f) => {
                let mut s = "Invalid UTF-8: ".to_owned();
                let detail = f.message();
                s.append(detail.as_str());
                s
            },
            GgufError::UnknownValueType(t) => {
                let mut s = "Unknown metadata value type: ".to_owned();
                push_decimal(&mut s, *t as u64);
                s
            },
            GgufError::UnknownArrayType(t) => {
                let mut s = "Unknown metadata array element type: ".to_owned();
                push_decimal(&mut s, *t as u64);
                s
            },
            GgufError::OffsetTooLarge => "Tensor offset too large".to_owned(),
        }
    }
}

/// What is read at some position: a value and the position after it, or an
/// error.
pub type Parsed<T> = Result<(T, nat), GgufError>;

/// Reading gives `v` and goes on at `end`.
pub open spec fn yields<T>(p: Parsed<T>, v: T, end: nat) -> bool {
    p == Ok::<(T, nat), GgufError>((v, end))
}

/// Reading fails with `e`.
pub open spec fn fails<T>(p: Parsed<T>, e: GgufError) -> bool {
    p == Err::<(T, nat), GgufError>(e)
}

/// The little-endian number in `n` bytes of `s` from `p` on.
pub open spec fn little_endian(s: Seq<u8>, p: nat, n: nat) -> nat
    decreases n,
{
    if n == 0 {
        0
    } else {
        s[p as int] as nat + 256 * little_endian(s, p + 1, (n - 1) as nat)
    }
}

/// A number of `n` bytes.
pub open spec fn word(s: Seq<u8>, p: nat, n: nat) -> Parsed<nat> {
    if p + n <= s.len() {
        Ok((little_endian(s, p, n), p + n))
    } else {
        Err(GgufError::UnexpectedEof)
    }
}

/// A string: its length in eight bytes, then that many bytes of UTF-8.
pub open spec fn string(s: Seq<u8>, p: nat) -> Parsed<Seq<char>> {
    match word(s, p, 8) {
        Err(e) => Err(e),
        Ok((n, q)) => {
            let len = (n as u64 as usize) as nat;
            let bytes = s.subrange(q as int, (q + len) as int);
            if q + len > s.len() {
                Err(GgufError::UnexpectedEof)
            } else {
                match utf8_fault(bytes, 0) {
                    Some(f) => Err(GgufError::InvalidUtf8(f)),
                    None => Ok((decode_utf8(bytes), q + len)),
                }
            }
        },
    }
}

/// How many bytes a value of the type `t` takes, where that is fixed.
pub open spec fn scalar_width(t: u32) -> nat {
    if t == 0 || t == 1 || t == 7 {
        1
    } else if t == 2 || t == 3 {
        2
    } else if t == 4 || t == 5 || t == 6 {
        4
    } else if t == 10 || t == 11 || t == 12 {
        8
    } else {
        0
    }
}

/// The value of the type `t` that the number `n` stands for.
pub open spec fn scalar_of(t: u32, n: nat) -> MetadataView {
    if t == 0 {
        MetadataView::UInt8(n as u8)
    } else if t == 1 {
        MetadataView::Int8(n as u8 as i8)
    } else if t == 2 {
        MetadataView::UInt16(n as u16)
    } else if t == 3 {
        MetadataView::Int16(n as u16 as i16)
    } else if t == 4 {
        MetadataView::UInt32(n as u32)
    } else if t == 5 {
        MetadataView::Int32(n as u32 as i32)
    } else if t == 6 {
        MetadataView::Float32(n as u32)
    } else if t == 7 {
        MetadataView::Bool(n != 0)
    } else if t == 10 {
        MetadataView::UInt64(n as u64)
    } else if t == 11 {
        MetadataView::Int64(n as u64 as i64)
    } else {
        MetadataView::Float64(n as u64)
    }
}

/// A metadata value of the type `t` that is not an array; `unknown` where `t`
/// is no such type.
pub open spec fn scalar(s: Seq<u8>, p: nat, t: u32, unknown: GgufError) -> Parsed<MetadataView> {
    if t == 8 {
        match string(s, p) {
            Err(e) => Err(e),
            Ok((v, q)) => Ok((MetadataView::String(v), q)),
        }
    } else if scalar_width(t) > 0 {
        match word(s, p, scalar_width(t)) {
            Err(e) => Err(e),
            Ok((n, q)) => Ok((scalar_of(t, n), q)),
        }
    } else {
        Err(unknown)
    }
}

/// `n` things in a row, each of which `f` reads.
pub open spec fn repeated<T>(f: spec_fn(nat) -> Parsed<T>, p: nat, n: nat) -> Parsed<Seq<T>>
    decreases n,
{
    if n == 0 {
        Ok((Seq::empty(), p))
    } else {
        match repeated(f, p, (n - 1) as nat) {
            Err(e) => Err(e),
            Ok((v, q)) => match f(q) {
                Err(e) => Err(e),
                Ok((x, r)) => Ok((v.push(x), r)),
            },
        }
    }
}

/// An array's element of the type `t`.
pub open spec fn element_at(s: Seq<u8>, t: u32) -> spec_fn(nat) -> Parsed<MetadataView> {
    |p: nat| scalar(s, p, t, GgufError::UnknownArrayType(t))
}

/// The elements of an array: their type, how many there are, and each of them.
pub open spec fn array(s: Seq<u8>, p: nat) -> Parsed<MetadataView> {
    match word(s, p, 4) {
        Err(e) => Err(e),
        Ok((t, q)) => match word(s, q, 8) {
            Err(e) => Err(e),
            Ok((n, r)) => match repeated(
                element_at(s, t as u32),
                r,
                (n as u64 as usize) as nat,
            ) {
                Err(e) => Err(e),
                Ok((v, end)) => Ok((MetadataView::Array(v), end)),
            },
        },
    }
}

/// A metadata value behind its type.
pub open spec fn value(s: Seq<u8>, p: nat) -> Parsed<MetadataView> {
    match word(s, p, 4) {
        Err(e) => Err(e),
        Ok((t, q)) => if t == 9 {
            array(s, q)
        } else {
            scalar(s, q, t as u32, GgufError::UnknownValueType(t as u32))
        },
    }
}

/// A key and its value.
pub open spec fn entry_at(s: Seq<u8>) -> spec_fn(nat) -> Parsed<(Seq<char>, MetadataView)> {
    |p: nat|
        match string(s, p) {
            Err(e) => Err(e),
            Ok((k, q)) => match value(s, q) {
                Err(e) => Err(e),
                Ok((v, r)) => Ok(((k, v), r)),
            },
        }
}

/// One dimension.
pub open spec fn dim_at(s: Seq<u8>) -> spec_fn(nat) -> Parsed<usize> {
    |p: nat|
        match word(s, p, 8) {
            Err(e) => Err(e),
            Ok((n, q)) => Ok((n as u64 as usize, q)),
        }
}

/// What of a tensor descriptor stands behind its dimensions: the data type and
/// the offset.
pub open spec fn placement(s: Seq<u8>, p: nat) -> Parsed<(GgufDataType, u64)> {
    match word(s, p, 4) {
        Err(e) => Err(e),
        Ok((t, q)) => match GgufDataType::with_id(t as u32) {
            None => Err(GgufError::UnknownTensorType(t as u32)),
            Some(data_type) => match word(s, q, 8) {
                Err(e) => Err(e),
                Ok((offset, r)) => Ok(((data_type, offset as u64), r)),
            },
        },
    }
}

/// A tensor descriptor: name, number of dimensions, dimensions, data type,
/// offset.
pub open spec fn tensor_at(s: Seq<u8>) -> spec_fn(nat) -> Parsed<TensorView> {
    |p: nat|
        match string(s, p) {
            Err(e) => Err(e),
            Ok((name, q)) => match word(s, q, 4) {
                Err(e) => Err(e),
                Ok((n, q2)) => match repeated(dim_at(s), q2, n) {
                    Err(e) => Err(e),
                    Ok((dims, q3)) => match placement(s, q3) {
                        Err(e) => Err(e),
                        Ok((at, q4)) => Ok(
                            (
                                TensorView {
                                    name,
                                    n_dims: n as usize,
                                    dims,
                                    data_type: at.0,
                                    offset: at.1,
                                },
                                q4,
                            ),
                        ),
                    },
                },
            },
        }
}

/// The entries as a map: where a key comes more than once, the last counts.
pub open spec fn map_of(entries: Seq<(Seq<char>, MetadataView)>) -> Map<Seq<char>, MetadataView>
    decreases entries.len(),
{
    if entries.len() == 0 {
        Map::empty()
    } else {
        map_of(entries.drop_last()).insert(entries.last().0, entries.last().1)
    }
}

/// The next multiple of `alignment` from `value` on.
pub open spec fn aligned(value: nat, alignment: nat) -> nat
    recommends
        alignment > 0,
{
    ((value + alignment - 1) as nat) / alignment * alignment
}

/// What a file says.
#[verifier::ext_equal]
pub struct FileView {
    pub version: u32,
    pub n_tensors: u64,
    pub metadata: Map<Seq<char>, MetadataView>,
    pub tensors: Seq<TensorView>,
    pub data_offset: u64,
}

/// The header in front of the metadata: the numbers of tensors and of metadata
/// entries.
pub open spec fn header(s: Seq<u8>) -> Parsed<(u64, u64)> {
    match word(s, 0, 4) {
        Err(e) => Err(e),
        Ok((magic, p)) => if magic != GGUF_MAGIC {
            Err(GgufError::InvalidMagic(magic as u32))
        } else {
            match word(s, p, 4) {
                Err(e) => Err(e),
                Ok((version, q)) => if version != GGUF_VERSION {
                    Err(GgufError::UnsupportedVersion(version as u32))
                } else {
                    match word(s, q, 8) {
                        Err(e) => Err(e),
                        Ok((n_tensors, r)) => match word(s, r, 8) {
                            Err(e) => Err(e),
                            Ok((n_kv, end)) => Ok(((n_tensors as u64, n_kv as u64), end)),
                        },
                    }
                },
            }
        },
    }
}

/// The descriptors of a file as they are stored, in which a tensor's offset is counted
/// from the start of the data section: the numbers of tensors and of metadata entries,
/// the metadata entries and the tensors.
pub open spec fn descriptors(s: Seq<u8>) -> Parsed<
    ((u64, u64), Seq<(Seq<char>, MetadataView)>, Seq<TensorView>),
> {
    match header(s) {
        Err(e) => Err(e),
        Ok((counts, p)) => match repeated(entry_at(s), p, counts.1 as nat) {
            Err(e) => Err(e),
            Ok((entries, q)) => match repeated(tensor_at(s), q, counts.0 as nat) {
                Err(e) => Err(e),
                Ok((tensors, r)) => Ok(((counts, entries, tensors), r)),
            },
        },
    }
}

/// Tensors with their offsets counted from the start of the file, where the data section
/// starts at `base`.
pub open spec fn placed(tensors: Seq<TensorView>, base: u64) -> Result<
    Seq<TensorView>,
    GgufError,
> {
    if exists|i: int|
        0 <= i < tensors.len() && base + (#[trigger] tensors[i]).offset > u64::MAX {
        Err(GgufError::OffsetTooLarge)
    } else {
        Ok(
            Seq::new(
                tensors.len(),
                |i: int|
                    TensorView { offset: (base + tensors[i].offset) as u64, ..tensors[i] },
            ),
        )
    }
}

/// What the bytes of a file say. The data section starts at the next multiple of the
/// alignment behind the descriptors.
pub open spec fn file(s: Seq<u8>) -> Result<FileView, GgufError> {
    match descriptors(s) {
        Err(e) => Err(e),
        Ok(((counts, entries, stored), r)) => {
            let data_offset = aligned(r, ALIGNMENT as nat) as u64;
            match placed(stored, data_offset) {
                Err(e) => Err(e),
                Ok(tensors) => Ok(
                    FileView {
                        version: GGUF_VERSION,
                        n_tensors: counts.0,
                        metadata: map_of(entries),
                        tensors,
                        data_offset,
                    },
                ),
            }
        },
    }
}

proof fn lemma_repeated_fails<T>(f: spec_fn(nat) -> Parsed<T>, p: nat, i: nat, n: nat)
    requires
        i <= n,
        repeated(f, p, i) is Err,
    ensures
        repeated(f, p, n) == repeated(f, p, i),
    decreases n,
{
    if i < n {
        lemma_repeated_fails(f, p, i, (n - 1) as nat);
    }
}

/// Bytes that are read from the front on.
pub struct Reader<'a> {
    data: &'a [u8],
    pos: usize,
}

impl<'a> Reader<'a> {
    /// The position is not past the end.
    pub closed spec fn wf(self) -> bool {
        self.pos <= self.data@.len()
    }

    /// All bytes, those already read included.
    pub closed spec fn bytes(self) -> Seq<u8> {
        self.data@
    }

    /// How many bytes have been read.
    pub closed spec fn at(self) -> nat {
        self.pos as nat
    }

    pub fn new(data: &'a [u8]) -> (r: Self)
        ensures
            r.wf(),
            r.bytes() == data@,
            r.at() == 0,
    {
        Reader { data, pos: 0 }
    }

    /// How many bytes have been read
    pub fn position(&self) -> (r: usize)
        ensures
            r == self.at(),
    {
        self.pos
    }
}

fn read_u8(r: &mut Reader) -> (res: Result<u8, GgufError>)
    requires
        old(r).wf(),
    ensures
        final(r).wf(),
        final(r).bytes() == old(r).bytes(),
        match res {
            Ok(v) => yields(word(old(r).bytes(), old(r).at(), 1), v as nat, final(r).at()),
            Err(e) => fails(word(old(r).bytes(), old(r).at(), 1), e),
        },
{
    if r.data.len() - r.pos < 1 {
        return Err(GgufError::UnexpectedEof);
    }
    let v: u8 = r.data[r.pos];
    proof {
        reveal_with_fuel(little_endian, 2);
    }
    r.pos = r.pos + 1;
    Ok(v)
}

fn read_u16(r: &mut Reader) -> (res: Result<u16, GgufError>)
    requires
        old(r).wf(),
    ensures
        final(r).wf(),
        final(r).bytes() == old(r).bytes(),
        match res {
            Ok(v) => yields(word(old(r).bytes(), old(r).at(), 2), v as nat, final(r).at()),
            Err(e) => fails(word(old(r).bytes(), old(r).at(), 2), e),
        },
{
    if r.data.len() - r.pos < 2 {
        return Err(GgufError::UnexpectedEof);
    }
    let p: usize = r.pos;
    let v: u16 = r.data[p] as u16 + 256 * r.data[p + 1] as u16;
    proof {
        reveal_with_fuel(little_endian, 3);
    }
    r.pos = p + 2;
    Ok(v)
}

fn read_u32(r: &mut Reader) -> (res: Result<u32, GgufError>)
    requires
        old(r).wf(),
    ensures
        final(r).wf(),
        final(r).bytes() == old(r).bytes(),
        match res {
            Ok(v) => yields(word(old(r).bytes(), old(r).at(), 4), v as nat, final(r).at()),
            Err(e) => fails(word(old(r).bytes(), old(r).at(), 4), e),
        },
{
    if r.data.len() - r.pos < 4 {
        return Err(GgufError::UnexpectedEof);
    }
    let p: usize = r.pos;
    let v: u32 = r.data[p] as u32 + 256 * (r.data[p + 1] as u32 + 256 * (r.data[p + 2] as u32 + 256
        * r.data[p + 3] as u32));
    proof {
        reveal_with_fuel(little_endian, 5);
    }
    r.pos = p + 4;
    Ok(v)
}

fn read_u64(r: &mut Reader) -> (res: Result<u64, GgufError>)
    requires
        old(r).wf(),
    ensures
        final(r).wf(),
        final(r).bytes() == old(r).bytes(),
        match res {
            Ok(v) => yields(word(old(r).bytes(), old(r).at(), 8), v as nat, final(r).at()),
            Err(e) => fails(word(old(r).bytes(), old(r).at(), 8), e),
        },
{
    if r.data.len() - r.pos < 8 {
        return Err(GgufError::UnexpectedEof);
    }
    let p: usize = r.pos;
    let low: u64 = r.data[p] as u64 + 256 * (r.data[p + 1] as u64 + 256 * (r.data[p + 2] as u64
        + 256 * r.data[p + 3] as u64));
    let high: u64 = r.data[p + 4] as u64 + 256 * (r.data[p + 5] as u64 + 256 * (r.data[p + 6] as u64
        + 256 * r.data[p + 7] as u64));
    proof {
        reveal_with_fuel(little_endian, 9);
    }
    r.pos = p + 8;
    Ok(low + 0x1_0000_0000 * high)
}

/// Read a length-prefixed UTF-8 string
fn read_string(r: &mut Reader) -> (res: Result<String, GgufError>)
    requires
        old(r).wf(),
    ensures
        final(r).wf(),
        final(r).bytes() == old(r).bytes(),
        match res {
            Ok(v) => yields(string(old(r).bytes(), old(r).at()), v@, final(r).at()),
            Err(e) => fails(string(old(r).bytes(), old(r).at()), e),
        },
{
    let len: usize = match read_u64(r) {
        Ok(n) => n as usize,
        Err(e) => {
            return Err(e);
        },
    };
    if r.data.len() - r.pos < len {
        return Err(GgufError::UnexpectedEof);
    }
    let p: usize = r.pos;
    let bytes = &r.data[p..p + len];
    proof {
        law_utf8_has_no_fault(bytes@, 0);
    }
    match decode_text(bytes) {
        Ok(t) => {
            r.pos = p + len;
            Ok(t)
        },
        Err(f) => Err(GgufError::InvalidUtf8(f)),
    }
}

/// Read a value of a type that is not an array
fn read_scalar(r: &mut Reader, type_id: u32, unknown: GgufError) -> (res: Result<
    MetadataValue,
    GgufError,
>)
    requires
        old(r).wf(),
    ensures
        final(r).wf(),
        final(r).bytes() == old(r).bytes(),
        match res {
            Ok(v) => yields(scalar(old(r).bytes(), old(r).at(), type_id, unknown), v@, final(r).at()),
            Err(e) => fails(scalar(old(r).bytes(), old(r).at(), type_id, unknown), e),
        },
{
    if type_id == 8 {
        return match read_string(r) {
            Ok(t) => Ok(MetadataValue::String(t)),
            Err(e) => Err(e),
        };
    }
    if type_id == 0 || type_id == 1 || type_id == 7 {
        return match read_u8(r) {
            Err(e) => Err(e),
            Ok(n) => Ok(
                if type_id == 0 {
                    MetadataValue::UInt8(n)
                } else if type_id == 1 {
                    MetadataValue::Int8(n as i8)
                } else {
                    MetadataValue::Bool(n != 0)
                },
            ),
        };
    }
    if type_id == 2 || type_id == 3 {
        return match read_u16(r) {
            Err(e) => Err(e),
            Ok(n) => Ok(
                if type_id == 2 {
                    MetadataValue::UInt16(n)
                } else {
                    MetadataValue::Int16(n as i16)
                },
            ),
        };
    }
    if type_id == 4 || type_id == 5 || type_id == 6 {
        return match read_u32(r) {
            Err(e) => Err(e),
            Ok(n) => Ok(
                if type_id == 4 {
                    MetadataValue::UInt32(n)
                } else if type_id == 5 {
                    MetadataValue::Int32(n as i32)
                } else {
                    MetadataValue::Float32(n)
                },
            ),
        };
    }
    if type_id == 10 || type_id == 11 || type_id == 12 {
        return match read_u64(r) {
            Err(e) => Err(e),
            Ok(n) => Ok(
                if type_id == 10 {
                    MetadataValue::UInt64(n)
                } else if type_id == 11 {
                    MetadataValue::Int64(n as i64)
                } else {
                    MetadataValue::Float64(n)
                },
            ),
        };
    }
    Err(unknown)
}

/// Read a metadata value when the type is already known (for arrays)
pub fn read_metadata_value_by_type(r: &mut Reader, type_id: u32) -> (res: Result<
    MetadataValue,
    GgufError,
>)
    requires
        old(r).wf(),
    ensures
        final(r).wf(),
        final(r).bytes() == old(r).bytes(),
        match res {
            Ok(v) => yields(element_at(old(r).bytes(), type_id)(old(r).at()), v@, final(r).at()),
            Err(e) => fails(element_at(old(r).bytes(), type_id)(old(r).at()), e),
        },
{
    read_scalar(r, type_id, GgufError::UnknownArrayType(type_id))
}

/// Read an array: type of elements, count, elements
fn read_array(r: &mut Reader) -> (res: Result<MetadataValue, GgufError>)
    requires
        old(r).wf(),
    ensures
        final(r).wf(),
        final(r).bytes() == old(r).bytes(),
        match res {
            Ok(v) => yields(array(old(r).bytes(), old(r).at()), v@, final(r).at()),
            Err(e) => fails(array(old(r).bytes(), old(r).at()), e),
        },
{
    let ghost s = r.bytes();
    let elem_type: u32 = match read_u32(r) {
        Ok(n) => n,
        Err(e) => {
            return Err(e);
        },
    };
    let n_elems: usize = match read_u64(r) {
        Ok(n) => n as usize,
        Err(e) => {
            return Err(e);
        },
    };
    let ghost f = element_at(s, elem_type);
    let ghost start = r.at();
    let mut arr: Vec<MetadataValue> = Vec::new();
    let mut i: usize = 0;
    assert(views(arr@) =~= Seq::empty());
    while i < n_elems
        invariant
            i <= n_elems,
            r.wf(),
            r.bytes() == s,
            s == old(r).bytes(),
            f == element_at(s, elem_type),
            yields(repeated(f, start, i as nat), views(arr@), r.at()),
            array(old(r).bytes(), old(r).at()) == (match repeated(f, start, n_elems as nat) {
                Err(e) => Err(e),
                Ok((v, end)) => Ok((MetadataView::Array(v), end)),
            }),
        decreases n_elems - i,
    {
        let ghost before = arr@;
        match read_metadata_value_by_type(r, elem_type) {
            Ok(v) => {
                arr.push(v);
                assert(views(arr@) =~= views(before).push(v@));
            },
            Err(e) => {
                proof {
                    assert(repeated(f, start, i as nat + 1) is Err);
                    lemma_repeated_fails(f, start, i as nat + 1, n_elems as nat);
                }
                return Err(e);
            },
        }
        i += 1;
    }
    let res = MetadataValue::Array(arr);
    proof {
        lemma_array_view(res);
    }
    Ok(res)
}

/// Read a metadata value (type-tagged union)
pub fn read_metadata_value(r: &mut Reader) -> (res: Result<MetadataValue, GgufError>)
    requires
        old(r).wf(),
    ensures
        final(r).wf(),
        final(r).bytes() == old(r).bytes(),
        match res {
            Ok(v) => yields(value(old(r).bytes(), old(r).at()), v@, final(r).at()),
            Err(e) => fails(value(old(r).bytes(), old(r).at()), e),
        },
{
    let type_id: u32 = match read_u32(r) {
        Ok(n) => n,
        Err(e) => {
            return Err(e);
        },
    };
    if type_id == 9 {
        read_array(r)
    } else {
        read_scalar(r, type_id, GgufError::UnknownValueType(type_id))
    }
}

/// Read a key and its value
fn read_entry(r: &mut Reader) -> (res: Result<(String, MetadataValue), GgufError>)
    requires
        old(r).wf(),
    ensures
        final(r).wf(),
        final(r).bytes() == old(r).bytes(),
        match res {
            Ok(v) => yields(entry_at(old(r).bytes())(old(r).at()), (v.0@, v.1@), final(r).at()),
            Err(e) => fails(entry_at(old(r).bytes())(old(r).at()), e),
        },
{
    let key = match read_string(r) {
        Ok(k) => k,
        Err(e) => {
            return Err(e);
        },
    };
    match read_metadata_value(r) {
        Ok(v) => Ok((key, v)),
        Err(e) => Err(e),
    }
}

/// Read the metadata key-value pairs
fn read_metadata(r: &mut Reader, n_kv: u64) -> (res: Result<Metadata, GgufError>)
    requires
        old(r).wf(),
    ensures
        final(r).wf(),
        final(r).bytes() == old(r).bytes(),
        match (res, repeated(entry_at(old(r).bytes()), old(r).at(), n_kv as nat)) {
            (Ok(m), Ok((entries, end))) => m@ == map_of(entries) && end == final(r).at(),
            (Err(e), Err(x)) => e == x,
            _ => false,
        },
{
    let ghost s = r.bytes();
    let ghost f = entry_at(s);
    let ghost start = r.at();
    let ghost mut entries: Seq<(Seq<char>, MetadataView)> = Seq::empty();
    let mut metadata = Metadata::new();
    let mut i: u64 = 0;
    while i < n_kv
        invariant
            i <= n_kv,
            r.wf(),
            r.bytes() == s,
            s == old(r).bytes(),
            start == old(r).at(),
            f == entry_at(s),
            yields(repeated(f, start, i as nat), entries, r.at()),
            metadata@ == map_of(entries),
        decreases n_kv - i,
    {
        match read_entry(r) {
            Ok((k, v)) => {
                proof {
                    let before = entries;
                    entries = entries.push((k@, v@));
                    assert(entries.drop_last() =~= before);
                }
                metadata.insert(k, v);
            },
            Err(e) => {
                proof {
                    assert(fails(repeated(f, start, i as nat + 1), e));
                    lemma_repeated_fails(f, start, i as nat + 1, n_kv as nat);
                }
                return Err(e);
            },
        }
        i += 1;
    }
    Ok(metadata)
}

/// Read the dimensions of a tensor
fn read_dims(r: &mut Reader, n_dims: usize) -> (res: Result<Vec<usize>, GgufError>)
    requires
        old(r).wf(),
    ensures
        final(r).wf(),
        final(r).bytes() == old(r).bytes(),
        match res {
            Ok(v) => yields(repeated(dim_at(old(r).bytes()), old(r).at(), n_dims as nat), v@, final(r).at()),
            Err(e) => fails(repeated(dim_at(old(r).bytes()), old(r).at(), n_dims as nat), e),
        },
{
    let ghost s = r.bytes();
    let ghost f = dim_at(s);
    let ghost start = r.at();
    let mut dims: Vec<usize> = Vec::new();
    let mut i: usize = 0;
    while i < n_dims
        invariant
            i <= n_dims,
            r.wf(),
            r.bytes() == s,
            s == old(r).bytes(),
            start == old(r).at(),
            f == dim_at(s),
            yields(repeated(f, start, i as nat), dims@, r.at()),
        decreases n_dims - i,
    {
        match read_u64(r) {
            Ok(n) => {
                dims.push(n as usize);
            },
            Err(e) => {
                proof {
                    assert(fails(repeated(f, start, i as nat + 1), e));
                    lemma_repeated_fails(f, start, i as nat + 1, n_dims as nat);
                }
                return Err(e);
            },
        }
        i += 1;
    }
    Ok(dims)
}

/// Read the data type and the offset of a tensor
fn read_placement(r: &mut Reader) -> (res: Result<(GgufDataType, u64), GgufError>)
    requires
        old(r).wf(),
    ensures
        final(r).wf(),
        final(r).bytes() == old(r).bytes(),
        match res {
            Ok(v) => yields(placement(old(r).bytes(), old(r).at()), v, final(r).at()),
            Err(e) => fails(placement(old(r).bytes(), old(r).at()), e),
        },
{
    let dtype_id: u32 = match read_u32(r) {
        Ok(n) => n,
        Err(e) => {
            return Err(e);
        },
    };
    let data_type = match GgufDataType::from_u32(dtype_id) {
        Some(t) => t,
        None => {
            return Err(GgufError::UnknownTensorType(dtype_id));
        },
    };
    match read_u64(r) {
        Ok(offset) => Ok((data_type, offset)),
        Err(e) => Err(e),
    }
}

/// Read a tensor descriptor
fn read_tensor_info(r: &mut Reader) -> (res: Result<TensorInfo, GgufError>)
    requires
        old(r).wf(),
    ensures
        final(r).wf(),
        final(r).bytes() == old(r).bytes(),
        match res {
            Ok(v) => yields(tensor_at(old(r).bytes())(old(r).at()), v@, final(r).at()),
            Err(e) => fails(tensor_at(old(r).bytes())(old(r).at()), e),
        },
{
    let name = match read_string(r) {
        Ok(t) => t,
        Err(e) => {
            return Err(e);
        },
    };
    let n_dims: usize = match read_u32(r) {
        Ok(n) => n as usize,
        Err(e) => {
            return Err(e);
        },
    };
    let dims = match read_dims(r, n_dims) {
        Ok(d) => d,
        Err(e) => {
            return Err(e);
        },
    };
    match read_placement(r) {
        Ok((data_type, offset)) => Ok(TensorInfo { name, n_dims, dims, data_type, offset }),
        Err(e) => Err(e),
    }
}

/// What each descriptor says.
pub open spec fn tensor_views(v: Seq<TensorInfo>) -> Seq<TensorView> {
    Seq::new(v.len(), |i: int| v[i]@)
}

/// Read the tensor descriptors
fn read_tensors(r: &mut Reader, n_tensors: u64) -> (res: Result<Vec<TensorInfo>, GgufError>)
    requires
        old(r).wf(),
    ensures
        final(r).wf(),
        final(r).bytes() == old(r).bytes(),
        match res {
            Ok(v) => yields(repeated(tensor_at(old(r).bytes()), old(r).at(), n_tensors as nat), tensor_views(v@), final(r).at()),
            Err(e) => fails(repeated(tensor_at(old(r).bytes()), old(r).at(), n_tensors as nat), e),
        },
{
    let ghost s = r.bytes();
    let ghost f = tensor_at(s);
    let ghost start = r.at();
    let mut tensors: Vec<TensorInfo> = Vec::new();
    let mut i: u64 = 0;
    assert(tensor_views(tensors@) =~= Seq::empty());
    while i < n_tensors
        invariant
            i <= n_tensors,
            r.wf(),
            r.bytes() == s,
            s == old(r).bytes(),
            start == old(r).at(),
            f == tensor_at(s),
            yields(repeated(f, start, i as nat), tensor_views(tensors@), r.at()),
        decreases n_tensors - i,
    {
        let ghost before = tensors@;
        match read_tensor_info(r) {
            Ok(t) => {
                tensors.push(t);
                assert(tensor_views(tensors@) =~= tensor_views(before).push(t@));
            },
            Err(e) => {
                proof {
                    assert(fails(repeated(f, start, i as nat + 1), e));
                    lemma_repeated_fails(f, start, i as nat + 1, n_tensors as nat);
                }
                return Err(e);
            },
        }
        i += 1;
    }
    Ok(tensors)
}

/// Read the magic number, the version and the two counts
fn read_header(r: &mut Reader) -> (res: Result<(u64, u64), GgufError>)
    requires
        old(r).wf(),
        old(r).at() == 0,
    ensures
        final(r).wf(),
        final(r).bytes() == old(r).bytes(),
        match res {
            Ok(v) => yields(header(old(r).bytes()), v, final(r).at()),
            Err(e) => fails(header(old(r).bytes()), e),
        },
{
    match read_u32(r) {
        Ok(magic) => if magic != GGUF_MAGIC {
            return Err(GgufError::InvalidMagic(magic));
        },
        Err(e) => {
            return Err(e);
        },
    }
    match read_u32(r) {
        Ok(version) => if version != GGUF_VERSION {
            return Err(GgufError::UnsupportedVersion(version));
        },
        Err(e) => {
            return Err(e);
        },
    }
    let n_tensors: u64 = match read_u64(r) {
        Ok(n) => n,
        Err(e) => {
            return Err(e);
        },
    };
    match read_u64(r) {
        Ok(n_kv) => Ok((n_tensors, n_kv)),
        Err(e) => Err(e),
    }
}

/// Align `value` up to the next multiple of `alignment`
pub fn align_to(value: u64, alignment: usize) -> (r: u64)
    requires
        alignment > 0,
        value + alignment <= u64::MAX,
    ensures
        r == aligned(value as nat, alignment as nat),
        value <= r < value + alignment,
        r as nat % alignment as nat == 0,
{
    proof {
        law_aligned_is_the_next_multiple(value as nat, alignment as nat);
    }
    let align: u64 = alignment as u64;
    (value + align - 1) / align * align
}

/// Aligning gives the first multiple that is not below the value.
pub proof fn law_aligned_is_the_next_multiple(value: nat, alignment: nat)
    requires
        alignment > 0,
    ensures
        value <= aligned(value, alignment) < value + alignment,
        aligned(value, alignment) % alignment == 0,
{
    let v = value + alignment - 1;
    vstd::arithmetic::div_mod::lemma_fundamental_div_mod(v, alignment as int);
    let q = v / alignment as int;
    assert(alignment * q == q * alignment) by (nonlinear_arith);
    vstd::arithmetic::div_mod::lemma_mod_multiples_basic(q, alignment as int);
}

/// Count the offsets of tensors from the start of the file
fn place_tensors(tensors: Vec<TensorInfo>, base: u64) -> (r: Result<Vec<TensorInfo>, GgufError>)
    ensures
        match r {
            Ok(t) => placed(tensor_views(tensors@), base) == Ok::<Seq<TensorView>, GgufError>(
                tensor_views(t@),
            ),
            Err(e) => placed(tensor_views(tensors@), base) == Err::<Seq<TensorView>, GgufError>(e),
        },
{
    let ghost stored = tensor_views(tensors@);
    let mut r: Vec<TensorInfo> = tensors;
    let mut i: usize = 0;
    while i < r.len()
        invariant
            i <= r@.len(),
            stored == tensor_views(tensors@),
            r@.len() == stored.len(),
            forall|j: int|
                0 <= j < i ==> base + (#[trigger] stored[j]).offset <= u64::MAX && r@[j]@ == (
                TensorView { offset: (base + stored[j].offset) as u64, ..stored[j] }),
            forall|j: int| i <= j < stored.len() ==> (#[trigger] r@[j])@ == stored[j],
        decreases r@.len() - i,
    {
        assert(r@[i as int]@ == stored[i as int]);
        let offset: u64 = match base.checked_add(r[i].offset) {
            Some(sum) => sum,
            None => {
                assert(base + stored[i as int].offset > u64::MAX);
                return Err(GgufError::OffsetTooLarge);
            },
        };
        let tensor = &mut r[i];
        tensor.offset = offset;
        i += 1;
    }
    proof {
        let all = Seq::new(
            stored.len(),
            |j: int| TensorView { offset: (base + stored[j].offset) as u64, ..stored[j] },
        );
        assert forall|j: int| 0 <= j < stored.len() implies tensor_views(r@)[j] == all[j] by {
            assert(base + stored[j].offset <= u64::MAX);
        }
        assert(tensor_views(r@) =~= all);
    }
    Ok(r)
}

/// A file's header, metadata and tensor descriptors.
pub struct GgufFile {
    pub version: u32,
    pub n_tensors: u64,
    pub metadata: Metadata,
    pub tensors: Vec<TensorInfo>,
    /// Where the data section starts in the file.
    pub data_offset: u64,
}

impl View for GgufFile {
    type V = FileView;

    open spec fn view(&self) -> FileView {
        FileView {
            version: self.version,
            n_tensors: self.n_tensors,
            metadata: self.metadata@,
            tensors: tensor_views(self.tensors@),
            data_offset: self.data_offset,
        }
    }
}

impl GgufFile {
    /// Parse a GGUF file from the bytes that it starts with
    pub fn parse(data: &[u8]) -> (r: Result<GgufFile, GgufError>)
        requires
            data@.len() + ALIGNMENT <= u64::MAX,
        ensures
            match r {
                Ok(f) => file(data@) == Ok::<FileView, GgufError>(f@),
                Err(e) => file(data@) == Err::<FileView, GgufError>(e),
            },
    {
        let mut reader = Reader::new(data);
        let (n_tensors, n_kv) = match read_header(&mut reader) {
            Ok(counts) => counts,
            Err(e) => {
                return Err(e);
            },
        };
        let metadata = match read_metadata(&mut reader, n_kv) {
            Ok(m) => m,
            Err(e) => {
                return Err(e);
            },
        };
        let tensors = match read_tensors(&mut reader, n_tensors) {
            Ok(t) => t,
            Err(e) => {
                return Err(e);
            },
        };
        let data_offset: u64 = align_to(reader.position() as u64, ALIGNMENT);
        let tensors = match place_tensors(tensors, data_offset) {
            Ok(t) => t,
            Err(e) => {
                return Err(e);
            },
        };
        Ok(GgufFile { version: GGUF_VERSION, n_tensors, metadata, tensors, data_offset })
    }

    /// Get metadata value by key
    pub fn get_metadata(&self, key: &str) -> (r: Option<&MetadataValue>)
        ensures
            match r {
                Some(v) => self@.metadata.contains_key(key@) && v@ == self@.metadata[key@],
                None => !self@.metadata.contains_key(key@),
            },
    {
        self.metadata.get(key)
    }

    /// Get tensor info by name: the first of that name
    pub fn get_tensor(&self, name: &str) -> (r: Option<&TensorInfo>)
        ensures
            match r {
                Some(t) => exists|i: int|
                    #![trigger self.tensors@[i]]
                    0 <= i < self.tensors@.len() && *t == self.tensors@[i] && t.name@ == name@ && (
                    forall|j: int| 0 <= j < i ==> self.tensors@[j].name@ != name@),
                None => forall|j: int|
                    0 <= j < self.tensors@.len() ==> self.tensors@[j].name@ != name@,
            },
    {
        let mut i: usize = 0;
        while i < self.tensors.len()
            invariant
                i <= self.tensors@.len(),
                forall|j: int| 0 <= j < i ==> self.tensors@[j].name@ != name@,
            decreases self.tensors@.len() - i,
        {
            if text_eq(self.tensors[i].name.as_str(), name) {
                return Some(&self.tensors[i]);
            }
            i += 1;
        }
        None
    }

    /// List all tensor names
    pub fn tensor_names(&self) -> (r: Vec<&str>)
        ensures
            r@.len() == self.tensors@.len(),
            forall|i: int| 0 <= i < r@.len() ==> (#[trigger] r@[i])@ == self.tensors@[i].name@,
    {
        let mut names: Vec<&str> = Vec::new();
        let mut i: usize = 0;
        while i < self.tensors.len()
            invariant
                i <= self.tensors@.len(),
                names@.len() == i,
                forall|j: int| 0 <= j < i ==> (#[trigger] names@[j])@ == self.tensors@[j].name@,
            decreases self.tensors@.len() - i,
        {
            names.push(self.tensors[i].name.as_str());
            i += 1;
        }
        names
    }
}

/// Reading did not run out of bytes.
pub open spec fn settled<T>(p: Parsed<T>) -> bool {
    !fails(p, GgufError::UnexpectedEof)
}

proof fn lemma_word_more(s: Seq<u8>, t: Seq<u8>, p: nat, n: nat)
    requires
        settled(word(s, p, n)),
    ensures
        word(s + t, p, n) == word(s, p, n),
    decreases n,
{
    if n > 0 {
        lemma_word_more(s, t, p + 1, (n - 1) as nat);
    }
}

proof fn lemma_string_more(s: Seq<u8>, t: Seq<u8>, p: nat)
    requires
        settled(string(s, p)),
    ensures
        string(s + t, p) == string(s, p),
{
    lemma_word_more(s, t, p, 8);
    let (n, q) = word(s, p, 8)->Ok_0;
    let len = (n as u64 as usize) as nat;
    assert((s + t).subrange(q as int, (q + len) as int) =~= s.subrange(q as int, (q + len) as int));
}

proof fn lemma_scalar_more(s: Seq<u8>, t: Seq<u8>, p: nat, id: u32, unknown: GgufError)
    requires
        settled(scalar(s, p, id, unknown)),
    ensures
        scalar(s + t, p, id, unknown) == scalar(s, p, id, unknown),
{
    if id == 8 {
        lemma_string_more(s, t, p);
    } else if scalar_width(id) > 0 {
        lemma_word_more(s, t, p, scalar_width(id));
    }
}

proof fn lemma_repeated_more<T>(
    f: spec_fn(nat) -> Parsed<T>,
    g: spec_fn(nat) -> Parsed<T>,
    p: nat,
    n: nat,
)
    requires
        settled(repeated(f, p, n)),
        forall|q: nat| settled(#[trigger] f(q)) ==> g(q) == f(q),
    ensures
        repeated(g, p, n) == repeated(f, p, n),
    decreases n,
{
    if n > 0 {
        lemma_repeated_more(f, g, p, (n - 1) as nat);
    }
}

proof fn lemma_value_more(s: Seq<u8>, t: Seq<u8>, p: nat)
    requires
        settled(value(s, p)),
    ensures
        value(s + t, p) == value(s, p),
{
    lemma_word_more(s, t, p, 4);
    let (id, q) = word(s, p, 4)->Ok_0;
    if id == 9 {
        lemma_word_more(s, t, q, 4);
        let (e, r) = word(s, q, 4)->Ok_0;
        lemma_word_more(s, t, r, 8);
        let (n, u) = word(s, r, 8)->Ok_0;
        let f = element_at(s, e as u32);
        let g = element_at(s + t, e as u32);
        assert forall|x: nat| settled(#[trigger] f(x)) implies g(x) == f(x) by {
            lemma_scalar_more(s, t, x, e as u32, GgufError::UnknownArrayType(e as u32));
        }
        lemma_repeated_more(f, g, u, (n as u64 as usize) as nat);
    } else {
        lemma_scalar_more(s, t, q, id as u32, GgufError::UnknownValueType(id as u32));
    }
}

proof fn lemma_entry_more(s: Seq<u8>, t: Seq<u8>, p: nat)
    requires
        settled(entry_at(s)(p)),
    ensures
        entry_at(s + t)(p) == entry_at(s)(p),
{
    lemma_string_more(s, t, p);
    if string(s, p) is Ok {
        lemma_value_more(s, t, string(s, p)->Ok_0.1);
    }
}

proof fn lemma_placement_more(s: Seq<u8>, t: Seq<u8>, p: nat)
    requires
        settled(placement(s, p)),
    ensures
        placement(s + t, p) == placement(s, p),
{
    lemma_word_more(s, t, p, 4);
    let (id, q) = word(s, p, 4)->Ok_0;
    if GgufDataType::with_id(id as u32) is Some {
        lemma_word_more(s, t, q, 8);
    }
}

proof fn lemma_tensor_more(s: Seq<u8>, t: Seq<u8>, p: nat)
    requires
        settled(tensor_at(s)(p)),
    ensures
        tensor_at(s + t)(p) == tensor_at(s)(p),
{
    lemma_string_more(s, t, p);
    if string(s, p) is Ok {
        let q = string(s, p)->Ok_0.1;
        lemma_word_more(s, t, q, 4);
        let (n, q2) = word(s, q, 4)->Ok_0;
        let f = dim_at(s);
        let g = dim_at(s + t);
        assert forall|x: nat| settled(#[trigger] f(x)) implies g(x) == f(x) by {
            lemma_word_more(s, t, x, 8);
        }
        lemma_repeated_more(f, g, q2, n);
        if repeated(f, q2, n) is Ok {
            lemma_placement_more(s, t, repeated(f, q2, n)->Ok_0.1);
        }
    }
}

proof fn lemma_header_more(s: Seq<u8>, t: Seq<u8>)
    requires
        settled(header(s)),
    ensures
        header(s + t) == header(s),
{
    lemma_word_more(s, t, 0, 4);
    let (magic, p) = word(s, 0, 4)->Ok_0;
    if magic == GGUF_MAGIC {
        lemma_word_more(s, t, p, 4);
        let (version, q) = word(s, p, 4)->Ok_0;
        if version == GGUF_VERSION {
            lemma_word_more(s, t, q, 8);
            lemma_word_more(s, t, q + 8, 8);
        }
    }
}

/// What follows the descriptors does not matter: unless the bytes end too
/// early, more bytes behind them change nothing. So a file can be parsed from
/// any prefix that is long enough.
pub proof fn law_parsing_needs_only_a_prefix(s: Seq<u8>, t: Seq<u8>)
    requires
        file(s) != Err::<FileView, GgufError>(GgufError::UnexpectedEof),
    ensures
        file(s + t) == file(s),
{
    lemma_header_more(s, t);
    if header(s) is Ok {
        let (counts, p) = header(s)->Ok_0;
        let f = entry_at(s);
        let g = entry_at(s + t);
        assert forall|x: nat| settled(#[trigger] f(x)) implies g(x) == f(x) by {
            lemma_entry_more(s, t, x);
        }
        lemma_repeated_more(f, g, p, counts.1 as nat);
        if repeated(f, p, counts.1 as nat) is Ok {
            let q = repeated(f, p, counts.1 as nat)->Ok_0.1;
            let f2 = tensor_at(s);
            let g2 = tensor_at(s + t);
            assert forall|x: nat| settled(#[trigger] f2(x)) implies g2(x) == f2(x) by {
                lemma_tensor_more(s, t, x);
            }
            lemma_repeated_more(f2, g2, q, counts.0 as nat);
        }
    }
}

proof fn lemma_repeated_len<T>(f: spec_fn(nat) -> Parsed<T>, p: nat, n: nat)
    requires
        repeated(f, p, n) is Ok,
    ensures
        repeated(f, p, n)->Ok_0.0.len() == n,
    decreases n,
{
    if n > 0 {
        lemma_repeated_len(f, p, (n - 1) as nat);
    }
}

/// A value's type decides how it is read. One of a plain type is read as an element of
/// that type is in an array, an unknown type is an error that names it, and an array is
/// read behind the type.
pub proof fn law_value_type_decides(s: Seq<u8>, p: nat)
    requires
        p + 4 <= s.len(),
    ensures
        ({
            let t = word(s, p, 4)->Ok_0.0;
            &&& t < 13 && t != 9 ==> value(s, p) == element_at(s, t as u32)(p + 4)
            &&& t == 9 ==> value(s, p) == array(s, p + 4)
            &&& t >= 13 ==> value(s, p) == Err::<(MetadataView, nat), GgufError>(
                GgufError::UnknownValueType(t as u32),
            )
        }),
{
    lemma_four_bytes_fit(s, p);
}

proof fn lemma_four_bytes_fit(s: Seq<u8>, p: nat)
    ensures
        little_endian(s, p, 4) <= u32::MAX,
{
    reveal_with_fuel(little_endian, 5);
}

/// Arrays do not nest: an array whose elements would be arrays, or of an unknown type, is
/// an error that names the type, unless it is empty.
pub proof fn law_arrays_do_not_nest(s: Seq<u8>, p: nat)
    requires
        p + 12 <= s.len(),
    ensures
        ({
            let t = word(s, p, 4)->Ok_0.0;
            let n = (word(s, p + 4, 8)->Ok_0.0 as u64 as usize) as nat;
            &&& n == 0 ==> yields(array(s, p), MetadataView::Array(Seq::empty()), p + 12)
            &&& n > 0 && (t == 9 || t >= 13) ==> fails(
                array(s, p),
                GgufError::UnknownArrayType(t as u32),
            )
        }),
{
    lemma_four_bytes_fit(s, p);
    let t = word(s, p, 4)->Ok_0.0 as u32;
    let n = (word(s, p + 4, 8)->Ok_0.0 as u64 as usize) as nat;
    let f = element_at(s, t);
    if n > 0 && (t == 9 || t >= 13) {
        reveal_with_fuel(repeated, 2);
        assert(fails(repeated(f, p + 12, 1), GgufError::UnknownArrayType(t)));
        lemma_repeated_fails(f, p + 12, 1, n);
    }
}

/// An array that is read has as many elements as it announces, one behind the other: each
/// is read where the one in front of it ends, and none is an array itself.
pub proof fn law_array_elements_follow_each_other(s: Seq<u8>, p: nat, i: nat)
    requires
        array(s, p) is Ok,
        i < array(s, p)->Ok_0.0->Array_0.len(),
    ensures
        ({
            let t = word(s, p, 4)->Ok_0.0 as u32;
            let f = element_at(s, t);
            let v = array(s, p)->Ok_0.0->Array_0;
            &&& array(s, p)->Ok_0.0 is Array
            &&& v.len() == (word(s, p + 4, 8)->Ok_0.0 as u64 as usize) as nat
            &&& repeated(f, p + 12, i) is Ok
            &&& repeated(f, p + 12, i)->Ok_0.0 == v.take(i as int)
            &&& f(repeated(f, p + 12, i)->Ok_0.1) is Ok
            &&& f(repeated(f, p + 12, i)->Ok_0.1)->Ok_0.0 == v[i as int]
            &&& v[i as int] !is Array
        }),
{
    let t = word(s, p, 4)->Ok_0.0 as u32;
    let n = (word(s, p + 4, 8)->Ok_0.0 as u64 as usize) as nat;
    let f = element_at(s, t);
    lemma_repeated_len(f, p + 12, n);
    lemma_repeated_prefix(f, p + 12, i + 1, n);
    lemma_repeated_prefix(f, p + 12, i, n);
    let v = array(s, p)->Ok_0.0->Array_0;
    assert(v.take(i as int + 1).last() == v[i as int]);
}

proof fn lemma_repeated_prefix<T>(f: spec_fn(nat) -> Parsed<T>, p: nat, i: nat, n: nat)
    requires
        repeated(f, p, n) is Ok,
        i <= n,
    ensures
        repeated(f, p, i) is Ok,
        repeated(f, p, i)->Ok_0.0 == repeated(f, p, n)->Ok_0.0.take(i as int),
        repeated(f, p, n)->Ok_0.0.len() == n,
    decreases n,
{
    lemma_repeated_len(f, p, n);
    if i < n {
        lemma_repeated_prefix(f, p, i, (n - 1) as nat);
        let (v, w) = (repeated(f, p, n)->Ok_0.0, repeated(f, p, (n - 1) as nat)->Ok_0.0);
        assert(v.take(i as int) =~= w.take(i as int));
    } else {
        assert(repeated(f, p, n)->Ok_0.0.take(n as int) =~= repeated(f, p, n)->Ok_0.0);
    }
}

/// The offset of a tensor is absolute: the one that its descriptor stores, counted from
/// the start of the data section, and the start of the data section in the file.
pub proof fn law_offsets_are_absolute(s: Seq<u8>, i: int)
    requires
        file(s) is Ok,
        0 <= i < file(s)->Ok_0.tensors.len(),
    ensures
        file(s)->Ok_0.tensors.len() == descriptors(s)->Ok_0.0.2.len(),
        file(s)->Ok_0.tensors[i].offset == file(s)->Ok_0.data_offset
            + descriptors(s)->Ok_0.0.2[i].offset,
{
    let stored = descriptors(s)->Ok_0.0.2;
    assert(file(s)->Ok_0.data_offset + stored[i].offset <= u64::MAX);
}

/// A file that parses is of the supported version, has as many descriptors as
/// its header announces, and its data section starts at a multiple of the
/// alignment.
pub proof fn law_parsed_file_is_consistent(s: Seq<u8>)
    requires
        file(s) is Ok,
    ensures
        file(s)->Ok_0.version == GGUF_VERSION,
        file(s)->Ok_0.tensors.len() == file(s)->Ok_0.n_tensors,
        s.len() + ALIGNMENT <= u64::MAX ==> file(s)->Ok_0.data_offset % ALIGNMENT as u64 == 0,
        s.len() + ALIGNMENT <= u64::MAX ==> file(s)->Ok_0.data_offset < s.len() + ALIGNMENT,
{
    let (counts, p) = header(s)->Ok_0;
    let q = repeated(entry_at(s), p, counts.1 as nat)->Ok_0.1;
    let r = repeated(tensor_at(s), q, counts.0 as nat)->Ok_0.1;
    lemma_repeated_len(tensor_at(s), q, counts.0 as nat);
    lemma_entries_end(s, p, counts.1 as nat);
    lemma_tensors_end(s, q, counts.0 as nat);
    law_aligned_is_the_next_multiple(r, ALIGNMENT as nat);
}

proof fn lemma_elements_end(s: Seq<u8>, id: u32, p: nat, n: nat)
    requires
        p <= s.len(),
        repeated(element_at(s, id), p, n) is Ok,
    ensures
        repeated(element_at(s, id), p, n)->Ok_0.1 <= s.len(),
    decreases n,
{
    if n > 0 {
        lemma_elements_end(s, id, p, (n - 1) as nat);
    }
}

proof fn lemma_entries_end(s: Seq<u8>, p: nat, n: nat)
    requires
        p <= s.len(),
        repeated(entry_at(s), p, n) is Ok,
    ensures
        repeated(entry_at(s), p, n)->Ok_0.1 <= s.len(),
    decreases n,
{
    if n > 0 {
        lemma_entries_end(s, p, (n - 1) as nat);
        let q = repeated(entry_at(s), p, (n - 1) as nat)->Ok_0.1;
        let k = string(s, q)->Ok_0.1;
        let (id, a) = word(s, k, 4)->Ok_0;
        if id == 9 {
            let (e, b) = word(s, a, 4)->Ok_0;
            let (m, c) = word(s, b, 8)->Ok_0;
            lemma_elements_end(s, e as u32, c, (m as u64 as usize) as nat);
        }
    }
}

proof fn lemma_tensors_end(s: Seq<u8>, p: nat, n: nat)
    requires
        p <= s.len(),
        repeated(tensor_at(s), p, n) is Ok,
    ensures
        repeated(tensor_at(s), p, n)->Ok_0.1 <= s.len(),
    decreases n,
{
    if n > 0 {
        lemma_tensors_end(s, p, (n - 1) as nat);
    }
}

/// Where a key comes more than once, its last value counts.
pub proof fn law_last_entry_counts(entries: Seq<(Seq<char>, MetadataView)>, i: int)
    requires
        0 <= i < entries.len(),
        forall|j: int| i < j < entries.len() ==> entries[j].0 != entries[i].0,
    ensures
        map_of(entries).contains_key(entries[i].0),
        map_of(entries)[entries[i].0] == entries[i].1,
    decreases entries.len(),
{
    if i < entries.len() - 1 {
        let rest = entries.drop_last();
        assert(rest[i] == entries[i]);
        law_last_entry_counts(rest, i);
    }
}

/// Every key of the metadata comes from an entry.
pub proof fn law_keys_come_from_entries(entries: Seq<(Seq<char>, MetadataView)>, key: Seq<char>)
    requires
        map_of(entries).contains_key(key),
    ensures
        exists|i: int| 0 <= i < entries.len() && (#[trigger] entries[i]).0 == key,
    decreases entries.len(),
{
    let rest = entries.drop_last();
    if entries.last().0 != key {
        law_keys_come_from_entries(rest, key);
        let i = choose|i: int| 0 <= i < rest.len() && (#[trigger] rest[i]).0 == key;
        assert(entries[i].0 == key);
    } else {
        assert(entries[entries.len() - 1].0 == key);
    }
}

} // verus!
