//! Unpacking blocks: what the weights of a block are, by how a writer of the format
//! lays numbers out in its bytes.

use crate::gguf::GgufDataType;
use crate::ieee::half_widened;
use crate::quant::{bit, bit_pair, flat_weight, half_at, single_bits, weight_at, Weight};
use vstd::prelude::*;

verus! {

/// The bytes of `s` from `p` on start with a number of sixteen bits, low byte first.
pub open spec fn holds_half(s: Seq<u8>, p: int, h: u16) -> bool {
    s[p] == h % 256 && s[p + 1] == h / 256
}

/// Byte `j` of those from `p` on.
pub open spec fn byte(s: Seq<u8>, p: int, j: int) -> u8 {
    s[p + j]
}

/// Byte `l` of run `k` of 32 bytes each, from `p` on.
pub open spec fn run_byte(s: Seq<u8>, p: int, k: int, l: int) -> u8 {
    s[p + 32 * k + l]
}

/// Byte `l` of run `k` of 64 bytes each, from `p` on.
pub open spec fn half_byte(s: Seq<u8>, p: int, k: int, l: int) -> u8 {
    s[p + 64 * k + l]
}

/// The byte that stands for a signed number.
pub open spec fn signed_byte(x: int) -> int {
    if x < 0 {
        x + 256
    } else {
        x
    }
}

proof fn lemma_half(s: Seq<u8>, p: int, h: u16)
    requires
        holds_half(s, p, h),
    ensures
        half_at(s, p) == half_widened(h),
{
}

proof fn lemma_single(s: Seq<u8>, p: int, x: u32)
    requires
        s[p] == x % 256,
        s[p + 1] == x / 256 % 256,
        s[p + 2] == x / 65536 % 256,
        s[p + 3] == x / 16777216,
    ensures
        single_bits(s, p) == x,
{
    let y = x / 256;
    let z = x / 65536;
    assert(z == y / 256);
    assert(x / 16777216 == z / 256);
    assert(x == x % 256 + 256 * y);
    assert(y == y % 256 + 256 * z);
    assert(z == z % 256 + 256 * (z / 256));
}

proof fn lemma_signed(b: u8, x: int)
    requires
        -128 <= x < 128,
        b == signed_byte(x),
    ensures
        b as i8 as i32 == x,
{
    assert(b < 128 ==> b as i8 == b) by (bit_vector);
    assert(b >= 128 ==> b as i8 == b - 256) by (bit_vector);
}

proof fn lemma_block(t: GgufDataType, s: Seq<u8>, b: int, i: int)
    requires
        b >= 0,
        0 <= i < t.block_len(),
    ensures
        flat_weight(t, s, t.block_len() * b + i) == weight_at(t, s, t.block_width() * b, i),
{
    let len = t.block_len() as int;
    vstd::arithmetic::div_mod::lemma_fundamental_div_mod_converse(len * b + i, len, b, i);
    assert(t.block_width() * b == b * t.block_width()) by (nonlinear_arith);
}

proof fn lemma_eight_bits(
    b: u8,
    h0: u8,
    h1: u8,
    h2: u8,
    h3: u8,
    h4: u8,
    h5: u8,
    h6: u8,
    h7: u8,
)
    by (bit_vector)
    requires
        h0 <= 1,
        h1 <= 1,
        h2 <= 1,
        h3 <= 1,
        h4 <= 1,
        h5 <= 1,
        h6 <= 1,
        h7 <= 1,
        b == h0 + 2 * h1 + 4 * h2 + 8 * h3 + 16 * h4 + 32 * h5 + 64 * h6 + 128 * h7,
    ensures
        (b >> 0u8) & 1 == h0,
        (b >> 1u8) & 1 == h1,
        (b >> 2u8) & 1 == h2,
        (b >> 3u8) & 1 == h3,
        (b >> 4u8) & 1 == h4,
        (b >> 5u8) & 1 == h5,
        (b >> 6u8) & 1 == h6,
        (b >> 7u8) & 1 == h7,
{
}

proof fn lemma_four_pairs(b: u8, h0: u8, h1: u8, h2: u8, h3: u8)
    by (bit_vector)
    requires
        h0 <= 3,
        h1 <= 3,
        h2 <= 3,
        h3 <= 3,
        b == h0 + 4 * h1 + 16 * h2 + 64 * h3,
    ensures
        (b >> 0u8) & 3 == h0,
        (b >> 2u8) & 3 == h1,
        (b >> 4u8) & 3 == h2,
        (b >> 6u8) & 3 == h3,
{
}

/// A byte is made of eight bits, the lowest first.
pub open spec fn eight_bits(b: u8, h: spec_fn(int) -> int) -> bool {
    b == h(0) + 2 * h(1) + 4 * h(2) + 8 * h(3) + 16 * h(4) + 32 * h(5) + 64 * h(6) + 128 * h(7)
}

/// A byte is made of four pairs of bits, the lowest first.
pub open spec fn four_pairs(b: u8, h: spec_fn(int) -> int) -> bool {
    b == h(0) + 4 * h(1) + 16 * h(2) + 64 * h(3)
}

proof fn lemma_bit_of(b: u8, h: spec_fn(int) -> int, k: int)
    requires
        eight_bits(b, h),
        forall|j: int| 0 <= j < 8 ==> 0 <= #[trigger] h(j) <= 1,
        0 <= k < 8,
    ensures
        bit(b, k) == h(k),
{
    lemma_eight_bits(
        b,
        h(0) as u8,
        h(1) as u8,
        h(2) as u8,
        h(3) as u8,
        h(4) as u8,
        h(5) as u8,
        h(6) as u8,
        h(7) as u8,
    );
}

proof fn lemma_pair_of(b: u8, h: spec_fn(int) -> int, k: int)
    requires
        four_pairs(b, h),
        forall|j: int| 0 <= j < 4 ==> 0 <= #[trigger] h(j) <= 3,
        0 <= k < 4,
    ensures
        bit_pair(b, k) == h(k),
{
    lemma_four_pairs(b, h(0) as u8, h(1) as u8, h(2) as u8, h(3) as u8);
}

/// Where number `i` of 256 stands.
#[verifier::spinoff_prover]
#[verifier::rlimit(40)]
proof fn lemma_places(i: int)
    requires
        0 <= i < 256,
    ensures
        0 <= i / 64 < 4,
        0 <= i % 32 < 32,
        0 <= i / 32 < 8,
        32 * (i / 32) + i % 32 == i,
        i / 32 % 2 == 1 ==> i == 64 * (i / 64) + 32 + i % 32,
        i / 32 % 2 != 1 ==> i == 64 * (i / 64) + i % 32,
        0 <= i / 128 < 2,
        0 <= i % 128 / 32 < 4,
        128 * (i / 128) + 32 * (i % 128 / 32) + i % 32 == i,
        i % 128 / 32 >= 2 ==> i == 128 * (i / 128) + 64 + 32 * (i % 128 / 32 % 2) + i % 32,
        i % 128 / 32 < 2 ==> i == 128 * (i / 128) + 32 * (i % 128 / 32 % 2) + i % 32,
        i / 16 == 8 * (i / 128) + 2 * (i % 128 / 32) + i % 32 / 16,
        0 <= i / 16 < 16,
{
}

/// Where number `i` of 32 stands.
proof fn lemma_small_places(i: int)
    requires
        0 <= i < 32,
    ensures
        0 <= i / 8 < 4,
        0 <= i % 8 < 8,
        8 * (i / 8) + i % 8 == i,
        0 <= i % 16 < 16,
        i == if i >= 16 {
            i % 16 + 16
        } else {
            i % 16
        },
{
}

#[verifier::spinoff_prover]
#[verifier::rlimit(40)]
proof fn lemma_q4_0_at(s: Seq<u8>, p: int, i: int, lo: int, hi: int)
    requires
        0 <= i < 32,
        0 <= lo < 16,
        0 <= hi < 16,
        byte(s, p + 2, i / 2) == lo + 16 * hi,
    ensures
        weight_at(GgufDataType::Q4_0, s, p, i) == (Weight::Scaled {
            d: half_at(s, p),
            q: (if i % 2 == 1 {
                hi - 8
            } else {
                lo - 8
            }) as i32,
        }),
{
    assert(p + 2 + i / 2 == (p + 2) + i / 2);
}

#[verifier::spinoff_prover]
#[verifier::rlimit(40)]
proof fn lemma_q5_0_at(
    s: Seq<u8>,
    p: int,
    i: int,
    d: u16,
    lo: int,
    hi: int,
    h: spec_fn(int) -> int,
)
    requires
        0 <= i < 32,
        0 <= lo < 16,
        0 <= hi < 16,
        holds_half(s, p, d),
        byte(s, p + 6, i % 16) == lo + 16 * hi,
        eight_bits(byte(s, p + 2, i / 8), h),
        forall|j: int| 0 <= j < 8 ==> 0 <= #[trigger] h(j) <= 1,
    ensures
        weight_at(GgufDataType::Q5_0, s, p, i) == (Weight::Scaled {
            d: half_widened(d),
            q: (16 * h(i % 8) - 16 + if i >= 16 {
                hi
            } else {
                lo
            }) as i32,
        }),
{
    lemma_half(s, p, d);
    let k = i % 8;
    assert(0 <= k < 8);
    lemma_bit_of(byte(s, p + 2, i / 8), h, k);
    let x = s[p + 6 + i % 16];
    assert(x == byte(s, p + 6, i % 16));
    assert(x % 16 == lo && x / 16 == hi);
    assert(s[p + 2 + i / 8] == byte(s, p + 2, i / 8));
    assert(0 <= h(k) <= 1);
}

#[verifier::spinoff_prover]
#[verifier::rlimit(40)]
proof fn lemma_q4_k_at(
    s: Seq<u8>,
    p: int,
    i: int,
    d: u16,
    dmin: u16,
    sc: Seq<int>,
    m: Seq<int>,
    lo: int,
    hi: int,
)
    requires
        0 <= i < 256,
        0 <= lo < 16,
        0 <= hi < 16,
        holds_half(s, p, d),
        holds_half(s, p + 2, dmin),
        holds_scales(s, p + 4, sc, m),
        run_byte(s, p + 16, i / 64, i % 32) == lo + 16 * hi,
    ensures
        weight_at(GgufDataType::Q4_K, s, p, i) == (Weight::Offset {
            d: half_widened(d),
            sc: sc[i / 32] as i32,
            q: (if i / 32 % 2 == 1 {
                hi
            } else {
                lo
            }) as i32,
            dmin: half_widened(dmin),
            m: m[i / 32] as i32,
        }),
{
    lemma_half(s, p, d);
    lemma_half(s, p + 2, dmin);
    lemma_places(i);
    lemma_scales(s, p + 4, sc, m, i / 32);
    assert(p + 16 + i / 64 * 32 + i % 32 == p + 16 + 32 * (i / 64) + i % 32);
}

#[verifier::spinoff_prover]
#[verifier::rlimit(40)]
proof fn lemma_q5_k_at(
    s: Seq<u8>,
    p: int,
    i: int,
    d: u16,
    dmin: u16,
    sc: Seq<int>,
    m: Seq<int>,
    lo: int,
    hi: int,
    h: spec_fn(int) -> int,
)
    requires
        0 <= i < 256,
        0 <= lo < 16,
        0 <= hi < 16,
        holds_half(s, p, d),
        holds_half(s, p + 2, dmin),
        holds_scales(s, p + 4, sc, m),
        run_byte(s, p + 48, i / 64, i % 32) == lo + 16 * hi,
        eight_bits(byte(s, p + 16, i % 32), h),
        forall|j: int| 0 <= j < 8 ==> 0 <= #[trigger] h(j) <= 1,
    ensures
        weight_at(GgufDataType::Q5_K, s, p, i) == (Weight::Offset {
            d: half_widened(d),
            sc: sc[i / 32] as i32,
            q: (16 * h(i / 32) + if i / 32 % 2 == 1 {
                hi
            } else {
                lo
            }) as i32,
            dmin: half_widened(dmin),
            m: m[i / 32] as i32,
        }),
{
    lemma_half(s, p, d);
    lemma_half(s, p + 2, dmin);
    lemma_places(i);
    lemma_scales(s, p + 4, sc, m, i / 32);
    lemma_bit_of(byte(s, p + 16, i % 32), h, i / 32);
    assert(p + 48 + i / 64 * 32 + i % 32 == p + 48 + 32 * (i / 64) + i % 32);
}

#[verifier::spinoff_prover]
#[verifier::rlimit(40)]
proof fn lemma_q6_k_at(
    s: Seq<u8>,
    p: int,
    i: int,
    d: u16,
    sc: int,
    lo: int,
    hi: int,
    h: spec_fn(int) -> int,
)
    requires
        0 <= i < 256,
        0 <= lo < 16,
        0 <= hi < 16,
        -128 <= sc < 128,
        holds_half(s, p + 208, d),
        s[p + 192 + i / 16] == signed_byte(sc),
        half_byte(s, p, i / 128, 32 * (i % 128 / 32 % 2) + i % 32) == lo + 16 * hi,
        four_pairs(run_byte(s, p + 128, i / 128, i % 32), h),
        forall|j: int| 0 <= j < 4 ==> 0 <= #[trigger] h(j) <= 3,
    ensures
        weight_at(GgufDataType::Q6_K, s, p, i) == (Weight::Grouped {
            d: half_widened(d),
            sc: sc as i32,
            q: (16 * h(i % 128 / 32) - 32 + if i % 128 / 32 >= 2 {
                hi
            } else {
                lo
            }) as i32,
        }),
{
    lemma_half(s, p + 208, d);
    lemma_places(i);
    let (half, run, l) = (i / 128, i % 128 / 32, i % 32);
    assert(p + 192 + 8 * half + 2 * run + l / 16 == p + 192 + i / 16);
    lemma_signed(s[p + 192 + i / 16], sc);
    let x = s[p + 64 * half + 32 * (run % 2) + l];
    assert(x == half_byte(s, p, half, 32 * (run % 2) + l));
    assert(x % 16 == lo && x / 16 == hi);
    lemma_pair_of(run_byte(s, p + 128, half, l), h, run);
    assert(s[p + 128 + 32 * half + l] == run_byte(s, p + 128, half, l));
}

/// Four bytes that hold a number, low byte first, are read as that single-precision
/// pattern.
#[verifier::spinoff_prover]
#[verifier::rlimit(40)]
pub proof fn law_f32_unpacks(s: Seq<u8>, x: u32, i: int)
    requires
        0 <= i,
        s[4 * i] == x % 256,
        s[4 * i + 1] == x / 256 % 256,
        s[4 * i + 2] == x / 65536 % 256,
        s[4 * i + 3] == x / 16777216,
    ensures
        flat_weight(GgufDataType::F32, s, i) == Weight::Single(x),
{
    lemma_block(GgufDataType::F32, s, i, 0);
    lemma_single(s, 4 * i, x);
}

/// Two bytes that hold a number, low byte first, are read as that half-precision pattern.
#[verifier::spinoff_prover]
#[verifier::rlimit(40)]
pub proof fn law_f16_unpacks(s: Seq<u8>, h: u16, i: int)
    requires
        0 <= i,
        holds_half(s, 2 * i, h),
    ensures
        flat_weight(GgufDataType::F16, s, i) == Weight::Single(half_widened(h)),
{
    lemma_block(GgufDataType::F16, s, i, 0);
    lemma_half(s, 2 * i, h);
}

/// Decoding undoes packing: where block `b` holds a scale and then 32 signed bytes, each
/// weight is its byte times the scale.
#[verifier::spinoff_prover]
#[verifier::rlimit(40)]
pub proof fn law_q8_0_unpacks(s: Seq<u8>, b: int, d: u16, x: Seq<int>, i: int)
    requires
        0 <= b,
        holds_half(s, 34 * b, d),
        forall|j: int| 0 <= j < 32 ==> -128 <= #[trigger] x[j] < 128,
        forall|j: int| 0 <= j < 32 ==> s[34 * b + 2 + j] == signed_byte(#[trigger] x[j]),
        0 <= i < 32,
    ensures
        flat_weight(GgufDataType::Q8_0, s, 32 * b + i) == (Weight::Scaled {
            d: half_widened(d),
            q: x[i] as i32,
        }),
{
    lemma_block(GgufDataType::Q8_0, s, b, i);
    lemma_half(s, 34 * b, d);
    lemma_signed(s[34 * b + 2 + i], x[i]);
}

/// Decoding undoes packing: where block `b` holds a scale and then 32 numbers of four
/// bits, two to a byte and low before high, each weight is its number less eight, times
/// the scale.
#[verifier::spinoff_prover]
#[verifier::rlimit(40)]
pub proof fn law_q4_0_unpacks(s: Seq<u8>, b: int, d: u16, x: Seq<int>, i: int)
    requires
        0 <= b,
        holds_half(s, 18 * b, d),
        forall|j: int| 0 <= j < 32 ==> 0 <= #[trigger] x[j] < 16,
        forall|j: int| 0 <= j < 16 ==> #[trigger] byte(s, 18 * b + 2, j) == x[2 * j] + 16 * x[2 * j + 1],
        0 <= i < 32,
    ensures
        flat_weight(GgufDataType::Q4_0, s, 32 * b + i) == (Weight::Scaled {
            d: half_widened(d),
            q: (x[i] - 8) as i32,
        }),
{
    lemma_block(GgufDataType::Q4_0, s, b, i);
    lemma_half(s, 18 * b, d);
    let j = i / 2;
    assert(byte(s, 18 * b + 2, j) == x[2 * j] + 16 * x[2 * j + 1]);
    assert(0 <= x[2 * j] < 16 && 0 <= x[2 * j + 1] < 16);
    lemma_q4_0_at(s, 18 * b, i, x[2 * j], x[2 * j + 1]);
}

/// Decoding undoes packing: where block `b` holds a scale, the fifth bits of 32 numbers
/// in order, and then their low four bits, the first half of the numbers in the low and
/// the second in the high nibbles, each weight is its number less sixteen, times the
/// scale.
#[verifier::spinoff_prover]
#[verifier::rlimit(40)]
pub proof fn law_q5_0_block_unpacks(s: Seq<u8>, b: int, d: u16, x: Seq<int>, i: int)
    requires
        0 <= b,
        holds_half(s, 22 * b, d),
        forall|j: int| 0 <= j < 32 ==> 0 <= #[trigger] x[j] < 32,
        forall|k: int|
            0 <= k < 4 ==> eight_bits(#[trigger] byte(s, 22 * b + 2, k), |j: int| x[8 * k + j] / 16),
        forall|j: int|
            0 <= j < 16 ==> #[trigger] byte(s, 22 * b + 6, j) == x[j] % 16 + 16 * (x[j + 16] % 16),
        0 <= i < 32,
    ensures
        flat_weight(GgufDataType::Q5_0, s, 32 * b + i) == (Weight::Scaled {
            d: half_widened(d),
            q: (x[i] - 16) as i32,
        }),
{
    lemma_block(GgufDataType::Q5_0, s, b, i);
    lemma_small_places(i);
    let (k, j) = (i / 8, i % 16);
    let h = |j: int| x[8 * k + j] / 16;
    assert(eight_bits(byte(s, 22 * b + 2, k), h));
    assert forall|j: int| 0 <= j < 8 implies 0 <= #[trigger] h(j) <= 1 by {
        assert(0 <= x[8 * k + j] < 32);
    }
    assert(h(i % 8) == x[i] / 16);
    assert(byte(s, 22 * b + 6, j) == x[j] % 16 + 16 * (x[j + 16] % 16));
    lemma_q5_0_at(s, 22 * b, i, d, x[j] % 16, x[j + 16] % 16, h);
    let v = x[i];
    assert(0 <= v < 32);
    assert(16 * (v / 16) - 16 + v % 16 == v - 16);
    if i >= 16 {
        assert(i == j + 16);
    } else {
        assert(i == j);
    }
}

/// Twelve bytes hold eight scales and eight minimums of six bits each: the first four of
/// both in the low bits of the first eight bytes, and of the others the low four bits in
/// the last four bytes and the high two bits at the top of the first eight.
pub open spec fn holds_scales(s: Seq<u8>, p: int, sc: Seq<int>, m: Seq<int>) -> bool {
    &&& forall|j: int| 0 <= j < 8 ==> 0 <= #[trigger] sc[j] < 64
    &&& forall|j: int| 0 <= j < 8 ==> 0 <= #[trigger] m[j] < 64
    &&& forall|j: int| 0 <= j < 4 ==> #[trigger] byte(s, p, j) == sc[j] + 64 * (sc[j + 4] / 16)
    &&& forall|j: int| 0 <= j < 4 ==> #[trigger] byte(s, p + 4, j) == m[j] + 64 * (m[j + 4] / 16)
    &&& forall|j: int|
        0 <= j < 4 ==> #[trigger] byte(s, p + 8, j) == sc[j + 4] % 16 + 16 * (m[j + 4] % 16)
}

#[verifier::spinoff_prover]
#[verifier::rlimit(40)]
proof fn lemma_scales(s: Seq<u8>, p: int, sc: Seq<int>, m: Seq<int>, j: int)
    requires
        holds_scales(s, p, sc, m),
        0 <= j < 8,
    ensures
        crate::quant::scale_min(s, p, j) == (sc[j], m[j]),
{
    let k = j % 4;
    assert(0 <= sc[k] < 64 && 0 <= sc[k + 4] < 64 && 0 <= m[k] < 64 && 0 <= m[k + 4] < 64);
    assert(byte(s, p, k) == sc[k] + 64 * (sc[k + 4] / 16));
    assert(byte(s, p + 4, k) == m[k] + 64 * (m[k + 4] / 16));
    assert(byte(s, p + 8, k) == sc[k + 4] % 16 + 16 * (m[k + 4] % 16));
    assert(j == k || j == k + 4);
    assert(p + j + 4 == p + 4 + j);
    if j == k + 4 {
        assert(p + j + 4 == p + 8 + k);
        assert(p + j == p + 4 + k);
        assert(p + j - 4 == p + k);
    }
}

/// Decoding undoes packing: where block `b` holds a scale and a minimum, the scales and
/// minimums of its eight groups, and then 256 numbers of four bits, of each 64 the first
/// 32 in the low and the others in the high nibbles of 32 bytes, each weight is its
/// number times the scale of its group less the minimum of its group.
#[verifier::spinoff_prover]
#[verifier::rlimit(40)]
pub proof fn law_q4_k_unpacks(
    s: Seq<u8>,
    b: int,
    d: u16,
    dmin: u16,
    sc: Seq<int>,
    m: Seq<int>,
    x: Seq<int>,
    i: int,
)
    requires
        0 <= b,
        holds_half(s, 144 * b, d),
        holds_half(s, 144 * b + 2, dmin),
        holds_scales(s, 144 * b + 4, sc, m),
        forall|j: int| 0 <= j < 256 ==> 0 <= #[trigger] x[j] < 16,
        forall|k: int, l: int|
            0 <= k < 4 && 0 <= l < 32 ==> #[trigger] run_byte(s, 144 * b + 16, k, l) == x[64 * k
                + l] + 16 * x[64 * k + 32 + l],
        0 <= i < 256,
    ensures
        flat_weight(GgufDataType::Q4_K, s, 256 * b + i) == (Weight::Offset {
            d: half_widened(d),
            sc: sc[i / 32] as i32,
            q: x[i] as i32,
            dmin: half_widened(dmin),
            m: m[i / 32] as i32,
        }),
{
    lemma_block(GgufDataType::Q4_K, s, b, i);
    let (k, l) = (i / 64, i % 32);
    lemma_places(i);
    assert(run_byte(s, 144 * b + 16, k, l) == x[64 * k + l] + 16 * x[64 * k + 32 + l]);
    assert(0 <= x[64 * k + l] < 16 && 0 <= x[64 * k + 32 + l] < 16);
    lemma_q4_k_at(s, 144 * b, i, d, dmin, sc, m, x[64 * k + l], x[64 * k + 32 + l]);
}

/// Decoding undoes packing: as for Q4_K, with numbers of five bits, whose fifth bits
/// stand in 32 bytes of their own: bit `j` of byte `l` belongs to number `l` of group `j`.
#[verifier::spinoff_prover]
#[verifier::rlimit(40)]
pub proof fn law_q5_k_unpacks(
    s: Seq<u8>,
    b: int,
    d: u16,
    dmin: u16,
    sc: Seq<int>,
    m: Seq<int>,
    x: Seq<int>,
    i: int,
)
    requires
        0 <= b,
        holds_half(s, 176 * b, d),
        holds_half(s, 176 * b + 2, dmin),
        holds_scales(s, 176 * b + 4, sc, m),
        forall|j: int| 0 <= j < 256 ==> 0 <= #[trigger] x[j] < 32,
        forall|l: int|
            0 <= l < 32 ==> eight_bits(#[trigger] byte(s, 176 * b + 16, l), |j: int| x[32 * j + l] / 16),
        forall|k: int, l: int|
            0 <= k < 4 && 0 <= l < 32 ==> #[trigger] run_byte(s, 176 * b + 48, k, l) == x[64 * k
                + l] % 16 + 16 * (x[64 * k + 32 + l] % 16),
        0 <= i < 256,
    ensures
        flat_weight(GgufDataType::Q5_K, s, 256 * b + i) == (Weight::Offset {
            d: half_widened(d),
            sc: sc[i / 32] as i32,
            q: x[i] as i32,
            dmin: half_widened(dmin),
            m: m[i / 32] as i32,
        }),
{
    lemma_block(GgufDataType::Q5_K, s, b, i);
    let (k, l) = (i / 64, i % 32);
    lemma_places(i);
    assert(run_byte(s, 176 * b + 48, k, l) == x[64 * k + l] % 16 + 16 * (x[64 * k + 32 + l] % 16));
    let h = |j: int| x[32 * j + l] / 16;
    assert(eight_bits(byte(s, 176 * b + 16, l), h));
    assert forall|j: int| 0 <= j < 8 implies 0 <= #[trigger] h(j) <= 1 by {
        assert(0 <= x[32 * j + l] < 32);
    }
    assert(h(i / 32) == x[i] / 16);
    assert(0 <= x[i] < 32);
    lemma_q5_k_at(
        s,
        176 * b,
        i,
        d,
        dmin,
        sc,
        m,
        x[64 * k + l] % 16,
        x[64 * k + 32 + l] % 16,
        h,
    );
}

/// Decoding undoes packing: where block `b` holds 256 numbers of six bits, sixteen signed
/// scales and a scale over them all, each weight is its number less 32, times the scale
/// of its group of sixteen, times the scale of all. Of each half of the numbers, the low
/// four bits stand in 64 bytes, those of the first 64 numbers in the low and those of the
/// others in the high nibbles, and the high two bits in 32 bytes, those of each 32
/// numbers in turn two bits higher. Scale `g` belongs to numbers `16 * g` to
/// `16 * g + 15`.
#[verifier::spinoff_prover]
#[verifier::rlimit(40)]
pub proof fn law_q6_k_unpacks(s: Seq<u8>, b: int, d: u16, sc: Seq<int>, x: Seq<int>, i: int)
    requires
        0 <= b,
        holds_half(s, 210 * b + 208, d),
        forall|g: int| 0 <= g < 16 ==> -128 <= #[trigger] sc[g] < 128,
        forall|g: int| 0 <= g < 16 ==> s[210 * b + 192 + g] == signed_byte(#[trigger] sc[g]),
        forall|j: int| 0 <= j < 256 ==> 0 <= #[trigger] x[j] < 64,
        forall|k: int, l: int|
            0 <= k < 2 && 0 <= l < 64 ==> #[trigger] half_byte(s, 210 * b, k, l) == x[128 * k + l]
                % 16 + 16 * (x[128 * k + 64 + l] % 16),
        forall|k: int, l: int|
            0 <= k < 2 && 0 <= l < 32 ==> four_pairs(
                #[trigger] run_byte(s, 210 * b + 128, k, l),
                |j: int| x[128 * k + 32 * j + l] / 16,
            ),
        0 <= i < 256,
    ensures
        flat_weight(GgufDataType::Q6_K, s, 256 * b + i) == (Weight::Grouped {
            d: half_widened(d),
            sc: sc[i / 16] as i32,
            q: (x[i] - 32) as i32,
        }),
{
    lemma_block(GgufDataType::Q6_K, s, b, i);
    let (k, run, l) = (i / 128, i % 128 / 32, i % 32);
    lemma_places(i);
    let n = 32 * (run % 2) + l;
    assert(half_byte(s, 210 * b, k, n) == x[128 * k + n] % 16 + 16 * (x[128 * k + 64 + n] % 16));
    let h = |j: int| x[128 * k + 32 * j + l] / 16;
    assert(four_pairs(run_byte(s, 210 * b + 128, k, l), h));
    assert forall|j: int| 0 <= j < 4 implies 0 <= #[trigger] h(j) <= 3 by {
        assert(0 <= x[128 * k + 32 * j + l] < 64);
    }
    assert(h(run) == x[i] / 16);
    assert(0 <= x[i] < 64);
    assert(s[210 * b + 192 + i / 16] == signed_byte(sc[i / 16]));
    lemma_q6_k_at(
        s,
        210 * b,
        i,
        d,
        sc[i / 16],
        x[128 * k + n] % 16,
        x[128 * k + 64 + n] % 16,
        h,
    );
}

} // verus!
