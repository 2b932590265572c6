use gguf_infer::arith::{Numbers, Op};
use gguf_infer::gguf::GgufDataType;
use gguf_infer::math::mat_vec_mul_transposed;
use gguf_infer::projection::{apply_project, multiply, Projector};
use gguf_infer::quant::{
    dequantize, dtype_label, is_decodable, QuantError, QuantizedMatrix, Weight,
};

fn value(w: Weight) -> f32 {
    match w {
        Weight::Single(b) => f32::from_bits(b),
        Weight::Scaled { d, q } => f32::from_bits(d) * q as f32,
        Weight::Grouped { d, sc, q } => f32::from_bits(d) * sc as f32 * q as f32,
        Weight::Offset { d, sc, q, dmin, m } => {
            f32::from_bits(d) * sc as f32 * q as f32 - f32::from_bits(dmin) * m as f32
        }
    }
}

fn calc(op: Op<f32>) -> f32 {
    match op {
        Op::Plus(a, b) => a + b,
        Op::Minus(a, b) => a - b,
        Op::Times(a, b) => a * b,
        Op::Whole(q) => q as f32,
        Op::Wide(bits) => f32::from_bits(bits),
        _ => panic!("not asked for"),
    }
}

fn numbers() -> Numbers<f32, fn(Op<f32>) -> f32> {
    Numbers { zero: 0.0, one: 1.0, lowest: f32::NEG_INFINITY, calc }
}

fn values(raw: &[u8], t: GgufDataType, n: usize) -> Vec<f32> {
    dequantize(raw, t, n).unwrap().into_iter().map(value).collect()
}

fn bytes(n: usize) -> Vec<u8> {
    (0..n).map(|i| (i * 73 + 29) as u8).collect()
}

#[test]
fn weights_have_the_value_of_their_formula() {
    let b = |x: f32| x.to_bits();
    for (w, r) in [
        (Weight::Single(b(-2.5)), -2.5f32),
        (Weight::Scaled { d: b(0.5), q: -7 }, -3.5),
        (Weight::Grouped { d: b(0.25), sc: -3, q: 5 }, -3.75),
        (Weight::Offset { d: b(0.5), sc: 3, q: 10, dmin: b(0.125), m: 20 }, 12.5),
    ] {
        assert_eq!(numbers().weight_value(w), r);
        assert_eq!(value(w), r);
    }
}

#[test]
fn the_products_of_a_weight_are_taken_from_left_to_right() {
    let w = Weight::Grouped { d: f32::MAX.to_bits(), sc: 2, q: 0 };
    assert!(numbers().weight_value(w).is_nan());
    let w = Weight::Grouped { d: f32::MAX.to_bits(), sc: 0, q: 2 };
    assert_eq!(numbers().weight_value(w), 0.0);
}

#[test]
fn singles_and_halves_are_read() {
    let mut raw = Vec::new();
    for x in [1.0f32, -0.5, 3.25] {
        raw.extend_from_slice(&x.to_le_bytes());
    }
    assert_eq!(values(&raw, GgufDataType::F32, 3), vec![1.0, -0.5, 3.25]);
    assert_eq!(values(&[0x00, 0x3C, 0x00, 0xC0], GgufDataType::F16, 2), vec![1.0, -2.0]);
}

#[test]
fn q8_0_scales_signed_bytes() {
    let mut raw = vec![0x00, 0x38];
    raw.extend((0..32).map(|i| (i * 8) as u8));
    let v = values(&raw, GgufDataType::Q8_0, 32);
    for i in 0..32 {
        assert_eq!(v[i], 0.5 * ((i * 8) as u8 as i8) as f32);
    }
    assert_eq!(v[16], -64.0);
}

#[test]
fn q4_0_takes_nibbles_in_turn() {
    let mut raw = vec![0x00, 0x3C];
    raw.extend((0..16).map(|i| (i | ((15 - i) << 4)) as u8));
    let v = values(&raw, GgufDataType::Q4_0, 32);
    for i in 0..16 {
        assert_eq!(v[2 * i], i as f32 - 8.0);
        assert_eq!(v[2 * i + 1], 15.0 - i as f32 - 8.0);
    }
}

#[test]
fn q5_0_adds_a_high_bit() {
    let mut raw = vec![0x00, 0x3C, 0x01, 0x00, 0x01, 0x80];
    raw.extend((0..16).map(|i| (i | (i << 4)) as u8));
    let v = values(&raw, GgufDataType::Q5_0, 32);
    assert_eq!(v[0], 0.0);
    assert_eq!(v[1], 1.0 - 16.0);
    assert_eq!(v[15], 15.0 - 16.0);
    assert_eq!(v[16], 0.0);
    assert_eq!(v[17], 1.0 - 16.0);
    assert_eq!(v[31], 31.0 - 16.0);
}

#[test]
fn q4_k_has_scales_and_minima() {
    let mut raw = vec![0x00, 0x3C, 0x00, 0x38];
    raw.extend_from_slice(&[1, 2, 3, 0xC4, 10, 20, 30, 0x28, 0x51, 0x62, 0x73, 0x84]);
    raw.extend((0..128).map(|i| (i % 16 | (15 - i % 16) << 4) as u8));
    let v = values(&raw, GgufDataType::Q4_K, 256);
    assert_eq!(v[0], -5.0);
    assert_eq!(v[3], 1.0 * 3.0 - 0.5 * 10.0);
    assert_eq!(v[32], 2.0 * 15.0 - 0.5 * 20.0);
    assert_eq!(v[96], 4.0 * 15.0 - 0.5 * 40.0);
    assert_eq!(v[128 + 2], 1.0 * 2.0 - 0.5 * 5.0);
    assert_eq!(v[224], 52.0 * 15.0 - 0.5 * 8.0);
}

#[test]
fn q5_k_adds_high_bits() {
    let mut raw = vec![0x00, 0x3C, 0x00, 0x00];
    raw.extend_from_slice(&[1, 1, 1, 1, 0, 0, 0, 0, 1, 1, 1, 1]);
    let mut qh = vec![0u8; 32];
    qh[0] = 0b0000_0001;
    qh[1] = 0b0000_0010;
    qh[2] = 0b1000_0000;
    raw.extend(qh);
    raw.extend((0..128).map(|_| 0x21u8));
    let v = values(&raw, GgufDataType::Q5_K, 256);
    assert_eq!(v[0], 17.0);
    assert_eq!(v[1], 1.0);
    assert_eq!(v[32], 2.0);
    assert_eq!(v[33], 18.0);
    assert_eq!(v[224 + 2], 18.0);
    assert_eq!(v[192 + 2], 1.0);
}

#[test]
fn q6_k_puts_six_bits_together() {
    let mut raw = vec![0u8; 210];
    raw[0] = 0x21;
    raw[32] = 0x43;
    raw[128] = 0b11_10_01_00;
    raw[192] = 2;
    raw[194] = 0xFF;
    raw[196] = 1;
    raw[198] = 3;
    raw[208] = 0x00;
    raw[209] = 0x3C;
    let v = values(&raw, GgufDataType::Q6_K, 256);
    assert_eq!(v[0], 2.0 * (1.0 - 32.0));
    assert_eq!(v[32], -1.0 * (3.0 + 16.0 - 32.0));
    assert_eq!(v[64], 2.0 + 32.0 - 32.0);
    assert_eq!(v[96], 3.0 * (4.0 + 48.0 - 32.0));
}

#[test]
fn q5_0_unpacks_to_five_bits() {
    let raw = {
        let mut r = vec![0x00, 0x3C];
        r.extend(bytes(20));
        r
    };
    let high = u32::from_le_bytes([raw[2], raw[3], raw[4], raw[5]]);
    let v = values(&raw, GgufDataType::Q5_0, 32);
    for i in 0..32 {
        let low = if i < 16 { raw[6 + i] % 16 } else { raw[6 + i - 16] / 16 };
        let q = low as i32 + 16 * ((high >> i) & 1) as i32 - 16;
        assert_eq!(v[i], q as f32);
    }
}

#[test]
fn weights_stay_in_range() {
    let types = [
        GgufDataType::Q8_0,
        GgufDataType::Q4_0,
        GgufDataType::Q5_0,
        GgufDataType::Q4_K,
        GgufDataType::Q5_K,
        GgufDataType::Q6_K,
    ];
    for t in types {
        let n = 3 * t.block_size();
        for w in dequantize(&bytes(3 * t.bytes_per_block()), t, n).unwrap() {
            match w {
                Weight::Single(_) => panic!("not of this type"),
                Weight::Scaled { q, .. } => assert!(-128 <= q && q < 128),
                Weight::Grouped { sc, q, .. } => {
                    assert!(-128 <= sc && sc < 128 && -32 <= q && q < 32)
                }
                Weight::Offset { sc, q, m, .. } => {
                    assert!(0 <= sc && sc < 64 && 0 <= q && q < 32 && 0 <= m && m < 64)
                }
            }
        }
    }
}

#[test]
fn too_few_bytes_are_an_error() {
    let e = dequantize(&[0; 7], GgufDataType::F32, 2).err().unwrap();
    assert_eq!(e.message(), "F32: expected 8 bytes, got 7");
    let e = dequantize(&[0; 3], GgufDataType::F16, 2).err().unwrap();
    assert_eq!(e.message(), "F16: expected 4 bytes, got 3");
    let e = dequantize(&[0; 34], GgufDataType::Q8_0, 33).err().unwrap();
    assert!(matches!(
        e,
        QuantError::TooShort { dtype: GgufDataType::Q8_0, expected: 68, n_elements: 33, got: 34 }
    ));
    assert_eq!(e.message(), "Q8_0: expected at least 68 bytes for 33 elements, got 34");
}

#[test]
fn other_types_cannot_be_decoded() {
    for t in [
        GgufDataType::Q4_1,
        GgufDataType::Q5_1,
        GgufDataType::Q8_1,
        GgufDataType::Q2_K,
        GgufDataType::Q3_K,
    ] {
        assert!(!is_decodable(t));
        let e = dequantize(&[0; 400], t, 1).err().unwrap();
        assert_eq!(e.message(), format!("Unsupported quantization type: {}", dtype_label(t)));
        assert_eq!(dtype_label(t), format!("{:?}", t));
    }
    assert!(is_decodable(GgufDataType::Q6_K));
}

#[test]
fn a_short_last_block_gives_only_its_elements() {
    assert_eq!(dequantize(&bytes(68), GgufDataType::Q8_0, 40).unwrap().len(), 40);
    assert_eq!(dequantize(&[], GgufDataType::Q4_K, 0).unwrap().len(), 0);
}

#[test]
fn blocks_stand_alone() {
    for t in [
        GgufDataType::F32,
        GgufDataType::F16,
        GgufDataType::Q8_0,
        GgufDataType::Q4_0,
        GgufDataType::Q5_0,
        GgufDataType::Q4_K,
        GgufDataType::Q5_K,
        GgufDataType::Q6_K,
    ] {
        let (len, width) = (t.block_size(), t.bytes_per_block());
        let raw = bytes(3 * width);
        let m = QuantizedMatrix::new(raw.clone(), t, 3, len);
        for b in 0..3 {
            let mut buf = vec![Weight::Single(7); len + 1];
            m.dequantize_block(b, &mut buf);
            let alone = dequantize(&raw[b * width..(b + 1) * width], t, len).unwrap();
            for i in 0..len {
                assert_eq!(format!("{:?}", buf[i]), format!("{:?}", alone[i]));
            }
            assert!(matches!(buf[len], Weight::Single(7)));
        }
    }
    let m = QuantizedMatrix::new(bytes(64), GgufDataType::Q2_K, 1, 256);
    let mut buf = vec![Weight::Single(7); 256];
    m.dequantize_block(0, &mut buf);
    assert!(buf.iter().all(|w| matches!(w, Weight::Single(7))));
}

#[test]
fn rows_agree_with_the_whole() {
    for (t, rows, cols) in [
        (GgufDataType::Q8_0, 5, 48),
        (GgufDataType::Q4_0, 3, 64),
        (GgufDataType::Q5_0, 7, 16),
        (GgufDataType::Q4_K, 3, 384),
        (GgufDataType::Q6_K, 2, 256),
        (GgufDataType::F16, 3, 5),
        (GgufDataType::F32, 2, 3),
    ] {
        let blocks = (rows * cols + t.block_size() - 1) / t.block_size();
        let raw = bytes(blocks * t.bytes_per_block());
        let all = dequantize(&raw, t, rows * cols).unwrap();
        let m = QuantizedMatrix::new(raw, t, rows, cols);
        assert!(m.is_complete());
        for row in 0..rows {
            let mut buf = vec![Weight::Single(0); cols + 1];
            m.dequantize_row(row, &mut buf);
            for col in 0..cols {
                assert_eq!(format!("{:?}", buf[col]), format!("{:?}", all[row * cols + col]));
            }
            assert!(matches!(buf[cols], Weight::Single(0)));
        }
    }
}

#[test]
fn products_are_those_of_the_expanded_matrix() {
    for (t, rows, cols) in [
        (GgufDataType::Q8_0, 5, 48),
        (GgufDataType::Q5_0, 4, 40),
        (GgufDataType::Q4_K, 3, 384),
        (GgufDataType::Q5_K, 2, 256),
        (GgufDataType::Q6_K, 2, 512),
    ] {
        let blocks = (rows * cols + t.block_size() - 1) / t.block_size();
        let mut raw = bytes(blocks * t.bytes_per_block());
        for b in 0..blocks {
            let at = b * t.bytes_per_block();
            let d = if t == GgufDataType::Q6_K { at + 208 } else { at };
            raw[d + 1] = 0x2C;
            if t == GgufDataType::Q4_K || t == GgufDataType::Q5_K {
                raw[d + 3] = 0x28;
            }
        }
        let w: Vec<f32> = values(&raw, t, rows * cols);
        let x: Vec<f32> = (0..cols).map(|i| (i % 7) as f32 - 3.0).collect();
        let m = QuantizedMatrix::new(raw, t, rows, cols);
        let y = multiply(&numbers(), &m, &x);
        let mut expected = vec![0.0; rows];
        mat_vec_mul_transposed(&numbers(), &w, &x, &mut expected, rows, cols);
        assert_eq!(y, expected);
        let mut folded = vec![9.0; rows];
        m.mat_vec_mul(&x, &mut folded, 0.0, |s, w, v| s + value(w) * v);
        assert_eq!(folded, expected);
    }
}

#[test]
fn incomplete_matrices_are_noticed() {
    assert!(!QuantizedMatrix::new(vec![0; 33], GgufDataType::Q8_0, 1, 32).is_complete());
    assert!(QuantizedMatrix::new(vec![0; 34], GgufDataType::Q8_0, 1, 32).is_complete());
    assert!(!QuantizedMatrix::new(vec![0; 99], GgufDataType::Q2_K, 1, 1).is_complete());
    assert!(!QuantizedMatrix::new(vec![0; 9], GgufDataType::F32, usize::MAX, 2).is_complete());
}

fn unit_matrix(t: GgufDataType) -> QuantizedMatrix {
    let mut raw = Vec::new();
    if t == GgufDataType::F32 {
        raw.extend_from_slice(&2.0f32.to_le_bytes());
    } else {
        raw = vec![0; 210];
    }
    QuantizedMatrix::new(raw, t, 1, 1)
}

#[test]
fn the_gpu_is_asked_first() {
    let gpu = |_: &QuantizedMatrix, x: &Vec<f32>| Some(vec![x[0] + 100.0]);
    let project = Projector { gpu: Some(gpu) };
    let m = unit_matrix(GgufDataType::F32);
    assert_eq!(apply_project(&numbers(), &project, &m, &vec![3.0]), vec![103.0]);
}

#[test]
fn the_cpu_steps_in_for_the_gpu() {
    let m = unit_matrix(GgufDataType::F32);
    let nothing = |_: &QuantizedMatrix, _: &Vec<f32>| None;
    let project = Projector { gpu: Some(nothing) };
    assert_eq!(apply_project(&numbers(), &project, &m, &vec![3.0]), vec![6.0]);
    let wrong = |_: &QuantizedMatrix, _: &Vec<f32>| Some(vec![1.0, 2.0]);
    let project = Projector { gpu: Some(wrong) };
    assert_eq!(apply_project(&numbers(), &project, &m, &vec![3.0]), vec![6.0]);
    let mut none = Some(wrong);
    none.take();
    let project = Projector { gpu: none };
    assert_eq!(apply_project(&numbers(), &project, &m, &vec![3.0]), vec![6.0]);
}

#[test]
fn the_gpu_is_not_asked_for_q6_k() {
    let gpu = |_: &QuantizedMatrix, _: &Vec<f32>| Some(vec![1.0]);
    let project = Projector { gpu: Some(gpu) };
    let m = unit_matrix(GgufDataType::Q6_K);
    assert_eq!(apply_project(&numbers(), &project, &m, &vec![3.0]), vec![0.0]);
}
