use gguf_infer::ieee::{
    fp16_to_fp32, is_nan, key, less, less_or_equal, narrow_double, round_double, rounded,
    unit_fraction, widen_single,
};
use gguf_infer::quant::read_fp16_le;
use gguf_infer::ranking::{argmax, rank_indices, top_k};

fn samples() -> Vec<f32> {
    vec![
        0.0,
        -0.0,
        1.0,
        -1.0,
        1.5,
        -2.25,
        3.4e38,
        -3.4e38,
        1e-45,
        -1e-45,
        1.1754942e-38,
        f32::INFINITY,
        f32::NEG_INFINITY,
        f32::NAN,
        0.1,
        16777217.0,
    ]
}

#[test]
fn patterns_compare_as_floats() {
    for a in samples() {
        for b in samples() {
            assert_eq!(less(a.to_bits(), b.to_bits()), a < b);
            assert_eq!(less_or_equal(a.to_bits(), b.to_bits()), a <= b);
        }
        assert_eq!(is_nan(a.to_bits()), a.is_nan());
    }
}

#[test]
fn the_order_key_follows_the_order() {
    for a in samples() {
        for b in samples() {
            if !a.is_nan() && !b.is_nan() {
                assert_eq!(key(a.to_bits()) < key(b.to_bits()), a < b);
            }
        }
    }
}

#[test]
fn halves_widen_exactly() {
    assert_eq!(fp16_to_fp32(0x3C00), 1.0f32.to_bits());
    assert_eq!(fp16_to_fp32(0xC000), (-2.0f32).to_bits());
    assert_eq!(fp16_to_fp32(0x3555), 0.33325195f32.to_bits());
    assert_eq!(fp16_to_fp32(0x0000), 0);
    assert_eq!(fp16_to_fp32(0x8000), (-0.0f32).to_bits());
    assert_eq!(fp16_to_fp32(0x7BFF), 65504.0f32.to_bits());
    assert_eq!(fp16_to_fp32(0x0400), 6.1035156e-5f32.to_bits());
}

#[test]
fn small_halves_widen_exactly() {
    assert_eq!(fp16_to_fp32(0x0001), 5.9604645e-8f32.to_bits());
    assert_eq!(fp16_to_fp32(0x03FF), 6.097555e-5f32.to_bits());
    assert_eq!(fp16_to_fp32(0x8001), (-5.9604645e-8f32).to_bits());
}

#[test]
fn special_halves_widen() {
    assert_eq!(fp16_to_fp32(0x7C00), f32::INFINITY.to_bits());
    assert_eq!(fp16_to_fp32(0xFC00), f32::NEG_INFINITY.to_bits());
    assert_eq!(fp16_to_fp32(0x7E00), f32::NAN.to_bits());
    assert_eq!(fp16_to_fp32(0xFC01), f32::NAN.to_bits());
}

#[test]
fn every_half_widens_to_its_value() {
    for bits in 0..=0xFFFFu16 {
        let exp = (bits >> 10) & 31;
        if exp == 31 {
            continue;
        }
        let mantissa = (bits & 0x3FF) as f64;
        let sign = if bits >= 0x8000 { -1.0 } else { 1.0 };
        let value = if exp == 0 {
            sign * mantissa * 2.0f64.powi(-24)
        } else {
            sign * (1024.0 + mantissa) * 2.0f64.powi(exp as i32 - 25)
        };
        assert_eq!(fp16_to_fp32(bits), (value as f32).to_bits());
    }
}

#[test]
fn halves_are_read_low_byte_first() {
    assert_eq!(read_fp16_le(&[0x00, 0x3C]), 1.0f32.to_bits());
    assert_eq!(read_fp16_le(&[0x00, 0xC0, 0xFF]), (-2.0f32).to_bits());
}

#[test]
fn widening_a_single_is_the_conversion() {
    for a in samples() {
        if !a.is_nan() {
            assert_eq!(widen_single(a.to_bits()), (a as f64).to_bits());
        }
    }
    assert!(f64::from_bits(widen_single(f32::NAN.to_bits())).is_nan());
}

#[test]
fn narrowing_a_double_is_the_conversion() {
    let doubles: Vec<f64> = vec![
        0.0,
        -0.0,
        1.0,
        0.1,
        -0.1,
        1e300,
        -1e300,
        1e-300,
        3.4028235677973366e38,
        3.4028234e38,
        1e-45,
        7e-46,
        7.1e-46,
        1.1754943e-38,
        1.1754942807573643e-38,
        16777217.0,
        16777219.0,
        f64::INFINITY,
        f64::NEG_INFINITY,
        10000.0,
        1e-5,
    ];
    for d in doubles {
        assert_eq!(narrow_double(d.to_bits()), (d as f32).to_bits());
    }
    assert!(is_nan(narrow_double(f64::NAN.to_bits())));
}

#[test]
fn narrowing_undoes_widening() {
    for a in samples() {
        if !a.is_nan() {
            assert_eq!(narrow_double(widen_single(a.to_bits())), a.to_bits());
        }
    }
}

#[test]
fn integers_round_to_even() {
    assert_eq!(rounded(0b1011, 3, 8), (0b110, 1));
    assert_eq!(rounded(0b1001, 3, 8), (0b100, 1));
    assert_eq!(rounded(0b1010, 3, 8), (0b101, 1));
    assert_eq!(rounded(0b1111, 3, 8), (0b1000, 1));
    assert_eq!(rounded(7, 3, 8), (7, 0));
    assert_eq!(rounded(0, 3, 8), (0, 0));
    assert_eq!(round_double(9007199254740993), 9007199254740992);
    assert_eq!(round_double(9007199254740995), 9007199254740996);
}

#[test]
fn fractions_are_those_of_the_division() {
    for state in [0u64, 1, 12345, 13289605635609, 11245129090807876197, u64::MAX, 1 << 63] {
        let expected = (state as f64 / u64::MAX as f64) as f32;
        assert_eq!(unit_fraction(state), expected.to_bits());
    }
}

#[test]
fn ranking_goes_from_the_largest_down() {
    let v: Vec<u32> = [0.5f32, 2.0, -1.0, 2.0, 0.0].iter().map(|x| x.to_bits()).collect();
    assert_eq!(rank_indices(&v), vec![1, 3, 0, 4, 2]);
    assert_eq!(rank_indices(&[]), Vec::<usize>::new());
}

#[test]
fn ranking_holds_every_index_once() {
    let v: Vec<u32> = (0..97u32).map(|i| ((i * 37 % 11) as f32).to_bits()).collect();
    let mut order = rank_indices(&v);
    for w in order.windows(2) {
        let (a, b) = (f32::from_bits(v[w[0]]), f32::from_bits(v[w[1]]));
        assert!(a > b || (a == b && w[0] < w[1]));
    }
    order.sort();
    assert_eq!(order, (0..97).collect::<Vec<usize>>());
}

#[test]
fn what_is_no_number_ranks_last() {
    let v: Vec<u32> = [f32::NAN, 1.0, f32::NEG_INFINITY].iter().map(|x| x.to_bits()).collect();
    assert_eq!(rank_indices(&v), vec![1, 2, 0]);
}

#[test]
fn top_k_gives_indices_and_values() {
    let v: Vec<u32> = [0.5f32, 2.0, -1.0, 3.0].iter().map(|x| x.to_bits()).collect();
    assert_eq!(top_k(&v, 2), vec![(3, 3.0f32.to_bits()), (1, 2.0f32.to_bits())]);
    assert_eq!(top_k(&v, 9).len(), 4);
    assert!(top_k(&v, 0).is_empty());
}

#[test]
fn argmax_finds_the_first_maximum() {
    let v: Vec<u32> = [0.5f32, 3.0, -1.0, 3.0].iter().map(|x| x.to_bits()).collect();
    assert_eq!(argmax(&v), 1);
    assert_eq!(argmax(&[7]), 0);
}
