use fraud_knn::quantize::{quantize_half, quantize_single};

fn by_float(v: f32) -> u8 {
    ((v + 1.0) * 127.5).clamp(0.0, 255.0).round() as u8
}

#[test]
fn every_half_precision_pattern_quantizes_as_the_float_formula() {
    for bits in 0..=u16::MAX {
        let v = half::f16::from_bits(bits).to_f32();
        assert_eq!(quantize_half(bits), by_float(v), "pattern {bits:#06x}");
    }
}

#[test]
fn single_precision_patterns_quantize_as_the_float_formula() {
    let mut bits: u32 = 0;
    loop {
        assert_eq!(
            quantize_single(bits),
            by_float(f32::from_bits(bits)),
            "pattern {bits:#010x}"
        );
        match bits.checked_add(1009) {
            Some(next) => bits = next,
            None => break,
        }
    }
}

#[test]
fn single_precision_quantization_rounds_the_sum_and_the_product() {
    // products that the rounding to single precision lifts onto a half
    for k in 128u32..255 {
        let s = (2 * k + 1) * 65793 + 1;
        let v = (s as f64 / 16777216.0 - 1.0) as f32;
        assert_eq!(quantize_single(v.to_bits()), by_float(v));
        for step in 1u32..4 {
            for near in [f32::from_bits(v.to_bits() + step), f32::from_bits(v.to_bits() - step)] {
                assert_eq!(quantize_single(near.to_bits()), by_float(near));
            }
        }
    }
}

#[test]
fn quantization_of_the_ends_and_the_middle() {
    assert_eq!(quantize_single((-1.0f32).to_bits()), 0);
    assert_eq!(quantize_single(0.0f32.to_bits()), 128);
    assert_eq!(quantize_single(1.0f32.to_bits()), 255);
    assert_eq!(quantize_single((-3.5f32).to_bits()), 0);
    assert_eq!(quantize_single(2.5f32.to_bits()), 255);
    assert_eq!(quantize_single(f32::INFINITY.to_bits()), 255);
    assert_eq!(quantize_single(f32::NEG_INFINITY.to_bits()), 0);
    assert_eq!(quantize_single(f32::NAN.to_bits()), 0);
    assert_eq!(quantize_half(0xbc00), 0);
    assert_eq!(quantize_half(0x3c00), 255);
    assert_eq!(quantize_half(0x7e00), 0);
    assert_eq!(quantize_half(0x7c00), 255);
    assert_eq!(quantize_half(0xfc00), 0);
}

#[test]
fn quantization_preserves_order() {
    let mut last = 0;
    let mut v = -1.25f32;
    while v <= 1.25 {
        let q = quantize_single(v.to_bits());
        assert!(q >= last);
        last = q;
        v += 0.001;
    }
    assert_eq!(last, 255);
}
