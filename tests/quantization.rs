use fwumious_wabbit::quantization::{
    dequantize_ffm_weights_3by, is_finite_bits, quantize_ffm_weights_3by, DequantizeError,
};

fn bits(ws: &[f32]) -> Vec<u32> {
    ws.iter().map(|w| w.to_bits()).collect()
}

#[test]
fn test_quantize_3by() {
    let some_random_float_weights = vec![0.51, 0.12, 0.11, 0.1232, 0.6123, 0.23];
    let output_weights = quantize_ffm_weights_3by(&bits(&some_random_float_weights));
    assert_eq!(output_weights[3], [61, 252, 80]);
}

#[test]
fn quantize_keeps_length_and_top_bytes() {
    let out = quantize_ffm_weights_3by(&[0x1234_5678, 0xFFFF_FFFF, 0]);
    assert_eq!(out, vec![[0x12, 0x34, 0x56], [0xFF, 0xFF, 0xFF], [0, 0, 0]]);
    assert!(quantize_ffm_weights_3by(&[]).is_empty());
}

#[test]
fn dequantize_fills_low_byte_with_zero() {
    let mut ws = vec![7u32, 9u32];
    let r = dequantize_ffm_weights_3by(&[0x12, 0x34, 0x56, 0xAB, 0xCD, 0xEF], &mut ws);
    assert_eq!(r, Ok(()));
    assert_eq!(ws, vec![0x1234_5600, 0xABCD_EF00]);
}

#[test]
fn dequantize_refuses_wrong_length() {
    let mut ws = vec![7u32, 9u32];
    let r = dequantize_ffm_weights_3by(&[1, 2, 3, 4, 5], &mut ws);
    assert_eq!(r, Err(DequantizeError::LengthMismatch));
    assert_eq!(ws, vec![7, 9]);
}

#[test]
fn quantization_round_trip_error_is_small() {
    let weights = vec![0.51f32, -0.12, 3.75e10, -1.0e-20, 1.0];
    let q = quantize_ffm_weights_3by(&bits(&weights));
    let flat: Vec<u8> = q.iter().flat_map(|b| b.iter().copied()).collect();
    let mut back = vec![0u32; weights.len()];
    assert_eq!(dequantize_ffm_weights_3by(&flat, &mut back), Ok(()));
    for (w, b) in weights.iter().zip(back.iter()) {
        let d = f32::from_bits(*b);
        assert!((d - w).abs() <= w.abs() * 2f32.powi(-15));
        assert_eq!(d.signum(), w.signum());
    }
    assert_eq!(f32::from_bits(back[4]), 1.0);
}

#[test]
fn relative_error_bound_on_small_low_byte() {
    // a normal float whose dropped byte is small against its significand
    let w = 1.5f32.to_bits() | 0x40;
    let q = quantize_ffm_weights_3by(&[w]);
    let mut back = vec![0u32];
    dequantize_ffm_weights_3by(&q[0], &mut back).unwrap();
    let (a, b) = (f32::from_bits(w) as f64, f32::from_bits(back[0]) as f64);
    assert!((a - b).abs() <= a.abs() * 2f64.powi(-16));
    assert_eq!(back[0], 1.5f32.to_bits());
}

#[test]
fn relative_error_can_exceed_two_to_minus_sixteen() {
    // all low bits set just above 1.0: the error is about 2^-15 of the value
    let w = 0x3F80_00FFu32;
    let q = quantize_ffm_weights_3by(&[w]);
    let mut back = vec![0u32];
    dequantize_ffm_weights_3by(&q[0], &mut back).unwrap();
    let (a, b) = (f32::from_bits(w) as f64, f32::from_bits(back[0]) as f64);
    assert!((a - b).abs() > a.abs() * 2f64.powi(-16));
    assert!((a - b).abs() < a.abs() * 2f64.powi(-15));
}

#[test]
fn finite_bit_patterns() {
    assert!(is_finite_bits(1.5f32.to_bits()));
    assert!(is_finite_bits(f32::MAX.to_bits()));
    assert!(is_finite_bits(0));
    assert!(!is_finite_bits(f32::INFINITY.to_bits()));
    assert!(!is_finite_bits(f32::NEG_INFINITY.to_bits()));
    assert!(!is_finite_bits(f32::NAN.to_bits()));
}
