use vstd::prelude::*;

verus! {

/// Number of most-significant bytes kept of each quantized weight.
pub const BY_3: usize = 3;

/// The three most-significant bytes of the big-endian form of a 32-bit word.
pub open spec fn top_three_bytes(w: u32) -> Seq<u8> {
    seq![(w >> 24u32) as u8, (w >> 16u32) as u8, (w >> 8u32) as u8]
}

/// The 32-bit word whose big-endian form is `b0 b1 b2 0`.
pub open spec fn word_from_top_three(b0: u8, b1: u8, b2: u8) -> u32 {
    ((b0 as u32) << 24u32) | ((b1 as u32) << 16u32) | ((b2 as u32) << 8u32)
}

/// Quantizes weights, given as the bit patterns of 32-bit floats, to the three
/// most-significant bytes of each one's big-endian form.
pub fn quantize_ffm_weights_3by(weights: &[u32]) -> (r: Vec<[u8; BY_3]>)
    ensures
        r@.len() == weights@.len(),
        forall|i: int| 0 <= i < weights@.len() ==> r@[i]@ == top_three_bytes(#[trigger] weights@[i]),
{
    let mut v: Vec<[u8; BY_3]> = Vec::with_capacity(weights.len());
    let mut i: usize = 0;
    while i < weights.len()
        invariant
            i <= weights@.len(),
            v@.len() == i,
            forall|j: int| 0 <= j < i ==> v@[j]@ == top_three_bytes(#[trigger] weights@[j]),
        decreases weights@.len() - i,
    {
        let w = weights[i];
        let out_ary: [u8; BY_3] = [(w >> 24u32) as u8, (w >> 16u32) as u8, (w >> 8u32) as u8];
        assert(out_ary@ =~= top_three_bytes(w));
        v.push(out_ary);
        i = i + 1;
    }
    v
}

/// Why a byte buffer could not be turned back into weights.
#[derive(Clone, Copy, Debug, PartialEq, Eq, Structural)]
pub enum DequantizeError {
    /// The buffer does not hold exactly three bytes for each weight.
    LengthMismatch,
}

/// The weight (as float bit pattern) encoded by chunk `i` of a quantized buffer.
pub open spec fn dequantized_word(input: Seq<u8>, i: int) -> u32 {
    word_from_top_three(input[3 * i], input[3 * i + 1], input[3 * i + 2])
}

/// Overwrites each weight with the one whose three most-significant bytes are the
/// next three bytes of `input`, the fourth byte being zero. The weights are left
/// as they were unless `input` holds exactly three bytes per weight.
pub fn dequantize_ffm_weights_3by(input: &[u8], reference_weights: &mut Vec<u32>) -> (r: Result<
    (),
    DequantizeError,
>)
    ensures
        r is Ok <==> input@.len() == 3 * old(reference_weights)@.len(),
        r is Err ==> final(reference_weights)@ == old(reference_weights)@,
        r is Ok ==> final(reference_weights)@.len() == old(reference_weights)@.len(),
        r is Ok ==> forall|i: int|
            0 <= i < old(reference_weights)@.len() ==> #[trigger] final(reference_weights)@[i]
                == dequantized_word(input@, i),
{
    let n = reference_weights.len();
    if input.len() % 3 != 0 || input.len() / 3 != n {
        return Err(DequantizeError::LengthMismatch);
    }
    let len = input.len();
    let mut i: usize = 0;
    while i < n
        invariant
            len == input@.len(),
            n == old(reference_weights)@.len(),
            input@.len() == 3 * n,
            i <= n,
            reference_weights@.len() == n,
            forall|j: int| 0 <= j < i ==> #[trigger] reference_weights@[j] == dequantized_word(input@, j),
        decreases n - i,
    {
        assert(3 * i + 2 < len);
        let b0 = input[3 * i];
        let b1 = input[3 * i + 1];
        let b2 = input[3 * i + 2];
        let w: u32 = ((b0 as u32) << 24u32) | ((b1 as u32) << 16u32) | ((b2 as u32) << 8u32);
        reference_weights.set(i, w);
        i = i + 1;
    }
    Ok(())
}

/// Quantizing a weight and reading it back clears the low byte of its bit pattern
/// and keeps the other three.
pub proof fn lemma_dequantize_quantize(w: u32)
    ensures
        word_from_top_three(top_three_bytes(w)[0], top_three_bytes(w)[1], top_three_bytes(w)[2])
            == w & 0xFFFF_FF00u32,
{
    let b0 = (w >> 24u32) as u8;
    let b1 = (w >> 16u32) as u8;
    let b2 = (w >> 8u32) as u8;
    assert(((b0 as u32) << 24u32) | ((b1 as u32) << 16u32) | ((b2 as u32) << 8u32)
        == w & 0xFFFF_FF00u32) by (bit_vector)
        requires
            b0 == (w >> 24u32) as u8,
            b1 == (w >> 16u32) as u8,
            b2 == (w >> 8u32) as u8,
    ;
}

/// A weight after quantization and dequantization, as a float bit pattern.
pub open spec fn quantized_round_trip(w: u32) -> u32 {
    word_from_top_three(top_three_bytes(w)[0], top_three_bytes(w)[1], top_three_bytes(w)[2])
}

/// The sign bit of a 32-bit float bit pattern.
pub open spec fn sign_bit(w: u32) -> u32 {
    w >> 31u32
}

/// The biased exponent field of a 32-bit float bit pattern.
pub open spec fn exponent_field(w: u32) -> u32 {
    (w >> 23u32) & 0xFFu32
}

/// Whether a float bit pattern is finite: its exponent field is not all ones.
pub fn is_finite_bits(w: u32) -> (r: bool)
    ensures
        r == (exponent_field(w) != 0xFFu32),
{
    (w >> 23u32) & 0xFFu32 != 0xFFu32
}

/// A float bit pattern is normal when its exponent field is neither all zeros
/// nor all ones.
pub open spec fn is_normal(w: u32) -> bool {
    1 <= exponent_field(w) <= 254
}

/// The significand of a normal float, with its implicit leading one, as an
/// integer: the float's magnitude is `significand(w) * 2^(exponent_field(w) - 150)`.
pub open spec fn significand(w: u32) -> int {
    0x80_0000int + ((w & 0x7F_FFFFu32) as int)
}

/// Quantization keeps the sign and exponent of a normal float and never increases
/// its significand.
proof fn lemma_round_trip_fields(w: u32)
    ensures
        sign_bit(quantized_round_trip(w)) == sign_bit(w),
        exponent_field(quantized_round_trip(w)) == exponent_field(w),
        (quantized_round_trip(w) & 0x7F_FFFFu32) as int == (w & 0x7F_FFFFu32) as int - (w
            & 0xFFu32) as int,
{
    lemma_dequantize_quantize(w);
    let q = w & 0xFFFF_FF00u32;
    assert(q >> 31u32 == w >> 31u32) by (bit_vector)
        requires
            q == w & 0xFFFF_FF00u32,
    ;
    assert((q >> 23u32) & 0xFFu32 == (w >> 23u32) & 0xFFu32) by (bit_vector)
        requires
            q == w & 0xFFFF_FF00u32,
    ;
    assert(q & 0x7F_FFFFu32 == (w & 0x7F_FFFFu32) - (w & 0xFFu32)) by (bit_vector)
        requires
            q == w & 0xFFFF_FF00u32,
    ;
    assert(w & 0xFFu32 <= w & 0x7F_FFFFu32) by (bit_vector);
}

/// For a normal float whose dropped low byte is small enough against its
/// significand (`low byte * 2^16 <= significand`), quantization and dequantization
/// keep sign and exponent, and change the significand by at most
/// `significand * 2^-16`; since both values share one scale, `|dequant(quant(w)) - w|
/// <= |w| * 2^-16`.
pub proof fn lemma_quantization_relative_error(w: u32)
    requires
        is_normal(w),
        ((w & 0xFFu32) as int) * 65536 <= significand(w),
    ensures
        sign_bit(quantized_round_trip(w)) == sign_bit(w),
        exponent_field(quantized_round_trip(w)) == exponent_field(w),
        0 <= significand(w) - significand(quantized_round_trip(w)),
        (significand(w) - significand(quantized_round_trip(w))) * 65536 <= significand(w),
{
    lemma_round_trip_fields(w);
}

/// For every normal float, quantization and dequantization keep sign and exponent,
/// and change the significand by less than `significand * 2^-15`; that is,
/// `|dequant(quant(w)) - w| < |w| * 2^-15`.
pub proof fn lemma_quantization_relative_error_any_normal(w: u32)
    requires
        is_normal(w),
    ensures
        sign_bit(quantized_round_trip(w)) == sign_bit(w),
        exponent_field(quantized_round_trip(w)) == exponent_field(w),
        0 <= significand(w) - significand(quantized_round_trip(w)),
        (significand(w) - significand(quantized_round_trip(w))) * 32768 < significand(w),
{
    lemma_round_trip_fields(w);
    assert(w & 0xFFu32 <= 0xFFu32) by (bit_vector);
}

} // verus!
