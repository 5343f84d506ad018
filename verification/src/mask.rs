use vstd::prelude::*;
use vstd::arithmetic::power2::{lemma2_to64, pow2};
use vstd::std_specs::bits::{axiom_u8_trailing_zeros, u8_trailing_ones, u8_trailing_zeros};

verus! {

/// The low-order mask with `width` set bits: `2^width - 1` for a width of
/// 1 to 8, and the zero mask for every other width.
pub open spec fn mask_for(width: u8) -> u8 {
    if 1 <= width <= 8 {
        (pow2(width as nat) - 1) as u8
    } else {
        0
    }
}

/// `mask_for` written with bit operations.
pub proof fn lemma_mask_for_bits(width: u8)
    requires
        1 <= width <= 8,
    ensures
        mask_for(width) == 0xFFu8 >> (8 - width) as u8,
        mask_for(width) >= 1,
{
    lemma2_to64();
    let d: u8 = (8 - width) as u8;
    assert(d == 7 ==> 0xFFu8 >> d == 1) by (bit_vector);
    assert(d == 6 ==> 0xFFu8 >> d == 3) by (bit_vector);
    assert(d == 5 ==> 0xFFu8 >> d == 7) by (bit_vector);
    assert(d == 4 ==> 0xFFu8 >> d == 15) by (bit_vector);
    assert(d == 3 ==> 0xFFu8 >> d == 31) by (bit_vector);
    assert(d == 2 ==> 0xFFu8 >> d == 63) by (bit_vector);
    assert(d == 1 ==> 0xFFu8 >> d == 127) by (bit_vector);
    assert(d == 0 ==> 0xFFu8 >> d == 255) by (bit_vector);
}

/// A low-order mask moved up by `shift` bits has exactly `shift` trailing
/// zero bits.
pub proof fn lemma_shifted_mask_trailing_zeros(width: u8, shift: u8)
    requires
        1 <= width <= 8,
        shift < 8,
    ensures
        u8_trailing_zeros(mask_for(width) << shift) == shift,
{
    lemma_mask_for_bits(width);
    let m = mask_for(width);
    let d: u8 = (8 - width) as u8;
    let sm: u8 = m << shift;
    assert((sm >> shift) & 1u8 == 1u8 && sm != 0) by (bit_vector)
        requires
            sm == m << shift,
            m == 0xFFu8 >> d,
            d < 8,
            shift < 8,
    ;
    assert forall|j: u8| j < shift implies #[trigger] (sm >> j) & 1u8 == 0u8 by {
        assert((sm >> j) & 1u8 == 0u8) by (bit_vector)
            requires
                sm == m << shift,
                j < shift,
                shift < 8,
        ;
    }
    axiom_u8_trailing_zeros(sm);
    let t = u8_trailing_zeros(sm);
    assert(t < 8);
    if t < shift {
        let tj: u8 = t as u8;
        assert((sm >> tj) & 1u8 == 0u8);
        assert(false);
    }
    if t > shift {
        assert((sm >> shift) & 1u8 == 0u8);
        assert(false);
    }
}

/// Putting a value of `width` bits at bit `shift` of a byte whose bits
/// from `shift` upwards are zero leaves the bits above the value zero.
pub proof fn lemma_rest_of_byte_is_zero(tail: u8, value: u8, width: u8, shift: u8)
    requires
        1 <= width <= 8,
        value <= mask_for(width),
        shift + width < 8,
        tail >> shift == 0,
    ensures
        (tail | (value << shift)) >> ((shift + width) as u8) == 0,
{
    lemma_mask_for_bits(width);
    let d: u8 = (8 - width) as u8;
    let up: u8 = (shift + width) as u8;
    assert((tail | (value << shift)) >> up == 0) by (bit_vector)
        requires
            value <= 0xFFu8 >> d,
            d == 8 - up + shift,
            shift < up < 8,
            tail >> shift == 0,
    ;
}

/// Of a value of `width` bits whose `kept` lowest bits stay behind, the
/// part carried into the next byte has `width - kept` bits.
pub proof fn lemma_carried_part_is_short(value: u8, width: u8, kept: u8)
    requires
        1 <= kept < width <= 8,
        value <= mask_for(width),
    ensures
        (value >> kept) >> ((width - kept) as u8) == 0,
{
    lemma_mask_for_bits(width);
    let d: u8 = (8 - width) as u8;
    let more: u8 = (width - kept) as u8;
    assert((value >> kept) >> more == 0) by (bit_vector)
        requires
            value <= 0xFFu8 >> d,
            d == 8 - (more + kept),
            1 <= kept < 8,
            1 <= more < 8,
            more + kept <= 8,
    ;
}

/// A value put at bit `shift` of a byte whose bits from `shift` upwards
/// are zero is read back by masking and moving down, when it ends inside
/// the byte.
pub proof fn lemma_read_back_in_byte(tail: u8, value: u8, width: u8, shift: u8)
    requires
        1 <= width <= 8,
        value <= mask_for(width),
        shift + width <= 8,
        tail >> shift == 0,
    ensures
        ((tail | (value << shift)) & (mask_for(width) << shift)) >> shift == value,
{
    lemma_mask_for_bits(width);
    let m = mask_for(width);
    let d: u8 = (8 - width) as u8;
    assert(((tail | (value << shift)) & (m << shift)) >> shift == value) by (bit_vector)
        requires
            m == 0xFFu8 >> d,
            value <= m,
            d < 8,
            shift <= d,
            tail >> shift == 0,
    ;
}

/// A value whose low bits were put at bit `shift` of a byte whose bits
/// from `shift` upwards were zero, and whose other bits went to the next
/// byte, is read back from the two bytes by masking and moving down.
pub proof fn lemma_read_back_across_bytes(tail: u8, value: u8, width: u8, shift: u8)
    requires
        1 <= width <= 8,
        value <= mask_for(width),
        1 <= shift < 8,
        shift + width > 8,
        tail >> shift == 0,
    ensures
        ({
            let low = (tail | (value << shift)) & (mask_for(width) << shift);
            let high = (value >> ((8 - shift) as u8)) & (mask_for(width) >> ((8 - shift) as u8));
            (low + 256 * high) / pow2(shift as nat) as int == value
        }),
{
    lemma_mask_for_bits(width);
    let m = mask_for(width);
    let d: u8 = (8 - width) as u8;
    let back: u8 = (8 - shift) as u8;
    let low: u8 = (tail | (value << shift)) & (m << shift);
    let high: u8 = (value >> back) & (m >> back);
    let both: u16 = (low as u16) | ((high as u16) << 8);
    let by: u16 = shift as u16;
    assert(both >> by == value as u16 && both == low as u16 + 256 * (high as u16)) by (bit_vector)
        requires
            m == 0xFFu8 >> d,
            value <= m,
            d < 8,
            1 <= shift < 8,
            back == 8 - shift,
            by == shift as u16,
            tail >> shift == 0,
            low == (tail | (value << shift)) & (m << shift),
            high == (value >> back) & (m >> back),
            both == (low as u16) | ((high as u16) << 8),
    ;
    vstd::bits::lemma_u16_shr_is_div(both, by);
}

/// What is put at bit `shift` of a byte or above does not show under a
/// mask that ends at or below bit `shift`.
pub proof fn lemma_lower_mask_unchanged(tail: u8, value: u8, shift: u8, width: u8, at: u8)
    requires
        1 <= width <= 8,
        at + width <= shift < 8,
    ensures
        (tail | (value << shift)) & (mask_for(width) << at) == tail & (mask_for(width) << at),
{
    lemma_mask_for_bits(width);
    let m = mask_for(width);
    let d: u8 = (8 - width) as u8;
    assert((tail | (value << shift)) & (m << at) == tail & (m << at)) by (bit_vector)
        requires
            m == 0xFFu8 >> d,
            d < 8,
            at + (8 - d) <= shift,
            shift < 8,
    ;
}

/// What is put at bit `shift` of a byte or above does not show under the
/// mask of the part that a field of `width` bits, started at bit `at` of
/// the byte before, carried into this byte, when that part ends at or
/// below bit `shift`.
pub proof fn lemma_carried_mask_unchanged(tail: u8, value: u8, shift: u8, width: u8, at: u8)
    requires
        1 <= width <= 8,
        1 <= at < 8,
        at + width > 8,
        at + width - 8 <= shift < 8,
    ensures
        (tail | (value << shift)) & (mask_for(width) >> ((8 - at) as u8)) == tail & (mask_for(
            width,
        ) >> ((8 - at) as u8)),
{
    lemma_mask_for_bits(width);
    let m = mask_for(width);
    let d: u8 = (8 - width) as u8;
    let back: u8 = (8 - at) as u8;
    assert((tail | (value << shift)) & (m >> back) == tail & (m >> back)) by (bit_vector)
        requires
            m == 0xFFu8 >> d,
            d < 8,
            1 <= back < 8,
            8 - d <= shift + back,
            shift < 8,
    ;
}

/// The bits of a low-order mask of `width` bits moved up by `shift` are
/// the bits `shift` to `shift + width - 1`, as far as the byte holds them;
/// the bits of the part that falls off the byte are those below
/// `shift + width - 8`.
pub proof fn lemma_mask_bits(width: u8, shift: u8, bit: u8)
    requires
        1 <= width <= 8,
        shift < 8,
        bit < 8,
    ensures
        ((mask_for(width) << shift) >> bit) & 1u8 == 1u8 <==> shift <= bit < shift + width,
        shift >= 1 ==> (((mask_for(width) >> ((8 - shift) as u8)) >> bit) & 1u8 == 1u8 <==> bit
            + 8 < shift + width),
{
    lemma_mask_for_bits(width);
    let m = mask_for(width);
    let d: u8 = (8 - width) as u8;
    assert(((m << shift) >> bit) & 1u8 == 1u8 <==> shift <= bit && bit + d < shift + 8)
        by (bit_vector)
        requires
            m == 0xFFu8 >> d,
            d < 8,
            shift < 8,
            bit < 8,
    ;
    if shift >= 1 {
        let back: u8 = (8 - shift) as u8;
        assert(((m >> back) >> bit) & 1u8 == 1u8 <==> bit + d + back < 8) by (bit_vector)
            requires
                m == 0xFFu8 >> d,
                d < 8,
                1 <= back < 8,
                bit < 8,
        ;
    }
}

/// A low-order mask of `width` bits has `width` trailing one bits.
pub proof fn lemma_low_mask_trailing_ones(width: u8)
    requires
        1 <= width <= 8,
    ensures
        u8_trailing_ones(mask_for(width)) == width,
{
    lemma_mask_for_bits(width);
    let m = mask_for(width);
    let d: u8 = (8 - width) as u8;
    axiom_u8_trailing_zeros(!m);
    if width == 8 {
        assert(!m == 0) by (bit_vector)
            requires
                m == 0xFFu8 >> d,
                d == 0,
        ;
    } else {
        lemma_mask_for_bits(d);
        lemma_shifted_mask_trailing_zeros(d, width);
        assert(!m == (0xFFu8 >> width) << width) by (bit_vector)
            requires
                m == 0xFFu8 >> d,
                d == 8 - width,
                1 <= width < 8,
        ;
    }
}

/// The part of a low-order mask of `width` bits that is left when its
/// `gone` lowest bits are dropped is the low-order mask of the other bits.
pub proof fn lemma_low_mask_moved_down(width: u8, gone: u8)
    requires
        1 <= gone < width <= 8,
    ensures
        mask_for(width) >> gone == mask_for((width - gone) as u8),
{
    lemma_mask_for_bits(width);
    lemma_mask_for_bits((width - gone) as u8);
    let d: u8 = (8 - width) as u8;
    let e: u8 = (8 - (width - gone)) as u8;
    assert((0xFFu8 >> d) >> gone == 0xFFu8 >> e) by (bit_vector)
        requires
            e == d + gone,
            e < 8,
    ;
}

/// A low-order mask moved up by at least one bit has no trailing one bit.
pub proof fn lemma_raised_mask_trailing_ones(width: u8, shift: u8)
    requires
        1 <= width <= 8,
        1 <= shift < 8,
    ensures
        u8_trailing_ones(mask_for(width) << shift) == 0,
{
    let m = mask_for(width);
    let raised: u8 = m << shift;
    let flipped: u8 = !raised;
    assert((flipped >> 0u8) & 1u8 == 1u8) by (bit_vector)
        requires
            flipped == !raised,
            raised == m << shift,
            1 <= shift < 8,
    ;
    axiom_u8_trailing_zeros(flipped);
}

} // verus!
