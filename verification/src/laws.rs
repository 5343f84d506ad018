use vstd::prelude::*;
use vstd::std_specs::bits::u8_trailing_ones;
use crate::bit_info::descriptor_at;
use crate::bit_pack::{field_value, last_index_of, lemma_last_index_of, PackView};
use crate::error::PackError;
use crate::field_int::FieldInt;
use crate::layout::{lemma_allocate_valid, lemma_field_in_buffer, lemma_offsets_increase};
use crate::mask::{
    lemma_carried_mask_unchanged, lemma_low_mask_moved_down, lemma_low_mask_trailing_ones,
    lemma_lower_mask_unchanged, lemma_mask_bits, lemma_mask_for_bits,
    lemma_raised_mask_trailing_ones, lemma_read_back_across_bytes, lemma_read_back_in_byte,
    lemma_shifted_mask_trailing_zeros, mask_for,
};
use crate::wide::{and_bytes, lemma_le_value_short};

verus! {

/// The descriptor of a new field: its starting mask is the mask of its
/// width moved up to the first free bit; it starts in the last byte when
/// that has free bits and in the appended byte when it has none, and ends
/// with the buffer; it touches two bytes when there are free bits but
/// fewer than it needs, and then its ending mask is the mask of its width
/// moved down by the bits that stayed in the first byte; else it touches
/// one byte, and the two masks are equal.
pub proof fn law_descriptor_of_allocation(state: PackView, name: Seq<char>, width: u8, value: u8)
    requires
        state.valid(),
        1 <= width <= 8,
        state.free_bits < width ==> state.bytes.len() < usize::MAX,
    ensures
        ({
            let next = state.allocate(name, width, value);
            let made = next.infos.last();
            &&& made.starting_bit_mask == mask_for(width) << state.shift_with()
            &&& made.starting_array_index_inc == if state.free_bits > 0 {
                state.bytes.len() - 1
            } else {
                state.bytes.len() as int
            }
            &&& made.ending_array_index_exc == next.bytes.len()
            &&& made.span() == if 0 < state.free_bits < width {
                2int
            } else {
                1int
            }
            &&& made.span() == 1 ==> made.ending_bit_mask == made.starting_bit_mask
            &&& made.span() == 2 ==> made.ending_bit_mask == mask_for(width) >> state.free_bits as u8
        }),
{
}

/// How the free bits show in the last descriptor: where the last field
/// touches two bytes or starts at bit 0 of its byte, the trailing one
/// bits of its ending mask are the bits of the last byte that are taken;
/// where it starts higher in its byte, its ending mask has no trailing
/// one bit.
pub proof fn law_trailing_ones_of_last_field(state: PackView)
    requires
        state.valid(),
        state.infos.len() > 0,
    ensures
        u8_trailing_ones(state.infos.last().ending_bit_mask) == if state.infos.last().span() == 2
            || state.infos.last().first_bit() % 8 == 0 {
            8 - state.free_bits
        } else {
            0int
        },
{
    let i = state.infos.len() - 1;
    lemma_field_in_buffer(state, i);
    lemma_offsets_increase(state, 0, i);
    let lo = state.offset(i);
    let w = state.width(i) as u8;
    let shift = (lo % 8) as u8;
    assert(state.infos[i] == descriptor_at(lo, w));
    if shift + w > 8 {
        lemma_low_mask_moved_down(w, (8 - shift) as u8);
        lemma_low_mask_trailing_ones((w + shift - 8) as u8);
    } else if shift == 0 {
        let m = mask_for(w);
        assert(m << 0u8 == m) by (bit_vector);
        lemma_low_mask_trailing_ones(w);
    } else {
        lemma_raised_mask_trailing_ones(w, shift);
    }
}

/// A field that was just allocated holds the value it was allocated with.
pub proof fn law_allocated_value(state: PackView, name: Seq<char>, width: u8, value: u8)
    requires
        state.valid(),
        1 <= width <= 8,
        value <= mask_for(width),
        state.free_bits < width ==> state.bytes.len() < usize::MAX,
    ensures
        field_value(
            state.allocate(name, width, value).bytes,
            state.allocate(name, width, value).infos.last(),
        ) == value,
{
    let next = state.allocate(name, width, value);
    let info = next.infos.last();
    let used = state.used_bits();
    let shift = state.shift_with();
    let first = used / 8;
    assert(info == descriptor_at(used, width));
    assert(shift == used % 8);
    lemma_shifted_mask_trailing_zeros(width, shift);
    lemma_mask_for_bits(width);
    let tail: u8 = if state.free_bits > 0 {
        state.bytes.last()
    } else {
        0u8
    };
    assert(tail >> shift == 0) by {
        if state.free_bits == 0 {
            assert(0u8 >> 0u8 == 0) by (bit_vector);
        }
    }
    let slice = next.bytes.subrange(
        info.starting_array_index_inc as int,
        info.ending_array_index_exc as int,
    );
    let picked = and_bytes(slice, info.overlay(slice.len()));
    lemma_le_value_short(picked);
    if shift + width <= 8 {
        assert(slice.len() == 1);
        assert(slice[0] == tail | (value << shift));
        assert(picked[0] == (tail | (value << shift)) & (mask_for(width) << shift));
        lemma_read_back_in_byte(tail, value, width, shift);
        vstd::bits::lemma_u8_shr_is_div(picked[0], shift);
    } else {
        assert(slice.len() == 2);
        assert(slice[0] == tail | (value << shift));
        assert(slice[1] == value >> ((8 - shift) as u8));
        assert(picked[0] == (tail | (value << shift)) & (mask_for(width) << shift));
        assert(picked[1] == (value >> ((8 - shift) as u8)) & (mask_for(width) >> ((8
            - shift) as u8)));
        lemma_read_back_across_bytes(tail, value, width, shift);
    }
}

/// Allocating a field leaves the value of every earlier field as it was.
pub proof fn law_earlier_values_stay(
    state: PackView,
    name: Seq<char>,
    width: u8,
    value: u8,
    i: int,
)
    requires
        state.valid(),
        1 <= width <= 8,
        value <= mask_for(width),
        0 <= i < state.infos.len(),
    ensures
        state.allocate(name, width, value).infos[i] == state.infos[i],
        field_value(state.allocate(name, width, value).bytes, state.infos[i]) == field_value(
            state.bytes,
            state.infos[i],
        ),
{
    let next = state.allocate(name, width, value);
    let info = state.infos[i];
    let shift = state.shift_with();
    lemma_field_in_buffer(state, i);
    lemma_offsets_increase(state, i + 1, state.infos.len() as int);
    lemma_offsets_increase(state, 0, i);
    let lo = state.offset(i);
    let w = state.width(i) as u8;
    assert(info == descriptor_at(lo, w));
    let start = info.starting_array_index_inc as int;
    let end = info.ending_array_index_exc as int;
    let old_slice = state.bytes.subrange(start, end);
    let new_slice = next.bytes.subrange(start, end);
    let over = info.overlay(old_slice.len());
    let last = state.bytes.len() - 1;
    assert forall|k: int| 0 <= k < old_slice.len() implies (new_slice[k] & over[k]) == (
    old_slice[k] & over[k]) by {
        if state.free_bits > 0 && start + k == last {
            let tail = state.bytes[last];
            assert(new_slice[k] == tail | (value << shift));
            if k == 0 {
                lemma_lower_mask_unchanged(tail, value, shift, w, (lo % 8) as u8);
            } else {
                lemma_carried_mask_unchanged(tail, value, shift, w, (lo % 8) as u8);
            }
        } else {
            assert(new_slice[k] == old_slice[k]);
        }
    }
    assert(and_bytes(new_slice, over) =~= and_bytes(old_slice, over));
}

/// Round trip: a field reads back, as each of the five integer types, the
/// value that it was allocated with.
pub proof fn law_round_trip(state: PackView, name: Seq<char>, width: u8, value: u8)
    requires
        state.valid(),
        1 <= width <= 8,
        value <= mask_for(width),
        state.free_bits < width ==> state.bytes.len() < usize::MAX,
    ensures
        state.allocate(name, width, value).read::<u8>(name) == Ok::<u8, PackError>(value),
        state.allocate(name, width, value).read::<u16>(name) == Ok::<u16, PackError>(
            value as u16,
        ),
        state.allocate(name, width, value).read::<u32>(name) == Ok::<u32, PackError>(
            value as u32,
        ),
        state.allocate(name, width, value).read::<u64>(name) == Ok::<u64, PackError>(
            value as u64,
        ),
        state.allocate(name, width, value).read::<u128>(name) == Ok::<u128, PackError>(
            value as u128,
        ),
{
    let next = state.allocate(name, width, value);
    law_allocated_value(state, name, width, value);
    lemma_allocate_valid(state, name, width, value);
    assert(next.names.last() == name);
    assert(last_index_of(next.names, name) == Some(next.names.len() - 1));
    lemma_field_in_buffer(next, next.infos.len() - 1);
}

/// A field allocated earlier under another name reads as it did before
/// the allocation.
pub proof fn law_other_fields_read_the_same<T: FieldInt>(
    state: PackView,
    name: Seq<char>,
    width: u8,
    value: u8,
    other: Seq<char>,
)
    requires
        state.valid(),
        1 <= width <= 8,
        value <= mask_for(width),
        other != name,
    ensures
        state.allocate(name, width, value).read::<T>(other) == state.read::<T>(other),
{
    let next = state.allocate(name, width, value);
    assert(next.names.drop_last() =~= state.names);
    assert(next.names.last() == name);
    lemma_last_index_of(state.names, other);
    match last_index_of(state.names, other) {
        Some(i) => {
            law_earlier_values_stay(state, name, width, value, i);
        },
        None => {},
    }
}

/// Reading never succeeds for a name under which no field was allocated.
pub proof fn law_unknown_field<T: FieldInt>(state: PackView, name: Seq<char>)
    requires
        forall|i: int| 0 <= i < state.names.len() ==> state.names[i] != name,
    ensures
        state.read::<T>(name) == Err::<T, PackError>(PackError::UnknownField),
{
    lemma_last_index_of(state.names, name);
}

/// Growth: an allocation appends one byte, which is the width divided by
/// eight and rounded up, when the free bits do not hold the field, and no
/// byte when they do; the bytes that were there keep their place.
pub proof fn law_growth(state: PackView, name: Seq<char>, width: u8, value: u8)
    requires
        state.valid(),
        1 <= width <= 8,
    ensures
        state.free_bits < width ==> state.allocate(name, width, value).bytes.len()
            == state.bytes.len() + (width + 7) / 8,
        state.free_bits >= width ==> state.allocate(name, width, value).bytes.len()
            == state.bytes.len(),
        state.allocate(name, width, value).bytes.len() >= state.bytes.len(),
        state.allocate(name, width, value).free_bits + width == state.free_bits + 8 * (
        state.allocate(name, width, value).bytes.len() - state.bytes.len()),
{
}

/// A field owns exactly the bits from its first bit up to the first bit
/// of the field after it.
pub proof fn lemma_claims_are_an_interval(state: PackView, i: int, byte: int, bit: int)
    requires
        state.valid(),
        0 <= i < state.infos.len(),
        0 <= bit < 8,
    ensures
        state.infos[i].claims(byte, bit) <==> state.offset(i) <= 8 * byte + bit < state.offset(
            i + 1,
        ),
{
    lemma_field_in_buffer(state, i);
    lemma_offsets_increase(state, 0, i);
    let lo = state.offset(i);
    let w = state.width(i) as u8;
    assert(state.infos[i] == descriptor_at(lo, w));
    lemma_mask_bits(w, (lo % 8) as u8, bit as u8);
}

/// No overlap: two different fields never own the same bit.
pub proof fn law_no_overlap(state: PackView, i: int, j: int, byte: int, bit: int)
    requires
        state.valid(),
        0 <= i < state.infos.len(),
        0 <= j < state.infos.len(),
        i != j,
    ensures
        !(state.infos[i].claims(byte, bit) && state.infos[j].claims(byte, bit)),
{
    if 0 <= bit < 8 {
        lemma_claims_are_an_interval(state, i, byte, bit);
        lemma_claims_are_an_interval(state, j, byte, bit);
        if i < j {
            lemma_offsets_increase(state, i + 1, j);
        } else {
            lemma_offsets_increase(state, j + 1, i);
        }
    }
}

/// The field that owns the bit at position `at`, for a position below the
/// first bit of field `upto`.
pub proof fn lemma_owner_exists(state: PackView, at: int, upto: int) -> (i: int)
    requires
        state.valid(),
        0 <= upto <= state.infos.len(),
        0 <= at < state.offset(upto),
    ensures
        0 <= i < upto,
        state.offset(i) <= at < state.offset(i + 1),
    decreases upto,
{
    if upto == 0 {
        assert(false);
        0
    } else if state.offset(upto - 1) <= at {
        upto - 1
    } else {
        lemma_owner_exists(state, at, upto - 1)
    }
}

/// Cover: the bits of the buffer are the bits that the fields own and,
/// above them, the free bits of the last byte; no field owns a bit
/// outside the buffer.
pub proof fn law_cover(state: PackView, byte: int, bit: int)
    requires
        state.valid(),
        0 <= bit < 8,
    ensures
        (exists|i: int| 0 <= i < state.infos.len() && #[trigger] state.infos[i].claims(byte, bit))
            <==> 0 <= 8 * byte + bit < 8 * state.bytes.len() - state.free_bits,
{
    let at = 8 * byte + bit;
    if 0 <= at < state.used_bits() {
        let i = lemma_owner_exists(state, at, state.infos.len() as int);
        lemma_claims_are_an_interval(state, i, byte, bit);
        assert(state.infos[i].claims(byte, bit));
    }
    if exists|i: int| 0 <= i < state.infos.len() && #[trigger] state.infos[i].claims(byte, bit) {
        let i = choose|i: int| 0 <= i < state.infos.len() && #[trigger] state.infos[i].claims(
            byte,
            bit,
        );
        lemma_claims_are_an_interval(state, i, byte, bit);
        lemma_offsets_increase(state, 0, i);
        lemma_offsets_increase(state, i + 1, state.infos.len() as int);
    }
}

} // verus!
