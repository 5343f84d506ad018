use vstd::prelude::*;
use crate::bit_info::descriptor_at;
use crate::bit_pack::PackView;
use crate::mask::{
    lemma_carried_part_is_short, lemma_rest_of_byte_is_zero, lemma_shifted_mask_trailing_zeros,
    mask_for,
};

verus! {

/// In a valid state the fields follow one another: a later field starts
/// no earlier than an earlier one, and at least one bit further for each
/// field between them.
pub proof fn lemma_offsets_increase(state: PackView, i: int, j: int)
    requires
        state.valid(),
        0 <= i <= j <= state.infos.len(),
    ensures
        state.offset(i) + (j - i) <= state.offset(j),
    decreases j - i,
{
    if i < j {
        lemma_offsets_increase(state, i, j - 1);
        assert(1 <= state.width(j - 1));
    }
}

/// In a valid state every field lies inside the buffer, on one byte or on
/// two.
pub proof fn lemma_field_in_buffer(state: PackView, i: int)
    requires
        state.valid(),
        0 <= i < state.infos.len(),
    ensures
        state.infos[i].starting_array_index_inc < state.infos[i].ending_array_index_exc,
        state.infos[i].ending_array_index_exc <= state.bytes.len(),
        1 <= state.infos[i].span() <= 2,
        state.infos[i].starting_array_index_inc == state.offset(i) / 8,
        state.infos[i].ending_array_index_exc == (state.offset(i + 1) - 1) / 8 + 1,
{
    lemma_offsets_increase(state, i + 1, state.infos.len() as int);
    lemma_offsets_increase(state, 0, i);
    let lo = state.offset(i);
    let width = state.width(i);
    assert(1 <= width <= 8);
    assert(state.infos[i] == descriptor_at(lo, width as u8));
    assert(0 <= lo && lo + width <= 8 * state.bytes.len());
    assert(lo / 8 < state.bytes.len());
    if lo % 8 + width > 8 {
        assert(lo / 8 + 1 < state.bytes.len());
    }
}

/// The descriptor made for a place starts at that place.
pub proof fn lemma_descriptor_first_bit(offset: int, width: u8)
    requires
        0 <= offset,
        offset / 8 <= usize::MAX,
        1 <= width <= 8,
    ensures
        descriptor_at(offset, width).first_bit() == offset,
{
    lemma_shifted_mask_trailing_zeros(width, (offset % 8) as u8);
}

/// Allocating a field in a valid state gives a valid state.
pub proof fn lemma_allocate_valid(state: PackView, name: Seq<char>, width: u8, value: u8)
    requires
        state.valid(),
        1 <= width <= 8,
        value <= mask_for(width),
        state.free_bits < width ==> state.bytes.len() < usize::MAX,
    ensures
        state.allocate(name, width, value).valid(),
{
    let next = state.allocate(name, width, value);
    let n = state.infos.len() as int;
    let used = state.used_bits();
    let shift = state.shift_with();
    lemma_descriptor_first_bit(used, width);
    assert(next.used_bits() == used + width);
    assert(next.offset(n) == used);
    assert(next.offset(n + 1) == used + width);
    assert forall|i: int| 0 <= i < next.infos.len() implies 1 <= #[trigger] next.width(i) <= 8
        && next.infos[i] == descriptor_at(next.offset(i), next.width(i) as u8) by {
        if i < n {
            assert(next.infos[i] == state.infos[i]);
            assert(next.offset(i) == state.offset(i));
            assert(next.offset(i + 1) == state.offset(i + 1));
            assert(next.width(i) == state.width(i));
        }
    }
    if n > 0 {
        assert(next.offset(0) == state.offset(0));
    }
    if next.free_bits > 0 {
        if state.free_bits >= width {
            lemma_rest_of_byte_is_zero(state.bytes.last(), value, width, shift);
        } else if state.free_bits == 0 {
            assert(0u8 >> 0u8 == 0) by (bit_vector);
            lemma_rest_of_byte_is_zero(0u8, value, width, 0u8);
        } else {
            lemma_carried_part_is_short(value, width, state.free_bits as u8);
        }
    }
}

} // verus!
