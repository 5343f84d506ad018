use vstd::prelude::*;
use vstd::std_specs::bits::u8_trailing_zeros;
use crate::mask::mask_for;

verus! {

/// Where one field lies in the packed buffer: the bytes it touches and the
/// bits it owns in the first and in the last of them.
#[derive(PartialEq, Eq, Structural, Clone, Copy, Debug)]
pub struct BitInfo {
    /// The bits of the first byte that belong to the field.
    pub starting_bit_mask: u8,
    /// The bits of the last byte that belong to the field.
    pub ending_bit_mask: u8,
    /// Index of the first byte of the field.
    pub starting_array_index_inc: usize,
    /// Index one past the last byte of the field.
    pub ending_array_index_exc: usize,
}

/// Types that have one distinguished empty value.
pub trait Construct: Sized {
    /// What it means for a value to be the empty one.
    spec fn is_empty_value(&self) -> bool;

    fn new() -> (made: Self)
        ensures
            made.is_empty_value(),
    ;
}

/// Whether bit `bit` (0 is the lowest) is set in `mask`.
pub open spec fn bit_is_set(mask: u8, bit: int) -> bool {
    0 <= bit < 8 && (mask >> (bit as u8)) & 1u8 == 1u8
}

impl BitInfo {
    /// Number of bytes the field touches.
    pub open spec fn span(self) -> int {
        self.ending_array_index_exc - self.starting_array_index_inc
    }

    /// Position in the buffer, counted in bits from bit 0 of byte 0, of the
    /// lowest bit the field owns.
    pub open spec fn first_bit(self) -> int {
        8 * self.starting_array_index_inc + u8_trailing_zeros(self.starting_bit_mask)
    }

    /// Whether the field owns bit `bit` of byte `byte` of the buffer. The
    /// first byte is shared as the starting mask says, the last one as the
    /// ending mask says, and every byte between them is owned in full.
    pub open spec fn claims(self, byte: int, bit: int) -> bool {
        &&& 0 <= bit < 8
        &&& self.starting_array_index_inc <= byte < self.ending_array_index_exc
        &&& if byte == self.starting_array_index_inc {
            bit_is_set(self.starting_bit_mask, bit)
        } else if byte == self.ending_array_index_exc - 1 {
            bit_is_set(self.ending_bit_mask, bit)
        } else {
            true
        }
    }

    /// The mask laid over the `len` bytes of the field before its value is
    /// read: the starting mask on the first byte, the ending mask on the
    /// last, all ones between.
    pub open spec fn overlay(self, len: nat) -> Seq<u8> {
        Seq::new(
            len,
            |i: int|
                if i == 0 {
                    self.starting_bit_mask
                } else if i == len - 1 {
                    self.ending_bit_mask
                } else {
                    0xFFu8
                },
        )
    }
}

impl BitInfo {
    /// Builds the mask to lay over the `len` bytes of the field.
    pub fn mask_slice(&self, len: usize) -> (slice_mask: Vec<u8>)
        ensures
            slice_mask@ == self.overlay(len as nat),
    {
        let mut slice_mask: Vec<u8> = Vec::new();
        let mut i: usize = 0;
        while i < len
            invariant
                i <= len,
                slice_mask@ == self.overlay(len as nat).take(i as int),
            decreases len - i,
        {
            let part = if i == 0 {
                self.starting_bit_mask
            } else if i == len - 1 {
                self.ending_bit_mask
            } else {
                0xFFu8
            };
            slice_mask.push(part);
            i = i + 1;
            proof {
                assert(slice_mask@ =~= self.overlay(len as nat).take(i as int));
            }
        }
        proof {
            assert(slice_mask@ =~= self.overlay(len as nat));
        }
        slice_mask
    }
}

/// The descriptor of a field of `width` bits whose lowest bit is bit
/// `offset` of the buffer, counted from bit 0 of byte 0.
pub open spec fn descriptor_at(offset: int, width: u8) -> BitInfo {
    let shift = (offset % 8) as u8;
    let first = (offset / 8) as usize;
    let low = mask_for(width) << shift;
    if shift + width <= 8 {
        BitInfo {
            starting_bit_mask: low,
            ending_bit_mask: low,
            starting_array_index_inc: first,
            ending_array_index_exc: (first + 1) as usize,
        }
    } else {
        BitInfo {
            starting_bit_mask: low,
            ending_bit_mask: mask_for(width) >> ((8 - shift) as u8),
            starting_array_index_inc: first,
            ending_array_index_exc: (first + 2) as usize,
        }
    }
}

impl Construct for BitInfo {
    open spec fn is_empty_value(&self) -> bool {
        &&& self.starting_bit_mask == 0
        &&& self.ending_bit_mask == 0
        &&& self.starting_array_index_inc == 0
        &&& self.ending_array_index_exc == 0
    }

    fn new() -> (made: Self) {
        BitInfo {
            ending_array_index_exc: 0,
            ending_bit_mask: 0,
            starting_array_index_inc: 0,
            starting_bit_mask: 0,
        }
    }
}

impl Default for BitInfo {
    fn default() -> (made: Self)
        ensures
            made.is_empty_value(),
    {
        BitInfo {
            starting_bit_mask: 0,
            ending_bit_mask: 0,
            starting_array_index_inc: 0,
            ending_array_index_exc: 0,
        }
    }
}

} // verus!
