use vstd::prelude::*;
use vstd::arithmetic::power2::{lemma2_to64, pow2};
use vstd::std_specs::bits::u8_trailing_zeros;
use crate::bit_info::{descriptor_at, BitInfo, Construct};
use crate::error::PackError;
use crate::field_int::FieldInt;
use crate::mask::mask_for;
use crate::wide::{and_bytes, le_value, lemma_le_value_and, lemma_le_value_fits, FromSlice};
use crate::laws::law_allocated_value;
use crate::layout::{lemma_allocate_valid, lemma_field_in_buffer};
use vstd::bits::lemma_u128_shr_is_div;
use vstd::std_specs::bits::axiom_u8_trailing_zeros;

verus! {

/// A growable byte buffer into which named bit fields are packed one after
/// the other, with no padding between them.
#[derive(PartialEq)]
pub struct BitPack {
    bytes: Vec<u8>,
    bit_info: Vec<BitInfo>,
    names: Vec<String>,
    last_byte_size_remaining: u8,
}

/// What a packer holds, as mathematical values.
pub struct PackView {
    /// The packed buffer.
    pub bytes: Seq<u8>,
    /// How many high bits of the last byte no field owns yet.
    pub free_bits: nat,
    /// The descriptors of the fields, in the order of their allocation.
    pub infos: Seq<BitInfo>,
    /// The names of the fields, in the same order.
    pub names: Seq<Seq<char>>,
}

/// The position of the last entry of `names` that equals `name`.
pub open spec fn last_index_of(names: Seq<Seq<char>>, name: Seq<char>) -> Option<int>
    decreases names.len(),
{
    if names.len() == 0 {
        None
    } else if names.last() == name {
        Some(names.len() - 1)
    } else {
        last_index_of(names.drop_last(), name)
    }
}

/// `last_index_of` finds an entry that equals `name` and has no such entry
/// behind it, and finds none only where no entry equals `name`.
pub proof fn lemma_last_index_of(names: Seq<Seq<char>>, name: Seq<char>)
    ensures
        match last_index_of(names, name) {
            Some(i) => {
                &&& 0 <= i < names.len()
                &&& names[i] == name
                &&& forall|j: int| i < j < names.len() ==> names[j] != name
            },
            None => forall|j: int| 0 <= j < names.len() ==> names[j] != name,
        },
    decreases names.len(),
{
    if names.len() > 0 && names.last() != name {
        let front = names.drop_last();
        lemma_last_index_of(front, name);
        assert forall|j: int| 0 <= j < front.len() implies front[j] == names[j] by {}
        match last_index_of(front, name) {
            Some(i) => {
                assert forall|j: int| i < j < names.len() implies names[j] != name by {
                    if j < front.len() {
                        assert(front[j] != name);
                    }
                }
            },
            None => {
                assert forall|j: int| 0 <= j < names.len() implies names[j] != name by {
                    if j < front.len() {
                        assert(front[j] != name);
                    }
                }
            },
        }
    }
}

/// The value that the descriptor `info` selects from `bytes`: the
/// little-endian number that the bytes of its range spell, cut down to the
/// bits under its masks and moved down so that its lowest owned bit is
/// bit 0.
pub open spec fn field_value(bytes: Seq<u8>, info: BitInfo) -> nat {
    let slice = bytes.subrange(
        info.starting_array_index_inc as int,
        info.ending_array_index_exc as int,
    );
    le_value(and_bytes(slice, info.overlay(slice.len()))) / pow2(
        u8_trailing_zeros(info.starting_bit_mask) as nat,
    )
}

impl PackView {
    /// Number of bits of the buffer that fields own.
    pub open spec fn used_bits(self) -> int {
        8 * self.bytes.len() - self.free_bits
    }

    /// Position of the lowest bit of field `i`, counted in bits from bit 0
    /// of byte 0; for `i` equal to the number of fields, the position
    /// where the next field will start.
    pub open spec fn offset(self, i: int) -> int {
        if 0 <= i < self.infos.len() {
            self.infos[i].first_bit()
        } else {
            self.used_bits()
        }
    }

    /// Width in bits of field `i`.
    pub open spec fn width(self, i: int) -> int {
        self.offset(i + 1) - self.offset(i)
    }

    /// The bit of its first byte at which the next field will start.
    pub open spec fn shift_with(self) -> u8 {
        if self.free_bits == 0 {
            0
        } else {
            (8 - self.free_bits) as u8
        }
    }

    /// The state is one that allocations lead to: the fields follow one
    /// another from bit 0 of the buffer without a gap, each 1 to 8 bits
    /// wide and described by the descriptor of its place; what is left of
    /// the last byte is free, less than a byte, and zero.
    pub open spec fn valid(self) -> bool {
        &&& self.names.len() == self.infos.len()
        &&& self.bytes.len() <= usize::MAX
        &&& self.free_bits < 8
        &&& self.used_bits() >= 0
        &&& self.offset(0) == 0
        &&& forall|i: int|
            0 <= i < self.infos.len() ==> 1 <= #[trigger] self.width(i) <= 8
                && self.infos[i] == descriptor_at(self.offset(i), self.width(i) as u8)
        &&& self.free_bits > 0 ==> self.bytes.last() >> self.shift_with() == 0
    }

    /// The state after a field `name` of `width` bits with the value
    /// `value` was allocated: the field starts at the first free bit; a
    /// zero byte is appended when the free bits do not hold it; its low
    /// bits go to the byte it starts in and the rest to the new byte.
    pub open spec fn allocate(self, name: Seq<char>, width: u8, value: u8) -> PackView {
        let shift = self.shift_with();
        let grows = self.free_bits < width;
        let first = self.used_bits() / 8;
        let grown = if grows {
            self.bytes.push(0u8)
        } else {
            self.bytes
        };
        let low = grown.update(first, grown[first] | (value << shift));
        let bytes = if first + 1 < grown.len() {
            low.update(first + 1, value >> ((8 - shift) as u8))
        } else {
            low
        };
        PackView {
            bytes,
            free_bits: (self.free_bits + (if grows {
                8
            } else {
                0int
            }) - width) as nat,
            infos: self.infos.push(descriptor_at(self.used_bits(), width)),
            names: self.names.push(name),
        }
    }

    /// What reading the field `name` as a `T` gives: the value of the last
    /// field allocated under that name, if there is one and `T` holds it.
    pub open spec fn read<T: FieldInt>(self, name: Seq<char>) -> Result<T, PackError> {
        match last_index_of(self.names, name) {
            None => Err(PackError::UnknownField),
            Some(i) => match T::narrowed(field_value(self.bytes, self.infos[i]) as u128) {
                Some(small) => Ok(small),
                None => Err(PackError::WidthMismatch),
            },
        }
    }
}

impl View for BitPack {
    type V = PackView;

    closed spec fn view(&self) -> PackView {
        PackView {
            bytes: self.bytes@,
            free_bits: self.last_byte_size_remaining as nat,
            infos: self.bit_info@,
            names: Seq::new(self.names@.len(), |i: int| self.names@[i]@),
        }
    }
}

impl Construct for BitPack {
    open spec fn is_empty_value(&self) -> bool {
        &&& self@.bytes.len() == 0
        &&& self@.free_bits == 0
        &&& self@.infos.len() == 0
        &&& self@.names.len() == 0
    }

    fn new() -> (made: Self)
        ensures
            made.wf(),
    {
        BitPack {
            bytes: Vec::new(),
            bit_info: Vec::new(),
            names: Vec::new(),
            last_byte_size_remaining: 0,
        }
    }
}

impl BitPack {
    /// The packer is in a state that allocations lead to.
    pub open spec fn wf(&self) -> bool {
        self@.valid()
    }

    /// The mask table: the low-order mask with `alloc_size` set bits, and
    /// the zero mask for a size that is no width of a field.
    pub fn get_mask(alloc_size: u8) -> (mask: u8)
        ensures
            mask == mask_for(alloc_size),
    {
        proof {
            lemma2_to64();
        }
        match alloc_size {
            1 => 0b0000_0001,
            2 => 0b0000_0011,
            3 => 0b0000_0111,
            4 => 0b0000_1111,
            5 => 0b0001_1111,
            6 => 0b0011_1111,
            7 => 0b0111_1111,
            8 => 0b1111_1111,
            _ => 0,
        }
    }

    /// Allocates a field `name` of `to_alloc_size` bits at the first free
    /// bit of the buffer and stores `initial_value` in it. A width outside
    /// 1 to 8 is refused and changes nothing.
    pub fn set_new(&mut self, name: &str, to_alloc_size: u8, initial_value: u8) -> (done: Result<
        (),
        PackError,
    >)
        requires
            old(self).wf(),
            1 <= to_alloc_size <= 8 ==> initial_value <= mask_for(to_alloc_size),
        ensures
            final(self).wf(),
            to_alloc_size == 0 || to_alloc_size > 8 ==> done == Err::<(), PackError>(
                PackError::InvalidWidth,
            ) && *final(self) == *old(self),
            1 <= to_alloc_size <= 8 ==> done == Ok::<(), PackError>(()) && final(self)@ == old(
                self,
            )@.allocate(name@, to_alloc_size, initial_value),
            1 <= to_alloc_size <= 8 ==> field_value(final(self)@.bytes, final(self)@.infos.last())
                == initial_value,
    {
        if to_alloc_size == 0 || to_alloc_size > 8 {
            return Err(PackError::InvalidWidth);
        }
        let ghost before = self@;
        let free = self.last_byte_size_remaining;
        let can_fit: bool = free >= to_alloc_size;
        let shift_with: u8 = if free == 0 {
            0
        } else {
            8 - free
        };
        if !can_fit {
            self.bytes.push(0);
            self.last_byte_size_remaining = free + 8;
        }
        let last: usize = self.bytes.len() - 1;
        let starting_index: usize = if !can_fit && free > 0 {
            last - 1
        } else {
            last
        };
        proof {
            lemma_allocate_valid(before, name@, to_alloc_size, initial_value);
            law_allocated_value(before, name@, to_alloc_size, initial_value);
        }
        let mask = Self::get_mask(to_alloc_size);
        let low = self.bytes[starting_index] | (initial_value << shift_with);
        self.bytes.set(starting_index, low);
        let mut binding = BitInfo {
            starting_bit_mask: mask << shift_with,
            ending_bit_mask: mask << shift_with,
            starting_array_index_inc: starting_index,
            ending_array_index_exc: last + 1,
        };
        if starting_index < last {
            self.bytes.set(last, initial_value >> free);
            binding.ending_bit_mask = mask >> free;
        }
        self.bit_info.push(binding);
        self.names.push(name.to_owned());
        self.last_byte_size_remaining = self.last_byte_size_remaining - to_alloc_size;
        proof {
            let after = before.allocate(name@, to_alloc_size, initial_value);
            assert(binding == descriptor_at(before.used_bits(), to_alloc_size));
            assert(self@.bytes =~= after.bytes);
            assert(self@.names =~= after.names);
            assert(self@.infos =~= after.infos);
        }
        Ok(())
    }

    /// The position of the last field allocated under the name `arg`.
    fn find(&self, arg: &str) -> (found: Option<usize>)
        ensures
            found.is_none() <==> last_index_of(self@.names, arg@).is_none(),
            found matches Some(i) ==> i < self@.names.len() && last_index_of(self@.names, arg@)
                == Some(i as int),
    {
        let wanted = arg.to_owned();
        let ghost all = self@.names;
        let mut i: usize = self.names.len();
        proof {
            assert(all.take(i as int) =~= all);
        }
        while i > 0
            invariant
                i <= self.names.len(),
                all == self@.names,
                all.len() == self.names.len(),
                wanted@ == arg@,
                last_index_of(all, arg@) == last_index_of(all.take(i as int), arg@),
            decreases i,
        {
            i = i - 1;
            proof {
                let upto = all.take(i + 1);
                assert(upto.last() == self.names@[i as int]@);
                assert(upto.drop_last() =~= all.take(i as int));
            }
            if self.names[i] == wanted {
                return Some(i);
            }
        }
        None
    }

    /// Finds the field `arg` and hands out what reading it needs: its
    /// descriptor, the bytes of its range, and the mask to lay over them.
    pub fn get_bitinfo_slice_mask_slice(&self, arg: &str) -> (found: Result<
        (&BitInfo, &[u8], Vec<u8>),
        PackError,
    >)
        requires
            self.wf(),
        ensures
            match last_index_of(self@.names, arg@) {
                None => found == Err::<(&BitInfo, &[u8], Vec<u8>), PackError>(
                    PackError::UnknownField,
                ),
                Some(i) => found.is_ok() && {
                    let (info, slice, slice_mask) = found.unwrap();
                    &&& *info == self@.infos[i]
                    &&& slice@ == self@.bytes.subrange(
                        info.starting_array_index_inc as int,
                        info.ending_array_index_exc as int,
                    )
                    &&& slice_mask@ == info.overlay(slice@.len())
                },
            },
    {
        let index = match self.find(arg) {
            Some(index) => index,
            None => {
                return Err(PackError::UnknownField);
            },
        };
        proof {
            lemma_field_in_buffer(self@, index as int);
        }
        let bit_info = &self.bit_info[index];
        let slice = vstd::slice::slice_subrange(
            self.bytes.as_slice(),
            bit_info.starting_array_index_inc,
            bit_info.ending_array_index_exc,
        );
        let slice_mask = bit_info.mask_slice(slice.len());
        Ok((bit_info, slice, slice_mask))
    }

    /// Reads the value under a mask out of a run of bytes: both runs are
    /// taken as little-endian numbers, the bits outside the mask are
    /// dropped, and the rest is moved down by the number of trailing zero
    /// bits of the descriptor's starting mask.
    pub fn shift_and_mask(slice: &[u8], slice_mask: &[u8], bit_info: &BitInfo) -> (value: Result<
        u128,
        PackError,
    >)
        ensures
            slice@.len() > 16 || slice_mask@.len() > 16 ==> value == Err::<u128, PackError>(
                PackError::WidthMismatch,
            ),
            slice@.len() <= 16 && slice_mask@.len() <= 16 ==> value == Ok::<u128, PackError>(
                (le_value(and_bytes(slice@, slice_mask@)) / pow2(
                    u8_trailing_zeros(bit_info.starting_bit_mask) as nat,
                )) as u128,
            ),
    {
        let bits = match u128::from_slice(slice) {
            Some(bits) => bits,
            None => {
                return Err(PackError::WidthMismatch);
            },
        };
        let cover = match u128::from_slice(slice_mask) {
            Some(cover) => cover,
            None => {
                return Err(PackError::WidthMismatch);
            },
        };
        let down = bit_info.starting_bit_mask.trailing_zeros();
        let mut initial_value = bits & cover;
        let ghost masked = initial_value;
        proof {
            lemma_le_value_and(slice@, slice_mask@);
            axiom_u8_trailing_zeros(bit_info.starting_bit_mask);
            lemma_u128_shr_is_div(masked, down as u128);
            lemma2_to64();
            assert(masked >> down == masked >> (down as u128)) by (bit_vector)
                requires
                    down <= 8,
            ;
            assert(masked >> down == masked as nat / pow2(down as nat));
            if down == 0 {
                assert(pow2(down as nat) == 1);
                assert(masked as nat / 1 == masked);
            }
        }
        if down > 0 {
            initial_value = initial_value >> down;
        }
        Ok(initial_value)
    }

    /// Reads the field `arg` as a `T`.
    pub fn get<T: FieldInt>(&self, arg: &str) -> (read: Result<T, PackError>)
        requires
            self.wf(),
        ensures
            read == self@.read::<T>(arg@),
    {
        let (bit_info, slice, slice_mask) = match self.get_bitinfo_slice_mask_slice(arg) {
            Ok(parts) => parts,
            Err(e) => {
                return Err(e);
            },
        };
        proof {
            lemma_last_index_of(self@.names, arg@);
            lemma_field_in_buffer(self@, last_index_of(self@.names, arg@).unwrap());
        }
        let wide = match Self::shift_and_mask(slice, slice_mask.as_slice(), bit_info) {
            Ok(wide) => wide,
            Err(e) => {
                return Err(e);
            },
        };
        proof {
            lemma_le_value_fits(and_bytes(slice@, slice_mask@));
        }
        match T::narrow(wide) {
            Some(small) => Ok(small),
            None => Err(PackError::WidthMismatch),
        }
    }

    /// The descriptor of the field that was allocated as number `index`,
    /// counting from 0.
    pub fn get_bit_info(&self, index: usize) -> (info: &BitInfo)
        requires
            index < self@.infos.len(),
        ensures
            *info == self@.infos[index as int],
    {
        &self.bit_info[index]
    }
}

} // verus!
