use vstd::prelude::*;
use vstd::arithmetic::power2::{lemma2_to64, lemma2_to64_rest, lemma_pow2_adds, pow2};

verus! {

/// The number that `bytes` spell in little-endian order: the first byte is
/// the least significant one. The empty sequence spells 0.
pub open spec fn le_value(bytes: Seq<u8>) -> nat
    decreases bytes.len(),
{
    if bytes.len() == 0 {
        0
    } else {
        bytes[0] as nat + 256 * le_value(bytes.drop_first())
    }
}

/// Byte by byte, the bits that `a` and `b` have in common, over the length
/// of the shorter of the two.
pub open spec fn and_bytes(a: Seq<u8>, b: Seq<u8>) -> Seq<u8> {
    Seq::new(
        if a.len() <= b.len() {
            a.len()
        } else {
            b.len()
        },
        |i: int| a[i] & b[i],
    )
}

/// `n` bytes spell a number below `2^(8n)`.
pub proof fn lemma_le_value_bound(bytes: Seq<u8>)
    ensures
        le_value(bytes) < pow2(8 * bytes.len()),
    decreases bytes.len(),
{
    if bytes.len() == 0 {
        lemma2_to64();
    } else {
        let rest = bytes.drop_first();
        lemma_le_value_bound(rest);
        lemma_pow2_adds(8, 8 * rest.len());
        lemma2_to64();
        assert(pow2(8 * bytes.len()) == 256 * pow2(8 * rest.len()));
        assert(le_value(bytes) <= 255 + 256 * (pow2(8 * rest.len()) - 1));
    }
}

/// One byte spells itself, and two bytes spell the first plus 256 times
/// the second.
pub proof fn lemma_le_value_short(bytes: Seq<u8>)
    requires
        1 <= bytes.len() <= 2,
    ensures
        bytes.len() == 1 ==> le_value(bytes) == bytes[0],
        bytes.len() == 2 ==> le_value(bytes) == bytes[0] + 256 * bytes[1],
{
    let rest = bytes.drop_first();
    assert(le_value(bytes) == bytes[0] + 256 * le_value(rest));
    if bytes.len() == 1 {
        assert(le_value(rest) == 0);
    } else {
        assert(rest[0] == bytes[1]);
        assert(le_value(rest) == rest[0] + 256 * le_value(rest.drop_first()));
        assert(le_value(rest.drop_first()) == 0);
    }
}

/// At most sixteen bytes spell a number that a `u128` holds.
pub proof fn lemma_le_value_fits(bytes: Seq<u8>)
    requires
        bytes.len() <= 16,
    ensures
        le_value(bytes) <= u128::MAX,
{
    lemma_le_value_bound(bytes);
    lemma2_to64();
    lemma2_to64_rest();
    lemma_pow2_adds(64, 64);
    if bytes.len() < 16 {
        vstd::arithmetic::power2::lemma_pow2_strictly_increases(8 * bytes.len(), 128);
    }
}

/// Masking the numbers is masking the bytes: the bitwise and of what two
/// sequences spell is what their byte-wise and spells.
pub proof fn lemma_le_value_and(a: Seq<u8>, b: Seq<u8>)
    requires
        a.len() <= 16,
        b.len() <= 16,
    ensures
        le_value(a) <= u128::MAX,
        le_value(b) <= u128::MAX,
        (le_value(a) as u128) & (le_value(b) as u128) == le_value(and_bytes(a, b)),
    decreases a.len(),
{
    lemma_le_value_fits(a);
    lemma_le_value_fits(b);
    let x = le_value(a) as u128;
    let y = le_value(b) as u128;
    if a.len() == 0 || b.len() == 0 {
        assert(and_bytes(a, b).len() == 0);
        assert(x == 0 || y == 0);
        assert(x == 0 || y == 0 ==> x & y == 0) by (bit_vector);
    } else {
        let ra = a.drop_first();
        let rb = b.drop_first();
        lemma_le_value_and(ra, rb);
        lemma_le_value_bound(ra);
        lemma_le_value_bound(rb);
        lemma2_to64_rest();
        lemma_pow2_adds(64, 56);
        if ra.len() < 15 {
            vstd::arithmetic::power2::lemma_pow2_strictly_increases(8 * ra.len(), 120);
        }
        if rb.len() < 15 {
            vstd::arithmetic::power2::lemma_pow2_strictly_increases(8 * rb.len(), 120);
        }
        let hx = le_value(ra) as u128;
        let hy = le_value(rb) as u128;
        let a0 = a[0];
        let b0 = b[0];
        assert(hx < 0x1_0000_0000_0000_0000_0000_0000_0000_00u128);
        assert(hy < 0x1_0000_0000_0000_0000_0000_0000_0000_00u128);
        assert(x == a0 as u128 + 256 * hx);
        assert(y == b0 as u128 + 256 * hy);
        assert(x & y == (a0 & b0) as u128 + 256 * (hx & hy)) by (bit_vector)
            requires
                hx < 0x1_0000_0000_0000_0000_0000_0000_0000_00u128,
                hy < 0x1_0000_0000_0000_0000_0000_0000_0000_00u128,
                x == a0 as u128 + 256 * hx,
                y == b0 as u128 + 256 * hy,
        ;
        assert(and_bytes(a, b).drop_first() =~= and_bytes(ra, rb));
        assert(and_bytes(a, b)[0] == a0 & b0);
    }
}

/// Values that can be read from a run of bytes.
pub trait FromSlice<T>: Sized {
    /// What `from_slice` returns for the bytes `bytes`.
    spec fn slice_value(bytes: Seq<u8>) -> Option<Self>;

    fn from_slice(slice: &[u8]) -> (read: Option<Self>)
        ensures
            read == Self::slice_value(slice@),
    ;
}

impl FromSlice<u128> for u128 {
    /// Up to sixteen bytes are read as a little-endian number, the missing
    /// high bytes counting as zero; a longer run has no value.
    open spec fn slice_value(bytes: Seq<u8>) -> Option<u128> {
        if bytes.len() <= 16 {
            Some(le_value(bytes) as u128)
        } else {
            None
        }
    }

    fn from_slice(slice: &[u8]) -> (read: Option<u128>) {
        if slice.len() > 16 {
            return None;
        }
        let mut acc: u128 = 0;
        let mut i: usize = slice.len();
        proof {
            assert(slice@.subrange(i as int, slice@.len() as int).len() == 0);
        }
        while i > 0
            invariant
                i <= slice.len() <= 16,
                acc == le_value(slice@.subrange(i as int, slice@.len() as int)),
            decreases i,
        {
            i = i - 1;
            proof {
                let tail = slice@.subrange(i as int, slice@.len() as int);
                let rest = slice@.subrange(i + 1, slice@.len() as int);
                assert(tail.drop_first() =~= rest);
                lemma_le_value_bound(rest);
                lemma_le_value_fits(tail);
                lemma2_to64_rest();
                lemma_pow2_adds(64, 56);
                if rest.len() < 15 {
                    vstd::arithmetic::power2::lemma_pow2_strictly_increases(8 * rest.len(), 120);
                }
            }
            acc = acc * 256 + slice[i] as u128;
        }
        proof {
            assert(slice@.subrange(0, slice@.len() as int) =~= slice@);
            lemma_le_value_fits(slice@);
        }
        Some(acc)
    }
}

} // verus!
