//! The bit codec: reading and writing fields of 1 to 64 bits at any bit
//! offset of a byte buffer.
//!
//! A field is read by loading the bytes that cover it into a little-endian
//! accumulator, shifting the accumulator down to the field's first bit and
//! masking it to the field's width. It is written by loading the same bytes,
//! clearing the field's bits, putting the new bits in their place and storing
//! the bytes back.

use crate::bits::{
    bit_at,
    bits_of,
    field_bits,
    fits_signed,
    fits_unsigned,
    int_bit,
    lemma_int_bit_add_pow2,
    lemma_int_bit_zero,
    lemma_read_after_write_signed,
    lemma_read_after_write_unsigned,
    lemma_signed_value_fits,
    lemma_unsigned_round_trip,
    lemma_written_field,
    signed_value,
    unsigned_value,
    value_bits,
    with_field,
};
use vstd::arithmetic::power2::{lemma2_to64, lemma2_to64_rest, lemma_pow2_pos, lemma_pow2_unfold, pow2};
use vstd::bits::{lemma_u128_shr_is_div, lemma_u64_pow2_no_overflow, lemma_u64_shl_is_mul};
use vstd::prelude::*;

verus! {

/// The widest field that the codec reads or writes, in bits.
pub const MAX_FIELD_WIDTH: usize = 64;

/// Whether a buffer of `len` bytes holds a field of `bit_width` bits at
/// `bit_offset`.
pub open spec fn field_in_buffer(len: nat, bit_offset: int, bit_width: int) -> bool {
    &&& 1 <= bit_width <= MAX_FIELD_WIDTH
    &&& 0 <= bit_offset
    &&& bit_offset + bit_width <= 8 * len
}

proof fn lemma_u128_bit(x: u128, k: u128)
    requires
        k < 128,
    ensures
        ((x >> k) & 1 == 1) == int_bit(x as int, k as nat),
{
    lemma_u128_shr_is_div(x, k);
    let y = x >> k;
    assert(y & 1 == y % 2) by (bit_vector);
}

proof fn lemma_one_shl(width: u128)
    requires
        width <= 64,
    ensures
        (1u128 << width) == pow2(width as nat),
{
    if width < 64 {
        lemma_u64_pow2_no_overflow(width as nat);
        lemma_u64_shl_is_mul(1, width as u64);
        let narrow = width as u64;
        assert((1u128 << width) == (1u64 << narrow) as u128) by (bit_vector)
            requires
                width < 64,
                narrow == width,
        ;
    } else {
        lemma2_to64();
        assert((1u128 << 64u128) == 0x1_0000_0000_0000_0000u128) by (bit_vector);
    }
}

proof fn lemma_or_byte(acc: u128, b: u8, i: u128, j: u128)
    by (bit_vector)
    requires
        i < 16,
        j < 128,
    ensures
        (((acc | ((b as u128) << (8 * i) as u128)) >> j) & 1 == 1) == (((acc >> j) & 1 == 1) || (8
            * i <= j < 8 * i + 8 && (((b as u128) >> ((j - 8 * i) as u128)) & 1 == 1))),
{
}

proof fn lemma_extract(acc: u128, shift: u128, width: u128, low: u128, k: u128)
    by (bit_vector)
    requires
        shift < 8,
        1 <= width <= 64,
        low == ((1u128 << width) - 1) as u128,
        k < 128,
    ensures
        (acc >> shift) & low <= 0xffff_ffff_ffff_ffffu128,
        ((((acc >> shift) & low) >> k) & 1 == 1) == (k < width && ((acc >> ((shift + k) as u128))
            & 1 == 1)),
{
}

proof fn lemma_replace(acc: u128, v: u64, shift: u128, width: u128, low: u128, j: u128)
    by (bit_vector)
    requires
        shift < 8,
        1 <= width <= 64,
        low == ((1u128 << width) - 1) as u128,
        j < 128,
    ensures
        ({
            let mask: u128 = low << shift;
            let updated: u128 = (acc & !mask) | (((v as u128) << shift) & mask);
            ((updated >> j) & 1 == 1) == (if shift <= j < shift + width {
                ((v as u128) >> ((j - shift) as u128)) & 1 == 1
            } else {
                (acc >> j) & 1 == 1
            })
        }),
{
}

proof fn lemma_byte_of(x: u128, i: u128, t: u128)
    by (bit_vector)
    requires
        i < 16,
        t < 8,
    ensures
        (x >> (8 * i) as u128) & 0xff <= 0xff,
        ((((x >> (8 * i) as u128) & 0xff) >> t) & 1 == 1) == ((x >> ((8 * i + t) as u128)) & 1
            == 1),
{
}

proof fn lemma_unsigned_of_signed(v: i64)
    by (bit_vector)
    ensures
        v >= 0 ==> (v as u64) == v,
        v < 0 ==> (v as u64) == v + 0x1_0000_0000_0000_0000,
{
}

/// The mask of the lowest `width` bits.
fn low_mask(width: usize) -> (low: u128)
    requires
        1 <= width <= 64,
    ensures
        low == ((1u128 << (width as u128)) - 1) as u128,
        low == pow2(width as nat) - 1,
{
    proof {
        lemma_one_shl(width as u128);
        lemma_pow2_pos(width as nat);
    }
    (1u128 << (width as u128)) - 1
}

/// Loads `count` bytes from byte `first` on into a little-endian
/// accumulator.
fn load_le(buf: &[u8], first: usize, count: usize) -> (acc: u128)
    requires
        count <= 16,
        first + count <= buf@.len(),
    ensures
        forall|j: nat|
            j < 128 ==> #[trigger] int_bit(acc as int, j) == (j < 8 * count && bit_at(
                buf@,
                8 * first + j,
            )),
{
    let len = buf.len();
    let mut acc: u128 = 0;
    let mut i: usize = 0;
    proof {
        assert forall|j: nat| j < 128 implies !#[trigger] int_bit(0, j) by {
            lemma_int_bit_zero(j);
        }
    }
    while i < count
        invariant
            i <= count <= 16,
            first + count <= buf@.len() == len,
            forall|j: nat|
                j < 128 ==> #[trigger] int_bit(acc as int, j) == (j < 8 * i && bit_at(
                    buf@,
                    8 * first + j,
                )),
        decreases count - i,
    {
        let b = buf[first + i];
        let next = acc | ((b as u128) << ((8 * i) as u128));
        proof {
            assert forall|j: nat| j < 128 implies #[trigger] int_bit(next as int, j) == (j < 8 * (i
                + 1) && bit_at(buf@, 8 * first + j)) by {
                lemma_or_byte(acc, b, i as u128, j as u128);
                lemma_u128_bit(next, j as u128);
                lemma_u128_bit(acc, j as u128);
                if 8 * i <= j < 8 * i + 8 {
                    lemma_u128_bit(b as u128, (j - 8 * i) as u128);
                    assert((8 * first + j) / 8 == first + i);
                    assert((8 * first + j) % 8 == j - 8 * i);
                }
            }
        }
        acc = next;
        i += 1;
    }
    acc
}

/// Stores the lowest `count` bytes of a little-endian accumulator from byte
/// `first` on.
fn store_le(buf: &mut [u8], first: usize, count: usize, x: u128)
    requires
        count <= 16,
        first + count <= old(buf)@.len(),
    ensures
        final(buf)@.len() == old(buf)@.len(),
        forall|n: int|
            0 <= n < old(buf)@.len() && !(first <= n < first + count) ==> final(buf)@[n] == old(buf)@[n],
        forall|j: nat|
            j < 8 * count ==> #[trigger] bit_at(final(buf)@, 8 * first + j) == int_bit(x as int, j),
{
    let len = buf.len();
    let mut i: usize = 0;
    while i < count
        invariant
            i <= count <= 16,
            first + count <= old(buf)@.len(),
            buf@.len() == old(buf)@.len() == len,
            forall|n: int|
                0 <= n < old(buf)@.len() && !(first <= n < first + i) ==> buf@[n] == old(buf)@[n],
            forall|j: nat|
                j < 8 * i ==> #[trigger] bit_at(buf@, 8 * first + j) == int_bit(x as int, j),
        decreases count - i,
    {
        let ghost before = buf@;
        proof {
            lemma_byte_of(x, i as u128, 0);
        }
        let b = ((x >> ((8 * i) as u128)) & 0xff) as u8;
        buf[first + i] = b;
        proof {
            assert forall|j: nat| j < 8 * (i + 1) implies #[trigger] bit_at(buf@, 8 * first + j)
                == int_bit(x as int, j) by {
                if j < 8 * i {
                    assert((8 * first + j) / 8 < first + i);
                    assert(bit_at(before, 8 * first + j) == int_bit(x as int, j));
                } else {
                    let t = (j - 8 * i) as u128;
                    assert((8 * first + j) / 8 == first + i);
                    assert((8 * first + j) % 8 == t);
                    lemma_byte_of(x, i as u128, t);
                    lemma_u128_bit(b as u128, t);
                    lemma_u128_bit(x, j as u128);
                }
            }
        }
        i += 1;
    }
}

/// Reads the field as the number below `2^bit_width` that has its bits.
fn read_raw(buf: &[u8], bit_offset: usize, bit_width: usize) -> (value: u64)
    requires
        field_in_buffer(buf@.len(), bit_offset as int, bit_width as int),
    ensures
        value < pow2(bit_width as nat),
        value_bits(value as int, bit_width as nat) == field_bits(
            buf@,
            bit_offset as int,
            bit_width as nat,
        ),
{
    let first = bit_offset / 8;
    let shift = bit_offset % 8;
    let count = (shift + bit_width + 7) / 8;
    let acc = load_le(buf, first, count);
    let low = low_mask(bit_width);
    proof {
        lemma_extract(acc, shift as u128, bit_width as u128, low, 0);
    }
    let wide = (acc >> (shift as u128)) & low;
    let value = wide as u64;
    proof {
        assert(wide & low == wide) by (bit_vector)
            requires
                wide == (acc >> (shift as u128)) & low,
        ;
        assert(wide <= low) by (bit_vector)
            requires
                wide & low == wide,
        ;
        assert forall|k: int| 0 <= k < bit_width implies #[trigger] value_bits(
            value as int,
            bit_width as nat,
        )[k] == field_bits(buf@, bit_offset as int, bit_width as nat)[k] by {
            lemma_extract(acc, shift as u128, bit_width as u128, low, k as u128);
            lemma_u128_bit(wide, k as u128);
            lemma_u128_bit(acc, (shift + k) as u128);
            assert(int_bit(acc as int, (shift + k) as nat) == bit_at(buf@, 8 * first + shift + k));
        }
        assert(value_bits(value as int, bit_width as nat) =~= field_bits(
            buf@,
            bit_offset as int,
            bit_width as nat,
        ));
    }
    value
}

/// Reads the unsigned field of `bit_width` bits that starts at bit
/// `bit_offset` of the buffer.
pub fn read_unsigned(buf: &[u8], bit_offset: usize, bit_width: usize) -> (value: u64)
    requires
        field_in_buffer(buf@.len(), bit_offset as int, bit_width as int),
    ensures
        value == unsigned_value(field_bits(buf@, bit_offset as int, bit_width as nat)),
{
    let value = read_raw(buf, bit_offset, bit_width);
    proof {
        lemma_unsigned_round_trip(value as int, bit_width as nat);
    }
    value
}

/// Reads the two's complement field of `bit_width` bits that starts at bit
/// `bit_offset` of the buffer, extending its sign.
pub fn read_signed(buf: &[u8], bit_offset: usize, bit_width: usize) -> (value: i64)
    requires
        field_in_buffer(buf@.len(), bit_offset as int, bit_width as int),
    ensures
        value == signed_value(field_bits(buf@, bit_offset as int, bit_width as nat)),
{
    let raw = read_raw(buf, bit_offset, bit_width);
    let ghost bits = field_bits(buf@, bit_offset as int, bit_width as nat);
    let top = bit_width - 1;
    proof {
        lemma_unsigned_round_trip(raw as int, bit_width as nat);
        lemma_signed_value_fits(bits);
        lemma_u128_bit(raw as u128, top as u128);
        lemma_one_shl(bit_width as u128);
        lemma_pow2_unfold(bit_width as nat);
        lemma2_to64();
        lemma2_to64_rest();
        assert(bits.last() == value_bits(raw as int, bit_width as nat)[top as int]);
        if bit_width < 64 {
            vstd::arithmetic::power2::lemma_pow2_strictly_increases(bit_width as nat, 64);
        }
    }
    let negative = ((raw as u128) >> (top as u128)) & 1 == 1;
    if negative {
        let span: u128 = 1u128 << (bit_width as u128);
        ((raw as i128) - (span as i128)) as i64
    } else {
        raw as i64
    }
}

/// Writes the lowest `bit_width` bits of `value` into the field that starts
/// at bit `bit_offset` of the buffer. No other bit of the buffer changes.
pub fn write_unsigned(buf: &mut [u8], bit_offset: usize, bit_width: usize, value: u64)
    requires
        field_in_buffer(old(buf)@.len(), bit_offset as int, bit_width as int),
    ensures
        final(buf)@.len() == old(buf)@.len(),
        bits_of(final(buf)@) == with_field(
            bits_of(old(buf)@),
            bit_offset as int,
            value_bits(value as int, bit_width as nat),
        ),
{
    let first = bit_offset / 8;
    let shift = bit_offset % 8;
    let count = (shift + bit_width + 7) / 8;
    let acc = load_le(buf, first, count);
    let low = low_mask(bit_width);
    let mask = low << (shift as u128);
    let updated = (acc & !mask) | (((value as u128) << (shift as u128)) & mask);
    store_le(buf, first, count, updated);
    proof {
        let before = old(buf)@;
        let field = value_bits(value as int, bit_width as nat);
        assert forall|g: int| 0 <= g < 8 * before.len() implies #[trigger] bits_of(buf@)[g]
            == with_field(bits_of(before), bit_offset as int, field)[g] by {
            let n = g / 8;
            if first <= n < first + count {
                let j = (g - 8 * first) as nat;
                assert(bit_at(buf@, 8 * first + j) == int_bit(updated as int, j));
                assert(int_bit(acc as int, j) == bit_at(before, 8 * first + j));
                lemma_replace(acc, value, shift as u128, bit_width as u128, low, j as u128);
                lemma_u128_bit(updated, j as u128);
                lemma_u128_bit(acc, j as u128);
                if shift <= j < shift + bit_width {
                    lemma_u128_bit(value as u128, (j - shift) as u128);
                }
            } else {
                assert(buf@[n] == before[n]);
                assert(!(bit_offset <= g < bit_offset + bit_width));
            }
        }
        assert(bits_of(buf@) =~= with_field(bits_of(before), bit_offset as int, field));
    }
}

/// Writes the lowest `bit_width` bits of `value`, taken in two's complement,
/// into the field that starts at bit `bit_offset` of the buffer. No other bit
/// of the buffer changes.
pub fn write_signed(buf: &mut [u8], bit_offset: usize, bit_width: usize, value: i64)
    requires
        field_in_buffer(old(buf)@.len(), bit_offset as int, bit_width as int),
    ensures
        final(buf)@.len() == old(buf)@.len(),
        bits_of(final(buf)@) == with_field(
            bits_of(old(buf)@),
            bit_offset as int,
            value_bits(value as int, bit_width as nat),
        ),
{
    let pattern = #[verifier::truncate] (value as u64);
    proof {
        lemma_unsigned_of_signed(value);
        lemma2_to64();
        assert forall|k: int| 0 <= k < bit_width implies #[trigger] value_bits(
            pattern as int,
            bit_width as nat,
        )[k] == value_bits(value as int, bit_width as nat)[k] by {
            if value < 0 {
                lemma_int_bit_add_pow2(value as int, k as nat, 64);
            }
        }
        assert(value_bits(pattern as int, bit_width as nat) =~= value_bits(
            value as int,
            bit_width as nat,
        ));
    }
    write_unsigned(buf, bit_offset, bit_width, pattern);
}

/// The value of the field of `bit_width` bits at `bit_offset`, read as
/// unsigned or in two's complement.
pub open spec fn field_value(buf: Seq<u8>, bit_offset: int, bit_width: nat, signed: bool) -> int {
    if signed {
        signed_value(field_bits(buf, bit_offset, bit_width))
    } else {
        unsigned_value(field_bits(buf, bit_offset, bit_width)) as int
    }
}

/// Whether `v` can be held in a field of `bit_width` bits, unsigned or in
/// two's complement.
pub open spec fn representable(v: int, bit_width: nat, signed: bool) -> bool {
    if signed {
        fits_signed(v, bit_width)
    } else {
        fits_unsigned(v, bit_width)
    }
}

/// The round trip of a field: once a value that the field can hold was
/// written to it, the field reads as that value, and every bit of the buffer
/// outside the field is as it was before.
pub proof fn lemma_field_round_trip(
    before: Seq<u8>,
    after: Seq<u8>,
    bit_offset: int,
    bit_width: nat,
    v: int,
    signed: bool,
)
    requires
        field_in_buffer(before.len(), bit_offset, bit_width as int),
        after.len() == before.len(),
        bits_of(after) == with_field(bits_of(before), bit_offset, value_bits(v, bit_width)),
        representable(v, bit_width, signed),
    ensures
        field_value(after, bit_offset, bit_width, signed) == v,
        forall|i: int|
            0 <= i < 8 * before.len() && !(bit_offset <= i < bit_offset + bit_width) ==> bit_at(
                after,
                i,
            ) == bit_at(before, i),
{
    lemma_written_field(before, after, bit_offset, value_bits(v, bit_width));
    if signed {
        lemma_read_after_write_signed(before, after, bit_offset, bit_width, v);
    } else {
        lemma_read_after_write_unsigned(before, after, bit_offset, bit_width, v);
    }
}

/// Reads the field of `bit_width` bits that starts at bit `bit_offset` of
/// the buffer, as a two's complement number if `signed`, else as an unsigned
/// one.
pub fn read(buf: &[u8], bit_offset: usize, bit_width: usize, signed: bool) -> (value: i128)
    requires
        field_in_buffer(buf@.len(), bit_offset as int, bit_width as int),
    ensures
        value == field_value(buf@, bit_offset as int, bit_width as nat, signed),
{
    if signed {
        read_signed(buf, bit_offset, bit_width) as i128
    } else {
        read_unsigned(buf, bit_offset, bit_width) as i128
    }
}

/// Writes the lowest `bit_width` bits of `value`, taken in two's complement
/// if it is negative, into the field that starts at bit `bit_offset` of the
/// buffer. No other bit of the buffer changes.
pub fn write(buf: &mut [u8], bit_offset: usize, bit_width: usize, value: i128)
    requires
        field_in_buffer(old(buf)@.len(), bit_offset as int, bit_width as int),
        i64::MIN <= value <= u64::MAX,
    ensures
        final(buf)@.len() == old(buf)@.len(),
        bits_of(final(buf)@) == with_field(
            bits_of(old(buf)@),
            bit_offset as int,
            value_bits(value as int, bit_width as nat),
        ),
{
    if value < 0 {
        write_signed(buf, bit_offset, bit_width, value as i64);
    } else {
        write_unsigned(buf, bit_offset, bit_width, value as u64);
    }
}

} // verus!
