//! The mathematical model of bit fields in byte buffers.
//!
//! A buffer is read as one long sequence of bits: bit `i` of the buffer is
//! bit `i % 8` of byte `i / 8`, the least significant bit of a byte first. A
//! field is a run of such bits, and its value is the number they spell, the
//! first bit being the least significant.

use vstd::arithmetic::div_mod::{
    lemma_fundamental_div_mod,
    lemma_fundamental_div_mod_converse,
    lemma_mod_bound,
};
use vstd::arithmetic::power2::{lemma2_to64, lemma_pow2_adds, lemma_pow2_pos, lemma_pow2_unfold, pow2};
use vstd::prelude::*;

verus! {

/// Bit `k` of the integer `v` in two's complement, bit 0 being the least
/// significant one.
pub open spec fn int_bit(v: int, k: nat) -> bool {
    (v / (pow2(k) as int)) % 2 == 1
}

/// Bit `i` of a buffer.
pub open spec fn bit_at(buf: Seq<u8>, i: int) -> bool {
    int_bit(buf[i / 8] as int, (i % 8) as nat)
}

/// All bits of a buffer, in order.
pub open spec fn bits_of(buf: Seq<u8>) -> Seq<bool> {
    Seq::new(8 * buf.len(), |i: int| bit_at(buf, i))
}

/// The `width` bits of a buffer that start at bit `offset`.
pub open spec fn field_bits(buf: Seq<u8>, offset: int, width: nat) -> Seq<bool> {
    Seq::new(width, |k: int| bit_at(buf, offset + k))
}

/// The lowest `width` bits of `v` in two's complement.
pub open spec fn value_bits(v: int, width: nat) -> Seq<bool> {
    Seq::new(width, |k: int| int_bit(v, k as nat))
}

/// The number that a run of bits spells when read as unsigned.
pub open spec fn unsigned_value(bits: Seq<bool>) -> nat
    decreases bits.len(),
{
    if bits.len() == 0 {
        0
    } else {
        unsigned_value(bits.drop_last()) + if bits.last() {
            pow2((bits.len() - 1) as nat)
        } else {
            0
        }
    }
}

/// The number that a run of bits spells when read in two's complement.
pub open spec fn signed_value(bits: Seq<bool>) -> int {
    if bits.len() > 0 && bits.last() {
        unsigned_value(bits) - pow2(bits.len())
    } else {
        unsigned_value(bits) as int
    }
}

/// The bits of a buffer after `field` has replaced the bits from `offset` on.
pub open spec fn with_field(bits: Seq<bool>, offset: int, field: Seq<bool>) -> Seq<bool> {
    Seq::new(
        bits.len(),
        |i: int|
            if offset <= i < offset + field.len() {
                field[i - offset]
            } else {
                bits[i]
            },
    )
}

/// Whether `v` can be held in an unsigned field of `width` bits.
pub open spec fn fits_unsigned(v: int, width: nat) -> bool {
    0 <= v < pow2(width)
}

/// Whether `v` can be held in a two's complement field of `width` bits.
pub open spec fn fits_signed(v: int, width: nat) -> bool {
    width >= 1 && -pow2((width - 1) as nat) <= v < pow2((width - 1) as nat)
}

proof fn lemma_mod_split(v: int, d: int)
    requires
        d > 0,
    ensures
        v % (2 * d) == v % d + d * ((v / d) % 2),
{
    let q = v / d;
    let r = v % d;
    let q2 = q / 2;
    let b = q % 2;
    lemma_fundamental_div_mod(v, d);
    lemma_mod_bound(v, d);
    assert(v == q2 * (2 * d) + (d * b + r)) by (nonlinear_arith)
        requires
            v == d * q + r,
            q == 2 * q2 + b,
    ;
    assert(0 <= d * b + r < 2 * d) by (nonlinear_arith)
        requires
            0 <= r < d,
            0 <= b < 2,
    ;
    lemma_fundamental_div_mod_converse(v, 2 * d, q2, d * b + r);
}

proof fn lemma_div_add_multiple(v: int, d: int, e: int)
    requires
        d > 0,
    ensures
        (v + d * e) / d == v / d + e,
{
    let q = v / d;
    let r = v % d;
    lemma_fundamental_div_mod(v, d);
    lemma_mod_bound(v, d);
    assert(v + d * e == (q + e) * d + r) by (nonlinear_arith)
        requires
            v == d * q + r,
    ;
    lemma_fundamental_div_mod_converse(v + d * e, d, q + e, r);
}

/// Adding a multiple of `2^m` leaves every bit below `m` as it is.
pub proof fn lemma_int_bit_add_pow2(v: int, k: nat, m: nat)
    requires
        k < m,
    ensures
        int_bit(v + pow2(m), k) == int_bit(v, k),
{
    let d = pow2(k) as int;
    let rest = (m - k - 1) as nat;
    lemma_pow2_pos(k);
    lemma_pow2_adds(k, (m - k) as nat);
    lemma_pow2_unfold((m - k) as nat);
    let e = 2 * pow2(rest) as int;
    assert(pow2(m) as int == d * e);
    lemma_div_add_multiple(v, d, e);
}

/// The bits of zero are all clear.
pub proof fn lemma_int_bit_zero(k: nat)
    ensures
        !int_bit(0, k),
{
    lemma_pow2_pos(k);
    lemma_fundamental_div_mod_converse(0, pow2(k) as int, 0, 0);
}

/// A number below `2^k` has no bit set from `k` upward.
pub proof fn lemma_int_bit_high(v: int, w: nat, k: nat)
    requires
        0 <= v < pow2(w),
        w <= k,
    ensures
        !int_bit(v, k),
{
    lemma_pow2_pos(k);
    if w < k {
        vstd::arithmetic::power2::lemma_pow2_strictly_increases(w, k);
    }
    lemma_fundamental_div_mod_converse(v, pow2(k) as int, 0, v);
}

/// A run of bits spells a number below `2^len`.
pub proof fn lemma_unsigned_value_bound(bits: Seq<bool>)
    ensures
        unsigned_value(bits) < pow2(bits.len()),
    decreases bits.len(),
{
    if bits.len() == 0 {
        lemma2_to64();
    } else {
        lemma_unsigned_value_bound(bits.drop_last());
        lemma_pow2_unfold(bits.len());
    }
}

/// The lowest `width` bits of `v` spell `v` modulo `2^width`.
pub proof fn lemma_unsigned_value_of_value_bits(v: int, width: nat)
    ensures
        unsigned_value(value_bits(v, width)) == v % (pow2(width) as int),
    decreases width,
{
    lemma_pow2_pos(width);
    if width == 0 {
        lemma2_to64();
    } else {
        let w1 = (width - 1) as nat;
        let bits = value_bits(v, width);
        assert(bits.drop_last() =~= value_bits(v, w1));
        assert(bits.last() == int_bit(v, w1));
        lemma_unsigned_value_of_value_bits(v, w1);
        lemma_pow2_unfold(width);
        lemma_pow2_pos(w1);
        lemma_mod_split(v, pow2(w1) as int);
        let q = v / (pow2(w1) as int);
        assert(pow2(w1) * (q % 2) == if q % 2 == 1 { pow2(w1) as int } else { 0 }) by (nonlinear_arith)
            requires
                0 <= q % 2 < 2,
        ;
    }
}

/// A run of bits is the bits of the number it spells.
pub proof fn lemma_value_bits_of_unsigned_value(bits: Seq<bool>)
    ensures
        value_bits(unsigned_value(bits) as int, bits.len()) == bits,
    decreases bits.len(),
{
    let n = bits.len();
    let v = unsigned_value(bits) as int;
    if n > 0 {
        let w1 = (n - 1) as nat;
        let low = unsigned_value(bits.drop_last()) as int;
        lemma_value_bits_of_unsigned_value(bits.drop_last());
        lemma_unsigned_value_bound(bits.drop_last());
        lemma_pow2_pos(w1);
        assert forall|k: int| 0 <= k < n implies int_bit(v, k as nat) == bits[k] by {
            if k < w1 {
                assert(value_bits(low, w1)[k] == bits.drop_last()[k]);
                if bits.last() {
                    lemma_int_bit_add_pow2(low, k as nat, w1);
                }
            } else {
                let top: int = if bits.last() { 1 } else { 0 };
                assert(v == top * pow2(w1) + low) by (nonlinear_arith)
                    requires
                        v == low + if bits.last() { pow2(w1) as int } else { 0 },
                        top == if bits.last() { 1int } else { 0int },
                ;
                lemma_fundamental_div_mod_converse(v, pow2(w1) as int, top, low);
            }
        }
    }
    assert(value_bits(v, n) =~= bits);
}

/// Round trip of an unsigned field: the bits written for a value that fits
/// in the field spell that value.
pub proof fn lemma_unsigned_round_trip(v: int, width: nat)
    requires
        fits_unsigned(v, width),
    ensures
        unsigned_value(value_bits(v, width)) == v,
{
    lemma_unsigned_value_of_value_bits(v, width);
    lemma_fundamental_div_mod_converse(v, pow2(width) as int, 0, v);
}

/// Round trip of a signed field: the bits written for a value that fits in
/// the field spell that value in two's complement.
pub proof fn lemma_signed_round_trip(v: int, width: nat)
    requires
        fits_signed(v, width),
    ensures
        signed_value(value_bits(v, width)) == v,
{
    let w1 = (width - 1) as nat;
    let half = pow2(w1) as int;
    let full = pow2(width) as int;
    lemma_pow2_unfold(width);
    lemma_pow2_pos(w1);
    lemma_unsigned_value_of_value_bits(v, width);
    assert(value_bits(v, width).last() == int_bit(v, w1));
    if v >= 0 {
        lemma_fundamental_div_mod_converse(v, full, 0, v);
        lemma_fundamental_div_mod_converse(v, half, 0, v);
    } else {
        lemma_fundamental_div_mod_converse(v, full, -1, v + full);
        lemma_fundamental_div_mod_converse(v, half, -1, v + half);
    }
}

/// The value read from a signed field fits in a field of that width.
pub proof fn lemma_signed_value_fits(bits: Seq<bool>)
    requires
        bits.len() >= 1,
    ensures
        fits_signed(signed_value(bits), bits.len()),
{
    let w1 = (bits.len() - 1) as nat;
    lemma_unsigned_value_bound(bits);
    lemma_unsigned_value_bound(bits.drop_last());
    lemma_pow2_unfold(bits.len());
}

/// A field that has just been written holds the bits written, and every bit
/// outside the field is as it was before.
pub proof fn lemma_written_field(before: Seq<u8>, after: Seq<u8>, offset: int, field: Seq<bool>)
    requires
        0 <= offset,
        offset + field.len() <= 8 * before.len(),
        after.len() == before.len(),
        bits_of(after) == with_field(bits_of(before), offset, field),
    ensures
        field_bits(after, offset, field.len()) == field,
        forall|i: int|
            0 <= i < 8 * before.len() && !(offset <= i < offset + field.len()) ==> bit_at(after, i)
                == bit_at(before, i),
{
    assert forall|i: int| 0 <= i < 8 * before.len() implies bit_at(after, i) == with_field(
        bits_of(before),
        offset,
        field,
    )[i] by {
        assert(bits_of(after)[i] == bit_at(after, i));
    }
    assert(field_bits(after, offset, field.len()) =~= field);
}

/// Reading an unsigned field back after a value that fits in it was written
/// there gives that value.
pub proof fn lemma_read_after_write_unsigned(
    before: Seq<u8>,
    after: Seq<u8>,
    offset: int,
    width: nat,
    v: int,
)
    requires
        0 <= offset,
        offset + width <= 8 * before.len(),
        after.len() == before.len(),
        bits_of(after) == with_field(bits_of(before), offset, value_bits(v, width)),
        fits_unsigned(v, width),
    ensures
        unsigned_value(field_bits(after, offset, width)) == v,
{
    lemma_written_field(before, after, offset, value_bits(v, width));
    lemma_unsigned_round_trip(v, width);
}

/// Reading a signed field back after a value that fits in it was written
/// there gives that value.
pub proof fn lemma_read_after_write_signed(
    before: Seq<u8>,
    after: Seq<u8>,
    offset: int,
    width: nat,
    v: int,
)
    requires
        0 <= offset,
        offset + width <= 8 * before.len(),
        after.len() == before.len(),
        bits_of(after) == with_field(bits_of(before), offset, value_bits(v, width)),
        fits_signed(v, width),
    ensures
        signed_value(field_bits(after, offset, width)) == v,
{
    lemma_written_field(before, after, offset, value_bits(v, width));
    lemma_signed_round_trip(v, width);
}

/// Writing one field leaves every field that shares no bit with it as it was
/// before.
pub proof fn lemma_other_field_kept(
    before: Seq<u8>,
    after: Seq<u8>,
    offset: int,
    field: Seq<bool>,
    other_offset: int,
    other_width: nat,
)
    requires
        0 <= offset,
        offset + field.len() <= 8 * before.len(),
        after.len() == before.len(),
        bits_of(after) == with_field(bits_of(before), offset, field),
        0 <= other_offset,
        other_offset + other_width <= 8 * before.len(),
        other_offset + other_width <= offset || offset + field.len() <= other_offset,
    ensures
        field_bits(after, other_offset, other_width) == field_bits(before, other_offset, other_width),
{
    lemma_written_field(before, after, offset, field);
    assert(field_bits(after, other_offset, other_width) =~= field_bits(
        before,
        other_offset,
        other_width,
    ));
}

/// A byte is the number that its eight bits spell.
pub proof fn lemma_byte_from_bits(b: u8)
    ensures
        b as int == unsigned_value(value_bits(b as int, 8)),
{
    lemma_unsigned_value_of_value_bits(b as int, 8);
    lemma2_to64();
}

/// The bytes that a run of bits fills, eight bits to a byte. Bits after the
/// last whole byte are left out.
pub open spec fn bytes_of_bits(bits: Seq<bool>) -> Seq<u8> {
    Seq::new(bits.len() / 8, |i: int| unsigned_value(bits.subrange(8 * i, 8 * i + 8)) as u8)
}

/// The `size` bytes that hold `v` as one unsigned little-endian field.
pub open spec fn encode_unsigned(v: int, size: nat) -> Seq<u8> {
    bytes_of_bits(value_bits(v, 8 * size))
}

/// `size` bytes that are all zero.
pub open spec fn zeros(size: nat) -> Seq<u8> {
    Seq::new(size, |i: int| 0u8)
}

/// The bits of the bytes that a run of whole bytes of bits fills are those
/// bits.
pub proof fn lemma_bits_of_bytes_of_bits(bits: Seq<bool>)
    requires
        bits.len() % 8 == 0,
    ensures
        bits_of(bytes_of_bits(bits)) == bits,
{
    let bytes = bytes_of_bits(bits);
    assert forall|g: int| 0 <= g < bits.len() implies #[trigger] bits_of(bytes)[g] == bits[g] by {
        let i = g / 8;
        let k = g % 8;
        let chunk = bits.subrange(8 * i, 8 * i + 8);
        lemma_unsigned_value_bound(chunk);
        lemma_value_bits_of_unsigned_value(chunk);
        lemma2_to64();
        assert(bytes[i] as int == unsigned_value(chunk));
        assert(value_bits(unsigned_value(chunk) as int, 8)[k] == chunk[k]);
    }
    assert(bits_of(bytes) =~= bits);
}

/// The bits of two buffers, one after the other, are the bits of the first
/// followed by the bits of the second.
pub proof fn lemma_bits_of_concat(a: Seq<u8>, b: Seq<u8>)
    ensures
        bits_of(a + b) == bits_of(a) + bits_of(b),
{
    assert forall|g: int| 0 <= g < 8 * (a.len() + b.len()) implies #[trigger] bits_of(a + b)[g] == (
    bits_of(a) + bits_of(b))[g] by {
        if g < 8 * a.len() {
            assert((a + b)[g / 8] == a[g / 8]);
        } else {
            let h = g - 8 * a.len();
            assert((a + b)[g / 8] == b[h / 8]);
            assert(g % 8 == h % 8);
        }
    }
    assert(bits_of(a + b) =~= bits_of(a) + bits_of(b));
}

/// An unsigned field that covers a whole little-endian encoding reads as the
/// number encoded, if the number fits.
pub proof fn lemma_decode_encoded(v: int, size: nat, rest: Seq<u8>)
    requires
        fits_unsigned(v, 8 * size),
    ensures
        encode_unsigned(v, size).len() == size,
        unsigned_value(field_bits(encode_unsigned(v, size) + rest, 0, 8 * size)) == v,
{
    let bits = value_bits(v, 8 * size);
    let bytes = encode_unsigned(v, size);
    lemma_bits_of_bytes_of_bits(bits);
    lemma_bits_of_concat(bytes, rest);
    assert forall|k: int| 0 <= k < 8 * size implies #[trigger] field_bits(bytes + rest, 0, 8 * size)[k]
        == bits[k] by {
        assert(bits_of(bytes + rest)[k] == bit_at(bytes + rest, k));
    }
    assert(field_bits(bytes + rest, 0, 8 * size) =~= bits);
    lemma_unsigned_round_trip(v, 8 * size);
}

/// After a value that fits in `width` bits was written to the start of
/// `size` zero bytes, the bytes are the little-endian encoding of the value.
pub proof fn lemma_written_to_zeros(after: Seq<u8>, v: int, width: nat, size: nat)
    requires
        after.len() == size,
        width <= 8 * size,
        fits_unsigned(v, width),
        bits_of(after) == with_field(bits_of(zeros(size)), 0, value_bits(v, width)),
    ensures
        after == encode_unsigned(v, size),
{
    let all = value_bits(v, 8 * size);
    assert forall|g: int| 0 <= g < 8 * size implies #[trigger] bits_of(after)[g] == all[g] by {
        if g >= width {
            lemma_int_bit_high(v, width, g as nat);
            lemma_int_bit_zero((g % 8) as nat);
            assert(zeros(size)[g / 8] == 0u8);
            assert(bits_of(zeros(size))[g] == bit_at(zeros(size), g));
        }
    }
    assert(bits_of(after) =~= all);
    lemma_bits_of_bytes_of_bits(all);
    lemma_bits_determine_bytes(after, encode_unsigned(v, size));
}

/// An unsigned field of `width` bits at the start of a little-endian
/// encoding reads as the number encoded, if the number fits in the field.
pub proof fn lemma_field_of_encoded(v: int, width: nat, size: nat)
    requires
        width <= 8 * size,
        fits_unsigned(v, width),
    ensures
        encode_unsigned(v, size).len() == size,
        unsigned_value(field_bits(encode_unsigned(v, size), 0, width)) == v,
{
    let all = value_bits(v, 8 * size);
    let bytes = encode_unsigned(v, size);
    lemma_bits_of_bytes_of_bits(all);
    assert forall|k: int| 0 <= k < width implies #[trigger] field_bits(bytes, 0, width)[k]
        == value_bits(v, width)[k] by {
        assert(bits_of(bytes)[k] == bit_at(bytes, k));
    }
    assert(field_bits(bytes, 0, width) =~= value_bits(v, width));
    lemma_unsigned_round_trip(v, width);
}

/// Every unsigned field of zero bytes reads as 0.
pub proof fn lemma_field_of_zeros(size: nat, offset: int, width: nat)
    requires
        0 <= offset,
        offset + width <= 8 * size,
    ensures
        unsigned_value(field_bits(zeros(size), offset, width)) == 0,
{
    assert forall|k: int| 0 <= k < width implies #[trigger] field_bits(zeros(size), offset, width)[k]
        == value_bits(0, width)[k] by {
        lemma_int_bit_zero(((offset + k) % 8) as nat);
        lemma_int_bit_zero(k as nat);
        assert(zeros(size)[(offset + k) / 8] == 0u8);
    }
    assert(field_bits(zeros(size), offset, width) =~= value_bits(0, width));
    lemma_pow2_pos(width);
    lemma_unsigned_round_trip(0, width);
}

/// Two buffers with the same bits are the same buffer.
pub proof fn lemma_bits_determine_bytes(a: Seq<u8>, b: Seq<u8>)
    requires
        bits_of(a) == bits_of(b),
    ensures
        a == b,
{
    assert(bits_of(a).len() == 8 * a.len());
    assert(bits_of(b).len() == 8 * b.len());
    assert forall|i: int| 0 <= i < a.len() implies a[i] == b[i] by {
        assert forall|k: int| 0 <= k < 8 implies #[trigger] value_bits(a[i] as int, 8)[k]
            == value_bits(b[i] as int, 8)[k] by {
            assert(bits_of(a)[8 * i + k] == bit_at(a, 8 * i + k));
            assert(bits_of(b)[8 * i + k] == bit_at(b, 8 * i + k));
            assert((8 * i + k) / 8 == i);
            assert((8 * i + k) % 8 == k);
        }
        assert(value_bits(a[i] as int, 8) =~= value_bits(b[i] as int, 8));
        lemma_byte_from_bits(a[i]);
        lemma_byte_from_bits(b[i]);
    }
    assert(a =~= b);
}

} // verus!
