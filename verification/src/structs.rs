//! Views of one fixed-size structure in a byte buffer.
//!
//! A view is a window of a buffer: the bytes of one structure, checked once
//! against the buffer when the view is made. Fields are named by a [`Field`],
//! the entry of a structure's field table, and read and written with the bit
//! codec.

use crate::bits::{
    bits_of,
    field_bits,
    lemma_other_field_kept,
    signed_value,
    unsigned_value,
    value_bits,
    with_field,
};
use crate::codec::{
    field_value,
    lemma_field_round_trip,
    read,
    read_signed,
    read_unsigned,
    representable,
    write_signed,
    write_unsigned,
};
use vstd::prelude::*;

verus! {

/// One entry of a structure's field table.
#[derive(Clone, Copy, Debug)]
pub struct Field {
    /// The field's first bit, counted from the start of the structure: eight
    /// times its byte offset plus its bit offset within that byte.
    pub offset: usize,
    /// The field's width in bits, from 1 to 64.
    pub width: usize,
    /// Whether the field holds a two's complement number.
    pub signed: bool,
}

impl Field {
    /// Whether the field lies within a structure of `size` bytes.
    pub open spec fn fits(self, size: nat) -> bool {
        &&& 1 <= self.width <= 64
        &&& self.offset + self.width <= 8 * size
    }

    /// The bits of the field in the bytes of a structure.
    pub open spec fn bits(self, bytes: Seq<u8>) -> Seq<bool> {
        field_bits(bytes, self.offset as int, self.width as nat)
    }

    /// The value of the field in the bytes of a structure.
    pub open spec fn value(self, bytes: Seq<u8>) -> int {
        field_value(bytes, self.offset as int, self.width as nat, self.signed)
    }

    /// The bytes of a structure after `value` was written to the field.
    pub open spec fn written(self, before: Seq<u8>, after: Seq<u8>, value: int) -> bool {
        &&& after.len() == before.len()
        &&& bits_of(after) == with_field(
            bits_of(before),
            self.offset as int,
            value_bits(value, self.width as nat),
        )
    }

    /// Whether the field shares no bit with `other`.
    pub open spec fn disjoint(self, other: Field) -> bool {
        self.offset + self.width <= other.offset || other.offset + other.width <= self.offset
    }
}

/// A field that was written reads as the value written, if the value fits
/// in the field.
pub proof fn lemma_field_reads_as_written(field: Field, before: Seq<u8>, after: Seq<u8>, value: int)
    requires
        field.fits(before.len()),
        field.written(before, after, value),
        representable(value, field.width as nat, field.signed),
    ensures
        field.value(after) == value,
{
    lemma_field_round_trip(
        before,
        after,
        field.offset as int,
        field.width as nat,
        value,
        field.signed,
    );
}

/// Writing a field leaves every field that shares no bit with it as it was.
pub proof fn lemma_other_fields_kept(
    field: Field,
    other: Field,
    before: Seq<u8>,
    after: Seq<u8>,
    value: int,
)
    requires
        field.fits(before.len()),
        other.fits(before.len()),
        field.disjoint(other),
        field.written(before, after, value),
    ensures
        other.bits(after) == other.bits(before),
        other.value(after) == other.value(before),
{
    lemma_other_field_kept(
        before,
        after,
        field.offset as int,
        value_bits(value, field.width as nat),
        other.offset as int,
        other.width as nat,
    );
}

/// A read-only view of one structure.
#[derive(Clone, Copy, Debug)]
pub struct StructView<'a> {
    bytes: &'a [u8],
}

impl<'a> View for StructView<'a> {
    type V = Seq<u8>;

    /// The bytes of the structure.
    closed spec fn view(&self) -> Seq<u8> {
        self.bytes@
    }
}

impl<'a> StructView<'a> {
    /// The view of the `size` bytes of `buffer` from byte `offset` on, if
    /// the buffer holds them.
    pub fn new(buffer: &'a [u8], offset: usize, size: usize) -> (view: Option<StructView<'a>>)
        ensures
            view is Some <==> offset + size <= buffer@.len(),
            view is Some ==> view->0@ == buffer@.subrange(offset as int, offset + size),
    {
        let len = buffer.len();
        if offset <= len && size <= len - offset {
            Some(StructView { bytes: &buffer[offset..offset + size] })
        } else {
            None
        }
    }

    /// The view of a structure that takes up all of `bytes`.
    pub fn over(bytes: &'a [u8]) -> (view: StructView<'a>)
        ensures
            view@ == bytes@,
    {
        StructView { bytes }
    }

    /// The size of the structure in bytes.
    pub fn size(&self) -> (size: usize)
        ensures
            size == self@.len(),
    {
        self.bytes.len()
    }

    /// The bytes of the structure.
    pub fn as_bytes(&self) -> (bytes: &'a [u8])
        ensures
            bytes@ == self@,
    {
        self.bytes
    }

    /// Reads a field as an unsigned number.
    pub fn unsigned(&self, field: &Field) -> (value: u64)
        requires
            field.fits(self@.len()),
        ensures
            value == unsigned_value(field.bits(self@)),
    {
        read_unsigned(self.bytes, field.offset, field.width)
    }

    /// Reads a field as a two's complement number.
    pub fn signed(&self, field: &Field) -> (value: i64)
        requires
            field.fits(self@.len()),
        ensures
            value == signed_value(field.bits(self@)),
    {
        read_signed(self.bytes, field.offset, field.width)
    }

    /// Reads a field as its table entry declares it.
    pub fn get(&self, field: &Field) -> (value: i128)
        requires
            field.fits(self@.len()),
        ensures
            value == field.value(self@),
    {
        read(self.bytes, field.offset, field.width, field.signed)
    }
}

/// A view of one structure through which its fields can be written.
///
/// The window is an open field: contracts speak of the bytes that the buffer
/// holds when the view is given up as `final(view.bytes)@`.
pub struct StructViewMut<'a> {
    /// The bytes of the structure, borrowed from its buffer.
    pub bytes: &'a mut [u8],
}

impl<'a> View for StructViewMut<'a> {
    type V = Seq<u8>;

    /// The bytes of the structure as they are now.
    open spec fn view(&self) -> Seq<u8> {
        self.bytes@
    }
}

impl<'a> StructViewMut<'a> {
    /// The view of the `size` bytes of `buffer` from byte `offset` on, if
    /// the buffer holds them. What is written through the view is written to
    /// the buffer; the rest of the buffer stays as it is.
    pub fn new(buffer: &'a mut [u8], offset: usize, size: usize) -> (view: Option<
        StructViewMut<'a>,
    >)
        ensures
            view is Some <==> offset + size <= old(buffer)@.len(),
            view is Some ==> {
                &&& view->0@ == old(buffer)@.subrange(offset as int, offset + size)
                &&& final(buffer)@ == old(buffer)@.subrange(0, offset as int)
                    + final(view->0.bytes)@ + old(buffer)@.subrange(
                    offset + size,
                    old(buffer)@.len() as int,
                )
            },
            view is None ==> final(buffer)@ == old(buffer)@,
    {
        let len = buffer.len();
        if offset <= len && size <= len - offset {
            let (_, tail) = buffer.split_at_mut(offset);
            let (window, _) = tail.split_at_mut(size);
            assert(window@ =~= old(buffer)@.subrange(offset as int, offset + size));
            Some(StructViewMut { bytes: window })
        } else {
            None
        }
    }

    /// The view of a structure that takes up all of `bytes`. What is
    /// written through the view is written to `bytes`.
    pub fn over(bytes: &'a mut [u8]) -> (view: StructViewMut<'a>)
        ensures
            view@ == old(bytes)@,
            final(bytes)@ == final(view.bytes)@,
    {
        StructViewMut { bytes }
    }

    /// The size of the structure in bytes.
    pub fn size(&self) -> (size: usize)
        ensures
            size == self@.len(),
    {
        self.bytes.len()
    }

    /// Reads a field as an unsigned number.
    pub fn unsigned(&self, field: &Field) -> (value: u64)
        requires
            field.fits(self@.len()),
        ensures
            value == unsigned_value(field.bits(self@)),
    {
        read_unsigned(self.bytes, field.offset, field.width)
    }

    /// Reads a field as a two's complement number.
    pub fn signed(&self, field: &Field) -> (value: i64)
        requires
            field.fits(self@.len()),
        ensures
            value == signed_value(field.bits(self@)),
    {
        read_signed(self.bytes, field.offset, field.width)
    }

    /// Reads a field as its table entry declares it.
    pub fn get(&self, field: &Field) -> (value: i128)
        requires
            field.fits(self@.len()),
        ensures
            value == field.value(self@),
    {
        read(self.bytes, field.offset, field.width, field.signed)
    }

    /// Writes the lowest bits of `value` to a field. No bit outside the field
    /// changes.
    pub fn set_unsigned(&mut self, field: &Field, value: u64)
        requires
            field.fits(old(self)@.len()),
        ensures
            field.written(old(self)@, final(self)@, value as int),
            final(final(self).bytes)@ == final(old(self).bytes)@,
    {
        write_unsigned(self.bytes, field.offset, field.width, value);
    }

    /// Writes the lowest bits of `value`, in two's complement, to a field. No
    /// bit outside the field changes.
    pub fn set_signed(&mut self, field: &Field, value: i64)
        requires
            field.fits(old(self)@.len()),
        ensures
            field.written(old(self)@, final(self)@, value as int),
            final(final(self).bytes)@ == final(old(self).bytes)@,
    {
        write_signed(self.bytes, field.offset, field.width, value);
    }

    /// Writes the lowest bits of `value`, taken in two's complement if it is
    /// negative, to a field. No bit outside the field changes.
    pub fn set(&mut self, field: &Field, value: i128)
        requires
            field.fits(old(self)@.len()),
            i64::MIN <= value <= u64::MAX,
        ensures
            field.written(old(self)@, final(self)@, value as int),
            final(final(self).bytes)@ == final(old(self).bytes)@,
    {
        crate::codec::write(self.bytes, field.offset, field.width, value);
    }
}

} // verus!
