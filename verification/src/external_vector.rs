//! An append-only vector of fixed-size structures that is built in memory
//! and written to a storage as one resource when it is closed.

use crate::array_view::{
    element_bytes,
    element_count,
    lemma_element_count_exact,
    lemma_element_in_bytes,
    ArrayView,
};
use crate::bits::zeros;
use crate::buffer::GrowthBuffer;
use crate::error::{already_exists, ErrorView, ResourceStorageError};
use crate::storage::{holds_part, lemma_read_after_write, read_result, written, ResourceStorage};
use crate::structs::StructViewMut;
use vstd::arithmetic::power2::lemma2_to64;
use vstd::prelude::*;

verus! {

/// A vector of structures under construction.
pub struct ExternalVector {
    name: &'static str,
    schema: &'static str,
    element_size: usize,
    count: usize,
    buffer: GrowthBuffer,
}

impl ExternalVector {
    /// The name of the resource that the vector is written to.
    pub closed spec fn name(self) -> Seq<char> {
        self.name@
    }

    /// The schema of the resource that the vector is written to.
    pub closed spec fn schema(self) -> Seq<char> {
        self.schema@
    }

    /// The size of one element in bytes.
    pub closed spec fn element_size(self) -> nat {
        self.element_size as nat
    }

    /// The number of elements appended so far.
    pub closed spec fn spec_len(self) -> nat {
        self.count as nat
    }

    /// The bytes of the elements appended so far.
    pub closed spec fn bytes(self) -> Seq<u8> {
        self.buffer@
    }

    /// The room that the vector has asked for so far, in bytes.
    pub closed spec fn spec_capacity(self) -> nat {
        self.buffer.spec_capacity()
    }

    /// The vector holds whole elements only, and its bytes can be written as
    /// one resource.
    pub open spec fn wf(self) -> bool {
        &&& self.element_size() > 0
        &&& self.bytes().len() == self.spec_len() * self.element_size()
        &&& self.bytes().len() + 16 <= usize::MAX
    }

    /// The bytes of element `i`.
    pub open spec fn element(self, i: int) -> Seq<u8> {
        element_bytes(self.bytes(), self.element_size(), i)
    }

    /// An empty vector of elements of `element_size` bytes, to be written to
    /// resource `name` with `schema`.
    pub fn new(name: &'static str, schema: &'static str, element_size: usize) -> (vector:
        ExternalVector)
        requires
            element_size > 0,
        ensures
            vector.wf(),
            vector.name() == name@,
            vector.schema() == schema@,
            vector.element_size() == element_size,
            vector.spec_len() == 0,
            vector.bytes() == Seq::<u8>::empty(),
            vector.spec_capacity() == crate::buffer::INITIAL_CAPACITY,
    {
        ExternalVector { name, schema, element_size, count: 0, buffer: GrowthBuffer::new() }
    }

    /// The number of elements appended so far.
    pub fn len(&self) -> (len: usize)
        ensures
            len == self.spec_len(),
    {
        self.count
    }

    /// The room that the vector has asked for so far, in bytes.
    pub fn capacity(&self) -> (capacity: usize)
        ensures
            capacity == self.spec_capacity(),
    {
        self.buffer.capacity()
    }

    /// Whether no element was appended so far.
    pub fn is_empty(&self) -> (empty: bool)
        ensures
            empty == (self.spec_len() == 0),
    {
        self.count == 0
    }

    /// The elements appended so far, as an array.
    pub fn as_view(&self) -> (array: ArrayView<'_>)
        requires
            self.wf(),
        ensures
            array.bytes() == self.bytes(),
            array.element_size() == self.element_size(),
            array.spec_len() == self.spec_len(),
    {
        proof {
            lemma_element_count_exact(self.bytes(), self.element_size(), self.spec_len());
        }
        ArrayView::new(self.buffer.as_slice(), self.element_size)
    }

    /// Appends one element, all of its bytes zero, and gives the view
    /// through which it is filled in. The elements appended before stay as
    /// they are; the new element becomes what the view holds when it is
    /// given up.
    pub fn grow(&mut self) -> (element: StructViewMut<'_>)
        requires
            old(self).wf(),
            old(self).bytes().len() + old(self).element_size() + 16 <= usize::MAX,
        ensures
            element@ == zeros(old(self).element_size()),
            final(self).name() == old(self).name(),
            final(self).schema() == old(self).schema(),
            final(self).element_size() == old(self).element_size(),
            final(self).spec_len() == old(self).spec_len() + 1,
            final(self).bytes() == old(self).bytes() + final(element.bytes)@,
            final(self).spec_capacity() == crate::buffer::grown_capacity(
                old(self).spec_capacity(),
                old(self).bytes().len() + old(self).element_size(),
            ),
    {
        let start = self.buffer.len();
        self.buffer.extend_zeroed(self.element_size);
        proof {
            assert(self.count < usize::MAX) by (nonlinear_arith)
                requires
                    self.count * self.element_size + self.element_size + 16 <= usize::MAX,
                    self.element_size > 0,
            ;
        }
        self.count += 1;
        let ghost before = old(self).bytes();
        let ghost size = self.element_size as int;
        let element = self.buffer.window_mut(start, self.element_size);
        proof {
            let grown = before + zeros(size as nat);
            assert(grown.subrange(start as int, start + size) =~= zeros(size as nat));
            assert(grown.subrange(0, start as int) =~= before);
            assert(grown.subrange(start + size, grown.len() as int) =~= Seq::<u8>::empty());
            assert(before + final(element.bytes)@ + Seq::<u8>::empty() =~= before + final(element.bytes)@);
        }
        element
    }

    /// Writes the vector to the storage as the resource it was made for. The
    /// vector is used up: nothing can be appended to it afterwards.
    pub fn close(self, storage: &mut ResourceStorage) -> (done: Result<(), ResourceStorageError>)
        requires
            self.wf(),
        ensures
            match done {
                Ok(_) => !holds_part(old(storage)@, self.name()) && final(storage)@ == written(
                    old(storage)@,
                    self.name(),
                    self.schema(),
                    self.bytes(),
                ),
                Err(e) => holds_part(old(storage)@, self.name()) && final(storage)@ == old(storage)@ && e@ == already_exists(self.name()),
            },
    {
        storage.write(self.name, self.schema, self.buffer.as_slice())
    }
}

/// Appending an element leaves the elements before it as they were, and the
/// element appended is the last one.
pub proof fn lemma_appended_element(bytes: Seq<u8>, element: Seq<u8>, size: nat, count: nat, i: int)
    requires
        size > 0,
        bytes.len() == count * size,
        element.len() == size,
        0 <= i <= count,
    ensures
        element_count(bytes + element, size) == count + 1,
        i < count ==> element_bytes(bytes + element, size, i) == element_bytes(bytes, size, i),
        i == count ==> element_bytes(bytes + element, size, i) == element,
{
    assert((count + 1) * size == count * size + size) by (nonlinear_arith);
    lemma_element_count_exact(bytes + element, size, count + 1);
    lemma_element_count_exact(bytes, size, count);
    if i < count {
        lemma_element_in_bytes(bytes.len(), size, i);
        assert(element_bytes(bytes + element, size, i) =~= element_bytes(bytes, size, i));
    } else {
        assert((i + 1) * size == i * size + size) by (nonlinear_arith);
        assert(element_bytes(bytes + element, size, i) =~= element);
    }
}

/// A vector of `count` elements that was closed into a storage is read back
/// with its schema as an array of `count` elements over the same bytes.
pub proof fn lemma_closed_vector_is_read_back(
    store: Map<Seq<char>, Seq<u8>>,
    name: Seq<char>,
    schema: Seq<char>,
    bytes: Seq<u8>,
    size: nat,
    count: nat,
)
    requires
        size > 0,
        bytes.len() == count * size,
        bytes.len() + 16 <= usize::MAX,
    ensures
        read_result(written(store, name, schema, bytes), name, schema) == Ok::<Seq<u8>, ErrorView>(
            bytes,
        ),
        element_count(bytes, size) == count,
{
    lemma2_to64();
    lemma_read_after_write(store, name, schema, bytes, schema);
    lemma_element_count_exact(bytes, size, count);
}

} // verus!
