//! A read-only sequence of fixed-size structures over the bytes of one
//! resource.

use crate::structs::StructView;
use vstd::prelude::*;

verus! {

/// The answer to asking an array for an element that it does not hold.
#[derive(Clone, Copy, Debug)]
pub struct OutOfBounds {
    /// The index asked for.
    pub index: usize,
    /// The number of elements in the array.
    pub len: usize,
}

/// The number of whole elements of `element_size` bytes in `bytes`.
pub open spec fn element_count(bytes: Seq<u8>, element_size: nat) -> nat {
    if element_size == 0 {
        0
    } else {
        bytes.len() / element_size
    }
}

/// The bytes of element `i` of an array of elements of `element_size` bytes.
pub open spec fn element_bytes(bytes: Seq<u8>, element_size: nat, i: int) -> Seq<u8> {
    bytes.subrange(i * element_size, (i + 1) * element_size)
}

/// In an array of `count` elements, element `i` lies within the bytes.
pub proof fn lemma_element_in_bytes(len: nat, element_size: nat, i: int)
    requires
        element_size > 0,
        0 <= i < len / element_size,
    ensures
        0 <= i * element_size,
        (i + 1) * element_size <= len,
        (i + 1) * element_size == i * element_size + element_size,
{
    let count = len / element_size;
    vstd::arithmetic::div_mod::lemma_fundamental_div_mod(len as int, element_size as int);
    vstd::arithmetic::div_mod::lemma_mod_bound(len as int, element_size as int);
    assert((i + 1) * element_size <= count * element_size) by (nonlinear_arith)
        requires
            i + 1 <= count,
            element_size > 0,
    ;
    assert((i + 1) * element_size == i * element_size + element_size) by (nonlinear_arith);
    assert(0 <= i * element_size) by (nonlinear_arith)
        requires
            0 <= i,
            element_size > 0,
    ;
    assert(element_size * count == count * element_size) by (nonlinear_arith);
}

/// Bytes made of exactly `count` elements hold `count` elements.
pub proof fn lemma_element_count_exact(bytes: Seq<u8>, element_size: nat, count: nat)
    requires
        element_size > 0,
        bytes.len() == count * element_size,
    ensures
        element_count(bytes, element_size) == count,
{
    vstd::arithmetic::div_mod::lemma_fundamental_div_mod_converse(
        bytes.len() as int,
        element_size as int,
        count as int,
        0,
    );
}

/// A read-only view of a resource as an array of structures, all of the same
/// size. Bytes after the last whole element are ignored.
#[derive(Clone, Copy, Debug)]
pub struct ArrayView<'a> {
    data: &'a [u8],
    element_size: usize,
}

impl<'a> ArrayView<'a> {
    #[verifier::type_invariant]
    spec fn positive_element_size(self) -> bool {
        self.element_size > 0
    }

    /// The bytes that the array lies over.
    pub closed spec fn bytes(self) -> Seq<u8> {
        self.data@
    }

    /// The size of one element in bytes.
    pub closed spec fn element_size(self) -> nat {
        self.element_size as nat
    }

    /// The number of elements.
    pub open spec fn spec_len(self) -> nat {
        element_count(self.bytes(), self.element_size())
    }

    /// The bytes of element `i`.
    pub open spec fn element(self, i: int) -> Seq<u8> {
        element_bytes(self.bytes(), self.element_size(), i)
    }

    /// The array of the elements of `element_size` bytes that `data` holds.
    pub fn new(data: &'a [u8], element_size: usize) -> (array: ArrayView<'a>)
        requires
            element_size > 0,
        ensures
            array.bytes() == data@,
            array.element_size() == element_size,
    {
        ArrayView { data, element_size }
    }

    /// The number of elements.
    pub fn len(&self) -> (len: usize)
        ensures
            len == self.spec_len(),
    {
        proof {
            use_type_invariant(self);
        }
        self.data.len() / self.element_size
    }

    /// Whether the array holds no element.
    pub fn is_empty(&self) -> (empty: bool)
        ensures
            empty == (self.spec_len() == 0),
    {
        proof {
            use_type_invariant(self);
        }
        self.data.len() / self.element_size == 0
    }

    /// The size of one element in bytes.
    pub fn element_size_in_bytes(&self) -> (size: usize)
        ensures
            size == self.element_size(),
    {
        self.element_size
    }

    /// The bytes that the array lies over.
    pub fn as_bytes(&self) -> (bytes: &'a [u8])
        ensures
            bytes@ == self.bytes(),
    {
        self.data
    }

    /// The view of element `index`, or the bounds that the index breaks.
    pub fn at(&self, index: usize) -> (element: Result<StructView<'a>, OutOfBounds>)
        ensures
            match element {
                Ok(view) => index < self.spec_len() && view@ == self.element(index as int),
                Err(bounds) => index >= self.spec_len() && bounds.index == index && bounds.len
                    == self.spec_len(),
            },
    {
        proof {
            use_type_invariant(self);
        }
        let len = self.data.len() / self.element_size;
        if index < len {
            proof {
                lemma_element_in_bytes(self.data@.len(), self.element_size as nat, index as int);
            }
            let start = index * self.element_size;
            Ok(StructView::over(&self.data[start..start + self.element_size]))
        } else {
            Err(OutOfBounds { index, len })
        }
    }
}

} // verus!
