//! The growth buffer behind the append-only containers.
//!
//! Bytes are only ever added at the end. The buffer asks for room ahead of
//! need: whenever the bytes to be added would not fit in the room asked for so
//! far, it asks for twice that room, or for what is needed if that is more.

use crate::bits::zeros;
use crate::structs::StructViewMut;
use vstd::prelude::*;

verus! {

/// The room that a buffer asks for first.
pub const INITIAL_CAPACITY: usize = 64;

/// The room that a buffer has asked for once it must hold `needed` bytes,
/// when it had asked for `capacity` before.
pub open spec fn grown_capacity(capacity: nat, needed: nat) -> nat {
    if needed <= capacity {
        capacity
    } else if needed <= 2 * capacity {
        if 2 * capacity <= usize::MAX {
            2 * capacity
        } else {
            usize::MAX as nat
        }
    } else {
        needed
    }
}

/// A byte buffer that grows at its end.
pub struct GrowthBuffer {
    data: Vec<u8>,
    capacity: usize,
}

impl View for GrowthBuffer {
    type V = Seq<u8>;

    /// The bytes in the buffer.
    closed spec fn view(&self) -> Seq<u8> {
        self.data@
    }
}

impl GrowthBuffer {
    /// The room that the buffer has asked for so far, in bytes.
    pub closed spec fn spec_capacity(self) -> nat {
        self.capacity as nat
    }

    /// The room that the buffer has asked for so far, in bytes.
    pub fn capacity(&self) -> (capacity: usize)
        ensures
            capacity == self.spec_capacity(),
    {
        self.capacity
    }

    /// Whether the buffer holds no byte.
    pub fn is_empty(&self) -> (empty: bool)
        ensures
            empty == (self@.len() == 0),
    {
        self.data.len() == 0
    }

    /// An empty buffer.
    pub fn new() -> (buffer: GrowthBuffer)
        ensures
            buffer@ == Seq::<u8>::empty(),
            buffer.spec_capacity() == INITIAL_CAPACITY,
    {
        GrowthBuffer { data: Vec::with_capacity(INITIAL_CAPACITY), capacity: INITIAL_CAPACITY }
    }

    /// The number of bytes in the buffer.
    pub fn len(&self) -> (len: usize)
        ensures
            len == self@.len(),
    {
        self.data.len()
    }

    /// The bytes in the buffer.
    pub fn as_slice(&self) -> (bytes: &[u8])
        ensures
            bytes@ == self@,
    {
        self.data.as_slice()
    }

    /// Asks for room for `needed` bytes in all.
    fn make_room(&mut self, needed: usize)
        requires
            old(self)@.len() <= needed,
        ensures
            final(self)@ == old(self)@,
            final(self).spec_capacity() == grown_capacity(old(self).spec_capacity(), needed as nat),
    {
        if needed > self.capacity {
            let doubled = self.capacity.saturating_add(self.capacity);
            let target = if doubled >= needed {
                doubled
            } else {
                needed
            };
            self.data.reserve(target - self.data.len());
            self.capacity = target;
        }
    }

    /// Adds `count` zero bytes at the end.
    pub fn extend_zeroed(&mut self, count: usize)
        requires
            old(self)@.len() + count <= usize::MAX,
        ensures
            final(self)@ == old(self)@ + zeros(count as nat),
            final(self).spec_capacity() == grown_capacity(
                old(self).spec_capacity(),
                old(self)@.len() + count as nat,
            ),
    {
        let needed = self.data.len() + count;
        self.make_room(needed);
        let mut done: usize = 0;
        while done < count
            invariant
                done <= count,
                self.data@ == old(self)@ + zeros(done as nat),
                self.capacity == grown_capacity(old(self).spec_capacity(), needed as nat),
            decreases count - done,
        {
            self.data.push(0u8);
            done += 1;
            assert(self.data@ =~= old(self)@ + zeros(done as nat));
        }
    }

    /// Adds one byte at the end.
    pub fn push(&mut self, byte: u8)
        requires
            old(self)@.len() + 1 <= usize::MAX,
        ensures
            final(self)@ == old(self)@.push(byte),
            final(self).spec_capacity() == grown_capacity(old(self).spec_capacity(), old(self)@.len() + 1nat),
    {
        let needed = self.data.len() + 1;
        self.make_room(needed);
        self.data.push(byte);
    }

    /// The view of the `size` bytes from byte `offset` on. What is written
    /// through the view is written to the buffer; the rest of the buffer
    /// stays as it is.
    pub fn window_mut(&mut self, offset: usize, size: usize) -> (view: StructViewMut<'_>)
        requires
            offset + size <= old(self)@.len(),
        ensures
            view@ == old(self)@.subrange(offset as int, offset + size),
            final(self)@ == old(self)@.subrange(0, offset as int) + final(view.bytes)@ + old(self)@.subrange(offset + size, old(self)@.len() as int),
            final(self).spec_capacity() == old(self).spec_capacity(),
    {
        let (_, tail) = self.data.as_mut_slice().split_at_mut(offset);
        let (window, _) = tail.split_at_mut(size);
        assert(window@ =~= old(self)@.subrange(offset as int, offset + size));
        StructViewMut { bytes: window }
    }
}

} // verus!
