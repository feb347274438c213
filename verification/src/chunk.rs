//! An [ArenaChunk] is one block of storage from which an arena hands out locations.
//!
//! Locations inside an arena are named by an [ArenaAddress]: the index of a chunk and the
//! offset of a slot within that chunk. Offsets count from the chunk's first slot, so
//! [ArenaChunk::start] is always `0`.
use vstd::prelude::*;
use vstd::layout::size_of;

verus! {

/// A location inside an arena: a chunk, and a slot offset within it.
#[derive(Clone, Copy, Debug, PartialEq, Eq, Structural)]
pub struct ArenaAddress {
    pub chunk: usize,
    pub offset: usize,
}

/// A run of `len` consecutive slots of one chunk, starting at `start`.
#[derive(Clone, Copy, Debug, PartialEq, Eq, Structural)]
pub struct ArenaSlice {
    pub start: ArenaAddress,
    pub len: usize,
}

/// The two runs share no slot.
pub open spec fn disjoint(a: ArenaSlice, b: ArenaSlice) -> bool {
    ||| a.start.chunk != b.start.chunk
    ||| a.start.offset + a.len <= b.start.offset
    ||| b.start.offset + b.len <= a.start.offset
}

/// `n` zero bytes.
pub open spec fn zeros(n: nat) -> Seq<u8> {
    Seq::new(n, |i: int| 0u8)
}

/// The offset one past the last slot of a chunk of `capacity` slots of `T`.
///
/// Zero-sized values take no room, so a chunk of them never runs out.
pub open spec fn chunk_end<T>(capacity: usize) -> usize {
    if size_of::<T>() == 0 {
        usize::MAX
    } else {
        capacity
    }
}

/// A block of storage with room for `capacity` slots of `T`.
///
/// `mem` holds the values that occupy its slots; `filled` is how many of them the arena
/// has recorded as initialised (it is brought up to date when the arena moves on to a
/// newer chunk).
pub struct ArenaChunk<T> {
    pub(crate) mem: Vec<T>,
    pub(crate) capacity: usize,
    pub(crate) filled: usize,
}

impl<T> ArenaChunk<T> {
    /// The number of slots in this chunk.
    pub closed spec fn capacity_spec(&self) -> usize {
        self.capacity
    }

    /// The values held in this chunk.
    pub closed spec fn values(&self) -> Seq<T> {
        self.mem@
    }

    /// The number of slots recorded as initialised.
    pub closed spec fn filled_spec(&self) -> usize {
        self.filled
    }

    /// Makes an empty chunk with room for `cap` slots.
    pub fn new(cap: usize) -> (chunk: Self)
        requires
            cap * size_of::<T>() <= isize::MAX,
        ensures
            chunk.capacity_spec() == cap,
            chunk.values() == Seq::<T>::empty(),
            chunk.filled_spec() == 0,
    {
        Self { mem: Vec::with_capacity(cap), capacity: cap, filled: 0 }
    }

    /// The number of slots in this chunk.
    pub fn capacity(&self) -> (cap: usize)
        ensures
            cap == self.capacity_spec(),
    {
        self.capacity
    }

    /// The values held in this chunk.
    pub fn as_slice(&self) -> (values: &[T])
        ensures
            values@ == self.values(),
    {
        self.mem.as_slice()
    }

    /// Replaces the value in slot `index`.
    pub(crate) fn write(&mut self, index: usize, value: T)
        requires
            index < old(self).values().len(),
        ensures
            final(self).values() == old(self).values().update(index as int, value),
            final(self).capacity_spec() == old(self).capacity_spec(),
            final(self).filled_spec() == old(self).filled_spec(),
    {
        self.mem.set(index, value);
    }

    /// Puts `value` in the slot after the last one held.
    pub(crate) fn push(&mut self, value: T)
        ensures
            final(self).values() == old(self).values().push(value),
            final(self).capacity_spec() == old(self).capacity_spec(),
            final(self).filled_spec() == old(self).filled_spec(),
    {
        self.mem.push(value);
    }

    /// Moves all of `values` into the slots after the last one held.
    pub(crate) fn append(&mut self, values: &mut Vec<T>)
        ensures
            final(self).values() == old(self).values() + old(values)@,
            final(values)@ == Seq::<T>::empty(),
            final(self).capacity_spec() == old(self).capacity_spec(),
            final(self).filled_spec() == old(self).filled_spec(),
    {
        self.mem.append(values);
    }

    /// Records that `filled` slots are initialised.
    pub(crate) fn set_filled(&mut self, filled: usize)
        ensures
            final(self).values() == old(self).values(),
            final(self).capacity_spec() == old(self).capacity_spec(),
            final(self).filled_spec() == filled,
    {
        self.filled = filled;
    }

    /// Drops every value held in the chunk and resets the filled count to 0.
    pub fn drop_elements(&mut self)
        requires
            old(self).filled_spec() <= old(self).capacity_spec(),
        ensures
            final(self).values() == Seq::<T>::empty(),
            final(self).filled_spec() == 0,
            final(self).capacity_spec() == old(self).capacity_spec(),
    {
        self.mem.clear();
        self.filled = 0;
    }

    /// The offset of the first slot of the chunk.
    pub fn start(&self) -> (offset: usize)
        ensures
            offset == 0,
    {
        0
    }

    /// The offset one past the last slot of the chunk (see [chunk_end]).
    pub fn end(&self) -> (offset: usize)
        ensures
            offset == chunk_end::<T>(self.capacity_spec()),
    {
        if core::mem::size_of::<T>() == 0 {
            usize::MAX
        } else {
            self.capacity
        }
    }
}

impl ArenaChunk<u8> {
    /// Makes a chunk of `cap` bytes, all zero.
    pub(crate) fn zeroed(cap: usize) -> (chunk: Self)
        requires
            cap <= isize::MAX,
        ensures
            chunk.capacity_spec() == cap,
            chunk.values() == zeros(cap as nat),
            chunk.filled_spec() == 0,
    {
        let chunk = Self { mem: vec![0u8; cap], capacity: cap, filled: 0 };
        assert(chunk.mem@ =~= zeros(cap as nat));
        chunk
    }
}

} // verus!
