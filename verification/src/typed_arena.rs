//! A [TypedArena] holds many values of a single type, each in a slot of its own.
use vstd::prelude::*;
use vstd::layout::{size_of, layout_for_type_is_valid};
use crate::chunk::{ArenaAddress, ArenaChunk, ArenaSlice, chunk_end, disjoint};
use crate::constants::{MAX_CHUNK, MIN_CHUNK};

verus! {

/// The number of bytes a slot of `T` is counted as when sizing chunks: the size of `T`, or
/// 1 for zero-sized types.
pub open spec fn slot_size<T>() -> nat {
    if size_of::<T>() == 0 {
        1
    } else {
        size_of::<T>()
    }
}

/// The capacity (in slots of `slot` bytes) of the chunk that growth adds after a chunk of
/// `last` slots (none if `last` is `None`) for a request of `len` slots: double the last
/// one while it is under [MAX_CHUNK] bytes, starting from [MIN_CHUNK] bytes, and never
/// less than `len`.
pub open spec fn typed_next_capacity(last: Option<usize>, len: usize, slot: nat) -> usize {
    let base: int = match last {
        Some(c) => (if c < MAX_CHUNK as nat / slot { c as int } else { (MAX_CHUNK as nat / slot) as int }) * 2,
        None => (MIN_CHUNK as nat / slot) as int,
    };
    if base < len {
        len
    } else {
        base as usize
    }
}

/// An arena that holds values of type `T`. They are dropped together when the arena is.
///
/// Values go into the next free slot of the newest chunk; when it has too few free slots
/// the arena adds a larger chunk. A value's slot never changes, and the value stays in
/// it, for the lifetime of the arena.
pub struct TypedArena<T> {
    chunks: Vec<ArenaChunk<T>>,
    head: usize,
    tail: usize,
}

impl<T> TypedArena<T> {
    /// The values in every chunk, oldest chunk first.
    pub closed spec fn values(&self) -> Seq<Seq<T>> {
        Seq::new(self.chunks@.len(), |i: int| self.chunks@[i].values())
    }

    /// The capacity of every chunk, in slots, oldest first.
    pub closed spec fn capacities(&self) -> Seq<usize> {
        Seq::new(self.chunks@.len(), |i: int| self.chunks@[i].capacity_spec())
    }

    /// The number of slots recorded as initialised in every chunk, oldest first.
    pub closed spec fn filled_counts(&self) -> Seq<usize> {
        Seq::new(self.chunks@.len(), |i: int| self.chunks@[i].filled_spec())
    }

    /// The capacity of the newest chunk, if any.
    pub open spec fn last_capacity(&self) -> Option<usize> {
        if self.capacities().len() == 0 {
            None
        } else {
            Some(self.capacities().last())
        }
    }

    /// The filled counts once growth has recorded how many values the newest chunk holds
    /// and added a chunk with none.
    pub open spec fn filled_after_growth(&self) -> Seq<usize> {
        if self.values().len() > 0 {
            self.filled_counts().update(
                self.values().len() - 1,
                self.values().last().len() as usize,
            ).push(0)
        } else {
            seq![0usize]
        }
    }

    /// The newest chunk has `n` free slots.
    pub open spec fn has_room(&self, n: nat) -> bool {
        &&& self.values().len() > 0
        &&& self.values().last().len() + n <= chunk_end::<T>(self.capacities().last())
    }

    /// `s` names slots that hold values.
    pub open spec fn holds(&self, s: ArenaSlice) -> bool {
        &&& s.start.chunk < self.values().len()
        &&& s.start.offset + s.len <= self.values()[s.start.chunk as int].len()
    }

    /// The values in the run `s`.
    pub open spec fn values_of(&self, s: ArenaSlice) -> Seq<T> {
        self.values()[s.start.chunk as int].subrange(s.start.offset as int, s.start.offset + s.len)
    }

    /// Every value `earlier` held is still held here, in the same slot.
    pub open spec fn keeps(&self, earlier: Self) -> bool {
        &&& earlier.values().len() <= self.values().len()
        &&& forall|i: int|
            0 <= i < earlier.values().len() ==> (#[trigger] earlier.values()[i]).is_prefix_of(
                self.values()[i],
            )
    }

    /// `self` is `earlier` after the run `items` was put at `start`: in the free slots of
    /// the newest chunk if they were enough, else at the start of a chunk that growth for
    /// `items.len()` slots added.
    pub open spec fn placed_run(&self, earlier: Self, items: Seq<T>, start: ArenaAddress) -> bool {
        if earlier.has_room(items.len()) {
            &&& self.capacities() == earlier.capacities()
            &&& self.filled_counts() == earlier.filled_counts()
            &&& self.values() == earlier.values().update(
                earlier.values().len() - 1,
                earlier.values().last() + items,
            )
            &&& start == (ArenaAddress {
                chunk: (earlier.values().len() - 1) as usize,
                offset: earlier.values().last().len() as usize,
            })
        } else {
            &&& self.capacities() == earlier.capacities().push(
                typed_next_capacity(earlier.last_capacity(), items.len() as usize, slot_size::<T>()),
            )
            &&& self.filled_counts() == earlier.filled_after_growth()
            &&& self.values() == earlier.values().push(items)
            &&& start == (ArenaAddress { chunk: earlier.values().len() as usize, offset: 0 })
        }
    }

    /// The arena's internal invariant.
    pub closed spec fn wf(&self) -> bool {
        &&& self.chunks@.len() == 0 ==> self.head == 0 && self.tail == 0
        &&& self.chunks@.len() > 0 ==> {
            let last = self.chunks@.last();
            &&& self.head == last.values().len()
            &&& self.head <= self.tail
            &&& self.tail == chunk_end::<T>(last.capacity_spec())
        }
        &&& forall|i: int|
            0 <= i < self.chunks@.len() ==> (#[trigger] self.chunks@[i]).values().len()
                <= chunk_end::<T>(self.chunks@[i].capacity_spec())
        &&& forall|i: int|
            0 <= i < self.chunks@.len() - 1 ==> (#[trigger] self.chunks@[i]).filled_spec()
                == self.chunks@[i].values().len()
    }

    /// The view agrees with the chunks, and the head and tail are the filled length and
    /// the end of the newest chunk.
    proof fn lemma_view(&self)
        requires
            self.wf(),
        ensures
            self.values().len() == self.chunks@.len() <= usize::MAX,
            self.capacities().len() == self.chunks@.len(),
            self.chunks@.len() > 0 ==> {
                &&& self.head == self.values().last().len()
                &&& self.tail == chunk_end::<T>(self.capacities().last())
                &&& self.head <= self.tail
            },
            self.chunks@.len() == 0 ==> self.head == 0 && self.tail == 0,
            self.has_room(1) <==> self.head != self.tail,
    {
        assert(self.chunks.len() == self.chunks@.len());
        if self.chunks@.len() > 0 {
            assert(self.values().last() == self.chunks@.last().values());
            assert(self.capacities().last() == self.chunks@.last().capacity_spec());
        }
    }

    /// Makes an empty arena.
    pub fn new() -> (arena: Self)
        ensures
            arena.wf(),
            arena.values() == Seq::<Seq<T>>::empty(),
            arena.capacities() == Seq::<usize>::empty(),
    {
        let arena = Self { chunks: Vec::new(), head: 0, tail: 0 };
        assert(arena.values() =~= Seq::<Seq<T>>::empty());
        assert(arena.capacities() =~= Seq::<usize>::empty());
        arena
    }

    /// The number of values held in `chunk`, counted from its start to the head, where
    /// `chunk` is the newest chunk.
    fn get_filled_of_chunk(&self, chunk: &ArenaChunk<T>) -> (filled: usize)
        requires
            self.wf(),
            self.chunks@.len() > 0,
            *chunk == self.chunks@.last(),
        ensures
            filled == chunk.values().len(),
    {
        let head = chunk.start();
        self.head - head
    }

    /// Whether the newest chunk has `len` free slots.
    fn can_allocate(&self, len: usize) -> (can: bool)
        requires
            self.wf(),
        ensures
            can == (self.has_room(len as nat) || (self.values().len() == 0 && len == 0)),
    {
        proof {
            if self.chunks@.len() > 0 {
                assert(self.values().last() == self.chunks@.last().values());
                assert(self.capacities().last() == self.chunks@.last().capacity_spec());
            }
        }
        len <= self.tail - self.head
    }

    /// Adds a chunk of [typed_next_capacity] slots and makes it the one to fill, recording
    /// how many slots of the previous one were filled.
    fn grow(&mut self, len: usize)
        requires
            old(self).wf(),
            len * size_of::<T>() <= isize::MAX,
        ensures
            final(self).wf(),
            final(self).values() == old(self).values().push(Seq::<T>::empty()),
            final(self).capacities() == old(self).capacities().push(
                typed_next_capacity(old(self).last_capacity(), len, slot_size::<T>()),
            ),
            final(self).filled_counts() == old(self).filled_after_growth(),
    {
        let ty_size = core::mem::size_of::<T>();
        let size = if ty_size < 1 { 1 } else { ty_size };
        let base = if self.chunks.len() > 0 {
            let filled = self.get_filled_of_chunk(&self.chunks[self.chunks.len() - 1]);
            let mut last = self.chunks.pop().unwrap();
            last.set_filled(filled);
            let cap = last.capacity();
            self.chunks.push(last);
            (if cap < MAX_CHUNK / size { cap } else { MAX_CHUNK / size }) * 2
        } else {
            MIN_CHUNK / size
        };
        let capacity = if base < len { len } else { base };
        proof {
            let t = size_of::<T>() as int;
            assert(t <= size);
            assert(base <= 2 * (MAX_CHUNK / size)) by {
                assert(MIN_CHUNK / size <= MAX_CHUNK / size) by (nonlinear_arith)
                    requires
                        size > 0,
                ;
            }
            assert((MAX_CHUNK / size) * size <= MAX_CHUNK) by (nonlinear_arith)
                requires
                    size > 0,
            ;
            assert(base * t <= 2 * MAX_CHUNK) by (nonlinear_arith)
                requires
                    0 <= t <= size,
                    0 <= base <= 2 * (MAX_CHUNK / size),
                    (MAX_CHUNK / size) * size <= MAX_CHUNK,
            ;
        }
        let chunk = ArenaChunk::new(capacity);
        self.head = chunk.start();
        self.tail = chunk.end();
        self.chunks.push(chunk);
    }

    /// Puts `value` in the next free slot, growing the arena first when the newest chunk is
    /// full, and names the slot.
    pub fn alloc_value(&mut self, value: T) -> (addr: ArenaAddress)
        requires
            old(self).wf(),
        ensures
            final(self).wf(),
            if old(self).has_room(1) {
                &&& final(self).capacities() == old(self).capacities()
                &&& final(self).filled_counts() == old(self).filled_counts()
                &&& final(self).values() == old(self).values().update(
                    old(self).values().len() - 1,
                    old(self).values().last().push(value),
                )
                &&& addr == (ArenaAddress {
                    chunk: (old(self).values().len() - 1) as usize,
                    offset: old(self).values().last().len() as usize,
                })
            } else {
                &&& final(self).capacities() == old(self).capacities().push(
                    typed_next_capacity(old(self).last_capacity(), 1, slot_size::<T>()),
                )
                &&& final(self).filled_counts() == old(self).filled_after_growth()
                &&& final(self).values() == old(self).values().push(seq![value])
                &&& addr == (ArenaAddress { chunk: old(self).values().len() as usize, offset: 0 })
            },
            final(self).holds((ArenaSlice { start: addr, len: 1 })),
            final(self).keeps(*old(self)),
            final(self).placed_run(*old(self), seq![value], addr),
            run_goes(*old(self), *final(self), 1, addr),
            final(self).values()[addr.chunk as int][addr.offset as int] == value,
    {
        layout_for_type_is_valid::<T>();
        proof {
            self.lemma_view();
        }
        if self.head == self.tail {
            self.grow(1);
        }
        proof {
            self.lemma_view();
        }
        let ghost before = *self;
        let out = self.head;
        let mut last = self.chunks.pop().unwrap();
        last.push(value);
        self.chunks.push(last);
        self.head = out + 1;
        proof {
            let n = before.chunks@.len() - 1;
            assert(self.chunks@ == before.chunks@.update(n, last));
            assert(self.values() =~= before.values().update(n, before.values()[n].push(value)));
            assert(self.capacities() =~= before.capacities());
            assert(self.filled_counts() =~= before.filled_counts());
            assert forall|i: int| 0 <= i < self.chunks@.len() implies (#[trigger] self.chunks@[i]).values().len()
                <= chunk_end::<T>(self.chunks@[i].capacity_spec()) by {
                if i != n {
                    assert(self.chunks@[i] == before.chunks@[i]);
                }
            }
            assert forall|i: int| 0 <= i < self.chunks@.len() - 1 implies (#[trigger] self.chunks@[i]).filled_spec()
                == self.chunks@[i].values().len() by {
                assert(self.chunks@[i] == before.chunks@[i]);
            }
            let one = seq![value];
            assert(before.values()[n].push(value) =~= before.values()[n] + one);
            assert(old(self).has_room(one.len()) == old(self).has_room(1));
            if !old(self).has_room(1) {
                assert(before.values()[n] =~= Seq::<T>::empty());
                assert(before.values()[n] + one =~= one);
                assert(self.values() =~= old(self).values().push(one));
            }
            lemma_run_placement(*old(self), *self, one, ArenaAddress { chunk: n as usize, offset: out });
        }
        ArenaAddress { chunk: self.chunks.len() - 1, offset: out }
    }

    /// Moves `items` into the free slots at the head of the newest chunk, which must have
    /// room for them, and names the first.
    fn push_run(&mut self, items: Vec<T>) -> (start: ArenaAddress)
        requires
            old(self).wf(),
            old(self).has_room(items@.len()),
        ensures
            final(self).wf(),
            final(self).capacities() == old(self).capacities(),
            final(self).filled_counts() == old(self).filled_counts(),
            final(self).values() == old(self).values().update(
                old(self).values().len() - 1,
                old(self).values().last() + items@,
            ),
            start == (ArenaAddress {
                chunk: (old(self).values().len() - 1) as usize,
                offset: old(self).values().last().len() as usize,
            }),
    {
        proof {
            self.lemma_view();
        }
        let mut buf = items;
        let len = buf.len();
        let ghost before = *self;
        let start = ArenaAddress { chunk: self.chunks.len() - 1, offset: self.head };
        let mut last = self.chunks.pop().unwrap();
        last.append(&mut buf);
        self.chunks.push(last);
        self.head = self.head + len;
        proof {
            let n = before.chunks@.len() - 1;
            assert(self.chunks@ == before.chunks@.update(n, last));
            assert(self.values() =~= before.values().update(n, before.values()[n] + items@));
            assert(self.capacities() =~= before.capacities());
            assert(self.filled_counts() =~= before.filled_counts());
            assert forall|i: int| 0 <= i < self.chunks@.len() implies (#[trigger] self.chunks@[i]).values().len()
                <= chunk_end::<T>(self.chunks@[i].capacity_spec()) by {
                if i != n {
                    assert(self.chunks@[i] == before.chunks@[i]);
                }
            }
            assert forall|i: int| 0 <= i < self.chunks@.len() - 1 implies (#[trigger] self.chunks@[i]).filled_spec()
                == self.chunks@[i].values().len() by {
                assert(self.chunks@[i] == before.chunks@[i]);
            }
        }
        start
    }

    /// After growth when the newest chunk of `earlier` lacked room for `items` (`mid`), and
    /// [Self::push_run] of them at `start` (`later`), the run is placed as
    /// [Self::placed_run] says and reads back as `items`.
    proof fn lemma_run_placed(earlier: Self, mid: Self, later: Self, items: Seq<T>, start: ArenaAddress)
        requires
            earlier.wf(),
            mid.wf(),
            0 < items.len() <= usize::MAX,
            earlier.has_room(items.len()) ==> mid == earlier,
            !earlier.has_room(items.len()) ==> {
                &&& mid.capacities() == earlier.capacities().push(
                    typed_next_capacity(earlier.last_capacity(), items.len() as usize, slot_size::<T>()),
                )
                &&& mid.filled_counts() == earlier.filled_after_growth()
                &&& mid.values() == earlier.values().push(Seq::<T>::empty())
            },
            later.capacities() == mid.capacities(),
            later.filled_counts() == mid.filled_counts(),
            later.values() == mid.values().update(mid.values().len() - 1, mid.values().last() + items),
            start == (ArenaAddress {
                chunk: (mid.values().len() - 1) as usize,
                offset: mid.values().last().len() as usize,
            }),
        ensures
            later.placed_run(earlier, items, start),
            later.holds((ArenaSlice { start, len: items.len() as usize })),
            later.values_of((ArenaSlice { start, len: items.len() as usize })) == items,
            later.keeps(earlier),
    {
        earlier.lemma_view();
        mid.lemma_view();
        let n = mid.values().len() - 1;
        assert(later.values()[n].subrange(start.offset as int, start.offset + items.len()) =~= items);
        if !earlier.has_room(items.len()) {
            assert(mid.values()[n] + items =~= items);
            assert(later.values() =~= earlier.values().push(items));
        }
    }

    /// Reserves `items.len()` slots at the head of the newest chunk, growing the arena when
    /// it has fewer free slots, moves `items` into them and moves the head past them.
    fn alloc_raw_slice(&mut self, items: Vec<T>) -> (start: ArenaAddress)
        requires
            old(self).wf(),
            size_of::<T>() != 0,
            items@.len() != 0,
            items@.len() * size_of::<T>() <= isize::MAX,
        ensures
            final(self).wf(),
            final(self).placed_run(*old(self), items@, start),
            final(self).holds((ArenaSlice { start, len: items@.len() as usize })),
            final(self).values_of((ArenaSlice { start, len: items@.len() as usize })) == items@,
            final(self).keeps(*old(self)),
    {
        let len = items.len();
        if !self.can_allocate(len) {
            self.grow(len);
        }
        let ghost mid = *self;
        let start = self.push_run(items);
        proof {
            Self::lemma_run_placed(*old(self), mid, *self, items@, start);
        }
        start
    }

    /// Moves all of `items` into consecutive slots of one chunk, growing the arena first
    /// when the newest chunk has too few free slots, and names them. Nothing is allocated
    /// for no items.
    pub fn alloc_from_iter(&mut self, items: Vec<T>) -> (run: ArenaSlice)
        requires
            old(self).wf(),
            items@.len() * size_of::<T>() <= isize::MAX,
        ensures
            final(self).wf(),
            run.len == items@.len(),
            final(self).keeps(*old(self)),
            items@.len() == 0 ==> *final(self) == *old(self),
            items@.len() > 0 ==> {
                &&& final(self).placed_run(*old(self), items@, run.start)
                &&& run_goes(*old(self), *final(self), items@.len(), run.start)
                &&& final(self).holds(run)
                &&& final(self).values_of(run) == items@
            },
    {
        let len = items.len();
        if len == 0 {
            return ArenaSlice { start: ArenaAddress { chunk: 0, offset: 0 }, len: 0 };
        }
        let start = if core::mem::size_of::<T>() == 0 {
            // zero-sized values take no room, and the newest chunk of them never fills;
            // they still need a chunk to be held in
            if !self.can_allocate(len) {
                self.grow(len);
            }
            let ghost mid = *self;
            let start = self.push_run(items);
            proof {
                Self::lemma_run_placed(*old(self), mid, *self, items@, start);
            }
            start
        } else {
            self.alloc_raw_slice(items)
        };
        proof {
            lemma_run_placement(*old(self), *self, items@, start);
        }
        ArenaSlice { start, len }
    }

    /// The value in slot `addr`.
    pub fn get(&self, addr: ArenaAddress) -> (value: &T)
        requires
            self.holds((ArenaSlice { start: addr, len: 1 })),
        ensures
            *value == self.values()[addr.chunk as int][addr.offset as int],
    {
        &self.chunks[addr.chunk].as_slice()[addr.offset]
    }

    /// The values in the run `s`.
    pub fn get_slice(&self, s: ArenaSlice) -> (values: &[T])
        requires
            self.holds(s),
        ensures
            values@ == self.values_of(s),
    {
        let values = self.chunks[s.start.chunk].as_slice();
        assert(values@.len() == values.len());
        vstd::slice::slice_subrange(values, s.start.offset, s.start.offset + s.len)
    }

    /// Replaces the value in slot `addr` with `value`.
    pub fn set(&mut self, addr: ArenaAddress, value: T)
        requires
            old(self).wf(),
            old(self).holds((ArenaSlice { start: addr, len: 1 })),
        ensures
            final(self).wf(),
            final(self).capacities() == old(self).capacities(),
            final(self).filled_counts() == old(self).filled_counts(),
            final(self).values() == old(self).values().update(
                addr.chunk as int,
                old(self).values()[addr.chunk as int].update(addr.offset as int, value),
            ),
    {
        let ghost before = *self;
        self.chunks[addr.chunk].write(addr.offset, value);
        proof {
            let n = addr.chunk as int;
            assert(self.values() =~= before.values().update(n, before.values()[n].update(addr.offset as int, value)));
            assert(self.capacities() =~= before.capacities());
            assert(self.filled_counts() =~= before.filled_counts());
            assert forall|i: int| 0 <= i < self.chunks@.len() implies (#[trigger] self.chunks@[i]).values().len()
                <= chunk_end::<T>(self.chunks@[i].capacity_spec()) by {
                if i != n {
                    assert(self.chunks@[i] == before.chunks@[i]);
                }
            }
            assert forall|i: int| 0 <= i < self.chunks@.len() - 1 implies (#[trigger] self.chunks@[i]).filled_spec()
                == self.chunks@[i].values().len() by {
                if i != n {
                    assert(self.chunks@[i] == before.chunks@[i]);
                }
            }
        }
    }

    /// The number of chunks.
    pub fn chunk_count(&self) -> (count: usize)
        ensures
            count == self.values().len(),
    {
        self.chunks.len()
    }

    /// The capacity of chunk `index`, in slots.
    pub fn chunk_capacity(&self, index: usize) -> (capacity: usize)
        requires
            index < self.capacities().len(),
        ensures
            capacity == self.capacities()[index as int],
    {
        self.chunks[index].capacity()
    }
}

impl<T> Default for TypedArena<T> {
    fn default() -> (arena: Self)
        ensures
            arena.wf(),
            arena.values() == Seq::<Seq<T>>::empty(),
            arena.capacities() == Seq::<usize>::empty(),
    {
        Self::new()
    }
}

/// A run held before is held after, with the same values: over any sequence of
/// allocations a value never moves or changes.
pub proof fn lemma_keeps_values<T>(earlier: TypedArena<T>, later: TypedArena<T>, s: ArenaSlice)
    requires
        later.keeps(earlier),
        earlier.holds(s),
    ensures
        later.holds(s),
        later.values_of(s) == earlier.values_of(s),
{
    let c = s.start.chunk as int;
    assert(earlier.values()[c].is_prefix_of(later.values()[c]));
    assert(later.values_of(s) =~= earlier.values_of(s));
}

/// Keeping is transitive.
pub proof fn lemma_keeps_transitive<T>(first: TypedArena<T>, second: TypedArena<T>, third: TypedArena<T>)
    requires
        second.keeps(first),
        third.keeps(second),
    ensures
        third.keeps(first),
{
    assert forall|i: int| 0 <= i < first.values().len() implies (#[trigger] first.values()[i]).is_prefix_of(
        third.values()[i],
    ) by {
        assert(first.values()[i].is_prefix_of(second.values()[i]));
        assert(second.values()[i].is_prefix_of(third.values()[i]));
    }
}

/// A run placed by [TypedArena::alloc_from_iter] or [TypedArena::alloc_value] shares no
/// slot with any run held before: values go only into slots nobody held.
pub proof fn lemma_new_run_apart<T>(
    earlier: TypedArena<T>,
    later: TypedArena<T>,
    items: Seq<T>,
    start: ArenaAddress,
    held: ArenaSlice,
)
    requires
        earlier.wf(),
        later.placed_run(earlier, items, start),
        earlier.holds(held),
    ensures
        disjoint((ArenaSlice { start, len: items.len() as usize }), held),
{
    earlier.lemma_view();
}

/// How big a chunk growth adds, in slots of `slot` bytes, for a request of `len` slots:
/// never fewer than `len`; the first chunk fills [MIN_CHUNK] bytes as far as whole slots
/// go; a later one has at least twice the slots of the last while the last was under
/// [MAX_CHUNK] bytes, and never more than twice them unless the request needs more.
pub proof fn lemma_typed_growth(last: Option<usize>, len: usize, slot: nat)
    requires
        slot > 0,
        len > 0,
    ensures
        typed_next_capacity(last, len, slot) >= len,
        last is None ==> (typed_next_capacity(last, len, slot) + 1) * slot > MIN_CHUNK,
        last is None ==> typed_next_capacity(last, len, slot) * slot <= MIN_CHUNK
            || typed_next_capacity(last, len, slot) == len,
        last is Some && last->0 * slot < MAX_CHUNK ==> typed_next_capacity(last, len, slot)
            >= 2 * last->0,
        last is Some ==> typed_next_capacity(last, len, slot) <= 2 * last->0
            || typed_next_capacity(last, len, slot) == len,
        last is Some ==> typed_next_capacity(last, len, slot) * slot <= 2 * MAX_CHUNK
            || typed_next_capacity(last, len, slot) == len,
{
    let c = typed_next_capacity(last, len, slot) as int;
    let s = slot as int;
    let min_slots = MIN_CHUNK as int / s;
    let max_slots = MAX_CHUNK as int / s;
    assert(min_slots * s <= MIN_CHUNK && (min_slots + 1) * s > MIN_CHUNK) by (nonlinear_arith)
        requires
            s > 0,
            min_slots == MIN_CHUNK as int / s,
    ;
    assert(max_slots * s <= MAX_CHUNK && (max_slots + 1) * s > MAX_CHUNK) by (nonlinear_arith)
        requires
            s > 0,
            max_slots == MAX_CHUNK as int / s,
    ;
    match last {
        None => {
            if c != len {
                assert(c == min_slots);
            } else {
                assert((len + 1) * s > MIN_CHUNK) by (nonlinear_arith)
                    requires
                        len >= min_slots,
                        (min_slots + 1) * s > MIN_CHUNK,
                        s > 0,
                ;
            }
        },
        Some(p) => {
            let p = p as int;
            if p * s < MAX_CHUNK {
                assert(p <= max_slots) by (nonlinear_arith)
                    requires
                        p * s < MAX_CHUNK,
                        (max_slots + 1) * s > MAX_CHUNK,
                        s > 0,
                        p >= 0,
                ;
            }
            if c != len {
                let base = if p < max_slots { p } else { max_slots };
                assert(c == 2 * base);
                assert(c * s <= 2 * MAX_CHUNK) by (nonlinear_arith)
                    requires
                        c == 2 * base,
                        0 <= base <= max_slots,
                        max_slots * s <= MAX_CHUNK,
                        s > 0,
                ;
            }
        },
    }
}

/// Where a run of `n` values went, from `earlier` to `later`, starting at `start`: into the
/// newest chunk, right after the values it held, exactly when they and the run fit its
/// slots; otherwise at the start of one new chunk that has room for the run, at least twice
/// the slots of the last while that was under [MAX_CHUNK] bytes, no more than twice them
/// unless the run needs more, and, as a first chunk, as many slots as fill [MIN_CHUNK]
/// bytes or the run.
pub open spec fn run_goes<T>(earlier: TypedArena<T>, later: TypedArena<T>, n: nat, start: ArenaAddress) -> bool {
    let held = earlier.values().len();
    let fits = held > 0 && earlier.values().last().len() + n <= chunk_end::<T>(
        earlier.capacities().last(),
    );
    &&& fits ==> {
        &&& later.values().len() == held
        &&& later.capacities() == earlier.capacities()
        &&& start == (ArenaAddress {
            chunk: (held - 1) as usize,
            offset: earlier.values().last().len() as usize,
        })
    }
    &&& !fits ==> {
        let c = later.capacities().last();
        &&& later.values().len() == held + 1
        &&& later.capacities().len() == held + 1
        &&& later.capacities().take(held as int) == earlier.capacities()
        &&& start == (ArenaAddress { chunk: held as usize, offset: 0 })
        &&& c >= n
        &&& held > 0 && earlier.capacities().last() * slot_size::<T>() < MAX_CHUNK ==> c >= 2
            * earlier.capacities().last()
        &&& held > 0 ==> c <= 2 * earlier.capacities().last() || c == n
        &&& held == 0 ==> (c + 1) * slot_size::<T>() > MIN_CHUNK
        &&& held == 0 ==> c * slot_size::<T>() <= MIN_CHUNK || c == n
    }
}

/// Where a run goes: into the newest chunk, right after the values it holds, exactly when
/// they and the run fit its slots; otherwise at the start of one new chunk, which has room
/// for the run and grows from the last as [lemma_typed_growth] says.
pub proof fn lemma_run_placement<T>(earlier: TypedArena<T>, later: TypedArena<T>, items: Seq<T>, start: ArenaAddress)
    requires
        earlier.wf(),
        later.placed_run(earlier, items, start),
        0 < items.len() <= usize::MAX,
    ensures
        run_goes(earlier, later, items.len(), start),
{
    earlier.lemma_view();
    if !earlier.has_room(items.len()) {
        lemma_typed_growth(earlier.last_capacity(), items.len() as usize, slot_size::<T>());
        assert(later.capacities().take(earlier.values().len() as int) =~= earlier.capacities());
    }
}

} // verus!
