//! A [DroplessArena] holds bytes of any layout, handed out by bumping downwards through
//! chunks of growing size.
use vstd::prelude::*;
use crate::chunk::{ArenaAddress, ArenaChunk, ArenaSlice, disjoint, zeros};
use crate::constants::{MAX_CHUNK, MIN_CHUNK};
use crate::layout::{Layout, align_down_spec, align_up_spec, lemma_align_down, lemma_align_up};
use vstd::arithmetic::power2::is_pow2;
use vstd::layout::valid_layout;
use vstd::utf8::valid_utf8;
use vstd::string::StringSliceAdditionalSpecFns;

verus! {

broadcast use vstd::layout::layout_of_primitives;

/// The capacity of the chunk that growth adds after a chunk of `last` bytes (none if
/// `last` is `None`), for a request of `len` bytes: double the last one, up to
/// [MAX_CHUNK], starting from [MIN_CHUNK], and never less than `len`.
pub open spec fn next_chunk_capacity(last: Option<usize>, len: usize) -> usize {
    let doubled: int = match last {
        Some(c) => if c < MAX_CHUNK / 2 { 2 * c } else { MAX_CHUNK as int },
        None => MIN_CHUNK as int,
    };
    if doubled < len { len } else { doubled as usize }
}

/// The alignment that requests are rounded to: at least 8.
pub open spec fn reservation_align(align: usize) -> usize {
    if align < 8 { 8 } else { align }
}

/// The number of bytes reserved for a request of `size` bytes aligned to `align`.
pub open spec fn reserved_bytes(size: usize, align: usize) -> usize {
    align_up_spec(size, reservation_align(align))
}

/// The largest chunk that growth reaches for a request of `size` bytes.
pub open spec fn growth_limit(size: usize) -> usize {
    if size < MAX_CHUNK { MAX_CHUNK } else { size }
}

/// The length that growth is asked for while serving a request of `size` bytes that
/// reserves `bytes`: the size itself while doubling can still reach a chunk that holds the
/// reservation, and the reservation itself when it cannot.
pub open spec fn growth_request(size: usize, bytes: usize) -> usize {
    if bytes <= growth_limit(size) { size } else { bytes }
}

/// `added` are chunks that repeated growth for requests of `size` bytes adds after a chunk
/// of `last` bytes: each is zeroed and has the capacity [next_chunk_capacity] gives after
/// its predecessor.
#[verifier::opaque]
pub open spec fn growth_chain(last: Option<usize>, added: Seq<Seq<u8>>, size: usize) -> bool {
    forall|j: int|
        0 <= j < added.len() ==> {
            let prev = if j == 0 {
                last
            } else {
                Some(added[j - 1].len() as usize)
            };
            #[trigger] added[j] == zeros(next_chunk_capacity(prev, size) as nat)
        }
}

/// A growth chain extended by the chunk that growth adds next is a growth chain.
pub proof fn lemma_chain_push(last: Option<usize>, added: Seq<Seq<u8>>, size: usize)
    requires
        growth_chain(last, added, size),
    ensures
        growth_chain(
            last,
            added.push(
                zeros(
                    next_chunk_capacity(
                        if added.len() == 0 {
                            last
                        } else {
                            Some(added.last().len() as usize)
                        },
                        size,
                    ) as nat,
                ),
            ),
            size,
        ),
{
    reveal(growth_chain);
    let prev = if added.len() == 0 { last } else { Some(added.last().len() as usize) };
    let longer = added.push(zeros(next_chunk_capacity(prev, size) as nat));
    assert forall|j: int| 0 <= j < longer.len() implies {
        let p = if j == 0 { last } else { Some(longer[j - 1].len() as usize) };
        #[trigger] longer[j] == zeros(next_chunk_capacity(p, size) as nat)
    } by {
        if j < added.len() {
            assert(longer[j] == added[j]);
            if j > 0 {
                assert(longer[j - 1] == added[j - 1]);
            }
        }
    }
}

/// Chunk `k` of a growth chain has the capacity that growth gives after its predecessor.
proof fn lemma_chain_at(last: Option<usize>, added: Seq<Seq<u8>>, size: usize, k: int)
    requires
        growth_chain(last, added, size),
        0 <= k < added.len(),
    ensures
        added[k].len() == next_chunk_capacity(
            if k == 0 {
                last
            } else {
                Some(added[k - 1].len() as usize)
            },
            size,
        ),
{
    reveal(growth_chain);
    let prev = if k == 0 { last } else { Some(added[k - 1].len() as usize) };
    assert(added[k] == zeros(next_chunk_capacity(prev, size) as nat));
}

/// `added` are the chunks that growth for a request of `size` bytes adds after a chunk of
/// `last` bytes until one of them holds `bytes`.
pub open spec fn grown_chunks(last: Option<usize>, added: Seq<Seq<u8>>, size: usize, bytes: usize) -> bool {
    &&& added.len() > 0
    &&& growth_chain(last, added, size)
    &&& forall|j: int| 0 <= j < added.len() - 1 ==> #[trigger] added[j].len() < bytes
    &&& added.last().len() >= bytes
}

/// The chunks `new` of an arena after a request of `size` bytes aligned to `align`,
/// before anything is written, where `old` were its chunks and `old_tail` the end of the
/// free part of the newest: unchanged if the reservation fits below `old_tail`, else
/// extended by the chunks that growth for [growth_request] adds until one holds it.
pub open spec fn chunks_after_request(
    old: Seq<Seq<u8>>,
    old_tail: usize,
    size: usize,
    align: usize,
    new: Seq<Seq<u8>>,
) -> bool {
    let bytes = reserved_bytes(size, align);
    if bytes <= old_tail {
        new == old
    } else {
        &&& new.len() > old.len()
        &&& new.take(old.len() as int) == old
        &&& grown_chunks(
            last_len(old),
            new.skip(old.len() as int),
            growth_request(size, bytes),
            bytes,
        )
    }
}

/// Where a request of `size` bytes aligned to `align` is placed in the chunks `new` (see
/// [chunks_after_request]): in the newest chunk, the reservation ending at `old_tail` if it
/// fits there and at the end of the chunk otherwise, its start rounded down to `align`.
pub open spec fn request_address(old_tail: usize, size: usize, align: usize, new: Seq<Seq<u8>>) -> ArenaAddress {
    let bytes = reserved_bytes(size, align);
    let top: int = if bytes <= old_tail { old_tail as int } else { new.last().len() as int };
    ArenaAddress {
        chunk: (new.len() - 1) as usize,
        offset: align_down_spec((top - bytes) as usize, align),
    }
}

/// The capacity of the newest of `chunks`, if any.
pub open spec fn last_len(chunks: Seq<Seq<u8>>) -> Option<usize> {
    if chunks.len() == 0 { None } else { Some(chunks.last().len() as usize) }
}

/// While serving a request of `size` bytes that reserves `bytes`, an arena has gone from
/// chunks `old` with free part ending at `old_tail` to `chunks` ending at `tail`: the old
/// chunks untouched, and the chunks added so far are the growth chain, all but the newest
/// too small, the newest untouched.
spec fn growing(
    old: Seq<Seq<u8>>,
    old_tail: usize,
    chunks: Seq<Seq<u8>>,
    tail: usize,
    size: usize,
    bytes: usize,
) -> bool {
    let old_len = old.len();
    let added = chunks.skip(old_len as int);
    &&& chunks.len() >= old_len
    &&& chunks.take(old_len as int) == old
    &&& chunks.len() == old_len ==> tail == old_tail
    &&& chunks.len() > old_len ==> {
        &&& old_tail < bytes
        &&& tail == chunks.last().len()
        &&& growth_chain(last_len(old), added, size)
        &&& forall|j: int| 0 <= j < added.len() - 1 ==> #[trigger] added[j].len() < bytes
    }
}

/// What is left to grow through before a request of `size` bytes can fit: twice the
/// distance of the newest chunk's capacity from [growth_limit], plus one unless that
/// chunk is untouched.
spec fn growth_measure(chunks: Seq<Seq<u8>>, tail: usize, size: usize) -> int {
    let limit = growth_limit(size) as int;
    let cap: int = if chunks.len() == 0 { 0 } else { chunks.last().len() as int };
    let capped = if cap < limit { cap } else { limit };
    2 * (limit + 1 - capped) + if chunks.len() > 0 && tail == cap { 0int } else { 1int }
}

/// Growth brings the newest chunk closer to the size that holds a request that did not fit.
proof fn lemma_growth_measure(chunks: Seq<Seq<u8>>, tail: usize, size: usize, bytes: usize)
    requires
        0 < size <= bytes <= growth_limit(size),
        tail < bytes,
        chunks.len() > 0 ==> tail <= chunks.last().len() <= usize::MAX,
    ensures
        ({
            let c = next_chunk_capacity(last_len(chunks), size);
            growth_measure(chunks.push(zeros(c as nat)), c, size) < growth_measure(chunks, tail, size)
        }),
{
    let limit = growth_limit(size) as int;
    let c_new = next_chunk_capacity(last_len(chunks), size) as int;
    assert(size <= c_new <= limit);
    if chunks.len() > 0 {
        let c = chunks.last().len() as int;
        assert(last_len(chunks) == Some(c as usize));
        if tail == c {
            assert(c < bytes);
            assert(c_new > c);
        } else {
            assert(c_new >= (if c < limit { c } else { limit }));
        }
    }
}

/// One growth step keeps [growing] and brings the newest chunk closer to the size that
/// holds the request.
proof fn lemma_growth_step(
    old: Seq<Seq<u8>>,
    old_tail: usize,
    chunks: Seq<Seq<u8>>,
    tail: usize,
    size: usize,
    bytes: usize,
)
    requires
        0 < size <= bytes <= growth_limit(size),
        growing(old, old_tail, chunks, tail, size, bytes),
        tail < bytes,
        chunks.len() > 0 ==> tail <= chunks.last().len() <= usize::MAX,
    ensures
        ({
            let c = next_chunk_capacity(last_len(chunks), size);
            let grown = chunks.push(zeros(c as nat));
            &&& growing(old, old_tail, grown, c, size, bytes)
            &&& growth_measure(grown, c, size) < growth_measure(chunks, tail, size)
        }),
{
    let old_len = old.len();
    let c = next_chunk_capacity(last_len(chunks), size);
    let grown = chunks.push(zeros(c as nat));
    let before_added = chunks.skip(old_len as int);
    let added = grown.skip(old_len as int);
    assert(added =~= before_added.push(zeros(c as nat)));
    assert(grown.take(old_len as int) =~= chunks.take(old_len as int));
    if chunks.len() > old_len {
        assert(last_len(chunks) == Some(before_added.last().len() as usize));
    } else {
        assert(chunks =~= old);
        assert(before_added.len() == 0);
        reveal(growth_chain);
    }
    lemma_chain_push(last_len(old), before_added, size);
    assert forall|j: int| 0 <= j < added.len() - 1 implies #[trigger] added[j].len() < bytes by {
        assert(added[j] == before_added[j]);
    }
    lemma_growth_measure(chunks, tail, size, bytes);
}

/// `s` with `src` written over it from offset `at` on.
pub open spec fn overwrite(s: Seq<u8>, at: int, src: Seq<u8>) -> Seq<u8> {
    Seq::new(s.len(), |i: int| if at <= i < at + src.len() { src[i - at] } else { s[i] })
}

/// Calls `core::str::from_utf8`, which, as its documentation says, succeeds exactly when
/// `bytes` are valid UTF-8 and then gives the string whose encoding they are.
#[verifier::external_body]
fn str_from_utf8(bytes: &[u8]) -> (s: Option<&str>)
    ensures
        s is Some <==> valid_utf8(bytes@),
        s matches Some(text) ==> text.spec_bytes() == bytes@,
{
    core::str::from_utf8(bytes).ok()
}

/// The run of `len` bytes from `start`.
spec fn copy_of(start: ArenaAddress, len: nat) -> ArenaSlice {
    ArenaSlice { start, len: len as usize }
}

/// Rounds `size` up to a multiple of the power of two `align`.
fn align_up(size: usize, align: usize) -> (r: usize)
    requires
        size + align - 1 <= usize::MAX,
        align >= 1,
    ensures
        r == align_up_spec(size, align),
{
    (size + (align - 1)) & !(align - 1)
}

/// Rounds `size` down to a multiple of the power of two `align`.
fn align_down(size: usize, align: usize) -> (r: usize)
    requires
        align >= 1,
    ensures
        r == align_down_spec(size, align),
{
    size & !(align - 1)
}

/// An arena that holds bytes of any layout and never frees them piecemeal.
///
/// Memory comes in chunks. The arena fills the newest chunk from its end downwards; when a
/// request does not fit, it adds a larger chunk. Every location handed out stays valid,
/// and keeps what was written to it, for the lifetime of the arena.
pub struct DroplessArena {
    chunks: Vec<ArenaChunk<u8>>,
    head: usize,
    tail: usize,
    allocations: Ghost<Seq<ArenaSlice>>,
}

impl DroplessArena {
    /// The bytes of every chunk, oldest first.
    pub closed spec fn chunk_bytes(&self) -> Seq<Seq<u8>> {
        Seq::new(self.chunks@.len(), |i: int| self.chunks@[i].values())
    }

    /// The offset below which the newest chunk is still free.
    pub closed spec fn tail_spec(&self) -> usize {
        self.tail
    }

    /// Every run of bytes handed out so far, in order.
    pub closed spec fn allocations(&self) -> Seq<ArenaSlice> {
        self.allocations@
    }

    /// The capacity of the newest chunk, if any.
    pub open spec fn last_capacity(&self) -> Option<usize> {
        last_len(self.chunk_bytes())
    }

    /// `s` lies inside one of the chunks.
    pub open spec fn holds(&self, s: ArenaSlice) -> bool {
        &&& s.start.chunk < self.chunk_bytes().len()
        &&& s.start.offset + s.len <= self.chunk_bytes()[s.start.chunk as int].len()
    }

    /// The bytes of the run `s`.
    pub open spec fn bytes_of(&self, s: ArenaSlice) -> Seq<u8> {
        self.chunk_bytes()[s.start.chunk as int].subrange(
            s.start.offset as int,
            s.start.offset + s.len,
        )
    }

    /// The run `s` is allocated in this arena: it starts inside one of the chunks, or, when
    /// empty, at the end of one.
    pub open spec fn contains(&self, s: ArenaSlice) -> bool {
        &&& s.start.chunk < self.chunk_bytes().len()
        &&& {
            let len = self.chunk_bytes()[s.start.chunk as int].len();
            ||| s.start.offset < len
            ||| s.len == 0 && s.start.offset == len
        }
    }

    /// Every chunk of `earlier` is still here with its length, and everything `earlier`
    /// handed out is still handed out here, in the same order, and still holds the same
    /// bytes.
    pub open spec fn keeps(&self, earlier: Self) -> bool {
        &&& earlier.chunk_bytes().len() <= self.chunk_bytes().len()
        &&& forall|i: int|
            0 <= i < earlier.chunk_bytes().len() ==> (#[trigger] self.chunk_bytes()[i]).len()
                == earlier.chunk_bytes()[i].len()
        &&& earlier.allocations().is_prefix_of(self.allocations())
        &&& forall|k: int|
            0 <= k < earlier.allocations().len() ==> self.bytes_of(
                #[trigger] earlier.allocations()[k],
            ) == earlier.bytes_of(earlier.allocations()[k])
    }

    /// The arena's internal invariant.
    pub closed spec fn wf(&self) -> bool {
        &&& self.head == 0
        &&& self.chunks@.len() == 0 ==> self.tail == 0
        &&& self.chunks@.len() > 0 ==> self.tail <= self.chunks@.last().capacity_spec()
        &&& forall|i: int|
            0 <= i < self.chunks@.len() ==> (#[trigger] self.chunks@[i]).values().len()
                == self.chunks@[i].capacity_spec()
        &&& forall|k: int|
            0 <= k < self.allocations@.len() ==> {
                let a = #[trigger] self.allocations@[k];
                &&& self.holds(a)
                &&& a.len > 0
                &&& a.start.chunk == self.chunks@.len() - 1 ==> a.start.offset >= self.tail
            }
        &&& forall|k: int, l: int|
            0 <= k < l < self.allocations@.len() ==> disjoint(
                #[trigger] self.allocations@[k],
                #[trigger] self.allocations@[l],
            )
    }

    /// Makes an empty arena.
    pub fn new() -> (arena: Self)
        ensures
            arena.wf(),
            arena.chunk_bytes() == Seq::<Seq<u8>>::empty(),
            arena.tail_spec() == 0,
            arena.allocations() == Seq::<ArenaSlice>::empty(),
    {
        let arena = Self {
            chunks: Vec::new(),
            head: 0,
            tail: 0,
            allocations: Ghost(Seq::empty()),
        };
        assert(arena.chunk_bytes() =~= Seq::<Seq<u8>>::empty());
        arena
    }

    /// Adds a chunk of [next_chunk_capacity] bytes and makes it the one to fill.
    fn grow(&mut self, len: usize)
        requires
            old(self).wf(),
            len <= isize::MAX,
        ensures
            final(self).wf(),
            final(self).chunk_bytes() == old(self).chunk_bytes().push(
                zeros(next_chunk_capacity(old(self).last_capacity(), len) as nat),
            ),
            final(self).tail_spec() == next_chunk_capacity(old(self).last_capacity(), len),
            final(self).allocations() == old(self).allocations(),
    {
        let doubled = if self.chunks.len() > 0 {
            let last = self.chunks[self.chunks.len() - 1].capacity();
            (if last < MAX_CHUNK / 2 { last } else { MAX_CHUNK / 2 }) * 2
        } else {
            MIN_CHUNK
        };
        let capacity = if doubled < len { len } else { doubled };
        let chunk = ArenaChunk::zeroed(capacity);
        self.head = chunk.start();
        self.tail = chunk.end();
        self.chunks.push(chunk);
        assert(self.chunk_bytes() =~= old(self).chunk_bytes().push(zeros(capacity as nat)));
    }

    /// The free part of the newest chunk lies inside it.
    proof fn lemma_tail_in_last(&self)
        requires
            self.wf(),
        ensures
            self.chunk_bytes().len() > 0 ==> self.tail_spec() <= self.chunk_bytes().last().len()
                <= usize::MAX,
    {
        if self.chunks@.len() > 0 {
            assert(self.chunk_bytes().last() == self.chunks@.last().values());
        }
    }

    /// Hands out `layout.size()` bytes aligned to `layout.align()` (counted from the start of
    /// their chunk), growing the arena until they fit. Every request of at least one byte is
    /// served.
    ///
    /// The request takes [reserved_bytes] from the end of the free part of the newest chunk,
    /// and the start is then rounded down to the alignment. Growth is asked for the size
    /// while doubling can still reach a chunk that holds the reservation, and for the
    /// reservation itself otherwise ([growth_request]). No chunk may exceed `isize::MAX`
    /// bytes, so neither may the reservation.
    pub fn alloc_raw(&mut self, layout: Layout) -> (addr: ArenaAddress)
        requires
            old(self).wf(),
            layout.size_spec() != 0,
            reserved_bytes(layout.size_spec(), layout.align_spec()) <= isize::MAX,
        ensures
            final(self).wf(),
            chunks_after_request(
                old(self).chunk_bytes(),
                old(self).tail_spec(),
                layout.size_spec(),
                layout.align_spec(),
                final(self).chunk_bytes(),
            ),
            addr == request_address(
                old(self).tail_spec(),
                layout.size_spec(),
                layout.align_spec(),
                final(self).chunk_bytes(),
            ),
            final(self).tail_spec() == addr.offset,
            final(self).allocations() == old(self).allocations().push(
                (ArenaSlice { start: addr, len: layout.size_spec() }),
            ),
            addr.offset % layout.align_spec() == 0,
            final(self).holds((ArenaSlice { start: addr, len: layout.size_spec() })),
            final(self).keeps(*old(self)),
            reserved_bytes(layout.size_spec(), layout.align_spec()) <= old(self).tail_spec() ==> {
                &&& final(self).chunk_bytes().len() == old(self).chunk_bytes().len()
                &&& addr.chunk + 1 == old(self).chunk_bytes().len()
                &&& addr.offset + layout.size_spec() <= old(self).tail_spec()
            },
            reserved_bytes(layout.size_spec(), layout.align_spec()) > old(self).tail_spec() ==> {
                &&& final(self).chunk_bytes().len() > old(self).chunk_bytes().len()
                &&& addr.chunk + 1 == final(self).chunk_bytes().len()
                &&& final(self).chunk_bytes().last().len() >= reserved_bytes(
                    layout.size_spec(),
                    layout.align_spec(),
                )
            },
    {
        let size = layout.size();
        let layout_align = layout.align();
        let align = if 8 < layout_align { layout_align } else { 8 };
        proof {
            let m = isize::MAX as int;
            crate::layout::lemma_mask_is_mod(0, layout_align);
            if layout_align > m {
                vstd::arithmetic::div_mod::lemma_small_mod(m as nat, layout_align as nat);
            }
            assert(layout_align <= m);
            assert(is_pow2(8)) by {
                reveal_with_fuel(is_pow2, 5);
            }
            lemma_align_up(size, align);
        }
        let bytes = align_up(size, align);
        // grow by the size while doubling can still reach the reservation, else by it
        let limit = if size < MAX_CHUNK { MAX_CHUNK } else { size };
        let request = if bytes <= limit { size } else { bytes };
        let ghost old_len = old(self).chunk_bytes().len();
        assert(self.chunk_bytes().take(old_len as int) =~= self.chunk_bytes());
        loop
            invariant
                self.wf(),
                size == layout.size_spec(),
                layout_align == layout.align_spec(),
                is_pow2(layout_align as int),
                layout_align > 0,
                bytes == reserved_bytes(size, layout_align),
                0 < size <= bytes <= isize::MAX,
                request == growth_request(size, bytes),
                0 < request <= bytes <= growth_limit(request),
                growing(
                    old(self).chunk_bytes(),
                    old(self).tail_spec(),
                    self.chunk_bytes(),
                    self.tail_spec(),
                    request,
                    bytes,
                ),
                self.allocations() == old(self).allocations(),
                old(self).wf(),
                old_len == old(self).chunk_bytes().len(),
            decreases growth_measure(self.chunk_bytes(), self.tail_spec(), request),
        {
            let start = self.head;
            let end = self.tail;
            if let Some(end) = end.checked_sub(bytes) {
                let end = align_down(end, layout_align);
                proof {
                    lemma_align_down((self.tail - bytes) as usize, layout_align);
                }
                if start <= end {
                    self.tail = end;
                    let addr = ArenaAddress { chunk: self.chunks.len() - 1, offset: end };
                    self.allocations = Ghost(self.allocations@.push(ArenaSlice { start: addr, len: size }));
                    proof {
                        let new = self.chunk_bytes();
                        assert(new.take(old_len as int) == old(self).chunk_bytes());
                        if new.len() == old_len {
                            assert(new =~= old(self).chunk_bytes());
                        } else {
                            assert(new.skip(old_len as int).last() == new.last());
                        }
                        assert forall|k: int| 0 <= k < old(self).allocations().len() implies
                            self.bytes_of(#[trigger] old(self).allocations()[k])
                                == old(self).bytes_of(old(self).allocations()[k]) by {
                            let c = old(self).allocations()[k].start.chunk as int;
                            assert(c < old_len);
                            assert(new[c] == new.take(old_len as int)[c]);
                        }
                    }
                    return addr;
                }
            }
            let ghost before = *self;
            self.grow(request);
            proof {
                before.lemma_tail_in_last();
                lemma_growth_step(
                    old(self).chunk_bytes(),
                    old(self).tail_spec(),
                    before.chunk_bytes(),
                    before.tail_spec(),
                    request,
                    bytes,
                );
            }
        }
    }

    /// Copies `src` into chunk `at.chunk`, from offset `at.offset` on.
    fn write_bytes(&mut self, at: ArenaAddress, src: &[u8])
        requires
            old(self).wf(),
            at.chunk < old(self).chunk_bytes().len(),
            at.offset + src@.len() <= old(self).chunk_bytes()[at.chunk as int].len(),
        ensures
            final(self).wf(),
            final(self).tail_spec() == old(self).tail_spec(),
            final(self).allocations() == old(self).allocations(),
            final(self).chunk_bytes() == old(self).chunk_bytes().update(
                at.chunk as int,
                overwrite(old(self).chunk_bytes()[at.chunk as int], at.offset as int, src@),
            ),
    {
        let ghost c = at.chunk as int;
        let ghost old_bytes = old(self).chunk_bytes()[c];
        proof {
            assert(old_bytes == self.chunks@[c].values());
        }
        let mut i: usize = 0;
        while i < src.len()
            invariant
                self.wf(),
                c == at.chunk,
                i <= src@.len(),
                at.chunk < self.chunks@.len() == old(self).chunks@.len(),
                at.offset + src@.len() <= old_bytes.len() == self.chunks@[c].capacity_spec(),
                self.tail == old(self).tail,
                self.head == old(self).head,
                self.allocations == old(self).allocations,
                forall|k: int|
                    0 <= k < self.chunks@.len() && k != c ==> #[trigger] self.chunks@[k]
                        == old(self).chunks@[k],
                self.chunks@[c].values().len() == old_bytes.len(),
                forall|j: int|
                    0 <= j < old_bytes.len() ==> #[trigger] self.chunks@[c].values()[j] == if at.offset
                        <= j < at.offset + i {
                        src@[j - at.offset]
                    } else {
                        old_bytes[j]
                    },
            decreases src@.len() - i,
        {
            let ghost before = *self;
            self.chunks[at.chunk].write(at.offset + i, src[i]);
            proof {
                assert forall|k: int| 0 <= k < self.chunks@.len() && k != c implies #[trigger] self.chunks@[k]
                    == old(self).chunks@[k] by {
                    assert(self.chunks@[k] == before.chunks@[k]);
                }
                assert forall|k: int| 0 <= k < self.chunks@.len() implies (#[trigger] self.chunks@[k]).values().len()
                    == self.chunks@[k].capacity_spec() by {
                    if k != c {
                        assert(self.chunks@[k] == before.chunks@[k]);
                    }
                }
                assert(self.chunk_bytes() =~= before.chunk_bytes().update(c, self.chunks@[c].values()));
            }
            i = i + 1;
        }
        assert(self.chunks@[c].values() =~= overwrite(old_bytes, at.offset as int, src@));
        assert(self.chunk_bytes() =~= old(self).chunk_bytes().update(
            c,
            overwrite(old_bytes, at.offset as int, src@),
        ));
    }

    /// Writes `src` over the run `s`.
    pub fn set_bytes(&mut self, s: ArenaSlice, src: &[u8])
        requires
            old(self).wf(),
            old(self).holds(s),
            src@.len() == s.len,
        ensures
            final(self).wf(),
            final(self).tail_spec() == old(self).tail_spec(),
            final(self).allocations() == old(self).allocations(),
            final(self).chunk_bytes() == old(self).chunk_bytes().update(
                s.start.chunk as int,
                overwrite(old(self).chunk_bytes()[s.start.chunk as int], s.start.offset as int, src@),
            ),
            final(self).bytes_of(s) == src@,
            forall|k: int|
                0 <= k < old(self).allocations().len() && disjoint(
                    #[trigger] old(self).allocations()[k],
                    s,
                ) ==> final(self).bytes_of(old(self).allocations()[k]) == old(self).bytes_of(
                    old(self).allocations()[k],
                ),
    {
        self.write_bytes(s.start, src);
        proof {
            assert(self.bytes_of(s) =~= src@);
            assert forall|k: int|
                0 <= k < old(self).allocations().len() && disjoint(
                    #[trigger] old(self).allocations()[k],
                    s,
                ) implies self.bytes_of(old(self).allocations()[k]) == old(self).bytes_of(
                    old(self).allocations()[k],
                ) by {
                let a = old(self).allocations()[k];
                assert(self.bytes_of(a) =~= old(self).bytes_of(a));
            }
        }
    }

    /// Copies `slice` into the arena, placed as [Self::alloc_raw] places `slice.len()`
    /// bytes aligned to 1, and names the copy.
    pub fn alloc_slice(&mut self, slice: &[u8]) -> (copy: ArenaSlice)
        requires
            old(self).wf(),
            slice@.len() > 0,
            slice@.len() <= isize::MAX,
            reserved_bytes(slice@.len() as usize, 1) <= isize::MAX,
        ensures
            final(self).wf(),
            copy.len == slice@.len(),
            exists|grown: Seq<Seq<u8>>|
                #![trigger chunks_after_request(old(self).chunk_bytes(), old(self).tail_spec(), copy.len, 1, grown)]
                {
                    &&& chunks_after_request(
                        old(self).chunk_bytes(),
                        old(self).tail_spec(),
                        copy.len,
                        1,
                        grown,
                    )
                    &&& copy.start == request_address(old(self).tail_spec(), copy.len, 1, grown)
                    &&& final(self).chunk_bytes() == grown.update(
                        copy.start.chunk as int,
                        overwrite(grown[copy.start.chunk as int], copy.start.offset as int, slice@),
                    )
                },
            final(self).tail_spec() == copy.start.offset,
            final(self).allocations() == old(self).allocations().push(copy),
            final(self).holds(copy),
            final(self).bytes_of(copy) == slice@,
            final(self).keeps(*old(self)),
    {
        proof {
            assert(is_pow2(1)) by {
                reveal(is_pow2);
            }
            vstd::arithmetic::div_mod::lemma_mod_self_0(1);
            assert(valid_layout(slice@.len() as usize, 1));
        }
        let layout = Layout::from_size_align(slice.len(), 1).unwrap();
        let ghost before = *self;
        let start = self.alloc_raw(layout);
        let ghost grown = self.chunk_bytes();
        let ghost mid = *self;
        proof {
            assert(is_pow2(8)) by {
                reveal_with_fuel(is_pow2, 5);
            }
            lemma_align_up(slice@.len() as usize, 8);
            if before.chunk_bytes().len() < grown.len() {
                assert(grown.skip(before.chunk_bytes().len() as int).last() == grown.last());
            }
            assert(grown.len() > 0);
            assert(mid.chunks.len() == mid.chunks@.len());
            assert(start.chunk + 1 == grown.len());
            assert(mid.allocations()[mid.allocations().len() - 1] == copy_of(start, slice@.len()));
        }
        self.write_bytes(start, slice);
        let copy = ArenaSlice { start, len: slice.len() };
        proof {
            assert(self.bytes_of(copy) =~= slice@);
            assert forall|k: int| 0 <= k < old(self).allocations().len() implies
                self.bytes_of(#[trigger] old(self).allocations()[k])
                    == old(self).bytes_of(old(self).allocations()[k]) by {
                let a = old(self).allocations()[k];
                assert(mid.allocations()[k] == a);
                assert(disjoint(mid.allocations()[k], mid.allocations()[mid.allocations().len() - 1]));
                assert(self.bytes_of(a) =~= mid.bytes_of(a));
            }
        }
        copy
    }

    /// Copies `string` into the arena (see [Self::alloc_slice]) and names the copy.
    pub fn alloc_str(&mut self, string: &str) -> (copy: ArenaSlice)
        requires
            old(self).wf(),
            string.spec_bytes().len() > 0,
            string.spec_bytes().len() <= isize::MAX,
            reserved_bytes(string.spec_bytes().len() as usize, 1) <= isize::MAX,
        ensures
            final(self).wf(),
            copy.len == string.spec_bytes().len(),
            exists|grown: Seq<Seq<u8>>|
                #![trigger chunks_after_request(old(self).chunk_bytes(), old(self).tail_spec(), copy.len, 1, grown)]
                {
                    &&& chunks_after_request(
                        old(self).chunk_bytes(),
                        old(self).tail_spec(),
                        copy.len,
                        1,
                        grown,
                    )
                    &&& copy.start == request_address(old(self).tail_spec(), copy.len, 1, grown)
                    &&& final(self).chunk_bytes() == grown.update(
                        copy.start.chunk as int,
                        overwrite(
                            grown[copy.start.chunk as int],
                            copy.start.offset as int,
                            string.spec_bytes(),
                        ),
                    )
                },
            final(self).tail_spec() == copy.start.offset,
            final(self).allocations() == old(self).allocations().push(copy),
            final(self).holds(copy),
            final(self).bytes_of(copy) == string.spec_bytes(),
            valid_utf8(final(self).bytes_of(copy)),
            final(self).keeps(*old(self)),
    {
        proof {
            vstd::utf8::encode_utf8_valid_utf8(string@);
        }
        self.alloc_slice(string.as_bytes())
    }

    /// The bytes of the run `s`.
    pub fn get_bytes(&self, s: ArenaSlice) -> (bytes: &[u8])
        requires
            self.wf(),
            self.holds(s),
        ensures
            bytes@ == self.bytes_of(s),
    {
        let chunk = &self.chunks[s.start.chunk];
        vstd::slice::slice_subrange(chunk.as_slice(), s.start.offset, s.start.offset + s.len)
    }

    /// The text whose UTF-8 encoding is the run `s`, if those bytes are valid UTF-8.
    pub fn get_str(&self, s: ArenaSlice) -> (text: Option<&str>)
        requires
            self.wf(),
            self.holds(s),
        ensures
            text is Some <==> valid_utf8(self.bytes_of(s)),
            text matches Some(t) ==> t.spec_bytes() == self.bytes_of(s),
    {
        str_from_utf8(self.get_bytes(s))
    }

    /// Whether `slice` is allocated in this arena (see [Self::contains]).
    pub fn contains_slice(&self, slice: ArenaSlice) -> (inside: bool)
        requires
            self.wf(),
        ensures
            inside == self.contains(slice),
    {
        if slice.start.chunk >= self.chunks.len() {
            return false;
        }
        let chunk = &self.chunks[slice.start.chunk];
        let offset = slice.start.offset;
        chunk.start() <= offset && (offset < chunk.end() || (slice.len == 0 && offset == chunk.end()))
    }

    /// The number of chunks.
    pub fn chunk_count(&self) -> (count: usize)
        ensures
            count == self.chunk_bytes().len(),
    {
        self.chunks.len()
    }

    /// The capacity of chunk `index`.
    pub fn chunk_capacity(&self, index: usize) -> (capacity: usize)
        requires
            self.wf(),
            index < self.chunk_bytes().len(),
        ensures
            capacity == self.chunk_bytes()[index as int].len(),
    {
        self.chunks[index].capacity()
    }
}

/// Allocations never overlap, and each lies inside a chunk: the arena hands every byte to
/// at most one request, and every run it handed out is contained in it
/// ([DroplessArena::contains], which [DroplessArena::contains_slice] computes).
pub proof fn lemma_allocations_apart(arena: &DroplessArena)
    requires
        arena.wf(),
    ensures
        forall|k: int, l: int|
            0 <= k < l < arena.allocations().len() ==> disjoint(
                #[trigger] arena.allocations()[k],
                #[trigger] arena.allocations()[l],
            ),
        forall|k: int|
            0 <= k < arena.allocations().len() ==> {
                let a = #[trigger] arena.allocations()[k];
                &&& arena.holds(a)
                &&& arena.contains(a)
            },
{
}

/// Chunks are only ever added, never freed or shrunk: a run contained in an arena stays
/// contained over any sequence of allocations (each of which keeps the arena before it).
pub proof fn lemma_contains_kept(earlier: DroplessArena, later: DroplessArena, s: ArenaSlice)
    requires
        later.keeps(earlier),
        earlier.contains(s),
    ensures
        later.contains(s),
{
    assert(later.chunk_bytes()[s.start.chunk as int].len() == earlier.chunk_bytes()[s.start.chunk as int].len());
}

/// How big a chunk growth adds, for a request of `len` bytes: never less than `len`; the
/// first is [MIN_CHUNK] bytes unless the request needs more; a later one doubles the last
/// until it reaches [MAX_CHUNK] bytes, and is never more than double the last, or more
/// than [MAX_CHUNK], unless the request needs more.
pub proof fn lemma_dropless_growth(last: Option<usize>, len: usize)
    ensures
        next_chunk_capacity(last, len) >= len,
        last is None ==> next_chunk_capacity(last, len) >= MIN_CHUNK,
        last is None ==> next_chunk_capacity(last, len) == MIN_CHUNK || next_chunk_capacity(last, len)
            == len,
        last is Some && 2 * last->0 <= MAX_CHUNK ==> next_chunk_capacity(last, len) >= 2 * last->0,
        last is Some && 2 * last->0 > MAX_CHUNK ==> next_chunk_capacity(last, len) >= MAX_CHUNK,
        last is Some ==> next_chunk_capacity(last, len) <= 2 * last->0 || next_chunk_capacity(last, len)
            == len,
        next_chunk_capacity(last, len) <= MAX_CHUNK || next_chunk_capacity(last, len) == len,
{
}

/// When a request does not fit below the old tail, growth adds chunks that only grow: the
/// first has room for the request's size and doubles the last old chunk while that was at
/// most half of [MAX_CHUNK]; each later one doubles its predecessor likewise; every added
/// chunk but the last is too small for the reservation, and the last holds it.
pub proof fn lemma_request_growth(old: Seq<Seq<u8>>, old_tail: usize, size: usize, align: usize, new: Seq<Seq<u8>>)
    requires
        chunks_after_request(old, old_tail, size, align, new),
        reserved_bytes(size, align) > old_tail,
        size > 0,
        size <= reserved_bytes(size, align),
        forall|i: int| 0 <= i < new.len() ==> #[trigger] new[i].len() <= usize::MAX,
    ensures
        new.len() > old.len(),
        forall|j: int|
            old.len() <= j < new.len() ==> #[trigger] new[j].len() >= size,
        old.len() > 0 && 2 * old.last().len() <= MAX_CHUNK ==> new[old.len() as int].len() >= 2
            * old.last().len(),
        forall|j: int|
            old.len() < j < new.len() && 2 * new[j - 1].len() <= MAX_CHUNK ==> #[trigger] new[j].len()
                >= 2 * new[j - 1].len(),
        forall|j: int|
            old.len() <= j < new.len() - 1 ==> #[trigger] new[j].len() < reserved_bytes(size, align),
        new.last().len() >= reserved_bytes(size, align),
{
    let bytes = reserved_bytes(size, align);
    let request = growth_request(size, bytes);
    let added = new.skip(old.len() as int);
    assert(size <= request);
    assert forall|j: int| old.len() <= j < new.len() implies #[trigger] new[j].len() >= size by {
        let k = j - old.len();
        assert(new[j] == added[k]);
        lemma_chain_at(last_len(old), added, request, k);
        let prev = if k == 0 { last_len(old) } else { Some(added[k - 1].len() as usize) };
        lemma_dropless_growth(prev, request);
    }
    if old.len() > 0 {
        assert(new[old.len() as int] == added[0]);
        lemma_chain_at(last_len(old), added, request, 0);
        lemma_dropless_growth(last_len(old), request);
    }
    assert forall|j: int|
        old.len() < j < new.len() && 2 * new[j - 1].len() <= MAX_CHUNK implies #[trigger] new[j].len()
            >= 2 * new[j - 1].len() by {
        let k = j - old.len();
        assert(new[j] == added[k]);
        assert(new[j - 1] == added[k - 1]);
        lemma_chain_at(last_len(old), added, request, k);
        lemma_dropless_growth(Some(added[k - 1].len() as usize), request);
    }
    assert forall|j: int| old.len() <= j < new.len() - 1 implies #[trigger] new[j].len() < bytes by {
        assert(new[j] == added[j - old.len()]);
    }
    assert(new.last() == added.last());
}

/// Keeping is transitive: over any sequence of allocations, every run handed out earlier
/// keeps its bytes.
pub proof fn lemma_keeps_transitive(first: DroplessArena, second: DroplessArena, third: DroplessArena)
    requires
        second.keeps(first),
        third.keeps(second),
    ensures
        third.keeps(first),
{
    assert forall|k: int| 0 <= k < first.allocations().len() implies third.bytes_of(
        #[trigger] first.allocations()[k],
    ) == first.bytes_of(first.allocations()[k]) by {
        assert(second.allocations()[k] == first.allocations()[k]);
    }
}

/// A run that holds the encoding of `text` reads back, through
/// [DroplessArena::get_str], as `text` itself.
pub proof fn lemma_str_read_back(arena: &DroplessArena, copy: ArenaSlice, text: &str, read: &str)
    requires
        arena.bytes_of(copy) == text.spec_bytes(),
        read.spec_bytes() == arena.bytes_of(copy),
    ensures
        valid_utf8(arena.bytes_of(copy)),
        read@ == text@,
{
    vstd::utf8::encode_utf8_valid_utf8(text@);
    vstd::utf8::encode_utf8_decode_utf8(text@);
    vstd::utf8::encode_utf8_decode_utf8(read@);
}

impl Default for DroplessArena {
    fn default() -> (arena: Self)
        ensures
            arena.wf(),
            arena.chunk_bytes() == Seq::<Seq<u8>>::empty(),
            arena.tail_spec() == 0,
            arena.allocations() == Seq::<ArenaSlice>::empty(),
    {
        Self::new()
    }
}

} // verus!
