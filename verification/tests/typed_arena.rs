use cl_arena::chunk::{ArenaAddress, ArenaChunk, ArenaSlice};
use cl_arena::typed_arena::TypedArena;

#[test]
fn readme_example() {
    // Create a new TypedArena
    let mut string_arena = TypedArena::new();

    // Allocate some `String`s onto the arena.
    let elem_one = string_arena.alloc_value(String::from("Hello, world!"));
    let elem_two = string_arena.alloc_value(String::from("Goodbye, world!"));

    println!("{}\n{}", string_arena.get(elem_one), string_arena.get(elem_two));

    // Drop the TypedArena, dropping its contents
    drop(string_arena);
}

#[test]
fn pushing_to_arena() {
    let mut arena = TypedArena::new();
    let foo = arena.alloc_value("foo");
    let bar = arena.alloc_value("bar");
    let baz = arena.alloc_value("baz");

    assert_eq!("foo", *arena.get(foo));
    assert_eq!("bar", *arena.get(bar));
    assert_eq!("baz", *arena.get(baz));
}

#[test]
fn pushing_vecs_to_arena() {
    let mut arena = TypedArena::new();

    let foo = arena.alloc_value(vec!["foo"]);
    let bar = arena.alloc_value(vec!["bar"]);
    let baz = arena.alloc_value(vec!["baz"]);

    assert_eq!("foo", arena.get(foo)[0]);
    assert_eq!("bar", arena.get(bar)[0]);
    assert_eq!("baz", arena.get(baz)[0]);
}

#[test]
fn pushing_zsts() {
    struct ZeroSized;
    impl Drop for ZeroSized {
        fn drop(&mut self) {
            let _ = format!("");
        }
    }

    let mut arena = TypedArena::new();

    for _ in 0..0x100 {
        arena.alloc_value(ZeroSized);
    }
}

#[test]
fn pushing_nodrop_zsts() {
    struct ZeroSized;
    let mut arena = TypedArena::new();

    for _ in 0..0x1000 {
        arena.alloc_value(ZeroSized);
    }
}

#[test]
fn resize() {
    let mut arena = TypedArena::new();

    for _ in 0..0x780 {
        arena.alloc_value(0u128);
    }
}

#[test]
fn values_stay_in_their_slots() {
    let mut arena = TypedArena::new();
    let mut slots = vec![];
    for i in 0..0x780u128 {
        slots.push(arena.alloc_value(i));
    }
    for (i, slot) in slots.iter().enumerate() {
        assert_eq!(*arena.get(*slot), i as u128);
    }
}

#[test]
fn chunks_grow_by_doubling() {
    let mut arena = TypedArena::new();
    // 512 bytes of u128 are 32 slots
    for _ in 0..32 {
        arena.alloc_value(0u128);
    }
    assert_eq!(arena.chunk_count(), 1);
    assert_eq!(arena.chunk_capacity(0), 32);
    let next = arena.alloc_value(1u128);
    assert_eq!(next, ArenaAddress { chunk: 1, offset: 0 });
    assert_eq!(arena.chunk_capacity(1), 64);
}

#[test]
fn zero_sized_values_share_one_chunk() {
    let mut arena = TypedArena::new();
    for _ in 0..0x1000 {
        arena.alloc_value(());
    }
    assert_eq!(arena.chunk_count(), 1);
    assert_eq!(arena.chunk_capacity(0), 512);
    let last = arena.alloc_value(());
    assert_eq!(last, ArenaAddress { chunk: 0, offset: 0x1000 });
}

#[test]
fn alloc_from_iter_is_contiguous() {
    let mut arena = TypedArena::new();
    let first = arena.alloc_value(10u32);
    let run = arena.alloc_from_iter(vec![1u32, 2, 3]);
    assert_eq!(first, ArenaAddress { chunk: 0, offset: 0 });
    assert_eq!(run, ArenaSlice { start: ArenaAddress { chunk: 0, offset: 1 }, len: 3 });
    assert_eq!(arena.get_slice(run), &[1, 2, 3]);
    assert_eq!(*arena.get(first), 10);
}

#[test]
fn alloc_from_iter_of_nothing() {
    let mut arena: TypedArena<u8> = TypedArena::default();
    let run = arena.alloc_from_iter(Vec::new());
    assert_eq!(run.len, 0);
    assert_eq!(arena.chunk_count(), 0);
}

#[test]
fn alloc_from_iter_grows_to_fit() {
    let mut arena = TypedArena::new();
    arena.alloc_value(0u64);
    // 64 slots of u64 hold the first value; 100 more need a chunk of their own
    let items: Vec<u64> = (0..100).collect();
    let run = arena.alloc_from_iter(items.clone());
    assert_eq!(run.start, ArenaAddress { chunk: 1, offset: 0 });
    assert_eq!(arena.chunk_capacity(0), 64);
    assert_eq!(arena.chunk_capacity(1), 128);
    assert_eq!(arena.get_slice(run), &items[..]);
    let more: Vec<u64> = (0..500).collect();
    let big = arena.alloc_from_iter(more.clone());
    assert_eq!(big.start, ArenaAddress { chunk: 2, offset: 0 });
    assert_eq!(arena.chunk_capacity(2), 500);
    assert_eq!(arena.get_slice(big), &more[..]);
}

#[test]
fn chunk_bounds() {
    let mut chunk: ArenaChunk<u64> = ArenaChunk::new(16);
    assert_eq!(chunk.capacity(), 16);
    assert_eq!(chunk.start(), 0);
    assert_eq!(chunk.end(), 16);
    chunk.drop_elements();
    assert_eq!(chunk.capacity(), 16);
    let zsts: ArenaChunk<()> = ArenaChunk::new(16);
    assert_eq!(zsts.end(), usize::MAX);
}
