use cl_arena::chunk::{ArenaAddress, ArenaSlice};
use cl_arena::constants::{MAX_CHUNK, MIN_CHUNK};
use cl_arena::dropless_arena::DroplessArena;
use cl_arena::layout::Layout;

#[test]
fn alloc_raw() {
    let mut arena = DroplessArena::new();
    let bytes = arena.alloc_raw(Layout::for_value(&0u128));
    let byte2 = arena.alloc_raw(Layout::for_value(&0u128));

    assert_ne!(bytes, byte2);
}

#[test]
fn alloc_strings() {
    const KW: &[&str] = &["pub", "mut", "fn", "mod", "conlang", "sidon", "🦈"];
    let mut arena = DroplessArena::new();
    let mut allocations = vec![];
    for _ in 0..100 {
        for kw in KW {
            allocations.push(arena.alloc_str(kw));
        }
    }
    for (i, copy) in allocations.iter().enumerate() {
        assert_eq!(arena.get_str(*copy), Some(KW[i % KW.len()]));
    }
}

#[test]
fn alloc_raw_takes_from_the_end_of_the_chunk() {
    let mut arena = DroplessArena::new();
    let layout = Layout::from_size_align(16, 16).unwrap();
    assert_eq!(arena.alloc_raw(layout), ArenaAddress { chunk: 0, offset: 496 });
    assert_eq!(arena.alloc_raw(layout), ArenaAddress { chunk: 0, offset: 480 });
    assert_eq!(arena.chunk_count(), 1);
    assert_eq!(arena.chunk_capacity(0), MIN_CHUNK);
}

#[test]
fn alloc_raw_reserves_multiples_of_eight() {
    let mut arena = DroplessArena::new();
    let byte = Layout::from_size_align(1, 1).unwrap();
    assert_eq!(arena.alloc_raw(byte), ArenaAddress { chunk: 0, offset: 504 });
    assert_eq!(arena.alloc_raw(byte), ArenaAddress { chunk: 0, offset: 496 });
}

#[test]
fn alloc_raw_rounds_down_to_the_alignment() {
    let mut arena = DroplessArena::new();
    // 8 bytes aligned to 64 reserve 64 bytes, ending at 448
    let layout = Layout::from_size_align(8, 64).unwrap();
    let first = arena.alloc_raw(layout);
    assert_eq!(first, ArenaAddress { chunk: 0, offset: 448 });
    assert_eq!(first.offset % 64, 0);
}

#[test]
fn alloc_raw_grows_by_doubling() {
    let mut arena = DroplessArena::new();
    let big = Layout::from_size_align(600, 1).unwrap();
    assert_eq!(arena.alloc_raw(big), ArenaAddress { chunk: 0, offset: 0 });
    assert_eq!(arena.chunk_capacity(0), 600);
    let small = Layout::from_size_align(8, 8).unwrap();
    assert_eq!(arena.alloc_raw(small), ArenaAddress { chunk: 1, offset: 1192 });
    assert_eq!(arena.chunk_capacity(1), 1200);
}

#[test]
fn alloc_raw_stops_doubling_at_max_chunk() {
    let mut arena = DroplessArena::new();
    let page = Layout::from_size_align(MAX_CHUNK / 2, 8).unwrap();
    arena.alloc_raw(page);
    arena.alloc_raw(page);
    arena.alloc_raw(page);
    arena.alloc_raw(page);
    // chunks: MAX/2, then MAX (holds two), then MAX again
    assert_eq!(arena.chunk_count(), 3);
    assert_eq!(arena.chunk_capacity(0), MAX_CHUNK / 2);
    assert_eq!(arena.chunk_capacity(1), MAX_CHUNK);
    assert_eq!(arena.chunk_capacity(2), MAX_CHUNK);
}

#[test]
fn alloc_raw_grows_until_the_request_fits() {
    let mut arena = DroplessArena::new();
    // 513 bytes reserve 520: a first chunk of 513 bytes is too small, the next holds it
    let odd = Layout::from_size_align(513, 1).unwrap();
    let at = arena.alloc_raw(odd);
    assert_eq!(arena.chunk_count(), 2);
    assert_eq!(arena.chunk_capacity(0), 513);
    assert_eq!(arena.chunk_capacity(1), 1026);
    assert_eq!(at, ArenaAddress { chunk: 1, offset: 506 });
}

#[test]
fn alloc_raw_of_more_than_max_chunk() {
    let mut arena = DroplessArena::new();
    let huge = Layout::from_size_align(3 * MAX_CHUNK, 8).unwrap();
    assert_eq!(arena.alloc_raw(huge), ArenaAddress { chunk: 0, offset: 0 });
    assert_eq!(arena.chunk_capacity(0), 3 * MAX_CHUNK);
}

#[test]
fn alloc_raw_of_an_odd_size_above_max_chunk() {
    let mut arena = DroplessArena::new();
    arena.alloc_raw(Layout::from_size_align(1, 1).unwrap());
    // 2 MiB + 1 bytes reserve 2 MiB + 8: growth is asked for the reservation
    let odd = Layout::from_size_align(MAX_CHUNK + 1, 1).unwrap();
    assert_eq!(arena.alloc_raw(odd), ArenaAddress { chunk: 1, offset: 0 });
    assert_eq!(arena.chunk_capacity(1), MAX_CHUNK + 8);
    let odd8 = Layout::from_size_align(3 * MAX_CHUNK + 1, 8).unwrap();
    assert_eq!(arena.alloc_raw(odd8), ArenaAddress { chunk: 2, offset: 0 });
    assert_eq!(arena.chunk_capacity(2), 3 * MAX_CHUNK + 8);
}

#[test]
fn alloc_raw_with_an_alignment_above_max_chunk() {
    let mut arena = DroplessArena::new();
    let wide = Layout::from_size_align(8, 2 * MAX_CHUNK).unwrap();
    let at = arena.alloc_raw(wide);
    assert_eq!(at, ArenaAddress { chunk: 0, offset: 0 });
    assert_eq!(at.offset % (2 * MAX_CHUNK), 0);
    assert_eq!(arena.chunk_capacity(0), 2 * MAX_CHUNK);
}

#[test]
fn alloc_slice_above_max_chunk() {
    let mut arena = DroplessArena::new();
    let big = vec![5u8; MAX_CHUNK + 3];
    let copy = arena.alloc_slice(&big);
    assert_eq!(arena.get_bytes(copy), &big[..]);
}

#[test]
fn tests_readme_example() {
    // Create a new DroplessArena
    let mut dropless_arena = DroplessArena::new();

    // Allocate some data on the arena
    let just1_i32 = dropless_arena.alloc_slice(&1i32.to_ne_bytes());
    let numbers: Vec<u8> = [0i32, 2, 3, 4].iter().flat_map(|n| n.to_ne_bytes()).collect();
    let slice_i32 = dropless_arena.alloc_slice(&numbers);

    let slice_str = dropless_arena.alloc_str("Hello, world!");

    // slice_i32[0] = *just1_i32
    let first = ArenaSlice { start: slice_i32.start, len: 4 };
    let one = dropless_arena.get_bytes(just1_i32).to_vec();
    dropless_arena.set_bytes(first, &one);

    let read: Vec<i32> = dropless_arena
        .get_bytes(slice_i32)
        .chunks(4)
        .map(|b| i32::from_ne_bytes([b[0], b[1], b[2], b[3]]))
        .collect();
    assert_eq!(dropless_arena.get_bytes(just1_i32), &1i32.to_ne_bytes());
    assert_eq!(read, vec![1, 2, 3, 4]);
    assert_eq!(dropless_arena.get_str(slice_str), Some("Hello, world!"));
}

#[test]
fn alloc_slice_reads_back() {
    let mut arena = DroplessArena::new();
    let first = arena.alloc_slice(&[1, 2, 3, 4]);
    let second = arena.alloc_slice(&[9; 700]);
    let third = arena.alloc_slice(b"arena");
    assert_eq!(arena.get_bytes(first), &[1, 2, 3, 4]);
    assert_eq!(arena.get_bytes(second), &[9; 700][..]);
    assert_eq!(arena.get_bytes(third), b"arena");
    assert_eq!(first, ArenaSlice { start: ArenaAddress { chunk: 0, offset: 504 }, len: 4 });
    assert_eq!(second.start.chunk, 1);
}

#[test]
fn earlier_allocations_keep_their_bytes() {
    let mut arena = DroplessArena::new();
    let mut copies = vec![];
    for i in 0..2000u32 {
        let bytes = i.to_le_bytes();
        copies.push((arena.alloc_slice(&bytes), bytes));
    }
    for (copy, bytes) in copies {
        assert_eq!(arena.get_bytes(copy), &bytes);
    }
}

#[test]
fn alloc_str_reads_back() {
    let mut arena = DroplessArena::new();
    let copy = arena.alloc_str("Hello, world!");
    assert_eq!(copy.len, 13);
    assert_eq!(arena.get_str(copy), Some("Hello, world!"));
    assert_eq!(arena.get_bytes(copy), "Hello, world!".as_bytes());
}

#[test]
fn get_str_refuses_invalid_utf8() {
    let mut arena = DroplessArena::new();
    let copy = arena.alloc_slice(&[0xff, 0xfe]);
    assert_eq!(arena.get_str(copy), None);
}

#[test]
fn contains_slice_of_allocations() {
    let mut arena = DroplessArena::new();
    let copy = arena.alloc_slice(&[7, 7, 7]);
    assert!(arena.contains_slice(copy));
    let end_of_chunk = ArenaSlice { start: ArenaAddress { chunk: 0, offset: 512 }, len: 0 };
    assert!(arena.contains_slice(end_of_chunk));
    let run_from_end = ArenaSlice { start: ArenaAddress { chunk: 0, offset: 512 }, len: 1 };
    assert!(!arena.contains_slice(run_from_end));
    let last_byte = ArenaSlice { start: ArenaAddress { chunk: 0, offset: 511 }, len: 1 };
    assert!(arena.contains_slice(last_byte));
    let past_chunk = ArenaSlice { start: ArenaAddress { chunk: 0, offset: 513 }, len: 0 };
    assert!(!arena.contains_slice(past_chunk));
    let no_chunk = ArenaSlice { start: ArenaAddress { chunk: 1, offset: 0 }, len: 1 };
    assert!(!arena.contains_slice(no_chunk));
}

#[test]
fn empty_arena_contains_nothing() {
    let arena = DroplessArena::default();
    assert_eq!(arena.chunk_count(), 0);
    let anything = ArenaSlice { start: ArenaAddress { chunk: 0, offset: 0 }, len: 0 };
    assert!(!arena.contains_slice(anything));
}

#[test]
fn layouts() {
    assert!(Layout::from_size_align(8, 3).is_none());
    assert!(Layout::from_size_align(8, 0).is_none());
    assert!(Layout::from_size_align(isize::MAX as usize, 2).is_none());
    let layout = Layout::from_size_align(isize::MAX as usize - 1, 2).unwrap();
    assert_eq!(layout.size(), isize::MAX as usize - 1);
    assert_eq!(layout.align(), 2);
    let of_u32 = Layout::new::<u32>();
    assert_eq!(of_u32.size(), 4);
    assert_eq!(of_u32.align(), 4);
    let of_value = Layout::for_value(&[0u16; 3]);
    assert_eq!(of_value.size(), 6);
    assert_eq!(of_value.align(), 2);
}
