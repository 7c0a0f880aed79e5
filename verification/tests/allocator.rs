use slab_alloc::word::{read_word, write_word};
use slab_alloc::{SlabAllocator, LINK_SIZE};

const BASE: usize = 0x4000;

fn in_region(addr: usize, base: usize, size: usize) -> bool {
    base <= addr && addr < base + size
}

#[test]
fn alloc_and_free() {
    const BUF_SIZE: usize = 1024;
    const OBJ_SIZE: usize = 32;

    let mut buffer = vec![0u8; BUF_SIZE];
    let base = buffer.as_ptr() as usize;

    let mut alloc = SlabAllocator::new(&mut buffer, base, BUF_SIZE, OBJ_SIZE);

    let a = alloc.allocate(&buffer).unwrap();
    let b = alloc.allocate(&buffer).unwrap();

    assert_ne!(a, b);

    alloc.dealloc(&mut buffer, a);
    alloc.dealloc(&mut buffer, b);

    let c = alloc.allocate(&buffer).unwrap();
    assert!(c == a || c == b);
}

#[test]
fn free_count_updates() {
    let mut buffer = vec![0u8; 256];
    let base = buffer.as_ptr() as usize;
    let mut alloc = SlabAllocator::new(&mut buffer, base, 256, 32);

    assert_eq!(alloc.free_objects(), alloc.capacity());

    let _a = alloc.allocate(&buffer).unwrap();
    assert_eq!(alloc.free_objects(), alloc.capacity() - 1);
}

#[test]
fn region_of_1024_bytes_in_slots_of_32() {
    let mut buffer = vec![0u8; 1024];
    let mut alloc = SlabAllocator::new(&mut buffer, BASE, 1024, 32);
    assert_eq!(alloc.capacity(), 32);
    assert_eq!(alloc.free_objects(), 32);

    let a = alloc.allocate(&buffer).unwrap();
    let b = alloc.allocate(&buffer).unwrap();
    assert_ne!(a, 0);
    assert_ne!(b, 0);
    assert_ne!(a, b);
    assert!(in_region(a, BASE, 1024));
    assert!(in_region(b, BASE, 1024));
    assert_eq!(alloc.free_objects(), 30);

    alloc.dealloc(&mut buffer, a);
    alloc.dealloc(&mut buffer, b);
    assert_eq!(alloc.free_objects(), 32);

    let c = alloc.allocate(&buffer).unwrap();
    assert!(c == a || c == b);
    assert_eq!(alloc.capacity(), 32);
}

#[test]
fn region_of_256_bytes_in_slots_of_32() {
    let mut buffer = vec![0u8; 256];
    let mut alloc = SlabAllocator::new(&mut buffer, BASE, 256, 32);
    assert_eq!(alloc.capacity(), 8);
    assert_eq!(alloc.free_objects(), 8);
    assert!(alloc.allocate(&buffer).is_some());
    assert_eq!(alloc.free_objects(), 7);
    assert_eq!(alloc.capacity() - 1, 7);
}

#[test]
fn capacity_is_region_size_divided_by_object_size() {
    let cases: [(usize, usize, usize); 8] = [
        (1024, 32, 32),
        (256, 32, 8),
        (100, 32, 3),
        (64, 64, 1),
        (63, 64, 0),
        (8, 8, 1),
        (1000, 24, 41),
        (0, 16, 0),
    ];
    for (region_size, object_size, expected) in cases {
        let mut buffer = vec![0u8; region_size];
        let alloc = SlabAllocator::new(&mut buffer, BASE, region_size, object_size);
        assert_eq!(alloc.capacity(), expected);
        assert_eq!(alloc.capacity(), region_size / object_size);
        assert_eq!(alloc.free_objects(), expected);
    }
}

#[test]
fn declared_size_may_be_shorter_than_the_buffer() {
    let mut buffer = vec![0x5au8; 200];
    let mut alloc = SlabAllocator::new(&mut buffer, BASE, 100, 32);
    assert_eq!(alloc.capacity(), 3);
    while let Some(p) = alloc.allocate(&buffer) {
        assert!(in_region(p, BASE, 96));
    }
    assert!(buffer[96..].iter().all(|&b| b == 0x5a));
}

#[test]
fn region_smaller_than_one_object_has_no_slots() {
    let mut buffer = vec![0u8; 16];
    let mut alloc = SlabAllocator::new(&mut buffer, BASE, 16, 32);
    assert_eq!(alloc.capacity(), 0);
    assert_eq!(alloc.free_objects(), 0);
    assert_eq!(alloc.allocate(&buffer), None);
    assert_eq!(alloc.free_objects(), 0);
    assert_eq!(buffer, vec![0u8; 16]);
}

#[test]
fn empty_region_at_the_null_address() {
    let mut buffer: Vec<u8> = Vec::new();
    let mut alloc = SlabAllocator::new(&mut buffer, 0, 0, 8);
    assert_eq!(alloc.capacity(), 0);
    assert_eq!(alloc.free_objects(), 0);
    assert_eq!(alloc.allocate(&buffer), None);
}

#[test]
fn allocations_are_distinct_aligned_slots_until_exhaustion() {
    const SIZE: usize = 1000;
    const OBJ: usize = 24;
    let mut buffer = vec![0u8; SIZE];
    let mut alloc = SlabAllocator::new(&mut buffer, BASE, SIZE, OBJ);
    let capacity = alloc.capacity();
    assert_eq!(capacity, 41);

    let mut seen: Vec<usize> = Vec::new();
    for k in 0..capacity {
        assert_eq!(alloc.free_objects(), capacity - k);
        let p = alloc.allocate(&buffer).unwrap();
        assert!(in_region(p, BASE, capacity * OBJ));
        assert_eq!((p - BASE) % OBJ, 0);
        assert!(!seen.contains(&p));
        seen.push(p);
    }
    assert_eq!(alloc.free_objects(), 0);
    assert_eq!(alloc.allocate(&buffer), None);
    assert_eq!(alloc.allocate(&buffer), None);
    assert_eq!(alloc.free_objects(), 0);
    assert_eq!(alloc.capacity(), capacity);

    seen.sort();
    let all: Vec<usize> = (0..capacity).map(|k| BASE + k * OBJ).collect();
    assert_eq!(seen, all);
}

#[test]
fn allocate_return_allocate_round_trip() {
    let mut buffer = vec![0u8; 128];
    let mut alloc = SlabAllocator::new(&mut buffer, BASE, 128, 16);
    let _held = alloc.allocate(&buffer).unwrap();

    let p = alloc.allocate(&buffer).unwrap();
    let after_first = alloc.free_objects();
    assert_eq!(after_first, 6);
    alloc.dealloc(&mut buffer, p);
    assert_eq!(alloc.free_objects(), 7);
    let q = alloc.allocate(&buffer).unwrap();
    assert_eq!(alloc.free_objects(), after_first);
    assert!(in_region(q, BASE, 128));
    assert_eq!((q - BASE) % 16, 0);
    assert_eq!(q, p);
}

#[test]
fn returned_slots_come_back_last_in_first_out() {
    let mut buffer = vec![0u8; 160];
    let mut alloc = SlabAllocator::new(&mut buffer, BASE, 160, 32);
    let a = alloc.allocate(&buffer).unwrap();
    let b = alloc.allocate(&buffer).unwrap();
    let c = alloc.allocate(&buffer).unwrap();
    alloc.dealloc(&mut buffer, b);
    alloc.dealloc(&mut buffer, a);
    alloc.dealloc(&mut buffer, c);
    assert_eq!(alloc.allocate(&buffer), Some(c));
    assert_eq!(alloc.allocate(&buffer), Some(a));
    assert_eq!(alloc.allocate(&buffer), Some(b));
    assert_eq!(alloc.free_objects(), 2);
}

#[test]
fn exhausted_allocator_serves_again_after_a_return() {
    let mut buffer = vec![0u8; 16];
    let mut alloc = SlabAllocator::new(&mut buffer, BASE, 16, 8);
    let a = alloc.allocate(&buffer).unwrap();
    let b = alloc.allocate(&buffer).unwrap();
    assert_eq!(alloc.allocate(&buffer), None);
    alloc.dealloc(&mut buffer, a);
    assert_eq!(alloc.free_objects(), 1);
    assert_eq!(alloc.allocate(&buffer), Some(a));
    assert_eq!(alloc.allocate(&buffer), None);
    alloc.dealloc(&mut buffer, b);
    alloc.dealloc(&mut buffer, a);
    assert_eq!(alloc.free_objects(), 2);
}

#[test]
fn free_objects_is_a_pure_query() {
    let mut buffer = vec![0u8; 256];
    let mut alloc = SlabAllocator::new(&mut buffer, BASE, 256, 32);
    let _p = alloc.allocate(&buffer).unwrap();
    let first = alloc.free_objects();
    let second = alloc.free_objects();
    let third = alloc.free_objects();
    assert_eq!(first, 7);
    assert_eq!(first, second);
    assert_eq!(second, third);
    assert_eq!(alloc.capacity(), alloc.capacity());
    assert!(alloc.free_objects() <= alloc.capacity());
}

#[test]
fn construction_writes_only_the_first_word_of_each_slot() {
    const SIZE: usize = 100;
    const OBJ: usize = 24;
    let mut buffer = vec![0xa5u8; SIZE];
    let alloc = SlabAllocator::new(&mut buffer, BASE, SIZE, OBJ);
    let slots = alloc.capacity();
    assert_eq!(slots, 4);
    for (j, byte) in buffer.iter().enumerate() {
        let in_link = j < slots * OBJ && j % OBJ < LINK_SIZE;
        if !in_link {
            assert_eq!(*byte, 0xa5);
        }
    }
}

#[test]
fn free_list_is_threaded_through_the_slots() {
    const OBJ: usize = 16;
    let mut buffer = vec![0xffu8; 64];
    let mut alloc = SlabAllocator::new(&mut buffer, BASE, 64, OBJ);
    let mut order: Vec<usize> = Vec::new();
    while let Some(p) = alloc.allocate(&buffer) {
        order.push(p);
    }
    assert_eq!(order.len(), 4);
    for k in 0..order.len() {
        let link = read_word(&buffer, order[k] - BASE);
        let expected = if k + 1 < order.len() { order[k + 1] } else { 0 };
        assert_eq!(link, expected as u64);
    }
}

#[test]
fn dealloc_stores_the_old_head_in_the_returned_slot() {
    const OBJ: usize = 32;
    let mut buffer = vec![0u8; 128];
    let mut alloc = SlabAllocator::new(&mut buffer, BASE, 128, OBJ);
    let a = alloc.allocate(&buffer).unwrap();
    let head = alloc.allocate(&buffer).unwrap();
    alloc.dealloc(&mut buffer, head);

    for byte in buffer[a - BASE..a - BASE + OBJ].iter_mut() {
        *byte = 0xee;
    }
    let before = buffer.clone();
    alloc.dealloc(&mut buffer, a);
    assert_eq!(read_word(&buffer, a - BASE), head as u64);
    for j in 0..buffer.len() {
        if j < a - BASE || j >= a - BASE + LINK_SIZE {
            assert_eq!(buffer[j], before[j]);
        }
    }
    assert_eq!(alloc.allocate(&buffer), Some(a));
    assert_eq!(alloc.allocate(&buffer), Some(head));
}

#[test]
fn last_free_slot_holds_the_null_link() {
    let mut buffer = vec![0x11u8; 8];
    let mut alloc = SlabAllocator::new(&mut buffer, BASE, 8, 8);
    assert_eq!(read_word(&buffer, 0), 0);
    let p = alloc.allocate(&buffer).unwrap();
    assert_eq!(p, BASE);
    buffer.copy_from_slice(&[0x77; 8]);
    alloc.dealloc(&mut buffer, p);
    assert_eq!(buffer, vec![0u8; 8]);
}

#[test]
fn writes_to_a_held_slot_do_not_disturb_the_allocator() {
    const OBJ: usize = 16;
    let mut buffer = vec![0u8; 96];
    let mut alloc = SlabAllocator::new(&mut buffer, BASE, 96, OBJ);
    let p = alloc.allocate(&buffer).unwrap();
    for byte in buffer[p - BASE..p - BASE + OBJ].iter_mut() {
        *byte = 0xff;
    }
    let mut rest: Vec<usize> = Vec::new();
    while let Some(q) = alloc.allocate(&buffer) {
        assert_ne!(q, p);
        assert!(!rest.contains(&q));
        rest.push(q);
    }
    assert_eq!(rest.len(), 5);
    assert!(buffer[p - BASE..p - BASE + OBJ].iter().all(|&b| b == 0xff));
}

#[test]
fn word_is_stored_least_significant_byte_first() {
    let mut buffer = vec![0u8; 12];
    write_word(&mut buffer, 2, 0x0102_0304_0506_0708);
    assert_eq!(buffer, vec![0, 0, 8, 7, 6, 5, 4, 3, 2, 1, 0, 0]);
    assert_eq!(read_word(&buffer, 2), 0x0102_0304_0506_0708);
    assert_eq!(read_word(&buffer, 0), 0x0304_0506_0708_0000);
}

#[test]
fn word_round_trips_at_the_extremes() {
    let mut buffer = vec![0x33u8; 8];
    write_word(&mut buffer, 0, u64::MAX);
    assert_eq!(buffer, vec![0xffu8; 8]);
    assert_eq!(read_word(&buffer, 0), u64::MAX);
    write_word(&mut buffer, 0, 0);
    assert_eq!(buffer, vec![0u8; 8]);
    assert_eq!(read_word(&buffer, 0), 0);
    write_word(&mut buffer, 0, 0x100);
    assert_eq!(buffer, vec![0, 1, 0, 0, 0, 0, 0, 0]);
    assert_eq!(LINK_SIZE, 8);
}
