use bump_arena::{Arena, ArenaError, Layout, BUFFER_ALIGN};

#[derive(Debug, Clone, Copy)]
struct TestObject {
    id: u64,
    value: u64,
}

const OBJECT_SIZE: usize = 16;

fn store(slot: &mut [u8], object: TestObject) {
    slot[0..8].copy_from_slice(&object.id.to_le_bytes());
    slot[8..16].copy_from_slice(&object.value.to_le_bytes());
}

fn load(slot: &[u8]) -> TestObject {
    let mut id = [0u8; 8];
    let mut value = [0u8; 8];
    id.copy_from_slice(&slot[0..8]);
    value.copy_from_slice(&slot[8..16]);
    TestObject { id: u64::from_le_bytes(id), value: u64::from_le_bytes(value) }
}

fn store_u64(slot: &mut [u8], value: u64) {
    slot.copy_from_slice(&value.to_le_bytes());
}

fn load_u64(slot: &[u8]) -> u64 {
    let mut bytes = [0u8; 8];
    bytes.copy_from_slice(slot);
    u64::from_le_bytes(bytes)
}

fn store_u32(slot: &mut [u8], value: u32) {
    slot.copy_from_slice(&value.to_le_bytes());
}

fn load_u32(slot: &[u8]) -> u32 {
    let mut bytes = [0u8; 4];
    bytes.copy_from_slice(slot);
    u32::from_le_bytes(bytes)
}

#[test]
fn test_arena_basic() {
    let mut arena = Arena::new(1024).unwrap();

    let obj = arena.alloc_one::<TestObject>().unwrap();
    store(obj, TestObject { id: 42, value: 100 });

    assert_eq!(load(obj).id, 42);
    assert_eq!(load(obj).value, 100);
}

#[test]
fn test_arena_million_objects() {
    const COUNT: usize = 1_000_000;
    const TOTAL_SIZE: usize = COUNT * OBJECT_SIZE;

    let mut arena = Arena::new(TOTAL_SIZE).unwrap();

    let objects = arena.alloc_array::<TestObject>(COUNT).unwrap();
    assert_eq!(objects.len(), TOTAL_SIZE);

    for (i, slot) in objects.chunks_exact_mut(OBJECT_SIZE).enumerate() {
        store(slot, TestObject { id: i as u64, value: (i * 2) as u64 });
    }

    for (i, slot) in objects.chunks_exact(OBJECT_SIZE).enumerate() {
        let obj = load(slot);
        assert_eq!(obj.id, i as u64);
        assert_eq!(obj.value, (i * 2) as u64);
    }

    println!("Successfully allocated and initialized {} objects", COUNT);
    println!("Used {} bytes of {} bytes", arena.used(), arena.capacity());
    assert_eq!(arena.used(), TOTAL_SIZE);
    assert_eq!(arena.remaining(), 0);
}

#[test]
fn test_arena_mixed_allocations() {
    let mut arena = Arena::new(1024).unwrap();

    let single = arena.alloc_one::<u64>().unwrap();
    store_u64(single, 42);
    assert_eq!(load_u64(single), 42);

    let array = arena.alloc_array::<u32>(10).unwrap();
    for (i, slot) in array.chunks_exact_mut(4).enumerate() {
        store_u32(slot, i as u32);
    }
    assert_eq!(load_u32(&array[20..24]), 5);

    let another = arena.alloc_one::<TestObject>().unwrap();
    store(another, TestObject { id: 999, value: 888 });

    assert_eq!(load(another).id, 999);
}

#[test]
fn new_arena_is_empty_and_zeroed() {
    for size in [1usize, 7, 8, 9, 1024, 65_536] {
        let arena = Arena::new(size).unwrap();
        assert_eq!(arena.capacity(), size);
        assert_eq!(arena.used(), 0);
        assert_eq!(arena.remaining(), size);
        assert_eq!(arena.as_bytes().len(), size);
        assert!(arena.as_bytes().iter().all(|b| *b == 0));
    }
}

#[test]
fn new_rejects_zero_size() {
    assert_eq!(Arena::new(0).err(), Some(ArenaError::InvalidSize));
}

#[test]
fn new_rejects_unrepresentable_size() {
    let limit = isize::MAX as usize - (BUFFER_ALIGN - 1);
    assert_eq!(Arena::new(usize::MAX).err(), Some(ArenaError::InvalidAlignment));
    assert_eq!(Arena::new(limit + 1).err(), Some(ArenaError::InvalidAlignment));
    assert_eq!(Arena::new(isize::MAX as usize).err(), Some(ArenaError::InvalidAlignment));
}

#[test]
fn new_reports_missing_memory() {
    let limit = isize::MAX as usize - (BUFFER_ALIGN - 1);
    assert_eq!(Arena::new(limit).err(), Some(ArenaError::AllocationFailed));
}

#[test]
fn from_buffer_keeps_contents() {
    let arena = Arena::from_buffer(vec![1, 2, 3, 4, 5]).unwrap();
    assert_eq!(arena.capacity(), 5);
    assert_eq!(arena.used(), 0);
    assert_eq!(arena.remaining(), 5);
    assert_eq!(arena.as_bytes(), &[1, 2, 3, 4, 5]);
}

#[test]
fn from_buffer_rejects_empty_buffer() {
    assert_eq!(Arena::from_buffer(Vec::new()).err(), Some(ArenaError::InvalidSize));
}

#[test]
fn alloc_one_advances_by_size_and_padding() {
    let mut arena = Arena::new(64).unwrap();

    let byte = arena.alloc_one::<u8>().unwrap();
    assert_eq!(byte.len(), 1);
    assert_eq!(arena.used(), 1);

    let before = arena.used();
    let word = arena.alloc_one::<u64>().unwrap();
    assert_eq!(word.len(), 8);
    let grown = arena.used() - before;
    let size = std::mem::size_of::<u64>();
    let align = std::mem::align_of::<u64>();
    assert!(grown >= size);
    assert!(grown <= size + align - 1);
    assert_eq!(arena.used() % align, 0);
    assert_eq!(arena.used(), align + size);

    let before = arena.used();
    arena.alloc_one::<u64>().unwrap();
    assert_eq!(arena.used() - before, size);
}

#[test]
fn alloc_one_of_zero_sized_type_takes_nothing() {
    let mut arena = Arena::new(8).unwrap();
    arena.alloc_one::<u8>().unwrap();
    let unit = arena.alloc_one::<()>().unwrap();
    assert!(unit.is_empty());
    assert_eq!(arena.used(), 1);
}

#[test]
fn alloc_array_of_zero_takes_nothing() {
    let mut arena = Arena::new(16).unwrap();
    assert!(arena.alloc_array::<u64>(0).unwrap().is_empty());
    assert_eq!(arena.used(), 0);

    arena.alloc_one::<u8>().unwrap();
    assert!(arena.alloc_array::<u64>(0).unwrap().is_empty());
    assert_eq!(arena.used(), 1);

    arena.alloc_array::<u8>(15).unwrap();
    assert_eq!(arena.remaining(), 0);
    assert!(arena.alloc_array::<u64>(0).unwrap().is_empty());
    assert!(arena.alloc_array::<TestObject>(0).unwrap().is_empty());
    assert_eq!(arena.used(), 16);
}

#[test]
fn alloc_array_rejects_unrepresentable_total() {
    let mut arena = Arena::new(64).unwrap();
    arena.alloc_one::<u8>().unwrap();

    assert_eq!(arena.alloc_array::<u64>(usize::MAX).err(), Some(ArenaError::InvalidSize));
    assert_eq!(arena.alloc_array::<u64>(usize::MAX / 8 + 1).err(), Some(ArenaError::InvalidSize));
    assert_eq!(
        arena.alloc_array::<u8>(isize::MAX as usize + 1).err(),
        Some(ArenaError::InvalidSize)
    );
    assert_eq!(
        arena.alloc_array::<u64>(isize::MAX as usize / 8 + 1).err(),
        Some(ArenaError::InvalidSize)
    );
    assert_eq!(arena.used(), 1);

    assert_eq!(
        arena.alloc_array::<u8>(isize::MAX as usize).err(),
        Some(ArenaError::OutOfMemory)
    );
    assert_eq!(
        arena.alloc_array::<u64>(isize::MAX as usize / 8).err(),
        Some(ArenaError::OutOfMemory)
    );
    assert_eq!(arena.used(), 1);
}

#[test]
fn exhaustion_comes_at_the_crossing_allocation() {
    let mut arena = Arena::new(32).unwrap();

    let first = arena.alloc_array::<u8>(10).unwrap();
    first.fill(0xA1);
    assert_eq!(arena.used(), 10);

    let second = arena.alloc_array::<u32>(4).unwrap();
    second.fill(0xB2);
    assert_eq!(arena.used(), 28);

    assert_eq!(arena.alloc_one::<u64>().err(), Some(ArenaError::OutOfMemory));
    assert_eq!(arena.used(), 28);
    assert_eq!(arena.remaining(), 4);

    let third = arena.alloc_array::<u8>(4).unwrap();
    third.fill(0xC3);
    assert_eq!(arena.remaining(), 0);

    assert_eq!(arena.alloc_one::<u8>().err(), Some(ArenaError::OutOfMemory));
    assert_eq!(arena.alloc_array::<u8>(1).err(), Some(ArenaError::OutOfMemory));
    assert_eq!(arena.used(), 32);

    let bytes = arena.as_bytes();
    assert!(bytes[0..10].iter().all(|b| *b == 0xA1));
    assert_eq!(&bytes[10..12], &[0, 0]);
    assert!(bytes[12..28].iter().all(|b| *b == 0xB2));
    assert!(bytes[28..32].iter().all(|b| *b == 0xC3));
}

#[test]
fn padding_counts_against_capacity() {
    let mut arena = Arena::new(16).unwrap();
    arena.alloc_array::<u8>(9).unwrap();
    assert_eq!(arena.remaining(), 7);
    assert_eq!(arena.alloc_array::<u32>(1).unwrap().len(), 4);
    assert_eq!(arena.used(), 16);

    let mut arena = Arena::new(16).unwrap();
    arena.alloc_array::<u8>(13).unwrap();
    assert_eq!(arena.remaining(), 3);
    assert_eq!(arena.alloc_array::<u32>(1).err(), Some(ArenaError::OutOfMemory));
    assert_eq!(arena.used(), 13);
    assert_eq!(arena.alloc_array::<u8>(3).unwrap().len(), 3);
}

#[test]
fn regions_start_at_multiples_of_their_alignment() {
    let mut arena = Arena::new(256).unwrap();
    let base = arena.as_bytes().as_ptr() as usize;

    arena.alloc_one::<u8>().unwrap();

    let region = arena.alloc_one::<u16>().unwrap();
    let at = region.as_ptr() as usize - base;
    assert_eq!(at % std::mem::align_of::<u16>(), 0);
    assert_eq!(at, 2);

    arena.alloc_one::<u8>().unwrap();
    let region = arena.alloc_one::<u32>().unwrap();
    let at = region.as_ptr() as usize - base;
    assert_eq!(at % std::mem::align_of::<u32>(), 0);
    assert_eq!(at, 8);

    arena.alloc_one::<u8>().unwrap();
    let region = arena.alloc_array::<TestObject>(3).unwrap();
    let at = region.as_ptr() as usize - base;
    assert_eq!(at % std::mem::align_of::<TestObject>(), 0);
    assert_eq!(at, 16);
    assert_eq!(arena.used(), 64);

    arena.alloc_one::<u8>().unwrap();
    let layout = Layout::from_size_align(1, 64).unwrap();
    let region = arena.alloc_layout(layout).unwrap();
    let at = region.as_ptr() as usize - base;
    assert_eq!(at, 128);
    assert_eq!(arena.used(), 129);
}

#[test]
fn reset_frees_everything_and_keeps_the_bytes() {
    let mut arena = Arena::new(24).unwrap();
    let first = arena.alloc_array::<u8>(24).unwrap();
    first.fill(0x5A);
    assert_eq!(arena.remaining(), 0);
    assert_eq!(arena.alloc_one::<u8>().err(), Some(ArenaError::OutOfMemory));

    arena.reset();
    assert_eq!(arena.used(), 0);
    assert_eq!(arena.remaining(), arena.capacity());
    assert_eq!(arena.capacity(), 24);
    assert!(arena.as_bytes().iter().all(|b| *b == 0x5A));

    let again = arena.alloc_array::<u8>(24).unwrap();
    assert!(again.iter().all(|b| *b == 0x5A));
    again[0] = 1;
    assert_eq!(arena.used(), 24);
    assert_eq!(arena.as_bytes()[0], 1);

    arena.reset();
    arena.reset();
    assert_eq!(arena.used(), 0);
    let word = arena.alloc_one::<u64>().unwrap();
    assert_eq!(word[0], 1);
    assert_eq!(arena.used(), 8);
}

#[test]
fn regions_do_not_overlap() {
    let mut arena = Arena::new(1024).unwrap();

    let single = arena.alloc_one::<u64>().unwrap();
    store_u64(single, 0x1111_1111_1111_1111);
    let single_at = arena.used() - 8;

    let array = arena.alloc_array::<u32>(10).unwrap();
    for (i, slot) in array.chunks_exact_mut(4).enumerate() {
        store_u32(slot, 0x2222_0000 + i as u32);
    }
    let array_at = arena.used() - 40;

    let another = arena.alloc_one::<TestObject>().unwrap();
    store(another, TestObject { id: 0x3333_3333, value: 0x4444_4444 });
    let another_at = arena.used() - 16;

    assert_eq!(single_at, 0);
    assert_eq!(array_at, 8);
    assert_eq!(another_at, 48);
    assert_eq!(arena.used(), 64);

    let bytes = arena.as_bytes();
    assert_eq!(load_u64(&bytes[single_at..single_at + 8]), 0x1111_1111_1111_1111);
    for i in 0..10 {
        let at = array_at + 4 * i;
        assert_eq!(load_u32(&bytes[at..at + 4]), 0x2222_0000 + i as u32);
    }
    let object = load(&bytes[another_at..another_at + 16]);
    assert_eq!(object.id, 0x3333_3333);
    assert_eq!(object.value, 0x4444_4444);
    assert!(bytes[64..].iter().all(|b| *b == 0));
}

#[test]
fn exact_fit_leaves_nothing() {
    let mut arena = Arena::new(4096).unwrap();
    let region = arena.alloc_array::<u64>(512).unwrap();
    assert_eq!(region.len(), 4096);
    assert_eq!(arena.remaining(), 0);
    assert_eq!(arena.used(), 4096);

    let mut arena = Arena::new(4096).unwrap();
    assert_eq!(arena.alloc_array::<u64>(513).err(), Some(ArenaError::OutOfMemory));
    assert_eq!(arena.used(), 0);

    let mut arena = Arena::new(3).unwrap();
    assert_eq!(arena.alloc_array::<u8>(3).unwrap().len(), 3);
    assert_eq!(arena.remaining(), 0);
}

#[test]
fn alloc_layout_hands_out_the_placed_window() {
    let mut arena = Arena::from_buffer((0u8..32).collect()).unwrap();
    arena.alloc_array::<u8>(3).unwrap();

    let layout = Layout::from_size_align(6, 4).unwrap();
    let region = arena.alloc_layout(layout).unwrap();
    assert_eq!(region, &[4, 5, 6, 7, 8, 9]);
    region.copy_from_slice(&[0xF0, 0xF1, 0xF2, 0xF3, 0xF4, 0xF5]);
    assert_eq!(arena.used(), 10);

    let mut expected: Vec<u8> = (0u8..32).collect();
    expected[4..10].copy_from_slice(&[0xF0, 0xF1, 0xF2, 0xF3, 0xF4, 0xF5]);
    assert_eq!(arena.as_bytes(), &expected[..]);

    let too_large = Layout::from_size_align(21, 4).unwrap();
    assert_eq!(arena.alloc_layout(too_large).err(), Some(ArenaError::OutOfMemory));
    assert_eq!(arena.used(), 10);
    assert_eq!(arena.as_bytes(), &expected[..]);

    let rest = Layout::from_size_align(20, 4).unwrap();
    assert_eq!(arena.alloc_layout(rest).unwrap().len(), 20);
    assert_eq!(arena.remaining(), 0);
}

#[test]
fn error_messages() {
    assert_eq!(ArenaError::InvalidSize.message(), "Invalid size specified");
    assert_eq!(ArenaError::InvalidAlignment.message(), "Invalid alignment");
    assert_eq!(ArenaError::AllocationFailed.message(), "Failed to allocate memory");
    assert_eq!(ArenaError::OutOfMemory.message(), "Arena out of memory");
}

#[test]
fn errors_compare_and_copy() {
    let e = ArenaError::OutOfMemory;
    let copy = e;
    assert_eq!(e, copy.clone());
    assert_ne!(ArenaError::InvalidSize, ArenaError::InvalidAlignment);
    assert_eq!(format!("{:?}", ArenaError::AllocationFailed), "AllocationFailed");
}
