use memory_manager::MemoryBlock;
use memory_manager::MemoryError;
use memory_manager::MemoryManager;
use memory_manager::MEMORY_SIZE;

fn free(start: usize, size: usize) -> MemoryBlock {
    MemoryBlock { start, size, allocated: false, id: None }
}

fn owned(start: usize, size: usize, id: usize) -> MemoryBlock {
    MemoryBlock { start, size, allocated: true, id: Some(id) }
}

/// Checks that the blocks cover the arena exactly once.
fn assert_partition(blocks: &[MemoryBlock]) {
    let mut sorted: Vec<MemoryBlock> = blocks.to_vec();
    sorted.sort_by_key(|b| b.start);
    let mut at: usize = 0;
    for b in sorted.iter() {
        assert_eq!(b.start, at);
        assert!(b.size > 0);
        at = b.start + b.size;
    }
    assert_eq!(at, MEMORY_SIZE);
}

#[test]
fn new_manager_is_one_free_block() {
    let m = MemoryManager::new();
    assert_eq!(MEMORY_SIZE, 65535);
    assert_eq!(m.dump(), vec![free(0, 65535)]);
    assert_eq!(m.next_id(), 0);
    assert_eq!(m.find(0), None);
}

#[test]
fn insert_then_read_returns_the_data() {
    let mut m = MemoryManager::new();
    let id = m.insert(5, b"hello").unwrap();
    assert_eq!(id, 0);
    assert_eq!(m.read(id), Ok(&b"hello"[..]));
    assert_eq!(m.find(id), Some(&b"hello"[..]));
}

#[test]
fn insert_copies_only_the_requested_bytes() {
    let mut m = MemoryManager::new();
    let id = m.insert(4, b"abcdefgh").unwrap();
    assert_eq!(m.read(id), Ok(&b"abcd"[..]));
    assert_eq!(m.dump(), vec![free(4, 65531), owned(0, 4, 0)]);
}

#[test]
fn insert_splits_the_free_block() {
    let mut m = MemoryManager::new();
    assert_eq!(m.insert(100, &[7u8; 100]), Some(0));
    assert_eq!(m.insert(50, &[8u8; 50]), Some(1));
    assert_eq!(m.dump(), vec![free(150, 65385), owned(0, 100, 0), owned(100, 50, 1)]);
}

#[test]
fn exact_fit_leaves_no_remainder() {
    let mut m = MemoryManager::new();
    let data: Vec<u8> = vec![1u8; MEMORY_SIZE];
    assert_eq!(m.insert(MEMORY_SIZE, &data), Some(0));
    assert_eq!(m.dump(), vec![owned(0, MEMORY_SIZE, 0)]);
    assert_eq!(m.read(0).unwrap().len(), MEMORY_SIZE);
}

#[test]
fn update_preserves_tail() {
    let mut m = MemoryManager::new();
    let id = m.insert(10, b"0123456789").unwrap();
    assert_eq!(m.update(id, b"abcd"), Ok(()));
    assert_eq!(m.read(id), Ok(&b"abcd456789"[..]));
}

#[test]
fn update_of_full_length_replaces_everything() {
    let mut m = MemoryManager::new();
    let id = m.insert(3, b"abc").unwrap();
    assert_eq!(m.update(id, b"xyz"), Ok(()));
    assert_eq!(m.read(id), Ok(&b"xyz"[..]));
}

#[test]
fn update_with_no_data_changes_nothing() {
    let mut m = MemoryManager::new();
    let id = m.insert(3, b"abc").unwrap();
    assert_eq!(m.update(id, b""), Ok(()));
    assert_eq!(m.read(id), Ok(&b"abc"[..]));
}

#[test]
fn update_too_large_is_refused_whole() {
    let mut m = MemoryManager::new();
    let id = m.insert(3, b"abc").unwrap();
    let before = m.dump();
    assert_eq!(m.update(id, b"wxyz"), Err(MemoryError::TooLarge));
    assert_eq!(m.read(id), Ok(&b"abc"[..]));
    assert_eq!(m.dump(), before);
}

#[test]
fn unknown_identifier_is_not_found() {
    let mut m = MemoryManager::new();
    let id = m.insert(3, b"abc").unwrap();
    let before = m.dump();
    assert_eq!(m.find(id + 1), None);
    assert_eq!(m.read(id + 1), Err(MemoryError::NotFound));
    assert_eq!(m.update(id + 1, b"x"), Err(MemoryError::NotFound));
    assert_eq!(m.delete(id + 1), Err(MemoryError::NotFound));
    assert_eq!(m.dump(), before);
    assert_eq!(m.read(id), Ok(&b"abc"[..]));
}

#[test]
fn update_leaves_other_blocks_alone() {
    let mut m = MemoryManager::new();
    let a = m.insert(4, b"aaaa").unwrap();
    let b = m.insert(4, b"bbbb").unwrap();
    let c = m.insert(4, b"cccc").unwrap();
    assert_eq!(m.update(b, b"BBBB"), Ok(()));
    assert_eq!(m.read(a), Ok(&b"aaaa"[..]));
    assert_eq!(m.read(b), Ok(&b"BBBB"[..]));
    assert_eq!(m.read(c), Ok(&b"cccc"[..]));
}

#[test]
fn exhaustion_returns_none_and_changes_nothing() {
    let mut m = MemoryManager::new();
    let chunk: Vec<u8> = vec![9u8; 30000];
    assert_eq!(m.insert(30000, &chunk), Some(0));
    assert_eq!(m.insert(30000, &chunk), Some(1));
    let before = m.dump();
    let next = m.next_id();
    assert_eq!(m.insert(30000, &chunk), None);
    assert_eq!(m.dump(), before);
    assert_eq!(m.next_id(), next);
    assert_eq!(m.read(0).unwrap(), &chunk[..]);
    assert_eq!(m.read(1).unwrap(), &chunk[..]);
    assert_eq!(m.insert(5535, &chunk), Some(2));
    assert_eq!(m.insert(1, &chunk), None);
}

#[test]
fn full_arena_refuses_one_more_byte() {
    let mut m = MemoryManager::new();
    let data: Vec<u8> = vec![1u8; MEMORY_SIZE];
    assert_eq!(m.insert(MEMORY_SIZE, &data), Some(0));
    assert_eq!(m.insert(1, b"x"), None);
    assert_eq!(m.dump(), vec![owned(0, MEMORY_SIZE, 0)]);
}

#[test]
fn request_larger_than_the_arena_fails() {
    let mut m = MemoryManager::new();
    let data: Vec<u8> = vec![1u8; MEMORY_SIZE + 1];
    assert_eq!(m.insert(MEMORY_SIZE + 1, &data), None);
    assert_eq!(m.dump(), vec![free(0, MEMORY_SIZE)]);
}

#[test]
fn identifiers_are_strictly_increasing_and_never_reused() {
    let mut m = MemoryManager::new();
    let a = m.insert(1, b"a").unwrap();
    let b = m.insert(1, b"b").unwrap();
    assert_eq!(m.delete(a), Ok(()));
    assert_eq!(m.delete(b), Ok(()));
    let c = m.insert(1, b"c").unwrap();
    let d = m.insert(1, b"d").unwrap();
    assert_eq!((a, b, c, d), (0, 1, 2, 3));
    assert_eq!(m.next_id(), 4);
    assert_eq!(m.find(a), None);
}

#[test]
fn failed_insert_issues_no_identifier() {
    let mut m = MemoryManager::new();
    let data: Vec<u8> = vec![0u8; MEMORY_SIZE];
    assert_eq!(m.insert(MEMORY_SIZE, &data), Some(0));
    assert_eq!(m.insert(10, &data), None);
    assert_eq!(m.delete(0), Ok(()));
    assert_eq!(m.insert(10, &data), Some(1));
}

#[test]
fn release_does_not_coalesce() {
    let mut m = MemoryManager::new();
    let a = m.insert(4, b"aaaa").unwrap();
    let b = m.insert(4, b"bbbb").unwrap();
    assert_eq!(m.delete(a), Ok(()));
    assert_eq!(m.delete(b), Ok(()));
    assert_eq!(m.dump(), vec![free(0, 4), free(4, 4), free(8, 65527)]);
}

#[test]
fn release_keeps_the_bytes_and_frees_the_range() {
    let mut m = MemoryManager::new();
    let a = m.insert(4, b"aaaa").unwrap();
    assert_eq!(m.delete(a), Ok(()));
    assert_eq!(m.read(a), Err(MemoryError::NotFound));
    assert_eq!(m.delete(a), Err(MemoryError::NotFound));
    let b = m.insert(2, b"bb").unwrap();
    assert_eq!(m.dump(), vec![free(2, 2), free(4, 65531), owned(0, 2, b)]);
    assert_eq!(m.read(b), Ok(&b"bb"[..]));
}

#[test]
fn best_fit_takes_the_smallest_block_that_fits() {
    let mut m = MemoryManager::new();
    let big: Vec<u8> = vec![0u8; 64];
    let a = m.insert(10, &big).unwrap();
    let _s1 = m.insert(1, &big).unwrap();
    let c = m.insert(20, &big).unwrap();
    let _s2 = m.insert(1, &big).unwrap();
    let e = m.insert(5, &big).unwrap();
    let _s3 = m.insert(1, &big).unwrap();
    assert_eq!(m.delete(c), Ok(()));
    assert_eq!(m.delete(a), Ok(()));
    assert_eq!(m.delete(e), Ok(()));
    assert_eq!(
        m.dump()[..4].to_vec(),
        vec![free(32, 5), free(0, 10), free(11, 20), free(38, 65497)]
    );
    let id = m.insert(6, b"sixsix").unwrap();
    let blocks = m.dump();
    assert!(blocks.contains(&owned(0, 6, id)));
    assert_eq!(blocks[..4].to_vec(), vec![free(6, 4), free(32, 5), free(11, 20), free(38, 65497)]);
    let id2 = m.insert(11, &big).unwrap();
    assert!(m.dump().contains(&owned(11, 11, id2)));
    assert_partition(&m.dump());
}

#[test]
fn equal_sizes_are_taken_in_the_order_of_release() {
    let mut m = MemoryManager::new();
    let a = m.insert(8, b"aaaaaaaa").unwrap();
    let _s1 = m.insert(1, b"-").unwrap();
    let b = m.insert(8, b"bbbbbbbb").unwrap();
    let _s2 = m.insert(1, b"-").unwrap();
    assert_eq!(m.delete(b), Ok(()));
    assert_eq!(m.delete(a), Ok(()));
    assert_eq!(m.dump()[..2].to_vec(), vec![free(9, 8), free(0, 8)]);
    let c = m.insert(8, b"cccccccc").unwrap();
    assert!(m.dump().contains(&owned(9, 8, c)));
    let d = m.insert(8, b"dddddddd").unwrap();
    assert!(m.dump().contains(&owned(0, 8, d)));
}

#[test]
fn dump_lists_free_blocks_by_size_then_allocated_by_identifier() {
    let mut m = MemoryManager::new();
    let a = m.insert(3, b"abc").unwrap();
    let b = m.insert(2, b"de").unwrap();
    let c = m.insert(1, b"f").unwrap();
    assert_eq!(m.delete(b), Ok(()));
    assert_eq!(
        m.dump(),
        vec![free(3, 2), free(6, 65529), owned(0, 3, a), owned(5, 1, c)]
    );
}

#[test]
fn blocks_partition_the_arena_after_every_operation() {
    let mut m = MemoryManager::new();
    let data: Vec<u8> = vec![5u8; 4096];
    let mut live: Vec<usize> = Vec::new();
    let mut round: usize = 0;
    while round < 200 {
        let size: usize = 1 + (round * 37) % 900;
        if let Some(id) = m.insert(size, &data) {
            live.push(id);
        }
        assert_partition(&m.dump());
        if round % 3 == 2 {
            let victim: usize = live.remove((round * 7) % live.len());
            assert_eq!(m.delete(victim), Ok(()));
            assert_partition(&m.dump());
        }
        if round % 5 == 4 {
            let target: usize = live[(round * 11) % live.len()];
            assert_eq!(m.update(target, b"z"), Ok(()));
            assert_partition(&m.dump());
        }
        round += 1;
    }
    let free_blocks: Vec<MemoryBlock> = m.dump().into_iter().filter(|b| !b.allocated).collect();
    assert!(free_blocks.windows(2).all(|w| w[0].size <= w[1].size));
}

#[test]
fn allocation_leaves_other_blocks_alone() {
    let mut m = MemoryManager::new();
    let a = m.insert(6, b"first!").unwrap();
    let b = m.insert(6, b"second").unwrap();
    assert_eq!(m.delete(a), Ok(()));
    let c = m.insert(3, b"new").unwrap();
    assert_eq!(m.read(b), Ok(&b"second"[..]));
    assert_eq!(m.read(c), Ok(&b"new"[..]));
    assert_eq!(m.dump(), vec![free(3, 3), free(12, 65523), owned(6, 6, b), owned(0, 3, c)]);
}
