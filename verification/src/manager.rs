//! The allocator engine.

use vstd::prelude::*;
use std::collections::BTreeMap;
use crate::block::MemoryBlock;
use crate::block::MEMORY_SIZE;
use crate::free_index::first_fit;
use crate::free_index::lemma_remove_keeps_sorted;
use crate::free_index::put;
use crate::listing::append_in_order;
use crate::model::overwrite;
use crate::model::ManagerView;
use crate::model::Operation;

verus! {

/// Why an operation on an allocated block was refused.
#[derive(Debug, Clone, Copy, PartialEq, Eq)]
pub enum MemoryError {
    /// No block is allocated under the identifier.
    NotFound,
    /// The data is longer than the block.
    TooLarge,
}

/// A best-fit allocator over an arena of [`MEMORY_SIZE`] bytes.
pub struct MemoryManager {
    memory: Vec<u8>,
    free_blocks: Vec<MemoryBlock>,
    allocated_blocks: BTreeMap<usize, MemoryBlock>,
    next_id: usize,
}

/// Copies the first `count` bytes of `data` into `memory` from address `at` on.
fn copy_into(memory: &mut Vec<u8>, at: usize, data: &[u8], count: usize)
    requires
        at + count <= old(memory).len(),
        count <= data@.len(),
    ensures
        final(memory)@ == overwrite(old(memory)@, at as int, data@.subrange(0, count as int)),
{
    let mut k: usize = 0;
    while k < count
        invariant
            k <= count <= data@.len(),
            at + count <= memory.len(),
            memory@.len() == old(memory)@.len(),
            forall|i: int| 0 <= i < memory@.len() ==> memory@[i] == if at <= i < at + k {
                data@[i - at]
            } else {
                old(memory)@[i]
            },
        decreases count - k,
    {
        let target: usize = at + k;
        memory[target] = data[k];
        k = k + 1;
    }
    assert(memory@ =~= overwrite(old(memory)@, at as int, data@.subrange(0, count as int)));
}

impl View for MemoryManager {
    type V = ManagerView;

    closed spec fn view(&self) -> ManagerView {
        ManagerView {
            memory: self.memory@,
            free: self.free_blocks@,
            allocated: self.allocated_blocks@,
            next_id: self.next_id,
        }
    }
}

impl MemoryManager {
    /// The invariant that every operation keeps.
    pub open spec fn wf(&self) -> bool {
        self@.wf()
    }

    /// An allocator whose whole arena is one free block.
    pub fn new() -> (manager: MemoryManager)
        ensures
            manager.wf(),
            manager@ == ManagerView::fresh(),
    {
        let mut free_blocks: Vec<MemoryBlock> = Vec::new();
        free_blocks.push(MemoryBlock { start: 0, size: MEMORY_SIZE, allocated: false, id: None });
        let manager = MemoryManager {
            memory: vec![0u8; MEMORY_SIZE],
            free_blocks,
            allocated_blocks: BTreeMap::new(),
            next_id: 0,
        };
        proof {
            assert(manager@.memory =~= ManagerView::fresh().memory);
            assert(manager@.free =~= ManagerView::fresh().free);
            ManagerView::lemma_fresh_wf();
        }
        manager
    }

    /// The bytes of the block allocated under `id`, if there is one.
    pub fn find(&self, id: usize) -> (found: Option<&[u8]>)
        requires
            self.wf(),
        ensures
            match found {
                Some(bytes) => self@.allocated.contains_key(id) && bytes@ == self@.contents(id),
                None => !self@.allocated.contains_key(id),
            },
    {
        match self.allocated_blocks.get(&id) {
            Some(block) => {
                let bytes = vstd::slice::slice_subrange(
                    self.memory.as_slice(),
                    block.start,
                    block.start + block.size,
                );
                Some(bytes)
            },
            None => None,
        }
    }

    /// The bytes of the block allocated under `id`.
    pub fn read(&self, id: usize) -> (outcome: Result<&[u8], MemoryError>)
        requires
            self.wf(),
        ensures
            match outcome {
                Ok(bytes) => self@.allocated.contains_key(id) && bytes@ == self@.contents(id),
                Err(e) => e == MemoryError::NotFound && !self@.allocated.contains_key(id),
            },
    {
        match self.find(id) {
            Some(bytes) => Ok(bytes),
            None => Err(MemoryError::NotFound),
        }
    }

    /// The identifier that the next successful [`insert`](Self::insert)
    /// returns.
    pub fn next_id(&self) -> (id: usize)
        ensures
            id == self@.next_id,
    {
        self.next_id
    }

    /// Allocates `size` bytes and fills them with the first `size` bytes of
    /// `data`.
    ///
    /// The block comes out of the smallest free block that is large enough;
    /// among free blocks of that size, out of the one that has been free the
    /// longest. What is left of that free block stays free. Returns the
    /// identifier of the new block, or `None`, with nothing changed, if no
    /// free block is large enough.
    pub fn insert(&mut self, size: usize, data: &[u8]) -> (issued: Option<usize>)
        requires
            old(self).wf(),
            size > 0,
            data@.len() >= size,
            old(self)@.next_id < usize::MAX,
        ensures
            final(self).wf(),
            match issued {
                Some(id) => {
                    &&& old(self)@.can_fit(size)
                    &&& old(self)@.is_best_fit(size, old(self)@.best_fit(size))
                    &&& id == old(self)@.next_id
                    &&& final(self)@ == old(self)@.allocate(size, data@)
                    &&& final(self)@.contents(id) == data@.subrange(0, size as int)
                },
                None => !old(self)@.can_fit(size) && final(self)@ == old(self)@,
            },
            issued == old(self)@.issues(Operation::Insert { size, data: data@ }),
            final(self)@ == old(self)@.step(Operation::Insert { size, data: data@ }),
    {
        let p = first_fit(&self.free_blocks, size);
        if p == self.free_blocks.len() {
            return None;
        }
        proof {
            self@.lemma_first_fit_is_best(size, p as int);
            self@.lemma_allocate_wf(size, data@);
            self@.lemma_read_after_allocate(size, data@);
            lemma_remove_keeps_sorted(self.free_blocks@, p as int);
        }
        let block = self.free_blocks.remove(p);
        assert(block.in_arena());
        let new_id = self.next_id;
        self.next_id = new_id + 1;
        copy_into(&mut self.memory, block.start, data, size);
        self.allocated_blocks.insert(
            new_id,
            MemoryBlock { start: block.start, size, allocated: true, id: Some(new_id) },
        );
        if block.size > size {
            put(
                &mut self.free_blocks,
                MemoryBlock {
                    start: block.start + size,
                    size: block.size - size,
                    allocated: false,
                    id: None,
                },
            );
        }
        assert(self@ == old(self)@.allocate(size, data@));
        Some(new_id)
    }

    /// Releases the block allocated under `id`.
    ///
    /// Its range becomes one free block; free neighbours are not merged with
    /// it, and its bytes stay as they are.
    pub fn delete(&mut self, id: usize) -> (outcome: Result<(), MemoryError>)
        requires
            old(self).wf(),
        ensures
            final(self).wf(),
            match outcome {
                Ok(_) => old(self)@.allocated.contains_key(id) && final(self)@ == old(
                    self,
                )@.release(id),
                Err(e) => {
                    &&& e == MemoryError::NotFound
                    &&& !old(self)@.allocated.contains_key(id)
                    &&& final(self)@ == old(self)@
                },
            },
            final(self)@ == old(self)@.step(Operation::Delete { id }),
    {
        match self.allocated_blocks.remove(&id) {
            Some(block) => {
                proof {
                    old(self)@.lemma_release_wf(id);
                }
                put(
                    &mut self.free_blocks,
                    MemoryBlock { start: block.start, size: block.size, allocated: false, id: None },
                );
                Ok(())
            },
            None => {
                assert(self.allocated_blocks@ =~= old(self).allocated_blocks@);
                Err(MemoryError::NotFound)
            },
        }
    }

    /// Writes `new_data` to the start of the block allocated under `id`.
    ///
    /// Bytes of the block behind the written ones keep their values. Data
    /// longer than the block is refused whole.
    pub fn update(&mut self, id: usize, new_data: &[u8]) -> (outcome: Result<(), MemoryError>)
        requires
            old(self).wf(),
        ensures
            final(self).wf(),
            match outcome {
                Ok(_) => {
                    &&& old(self)@.allocated.contains_key(id)
                    &&& new_data@.len() <= old(self)@.allocated[id].size
                    &&& final(self)@ == old(self)@.write(id, new_data@)
                },
                Err(MemoryError::NotFound) => {
                    &&& !old(self)@.allocated.contains_key(id)
                    &&& final(self)@ == old(self)@
                },
                Err(MemoryError::TooLarge) => {
                    &&& old(self)@.allocated.contains_key(id)
                    &&& new_data@.len() > old(self)@.allocated[id].size
                    &&& final(self)@ == old(self)@
                },
            },
            final(self)@ == old(self)@.step(Operation::Update { id, data: new_data@ }),
    {
        let start = match self.allocated_blocks.get(&id) {
            Some(block) => {
                if new_data.len() > block.size {
                    return Err(MemoryError::TooLarge);
                }
                assert(block.in_arena());
                block.start
            },
            None => {
                return Err(MemoryError::NotFound);
            },
        };
        proof {
            self@.lemma_write_wf(id, new_data@);
        }
        copy_into(&mut self.memory, start, new_data, new_data.len());
        assert(new_data@.subrange(0, new_data@.len() as int) =~= new_data@);
        Ok(())
    }

    /// A report of every block: the free blocks, smallest first, then the
    /// allocated blocks by ascending identifier.
    pub fn dump(&self) -> (report: Vec<MemoryBlock>)
        requires
            self.wf(),
        ensures
            self@.is_listing(report@),
    {
        let mut report: Vec<MemoryBlock> = Vec::new();
        let mut i: usize = 0;
        while i < self.free_blocks.len()
            invariant
                i <= self.free_blocks@.len(),
                report@ == self.free_blocks@.subrange(0, i as int),
            decreases self.free_blocks@.len() - i,
        {
            report.push(self.free_blocks[i]);
            assert(report@ =~= self.free_blocks@.subrange(0, i + 1));
            i = i + 1;
        }
        assert(report@ =~= self.free_blocks@);
        append_in_order(&mut report, &self.allocated_blocks);
        report
    }
}

} // verus!
