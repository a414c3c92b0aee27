//! Bounded pools of byte buffers.
use vstd::prelude::*;
use crate::decode::{bump, bumped};
use crate::defrag::{sat_add, saturating_add};

verus! {

/// A byte buffer handed out by a pool: its bytes, the size it was made
/// for, and whether it is in use.
#[derive(Debug)]
pub struct MemoryBlock {
    pub data: Vec<u8>,
    pub block_size: usize,
    pub used: bool,
}

impl MemoryBlock {
    pub fn new(capacity: usize) -> (r: Self)
        ensures
            r.data@.len() == 0,
            r.block_size == capacity,
            !r.used,
    {
        MemoryBlock { data: Vec::with_capacity(capacity), block_size: capacity, used: false }
    }

    /// A block holding a copy of `data`.
    pub fn with_data(data: &[u8]) -> (r: Self)
        ensures
            r.data@ == data@,
            r.block_size == data@.len(),
            !r.used,
    {
        MemoryBlock { data: vstd::slice::slice_to_vec(data), block_size: data.len(), used: false }
    }

    pub fn capacity(&self) -> (r: usize)
        ensures
            r == self.block_size,
    {
        self.block_size
    }

    pub fn size(&self) -> (r: usize)
        ensures
            r == self.block_size,
    {
        self.block_size
    }

    pub fn is_used(&self) -> (r: bool)
        ensures
            r == self.used,
    {
        self.used
    }

    pub fn mark_used(&mut self)
        ensures
            final(self).used,
            final(self).data == old(self).data,
            final(self).block_size == old(self).block_size,
    {
        self.used = true;
    }

    /// Marks the block free and forgets its bytes.
    pub fn mark_free(&mut self)
        ensures
            !final(self).used,
            final(self).data@.len() == 0,
            final(self).block_size == old(self).block_size,
    {
        self.used = false;
        self.data.clear();
    }

    pub fn mark_unused(&mut self)
        ensures
            !final(self).used,
            final(self).data@.len() == 0,
            final(self).block_size == old(self).block_size,
    {
        self.mark_free();
    }

    pub fn clear(&mut self)
        ensures
            final(self).data@.len() == 0,
            final(self).used == old(self).used,
            final(self).block_size == old(self).block_size,
    {
        self.data.clear();
    }

    pub fn extend_from_slice(&mut self, bytes: &[u8])
        ensures
            final(self).data@ == old(self).data@ + bytes@,
            final(self).used == old(self).used,
            final(self).block_size == old(self).block_size,
    {
        crate::stream_tcp::append_bytes(&mut self.data, bytes);
    }

    pub fn len(&self) -> (r: usize)
        ensures
            r == self.data@.len(),
    {
        self.data.len()
    }

    pub fn is_empty(&self) -> (r: bool)
        ensures
            r == (self.data@.len() == 0),
    {
        self.data.len() == 0
    }
}

/// Sizes and counts of a memory pool.
#[derive(Debug, Clone, Copy, PartialEq, Eq, Structural)]
pub struct MemoryPoolConfig {
    pub min_block_size: usize,
    pub max_block_size: usize,
    pub initial_pool_size: usize,
    pub max_pool_size: usize,
}

impl Default for MemoryPoolConfig {
    fn default() -> (r: Self)
        ensures
            r.min_block_size == 64,
            r.max_block_size == 65536,
            r.initial_pool_size == 1000,
            r.max_pool_size == 10000,
    {
        MemoryPoolConfig { min_block_size: 64, max_block_size: 65536, initial_pool_size: 1000, max_pool_size: 10000 }
    }
}

/// The counters of a memory pool.
#[derive(Debug, Clone, Copy, PartialEq, Eq, Structural)]
pub struct MemoryPoolStats {
    pub total_allocated: usize,
    pub total_freed: usize,
    pub allocation_count: usize,
    pub free_count: usize,
    pub current_blocks: usize,
}

/// Why a pool refused a request.
#[derive(Debug, Clone, Copy, PartialEq, Eq, Structural)]
pub enum PoolError {
    SizeOutOfRange { size: usize, min: usize, max: usize },
}

/// A pool of free blocks: `allocate` hands one out when it has one and
/// makes a new one otherwise; `free` takes a block back while the pool is
/// below its cap and lets it go otherwise.
#[derive(Debug)]
pub struct MemoryPool {
    pub config: MemoryPoolConfig,
    pub blocks: Vec<MemoryBlock>,
    pub total_allocated: usize,
    pub total_freed: usize,
    pub allocation_count: usize,
    pub free_count: usize,
}

impl MemoryPool {
    /// A pool holding `initial_pool_size` free blocks of the smallest size.
    pub fn new(config: MemoryPoolConfig) -> (r: Self)
        ensures
            r.config == config,
            r.blocks@.len() == config.initial_pool_size,
            r.total_allocated == 0,
            r.total_freed == 0,
            r.allocation_count == 0,
            r.free_count == 0,
    {
        let mut blocks: Vec<MemoryBlock> = Vec::new();
        let mut i: usize = 0;
        while i < config.initial_pool_size
            invariant
                0 <= i <= config.initial_pool_size,
                blocks@.len() == i,
            decreases config.initial_pool_size - i,
        {
            blocks.push(MemoryBlock::new(config.min_block_size));
            i += 1;
        }
        MemoryPool { config, blocks, total_allocated: 0, total_freed: 0, allocation_count: 0, free_count: 0 }
    }

    /// Hands out a block for `size` bytes, which must lie within the
    /// configured block sizes.
    pub fn allocate(&mut self, size: usize) -> (r: Result<MemoryBlock, PoolError>)
        ensures
            (size < old(self).config.min_block_size || size > old(self).config.max_block_size) <==> r is Err,
            r is Err ==> r->Err_0 == (PoolError::SizeOutOfRange {
                size,
                min: old(self).config.min_block_size,
                max: old(self).config.max_block_size,
            }) && final(self).blocks@ == old(self).blocks@ && final(self).allocation_count == old(self).allocation_count,
            r is Ok ==> r->Ok_0.used && r->Ok_0.data@.len() == 0,
            r is Ok && old(self).blocks@.len() > 0 ==> final(self).blocks@ == old(self).blocks@.drop_last(),
            r is Ok && old(self).blocks@.len() == 0 ==> final(self).blocks@.len() == 0 && r->Ok_0.block_size == size,
            r is Ok ==> final(self).allocation_count == bumped(old(self).allocation_count),
            final(self).config == old(self).config,
    {
        if size < self.config.min_block_size || size > self.config.max_block_size {
            return Err(PoolError::SizeOutOfRange { size, min: self.config.min_block_size, max: self.config.max_block_size });
        }
        let mut block = match self.blocks.pop() {
            Some(b) => b,
            None => MemoryBlock::new(size),
        };
        block.mark_free();
        block.mark_used();
        self.allocation_count = bump(self.allocation_count);
        self.total_allocated = saturating_add(self.total_allocated, block.size());
        Ok(block)
    }

    /// Takes a block back, emptied, unless the pool is full.
    pub fn free(&mut self, block: MemoryBlock)
        ensures
            old(self).blocks@.len() >= old(self).config.max_pool_size ==> final(self).blocks@ == old(self).blocks@,
            old(self).blocks@.len() < old(self).config.max_pool_size ==> final(self).blocks@.len() == old(
                self,
            ).blocks@.len() + 1 && final(self).blocks@.drop_last() == old(self).blocks@ && !final(self).blocks@.last().used
                && final(self).blocks@.last().data@.len() == 0,
            final(self).free_count == bumped(old(self).free_count),
            final(self).total_freed == sat_add(old(self).total_freed, block.block_size as int),
            final(self).config == old(self).config,
    {
        let mut block = block;
        let size = block.size();
        self.free_count = bump(self.free_count);
        self.total_freed = saturating_add(self.total_freed, size);
        if self.blocks.len() >= self.config.max_pool_size {
            return;
        }
        block.mark_free();
        let ghost before = self.blocks@;
        self.blocks.push(block);
        assert(self.blocks@.drop_last() =~= before);
    }

    pub fn stats(&self) -> (r: MemoryPoolStats)
        ensures
            r.total_allocated == self.total_allocated,
            r.total_freed == self.total_freed,
            r.allocation_count == self.allocation_count,
            r.free_count == self.free_count,
            r.current_blocks == self.blocks@.len(),
    {
        MemoryPoolStats {
            total_allocated: self.total_allocated,
            total_freed: self.total_freed,
            allocation_count: self.allocation_count,
            free_count: self.free_count,
            current_blocks: self.blocks.len(),
        }
    }
}

/// A pool of reusable byte vectors, holding at most `max_size` of them.
#[derive(Debug)]
pub struct BufferPool {
    pub pool: Vec<Vec<u8>>,
    pub max_size: usize,
}

impl BufferPool {
    pub fn new(max_size: usize) -> (r: Self)
        ensures
            r.pool@.len() == 0,
            r.max_size == max_size,
    {
        BufferPool { pool: Vec::new(), max_size }
    }

    /// An empty buffer: a pooled one when there is one.
    pub fn acquire(&mut self) -> (r: Vec<u8>)
        ensures
            r@.len() == 0,
            old(self).pool@.len() > 0 ==> final(self).pool@ == old(self).pool@.drop_last(),
            old(self).pool@.len() == 0 ==> final(self).pool@.len() == 0,
            final(self).max_size == old(self).max_size,
    {
        match self.pool.pop() {
            Some(mut b) => {
                b.clear();
                b
            },
            None => Vec::with_capacity(1024),
        }
    }

    /// Keeps the buffer, emptied, while the pool is below its cap.
    pub fn release(&mut self, buffer: Vec<u8>)
        ensures
            old(self).pool@.len() < old(self).max_size ==> final(self).pool@.len() == old(self).pool@.len() + 1
                && final(self).pool@.last()@.len() == 0,
            old(self).pool@.len() >= old(self).max_size ==> final(self).pool@ == old(self).pool@,
            final(self).max_size == old(self).max_size,
    {
        if self.pool.len() < self.max_size {
            let mut buffer = buffer;
            buffer.clear();
            self.pool.push(buffer);
        }
    }
}

/// The configuration of the shared memory pool: 1 KiB to 1 MiB blocks,
/// 1000 made at the start, at most 10000 kept.
pub fn init_memory_pool() -> (r: MemoryPool)
    ensures
        r.config.min_block_size == 1024,
        r.config.max_block_size == 1024 * 1024,
        r.config.initial_pool_size == 1000,
        r.config.max_pool_size == 10000,
        r.blocks@.len() == 1000,
{
    MemoryPool::new(
        MemoryPoolConfig { min_block_size: 1024, max_block_size: 1024 * 1024, initial_pool_size: 1000, max_pool_size: 10000 },
    )
}

} // verus!
