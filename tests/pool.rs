use flow_reassembly::{
    init_memory_pool, BufferPool, Config, MemoryBlock, MemoryPool, MemoryPoolConfig, PoolError, SubmitError,
    WorkerSelector,
};

#[test]
fn pool_hands_out_and_takes_back() {
    let mut pool = MemoryPool::new(MemoryPoolConfig { min_block_size: 8, max_block_size: 64, initial_pool_size: 1, max_pool_size: 1 });
    assert_eq!(pool.stats().current_blocks, 1);
    let a = pool.allocate(16).unwrap();
    assert!(a.is_used());
    assert_eq!(pool.stats().current_blocks, 0);
    let b = pool.allocate(32).unwrap();
    assert_eq!(b.size(), 32);
    assert_eq!(pool.allocate(4).unwrap_err(), PoolError::SizeOutOfRange { size: 4, min: 8, max: 64 });
    pool.free(a);
    pool.free(b);
    let s = pool.stats();
    assert_eq!(s.current_blocks, 1);
    assert_eq!(s.free_count, 2);
    assert_eq!(s.allocation_count, 2);
}

#[test]
fn memory_block_bytes() {
    let mut b = MemoryBlock::with_data(b"abc");
    b.extend_from_slice(b"de");
    assert_eq!(b.len(), 5);
    b.mark_used();
    b.mark_free();
    assert!(b.is_empty());
    assert!(!b.is_used());
    assert_eq!(init_memory_pool().stats().current_blocks, 1000);
}

#[test]
fn buffer_pool_is_bounded() {
    let mut p = BufferPool::new(1);
    let a = p.acquire();
    assert!(a.is_empty());
    p.release(vec![1, 2, 3]);
    p.release(vec![4]);
    assert_eq!(p.pool.len(), 1);
    assert!(p.acquire().is_empty());
}

#[test]
fn workers_take_turns() {
    let mut w = WorkerSelector::new(3);
    assert_eq!(w.select(), Ok(0));
    assert_eq!(w.select(), Ok(1));
    assert_eq!(w.select(), Ok(2));
    assert_eq!(w.select(), Ok(0));
    assert!(w.shutdown());
    assert!(!w.shutdown());
    assert_eq!(w.select(), Err(SubmitError::ShuttingDown));
}

#[test]
fn config_defaults() {
    let c = Config::default();
    assert_eq!(c.defrag_timeout, 30);
    assert_eq!(c.stream_timeout, 300);
    assert_eq!(c.max_fragments, 1024);
    assert_eq!(c.max_streams, 10000);
}
