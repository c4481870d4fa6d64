use cmd_buffer_pool::pool::CommandBufferLevel;
use cmd_buffer_pool::pool::OomError;
use cmd_buffer_pool::pool::StandardCommandPool;

#[test]
fn reuse_command_buffers() {
    let mut pool = StandardCommandPool::new(1, 0);
    let this_thread = 11u64;

    // Avoid the weak reference to the thread's sub-pool expiring.
    let cb_hold_weakref = pool
        .allocate(this_thread, CommandBufferLevel::Primary, 1)
        .unwrap()
        .pop()
        .unwrap();

    let cb = pool
        .allocate(this_thread, CommandBufferLevel::Primary, 1)
        .unwrap()
        .pop()
        .unwrap();
    let raw = cb.inner();
    pool.recycle(cb.into_alloc());

    let cb2 = pool
        .allocate(this_thread, CommandBufferLevel::Primary, 1)
        .unwrap()
        .pop()
        .unwrap();
    assert_eq!(raw, cb2.inner());

    pool.recycle(cb2.into_alloc());
    pool.recycle(cb_hold_weakref.into_alloc());
}

#[test]
fn pool_kept_alive_by_allocs() {
    let mut pool = StandardCommandPool::new(1, 0);

    let cb = pool
        .allocate(5, CommandBufferLevel::Primary, 1)
        .unwrap()
        .pop()
        .unwrap();
    pool.drop_owner();
    assert!(pool.upgrade_weak());

    pool.recycle(cb.into_alloc());
    assert!(!pool.upgrade_weak());
}

#[test]
fn level_isolation() {
    let mut pool = StandardCommandPool::new(1, 0);
    let t = 3u64;
    let hold = pool
        .allocate(t, CommandBufferLevel::Primary, 1)
        .unwrap()
        .pop()
        .unwrap();
    let p = pool
        .allocate(t, CommandBufferLevel::Primary, 1)
        .unwrap()
        .pop()
        .unwrap();
    let s = pool
        .allocate(t, CommandBufferLevel::Secondary, 1)
        .unwrap()
        .pop()
        .unwrap();
    let p_raw = p.inner();
    let s_raw = s.inner();
    assert_ne!(p_raw, s_raw);
    pool.recycle(p.into_alloc());
    pool.recycle(s.into_alloc());
    // both queues are non-empty now; a secondary request must never be
    // answered with the parked primary handle, nor the other way round
    let s2 = pool
        .allocate(t, CommandBufferLevel::Secondary, 1)
        .unwrap()
        .pop()
        .unwrap();
    assert_eq!(s2.inner(), s_raw);
    let p2 = pool
        .allocate(t, CommandBufferLevel::Primary, 1)
        .unwrap()
        .pop()
        .unwrap();
    assert_eq!(p2.inner(), p_raw);
    pool.recycle(p2.into_alloc());
    pool.recycle(s2.into_alloc());
    pool.recycle(hold.into_alloc());
}

#[test]
fn cross_thread_recycling() {
    let mut pool = StandardCommandPool::new(1, 0);
    let thread_a = 1u64;
    let thread_b = 2u64;
    let hold_a = pool
        .allocate(thread_a, CommandBufferLevel::Primary, 1)
        .unwrap()
        .pop()
        .unwrap();
    let cb = pool
        .allocate(thread_a, CommandBufferLevel::Primary, 1)
        .unwrap()
        .pop()
        .unwrap();
    let raw = cb.inner();
    // the finished handle travels to thread B, which drops it there; it must
    // route back to thread A's sub-pool, not to B's
    let transferred = cb.into_alloc();
    pool.recycle(transferred);
    let on_b = pool
        .allocate(thread_b, CommandBufferLevel::Primary, 1)
        .unwrap()
        .pop()
        .unwrap();
    assert_ne!(on_b.inner(), raw);
    let on_a = pool
        .allocate(thread_a, CommandBufferLevel::Primary, 1)
        .unwrap()
        .pop()
        .unwrap();
    assert_eq!(on_a.inner(), raw);
    pool.recycle(on_b.into_alloc());
    pool.recycle(on_a.into_alloc());
    pool.recycle(hold_a.into_alloc());
}

#[test]
fn stale_entry_purge() {
    let mut pool = StandardCommandPool::new(1, 0);
    let thread_a = 8u64;
    let thread_b = 9u64;
    let cb = pool
        .allocate(thread_a, CommandBufferLevel::Primary, 1)
        .unwrap()
        .pop()
        .unwrap();
    pool.recycle(cb.into_alloc());
    // thread A's sub-pool is unreferenced now; its record lingers until the
    // next allocation call purges it
    assert!(pool.has_thread_entry(thread_a));
    assert_eq!(pool.thread_count(), 1);
    let cb_b = pool
        .allocate(thread_b, CommandBufferLevel::Primary, 1)
        .unwrap()
        .pop()
        .unwrap();
    assert!(!pool.has_thread_entry(thread_a));
    assert!(pool.has_thread_entry(thread_b));
    assert_eq!(pool.thread_count(), 1);
    pool.recycle(cb_b.into_alloc());
}

#[test]
fn empty_batch_allocates_nothing() {
    let mut pool = StandardCommandPool::new(1, 0);
    let t = 4u64;
    let none = pool.allocate(t, CommandBufferLevel::Secondary, 0).unwrap();
    assert_eq!(none.len(), 0);
    // no native buffer was created: the very next buffer is the first id
    let first = pool
        .allocate(t, CommandBufferLevel::Primary, 1)
        .unwrap()
        .pop()
        .unwrap();
    assert_eq!(first.inner(), 0);
    pool.recycle(first.into_alloc());
}

#[test]
fn out_of_memory_is_whole_call() {
    let mut pool = StandardCommandPool::new_with_capacity(1, 0, 2);
    let t = 6u64;
    assert_eq!(
        pool.allocate(t, CommandBufferLevel::Primary, 3).unwrap_err(),
        OomError::OutOfDeviceMemory
    );
    // the failed call issued nothing; both native buffers are still there
    let hold = pool
        .allocate(t, CommandBufferLevel::Primary, 1)
        .unwrap()
        .pop()
        .unwrap();
    let only = pool
        .allocate(t, CommandBufferLevel::Primary, 1)
        .unwrap()
        .pop()
        .unwrap();
    let raw = only.inner();
    pool.recycle(only.into_alloc());
    // one recycled handle cannot stretch to two: the whole call fails and the
    // popped handle goes back to its queue
    assert!(pool.allocate(t, CommandBufferLevel::Primary, 2).is_err());
    let again = pool
        .allocate(t, CommandBufferLevel::Primary, 1)
        .unwrap()
        .pop()
        .unwrap();
    assert_eq!(again.inner(), raw);
    pool.recycle(again.into_alloc());
    pool.recycle(hold.into_alloc());
}

#[test]
fn recycled_precede_fresh() {
    let mut pool = StandardCommandPool::new(1, 0);
    let t = 2u64;
    let mut batch = pool.allocate(t, CommandBufferLevel::Primary, 3).unwrap();
    assert_eq!(batch.len(), 3);
    let b2 = batch.pop().unwrap();
    let b1 = batch.pop().unwrap();
    let b0 = batch.pop().unwrap();
    assert_eq!(b0.inner(), 0);
    assert_eq!(b1.inner(), 1);
    assert_eq!(b2.inner(), 2);
    // park 1 then 2; a batch of three gives them back in that order, then one
    // freshly allocated buffer
    pool.recycle(b1.into_alloc());
    pool.recycle(b2.into_alloc());
    let refill = pool.allocate(t, CommandBufferLevel::Primary, 3).unwrap();
    let ids: Vec<u64> = refill.iter().map(|b| b.inner()).collect();
    assert_eq!(ids, vec![1, 2, 3]);
    for b in refill {
        pool.recycle(b.into_alloc());
    }
    pool.recycle(b0.into_alloc());
}

#[test]
fn many_actors_all_handles_distinct() {
    let mut pool = StandardCommandPool::new(1, 0);
    let mut live: Vec<cmd_buffer_pool::pool::StandardCommandPoolAlloc> = Vec::new();
    for t in 0..4u64 {
        let batch = pool.allocate(t, CommandBufferLevel::Primary, 5).unwrap();
        for b in batch {
            live.push(b.into_alloc());
        }
    }
    let mut seen: Vec<u64> = live.iter().map(|a| a.inner()).collect();
    seen.sort();
    for w in seen.windows(2) {
        assert_ne!(w[0], w[1]);
    }
    // drop and reallocate in waves; ids stay distinct at every instant
    for round in 0..3 {
        let keep = live.split_off(live.len() / 2);
        for a in live {
            pool.recycle(a);
        }
        live = keep;
        let t = round as u64;
        let batch = pool.allocate(t, CommandBufferLevel::Primary, 4).unwrap();
        for b in batch {
            live.push(b.into_alloc());
        }
        let mut ids: Vec<u64> = live.iter().map(|a| a.inner()).collect();
        ids.sort();
        for w in ids.windows(2) {
            assert_ne!(w[0], w[1]);
        }
    }
    for a in live {
        pool.recycle(a);
    }
    // the first owner reference still keeps the registry alive
    assert!(pool.upgrade_weak());
}

#[test]
fn accessors_pass_through() {
    let mut pool = StandardCommandPool::new(77, 3);
    assert_eq!(pool.device(), 77);
    assert_eq!(pool.queue_family(), 3);
    let b = pool
        .allocate(1, CommandBufferLevel::Secondary, 1)
        .unwrap()
        .pop()
        .unwrap();
    assert_eq!(b.queue_family(), 3);
    assert_eq!(b.device(), 77);
    let raw = b.inner();
    let a = b.into_alloc();
    assert_eq!(a.inner(), raw);
    assert_eq!(a.queue_family(), 3);
    assert_eq!(a.device(), 77);
    pool.recycle(a);
}

#[test]
fn owners_keep_registry_alive_too() {
    let mut pool = StandardCommandPool::new(1, 0);
    pool.add_owner();
    pool.drop_owner();
    assert!(pool.upgrade_weak());
    pool.drop_owner();
    assert!(!pool.upgrade_weak());
}
