use taskflowrs::gpu_backend::{BackendKind, StubBackend};
use taskflowrs::gpu_stream::{StreamAssignment, StreamPool, StreamSet};

fn stub_backend() -> StubBackend {
    StubBackend::new(0)
}

#[test]
fn test_stream_pool_round_robin() {
    let mut backend = stub_backend();
    let mut pool = StreamPool::new(&mut backend, 4, StreamAssignment::RoundRobin).unwrap();
    assert_eq!(pool.len(), 4);

    let g0 = pool.acquire().unwrap();
    let g1 = pool.acquire().unwrap();
    assert_ne!(g0.stream(&pool).id(), g1.stream(&pool).id());
}

#[test]
fn test_stream_pool_least_pending() {
    let mut backend = stub_backend();
    let mut pool = StreamPool::new(&mut backend, 3, StreamAssignment::LeastPending).unwrap();

    let g = pool.acquire().unwrap();
    g.record_op(&mut pool);
    g.record_op(&mut pool);
    let g2 = pool.acquire().unwrap();
    assert!(g2.pending_ops(&pool) < g.pending_ops(&pool));
}

#[test]
fn test_stream_guard_decrements_on_drop() {
    let mut backend = stub_backend();
    let mut pool = StreamPool::new(&mut backend, 2, StreamAssignment::LeastPending).unwrap();
    {
        let g = pool.acquire().unwrap();
        assert_eq!(g.pending_ops(&pool), 1);
        pool.release(g);
    }
    let g2 = pool.acquire().unwrap();
    assert_eq!(g2.pending_ops(&pool), 1);
}

#[test]
fn test_stream_set() {
    let mut backend = stub_backend();
    let set = StreamSet::new(&mut backend, 3, "compute").unwrap();
    assert_eq!(set.depth(), 3);
    assert_eq!(set.get(0).id(), set.get(3).id());
    assert_ne!(set.get(0).id(), set.get(1).id());
    set.synchronize_all().unwrap();
}

#[test]
fn test_pool_synchronize_all() {
    let mut backend = stub_backend();
    let pool = StreamPool::new(&mut backend, 4, StreamAssignment::RoundRobin).unwrap();
    pool.synchronize_all().unwrap();
}

#[test]
fn pool_streams_are_numbered_and_labelled() {
    let mut backend = stub_backend();
    let set = StreamSet::new(&mut backend, 2, "h2d").unwrap();
    assert_eq!(set.get(1).label(), "h2d-1");
    let pool = StreamPool::new(&mut backend, 3, StreamAssignment::RoundRobin).unwrap();
    let ids: Vec<u64> = pool.iter().iter().map(|s| s.id()).collect();
    assert_eq!(ids, vec![3, 4, 5]);
    assert_eq!(pool.iter()[2].label(), "Stub-stream-2");
}

#[test]
fn empty_pool_is_refused() {
    let mut backend = stub_backend();
    let err = StreamPool::new(&mut backend, 0, StreamAssignment::RoundRobin).err().unwrap();
    assert_eq!(err.backend, BackendKind::Stub);
    assert_eq!(err.message, "StreamPool count must be > 0");
    assert_eq!(backend.create_stream().unwrap().id, 1);
}

#[test]
fn round_robin_wraps_around_the_pool() {
    let mut backend = stub_backend();
    let mut pool = StreamPool::new(&mut backend, 2, StreamAssignment::RoundRobin).unwrap();
    let a = pool.acquire().unwrap();
    let b = pool.acquire().unwrap();
    let c = pool.acquire().unwrap();
    assert_eq!(a.stream(&pool).id(), c.stream(&pool).id());
    assert_ne!(a.stream(&pool).id(), b.stream(&pool).id());
    assert_eq!(c.pending_ops(&pool), 2);
    pool.release(c);
    assert_eq!(a.pending_ops(&pool), 1);
}
