use conc_blocks::cache::{Cache, Claim};
use conc_blocks::thread_pool::ThreadPoolInner;
use std::cell::Cell;

#[test]
fn job_count_drains() {
    let mut inner = ThreadPoolInner::new();
    assert!(inner.is_idle());
    for _ in 0..100 {
        inner.start_job();
    }
    assert_eq!(inner.job_count(), 100);
    for i in 0..100 {
        let idle = inner.finish_job();
        assert_eq!(idle, i == 99);
    }
    assert!(inner.is_idle());
}

#[test]
fn single_flight_cache() {
    let mut cache: Cache<u64, u64> = Cache::new();
    let calls = Cell::new(0);
    for _ in 0..32 {
        let v = cache.get_or_insert_with(7, |k| {
            calls.set(calls.get() + 1);
            k * 2
        });
        assert_eq!(v, 14);
    }
    assert_eq!(calls.get(), 1);
}

#[test]
fn pending_key_makes_callers_wait() {
    let mut cache: Cache<u64, u64> = Cache::new();
    assert!(matches!(cache.claim(&7), Claim::Produce));
    for _ in 0..31 {
        assert!(matches!(cache.claim(&7), Claim::Wait));
    }
    cache.fulfil(7, 14);
    assert!(matches!(cache.claim(&7), Claim::Ready(14)));
}

#[test]
fn cross_key_producers_both_elected() {
    let mut cache: Cache<u64, u64> = Cache::new();
    assert!(matches!(cache.claim(&1), Claim::Produce));
    assert!(matches!(cache.claim(&2), Claim::Produce));
    cache.fulfil(2, 20);
    assert!(matches!(cache.claim(&1), Claim::Wait));
    assert!(matches!(cache.claim(&2), Claim::Ready(20)));
}

#[test]
fn producer_receives_key() {
    let mut cache: Cache<String, usize> = Cache::new();
    assert_eq!(cache.get_or_insert_with("abc".to_string(), |k| k.len()), 3);
    assert_eq!(cache.get_or_insert_with("abc".to_string(), |_| 99), 3);
}
