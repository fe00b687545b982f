use jin::lru::LRUPolicy;
use jin::policy::{Policy, PolicyErr};

#[test]
fn lru_evicts_in_unpin_order() {
    let mut policy = LRUPolicy::new();
    for f in [4u32, 1, 7] {
        policy.pin(f);
    }
    for f in [4u32, 1, 7] {
        policy.unpin(f);
    }
    assert_eq!(policy.evict(), Ok(4));
    assert_eq!(policy.evict(), Ok(1));
    assert_eq!(policy.evict(), Ok(7));
    assert_eq!(policy.evict(), Err(PolicyErr::NoEvictableFrame));
}

#[test]
fn lru_empty_policy_has_nothing_to_evict() {
    let mut policy = LRUPolicy::new();
    assert_eq!(policy.evict(), Err(PolicyErr::NoEvictableFrame));
}

#[test]
fn lru_pin_removes_candidate() {
    let mut policy = LRUPolicy::new();
    policy.unpin(1);
    policy.unpin(2);
    policy.unpin(3);
    policy.pin(2);
    policy.pin(9);
    assert_eq!(policy.evict(), Ok(1));
    assert_eq!(policy.evict(), Ok(3));
    assert_eq!(policy.evict(), Err(PolicyErr::NoEvictableFrame));
}

#[test]
fn lru_unpin_again_moves_to_most_recent() {
    let mut policy = LRUPolicy::new();
    policy.unpin(1);
    policy.unpin(2);
    policy.unpin(1);
    assert_eq!(policy.evict(), Ok(2));
    assert_eq!(policy.evict(), Ok(1));
    assert_eq!(policy.evict(), Err(PolicyErr::NoEvictableFrame));
}

#[test]
fn lru_fresh_policy_then_unpins_evict_in_order() {
    let mut policy = LRUPolicy::new();
    policy.unpin(10);
    policy.unpin(20);
    policy.unpin(30);
    assert_eq!(policy.evict(), Ok(10));
    policy.unpin(10);
    assert_eq!(policy.evict(), Ok(20));
    assert_eq!(policy.evict(), Ok(30));
    assert_eq!(policy.evict(), Ok(10));
}
