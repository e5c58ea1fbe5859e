use priomux::limiter::PermitPool;

#[test]
fn pool_starts_full() {
    let p = PermitPool::new(3);
    assert_eq!(p.capacity(), 3);
    assert_eq!(p.available(), 3);
}

#[test]
fn acquire_and_release_move_one_permit() {
    let mut p = PermitPool::new(2);
    p.acquire();
    assert_eq!(p.available(), 1);
    p.acquire();
    assert_eq!(p.available(), 0);
    p.release();
    assert_eq!(p.available(), 1);
    p.release();
    assert_eq!(p.available(), 2);
    assert_eq!(p.capacity(), 2);
}

#[test]
fn capacity_one_admits_one_at_a_time() {
    // priority order [A, B, C] with a single permit: each next worker may
    // only be admitted once the previous one has released
    let mut p = PermitPool::new(1);
    let order = ["A", "B", "C"];
    let mut admitted: Vec<&str> = Vec::new();
    for name in order {
        // the caller blocks here until a permit is free; with one permit
        // and sequential completion it is always free by now
        assert!(p.available() > 0);
        p.acquire();
        assert_eq!(p.available(), 0);
        admitted.push(name);
        // no second worker can be admitted while this one runs
        p.release();
    }
    assert_eq!(admitted, vec!["A", "B", "C"]);
}
