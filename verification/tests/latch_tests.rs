use artmap::latch::{HybridLatch, LockError, Pause, SpinBackoff, LOCK_BIT, VERSION_STEP};

#[test]
fn test_latch_lifecycle() {
    let mut latch = HybridLatch::new();
    assert!(!latch.is_obsolete());

    let v0 = latch.read_version().expect("should read initial version");
    assert!(latch.validate(v0));

    let v_lock = latch.lock().expect("should acquire lock");
    assert_eq!(v_lock, v0);
    assert!(
        latch.read_version().is_none(),
        "read_version must return None while locked"
    );
    assert!(!latch.validate(v0), "validation must fail while locked");

    latch.unlock();
    let v1 = latch.read_version().expect("should read updated version");
    assert_eq!(v1, v0 + VERSION_STEP);
    assert!(!latch.validate(v0));
    assert!(latch.validate(v1));

    let _ = latch.lock().expect("should acquire lock again");
    latch.mark_obsolete_and_unlock();
    assert!(latch.is_obsolete());
    assert!(latch.read_version().is_none());
    assert!(!latch.validate(v1));
    assert_eq!(
        latch.lock(),
        Err(LockError::Obsolete),
        "cannot lock obsolete node"
    );
}

#[test]
fn a_stale_version_cannot_be_locked() {
    let mut latch = HybridLatch::new();
    assert_eq!(latch.lock_version(4), Err(LockError::Obsolete));
    assert_eq!(latch.lock_version(0), Ok(0));
    assert_eq!(latch.lock_version(0), Err(LockError::Obsolete));
    assert!(latch.validate(LOCK_BIT));
    latch.unlock();
    assert_eq!(latch.read_version(), Some(VERSION_STEP));
}

#[test]
fn try_lock_tells_why_it_failed() {
    let mut latch = HybridLatch::default();
    assert_eq!(latch.try_lock(), Ok(0));
    assert_eq!(latch.try_lock(), Err(false));
    latch.mark_obsolete_and_unlock();
    assert_eq!(latch.try_lock(), Err(true));
}

#[test]
fn backoff_doubles_and_then_yields() {
    let mut backoff = SpinBackoff::new();
    let mut pauses = Vec::new();
    for _ in 0..18 {
        pauses.push(backoff.spin());
    }
    for (i, turns) in [1, 2, 4, 8, 16, 32, 64, 128, 256, 256, 256].iter().enumerate() {
        assert_eq!(pauses[i], Pause::Turns(*turns));
    }
    for pause in &pauses[11..] {
        assert_eq!(*pause, Pause::Yield);
    }
}
