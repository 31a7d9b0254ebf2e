//! Admission-gate permit accounting.

use horsehttp::Semaphore;

#[test]
fn fresh_gate_has_all_permits_free() {
    let s = Semaphore::new(4);
    assert_eq!(s.capacity(), 4);
    assert_eq!(s.available(), 4);
}

#[test]
fn acquires_beyond_capacity_are_refused_until_a_release() {
    let mut s = Semaphore::new(2);
    assert!(s.try_acquire());
    assert!(s.try_acquire());
    assert!(!s.try_acquire());
    assert_eq!(s.available(), 0);
    s.release();
    assert!(s.try_acquire());
    assert!(!s.try_acquire());
}

#[test]
fn permit_count_never_exceeds_capacity() {
    let mut s = Semaphore::new(3);
    s.acquire();
    s.acquire();
    s.release();
    s.release();
    assert_eq!(s.available(), 3);
    assert!(s.available() <= s.capacity());
}

#[test]
fn zero_capacity_gate_admits_nobody() {
    let mut s = Semaphore::new(0);
    assert!(!s.try_acquire());
}
