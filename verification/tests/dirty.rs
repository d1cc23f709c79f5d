use lighter::dirty::DirtyCounter;
use lighter::flags::DirtyFlags;

#[test]
fn test_dirty_counter() {
    let mut counter = DirtyCounter::new();

    counter.increment(DirtyFlags::layout());
    assert!(counter.is_any_dirty(DirtyFlags::layout()));
    assert!(counter.is_any_dirty(DirtyFlags::layout().union(DirtyFlags::paint())));
    assert!(!counter.is_any_dirty(DirtyFlags::paint()));

    counter.decrement(DirtyFlags::layout());
    assert!(!counter.is_any_dirty(DirtyFlags::layout()));
}

#[test]
fn counts_follow_increments_and_decrements() {
    let mut counter = DirtyCounter::new();
    counter.increment(DirtyFlags::all());
    counter.increment(DirtyFlags::paint());
    assert_eq!(counter.count(0), 1);
    assert_eq!(counter.count(1), 2);
    counter.decrement(DirtyFlags::paint());
    assert!(counter.is_any_dirty(DirtyFlags::paint()));
    counter.decrement(DirtyFlags::all());
    assert!(!counter.is_any_dirty(DirtyFlags::all()));
    assert!(!DirtyCounter::default().is_any_dirty(DirtyFlags::all()));
}
