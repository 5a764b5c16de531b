use vibeos::per_cpu::{StackCache, STACK_CACHE_LEN};

/// A stack handle as the cache sees it: just its guard address.
#[derive(Debug, PartialEq)]
struct FakeStack(u64);

fn fake_stack(guard: u64) -> FakeStack {
    FakeStack(guard)
}

#[test]
fn stack_cache_holds_two() {
    let mut c = StackCache::new();
    assert!(c.is_empty());
    assert!(c.take().is_none());
    assert!(c.put(fake_stack(0x1000)).is_ok());
    assert_eq!(c.len(), 1);
    assert!(!c.is_full());
    assert!(c.put(fake_stack(0x2000)).is_ok());
    assert!(c.is_full());
    match c.put(fake_stack(0x3000)) {
        Err(s) => assert_eq!(s.0, 0x3000),
        Ok(()) => panic!("third stack kept"),
    }
    assert_eq!(c.len(), STACK_CACHE_LEN);
    assert_eq!(c.take().map(|s| s.0), Some(0x2000));
    assert_eq!(c.take().map(|s| s.0), Some(0x1000));
    assert!(c.take().is_none());
    assert!(c.is_empty());
    assert!(c.put(fake_stack(0x4000)).is_ok());
    assert_eq!(c.len(), 1);
    assert_eq!(StackCache::<FakeStack>::default().len(), 0);
}
