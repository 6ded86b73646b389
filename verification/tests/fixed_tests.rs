use quwon_utility::fixed::{Error, FixedAlloc, PoolList};
use quwon_utility::pool;
use quwon_utility::pool::Pool;

/// The same arena exercise as the pool suite, driven once more for each
/// power-of-two slot size from 4 to 128: fill, write, verify, drain,
/// twice.
#[test]
fn fixed_run() {
    for i in 2..8 {
        let size: usize = 1 << i;
        const LEN: usize = 32;
        let mut pool = match Pool::new(size, LEN) {
            Ok(pool) => pool,
            Err(_) => panic!("pool creation failed"),
        };
        for _round in 0..2 {
            let mut arr = [0usize; LEN];
            for j in 0..LEN {
                assert!(!pool.is_empty());
                arr[j] = pool.allocate();
            }
            assert!(pool.is_empty());
            for j in 0..LEN {
                pool.write(arr[j], 0, j as u8);
            }
            for j in 0..LEN {
                assert_eq!(pool.read(arr[j], 0), j as u8);
            }
            for j in 0..LEN {
                pool.dealloc(arr[j]);
            }
            assert!(pool.is_full());
        }
    }
}

/// Owner lookup finds the right pool for every issued address and rejects
/// addresses that no pool of the list issued.
#[test]
fn pool_list_find_owner() {
    let mut list = PoolList::new();
    // insert out of order; the list keeps itself sorted by arena base
    let ranges = [(3000usize, 4usize), (1000, 8), (2000, 2)];
    for (base, len) in ranges {
        let pool = Pool::new_at(16, len, base).unwrap();
        let _ = list.insert(pool);
    }
    assert_eq!(list.len(), 3);
    assert_eq!(list.pool_at(0).id(), 1000);
    assert_eq!(list.pool_at(1).id(), 2000);
    assert_eq!(list.pool_at(2).id(), 3000);

    let mut issued = Vec::new();
    for i in 0..3 {
        while !list.pool_at(i).is_empty() {
            let ptr = list.allocate_at(i);
            issued.push((i, ptr));
        }
    }
    for (i, ptr) in issued.iter() {
        let owner = list.find_owner(*ptr).expect("issued address has an owner");
        assert_eq!(owner, *i);
        let p = list.pool_at(owner);
        assert!(p.id() <= *ptr && *ptr < p.end());
    }
    assert!(list.find_owner(999).is_none());
    assert!(list.find_owner(1000 + 16 * 8).is_none());
    assert!(list.find_owner(2500).is_none());
    assert!(list.find_owner(usize::MAX).is_none());

    // give everything back through the lookup
    for (_, ptr) in issued.iter() {
        let owner = list.find_owner(*ptr).unwrap();
        list.dealloc_at(owner, *ptr);
    }
    for i in 0..3 {
        assert!(list.pool_at(i).is_full());
    }
}

/// An exhausted class grows by one pool; addresses of one class never
/// overlap and are aligned to the class slot size.
#[test]
fn fixed_alloc_grows_on_demand() {
    let mut fa = FixedAlloc::new(6, 32);
    let mut ptrs = Vec::new();
    for _ in 0..70 {
        let ptr = fa.allocate(24).expect("allocation fits the classes");
        // 24 bytes round up to the 32-byte class
        assert_eq!(ptr % 32, 0);
        ptrs.push(ptr);
    }
    for a in 0..ptrs.len() {
        for b in (a + 1)..ptrs.len() {
            let (lo, hi) = if ptrs[a] < ptrs[b] {
                (ptrs[a], ptrs[b])
            } else {
                (ptrs[b], ptrs[a])
            };
            assert!(lo + 24 <= hi, "granted ranges must not overlap");
        }
    }
    for ptr in ptrs {
        fa.dealloc(ptr, 24);
    }
}

/// Bytes written through the dispatcher survive later allocations in the
/// same and in other classes.
#[test]
fn fixed_alloc_bytes_survive_growth() {
    let mut fa = FixedAlloc::new(6, 32);
    let first = fa.allocate(8).unwrap();
    fa.write(first, 8, 0, 0xAB);
    let mut later = Vec::new();
    for _ in 0..5 {
        later.push(fa.allocate(8).unwrap());
        later.push(fa.allocate(100).unwrap());
    }
    assert_eq!(fa.read(first, 8, 0), 0xAB);
    for (k, ptr) in later.iter().enumerate() {
        let size = if k % 2 == 0 { 8 } else { 100 };
        fa.dealloc(*ptr, size);
    }
    assert_eq!(fa.read(first, 8, 0), 0xAB);
}

/// A class whose new pool cannot be laid out reports the wrapped layout
/// failure and nothing else.
#[test]
fn fixed_alloc_layout_failure() {
    let mut fa = FixedAlloc::new(6, 1usize << 61);
    match fa.allocate(8) {
        Err(Error::PoolError(pool::Error::LayoutError)) => {},
        _ => panic!("expected a wrapped layout error"),
    }
}
