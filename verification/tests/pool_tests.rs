use quwon_utility::pool::{Error, Pool};

/// Allocate every slot, write a value into each, read it back, free
/// everything, and repeat, for each power-of-two slot size from 4 to 128.
#[test]
fn pool_run() {
    for i in 2..8 {
        let size: usize = 1 << i;
        const LEN: usize = 32;
        let mut pool = match Pool::new(size, LEN) {
            Ok(pool) => pool,
            Err(_) => panic!("pool creation failed"),
        };
        for _round in 0..2 {
            let mut arr = [0usize; LEN];
            for j in 0..LEN {
                assert!(!pool.is_empty());
                arr[j] = pool.allocate();
            }
            assert!(pool.is_empty());
            for j in 0..LEN {
                pool.write(arr[j], 0, j as u8);
            }
            for j in 0..LEN {
                assert_eq!(pool.read(arr[j], 0), j as u8);
            }
            for j in 0..LEN {
                pool.dealloc(arr[j]);
            }
            assert!(pool.is_full());
        }
    }
}

/// The concrete scenario: a pool of 32 four-byte slots, two full
/// allocate/write/verify/deallocate cycles with identical results.
#[test]
fn pool_cycle_twice_identical() {
    let mut pool = Pool::new(4, 32).unwrap();
    let mut first_round = Vec::new();
    for round in 0..2 {
        let mut ptrs = Vec::new();
        for _ in 0..32 {
            ptrs.push(pool.allocate());
        }
        assert!(pool.is_empty());
        for j in 0..32 {
            pool.write(ptrs[j], 0, j as u8);
        }
        for j in 0..32 {
            assert_eq!(pool.read(ptrs[j], 0), j as u8);
        }
        for j in 0..32 {
            pool.dealloc(ptrs[j]);
        }
        assert!(pool.is_full());
        if round == 0 {
            first_round = ptrs;
        } else {
            // the free stack is restored, so the second cycle hands out
            // exactly the same set of addresses (in stack order)
            let mut a = first_round.clone();
            let mut b = ptrs.clone();
            a.sort();
            b.sort();
            assert_eq!(a, b);
        }
    }
}

/// Both zero-size and zero-count requests fail with `Unsized`.
#[test]
fn pool_new_zero_is_unsized() {
    for n in [1usize, 2, 7, 32, 1000] {
        assert!(matches!(Pool::new(0, n), Err(Error::Unsized)));
        assert!(matches!(Pool::new(n, 0), Err(Error::Unsized)));
    }
    assert!(matches!(Pool::new(0, 0), Err(Error::Unsized)));
}

/// Layouts that leave the address space fail with `LayoutError`.
#[test]
fn pool_new_overflow_is_layout_error() {
    assert!(matches!(Pool::new(usize::MAX, 2), Err(Error::LayoutError)));
    assert!(matches!(Pool::new(usize::MAX / 2 + 2, 4), Err(Error::LayoutError)));
    assert!(matches!(Pool::new_at(8, 4, usize::MAX - 8), Err(Error::LayoutError)));
}

/// The slot layout reported by the getters: sizes are padded to the
/// machine word and strides rounded to the next power of two.
#[test]
fn pool_layout_getters() {
    let pool = Pool::new(1, 3).unwrap();
    assert_eq!(pool.size(), 8);
    assert_eq!(pool.align(), 8);
    assert_eq!(pool.id(), 0);
    assert_eq!(pool.end(), 24);

    let pool = Pool::new(9, 2).unwrap();
    assert_eq!(pool.size(), 9);
    assert_eq!(pool.align(), 16);

    let pool = Pool::new_at(12, 4, 1024).unwrap();
    assert_eq!(pool.size(), 12);
    assert_eq!(pool.align(), 16);
    assert_eq!(pool.id(), 1024);
    assert_eq!(pool.end(), 1024 + 16 * 4);
}

/// `is_empty` flips exactly at the last allocation; `is_full` exactly at
/// the last deallocation.
#[test]
fn pool_empty_and_full_boundaries() {
    let mut pool = Pool::new(16, 4).unwrap();
    assert!(pool.is_full());
    let mut ptrs = Vec::new();
    for _ in 0..4 {
        assert!(!pool.is_empty());
        ptrs.push(pool.allocate());
        assert!(!pool.is_full());
    }
    assert!(pool.is_empty());
    for p in ptrs.iter() {
        assert!(!pool.is_full());
        pool.dealloc(*p);
        assert!(!pool.is_empty());
    }
    assert!(pool.is_full());
}

/// Slots are handed out from the top of the arena downward at first, and
/// every address is slot-aligned within the arena.
#[test]
fn pool_addresses_are_slot_aligned() {
    let mut pool = Pool::new_at(8, 8, 4096).unwrap();
    for _ in 0..8 {
        let p = pool.allocate();
        assert!(p >= 4096 && p < 4096 + 64);
        assert_eq!((p - 4096) % 8, 0);
    }
}
