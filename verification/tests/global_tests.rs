use quwon_utility::fixed::{FixedAlloc, PoolList};
use quwon_utility::global::{routed, Memory, Placement};
use quwon_utility::pool::Pool;

/// The front-end exercise: 123 word-sized allocations, a value written
/// into each, read back, and everything deallocated.
#[test]
fn global_run() {
    const LEN: usize = 123;
    let mut mem = Memory::new();
    let mut ptrs = [0usize; LEN];
    for i in 0..LEN {
        match mem.allocate(8, 8).expect("word requests fit the classes") {
            Placement::Pooled(ptr) => ptrs[i] = ptr,
            Placement::Fallback => panic!("word requests route to the pools"),
        }
    }
    for i in 0..LEN {
        mem.write(ptrs[i], 8, 0, i as u8);
    }
    for i in 0..LEN {
        assert_eq!(mem.read(ptrs[i], 8, 0), i as u8);
    }
    for i in 0..LEN {
        mem.dealloc(ptrs[i], 8, 8);
    }
}

/// The full composition, leaves first: one pool cycle and one front-end
/// cycle.
#[test]
fn mod_run() {
    let mut pool = Pool::new(8, 16).unwrap();
    let mut ptrs = Vec::new();
    for _ in 0..16 {
        ptrs.push(pool.allocate());
    }
    assert!(pool.is_empty());
    for p in ptrs.iter() {
        pool.dealloc(*p);
    }
    assert!(pool.is_full());

    let mut mem = Memory::new();
    match mem.allocate(64, 32).unwrap() {
        Placement::Pooled(ptr) => {
            mem.write(ptr, 64, 0, 7);
            assert_eq!(mem.read(ptr, 64, 0), 7);
            mem.dealloc(ptr, 64, 32);
        },
        Placement::Fallback => panic!("a 64-byte request routes to the pools"),
    }
}

/// The whole crate end to end: arena, dispatcher and front end.
#[test]
fn lib_run() {
    let mut list = PoolList::new();
    let _ = list.insert(Pool::new_at(4, 8, 512).unwrap());
    let ptr = list.allocate_at(0);
    assert_eq!(list.find_owner(ptr), Some(0));
    list.dealloc_at(0, ptr);

    let mut fa = FixedAlloc::new(6, 32);
    let a = fa.allocate(16).unwrap();
    fa.dealloc(a, 16);

    let mut mem = Memory::new();
    match mem.allocate(8, 8).unwrap() {
        Placement::Pooled(p) => mem.dealloc(p, 8, 8),
        Placement::Fallback => panic!("a word request routes to the pools"),
    }
}

/// The routing policy: requests beyond the largest class, or with an
/// alignment stricter than the class's, fall back to the system allocator;
/// everything else is pooled.
#[test]
fn routing_policy() {
    assert!(routed(1, 1));
    assert!(routed(8, 8));
    assert!(routed(9, 16));
    assert!(routed(256, 256));
    assert!(!routed(257, 8));
    assert!(!routed(1000, 8));
    assert!(!routed(8, 16)); // the word class is only 8-byte aligned
    assert!(!routed(8, 512));

    let mut mem = Memory::new();
    assert!(matches!(mem.allocate(300, 8), Ok(Placement::Fallback)));
    assert!(matches!(mem.allocate(8, 512), Ok(Placement::Fallback)));
    assert!(matches!(mem.allocate(200, 256), Ok(Placement::Pooled(_))));
}

/// Pooled addresses honour the requested alignment.
#[test]
fn pooled_addresses_are_aligned() {
    let mut mem = Memory::new();
    for (size, align) in [(1usize, 1usize), (5, 4), (8, 8), (24, 8), (100, 64), (256, 256)] {
        match mem.allocate(size, align).unwrap() {
            Placement::Pooled(ptr) => assert_eq!(ptr % align, 0),
            Placement::Fallback => panic!("these requests all fit a class"),
        }
    }
}

/// Two interleaved streams of front-end traffic of one size: no two
/// simultaneously live allocations ever overlap, and after all operations
/// the same requests are served again exactly as a serial run would serve
/// them.
#[test]
fn interleaved_traffic_stays_disjoint() {
    let mut mem = Memory::new();
    let mut live_a: Vec<usize> = Vec::new();
    let mut live_b: Vec<usize> = Vec::new();
    // a fixed interleaving of two actors: each step allocates for one
    // actor or frees its oldest allocation
    let steps: [(u8, bool); 16] = [
        (0, true), (1, true), (0, true), (1, true), (0, false), (1, true), (0, true), (1, false),
        (0, true), (0, false), (1, true), (1, false), (0, true), (1, true), (0, false), (1, false),
    ];
    let mut ever_issued: Vec<usize> = Vec::new();
    for (actor, is_alloc) in steps {
        let live = if actor == 0 { &mut live_a } else { &mut live_b };
        if is_alloc {
            match mem.allocate(48, 8).unwrap() {
                Placement::Pooled(ptr) => {
                    live.push(ptr);
                    ever_issued.push(ptr);
                },
                Placement::Fallback => panic!("48-byte requests route to the pools"),
            }
        } else {
            let ptr = live.remove(0);
            mem.dealloc(ptr, 48, 8);
        }
        let mut all: Vec<usize> = live_a.iter().chain(live_b.iter()).copied().collect();
        all.sort();
        for w in all.windows(2) {
            assert!(w[0] + 48 <= w[1], "live ranges must not overlap");
        }
    }
    for ptr in live_a.into_iter().chain(live_b.into_iter()) {
        mem.dealloc(ptr, 48, 8);
    }
    // with every slot returned, a fresh burst is served from the very
    // addresses issued before: the free stack was restored, and the final
    // state matches a serial execution of the same operations
    let mut final_ptrs = Vec::new();
    for _ in 0..4 {
        match mem.allocate(48, 8).unwrap() {
            Placement::Pooled(ptr) => final_ptrs.push(ptr),
            Placement::Fallback => unreachable!(),
        }
    }
    for ptr in final_ptrs.iter() {
        assert_eq!(ptr % 64, 0);
        assert!(ever_issued.contains(ptr), "freed slots are reused");
    }
    for w in 0..final_ptrs.len() {
        for v in (w + 1)..final_ptrs.len() {
            assert_ne!(final_ptrs[w], final_ptrs[v]);
        }
    }
    for ptr in final_ptrs {
        mem.dealloc(ptr, 48, 8);
    }
}
