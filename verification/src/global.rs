//! The process-wide allocation front end.
//!
//! [`Memory`] implements the runtime's general allocation interface over
//! the size-classed pools: a request whose size and alignment fit a
//! configured class is served from the pools, everything else is handed
//! back to the embedding program's system fallback. The dispatcher is
//! created lazily, by the first request that routes to the pools.
//!
//! `Memory` itself is not synchronized. The embedding program wraps one
//! instance in its one-time-initialized, mutually exclusive global handle
//! and serializes all calls through it, which makes every call atomic with
//! respect to every other.

use vstd::prelude::*;
use vstd::arithmetic::power2::lemma2_to64;
use crate::fixed;
use crate::fixed::{class_of, class_size, lemma_class_of_bounds, lemma_class_of_unique,
    lemma_class_size_increases, lemma_class_size_pow2, FixedAlloc};
use crate::pool;

verus! {

/// Number of size classes the process-wide allocator serves: slot sizes
/// from one machine word, doubling up to `NUM_CLASSES - 1` times.
pub const NUM_CLASSES: usize = 6;

/// Slots per pool created on demand by the process-wide allocator. A
/// multiple of the largest class alignment divided by the smallest slot
/// size, so that arenas stacked end to end stay class-aligned.
pub const POOL_SLOTS: usize = 32;

/// Where an allocation request was served.
#[derive(Debug, Clone, Copy, PartialEq, Eq, Structural)]
pub enum Placement {
    /// Served from the size-classed pools, at this address.
    Pooled(usize),
    /// Not served here: the caller's system fallback must serve it.
    Fallback,
}

/// The routing policy: a request is served from the pools exactly when its
/// size fits one of the configured classes and the chosen class's natural
/// alignment (its slot size, a power of two) satisfies the requested
/// alignment. The decision is a function of size and alignment alone, so
/// the matching deallocation reproduces it.
pub open spec fn routes_to_pools(size: int, align: int) -> bool {
    &&& 1 <= size
    &&& class_of(size) < NUM_CLASSES
    &&& align <= class_size(class_of(size))
}

/// Decides the routing of a request, following `routes_to_pools`.
pub fn routed(size: usize, align: usize) -> (r: bool)
    requires
        1 <= size,
    ensures
        r == routes_to_pools(size as int, align as int),
{
    proof {
        lemma2_to64();
    }
    let mut c: usize = 0;
    let mut cs: usize = pool::PTR_WIDTH;
    while cs < size && c + 1 < NUM_CLASSES
        invariant
            c < NUM_CLASSES,
            cs == class_size(c as int),
            c == 0 || class_size(c as int - 1) < size,
        decreases NUM_CLASSES - c,
    {
        proof {
            lemma2_to64();
            lemma_class_size_pow2(c as int);
            lemma_class_size_increases(c as int, (NUM_CLASSES - 2) as int);
        }
        cs = cs * 2;
        c = c + 1;
    }
    proof {
        lemma_class_of_bounds(size as int);
        if cs >= size {
            lemma_class_of_unique(size as int, c as int);
        } else {
            if class_of(size as int) < NUM_CLASSES {
                lemma_class_size_increases(class_of(size as int), c as int);
            }
        }
    }
    cs >= size && align <= cs
}

/// The process-wide allocator: the front end that owns the size-classed
/// dispatcher and routes every request either to the pools or to the
/// caller's system fallback.
pub struct Memory {
    fixed: Option<FixedAlloc>,
}

impl Memory {
    /// The dispatcher, once the first pooled request has created it.
    pub closed spec fn spec_fixed(&self) -> Option<FixedAlloc> {
        self.fixed
    }

    /// Structural invariant: the dispatcher, once created, is well formed
    /// and carries exactly the configured classes and pool slot count.
    pub open spec fn wf(&self) -> bool {
        match self.spec_fixed() {
            Option::None => true,
            Option::Some(fa) => fa.wf() && fa.class_count() == NUM_CLASSES && fa.spec_pool_len()
                == POOL_SLOTS,
        }
    }

    /// `q` is a live pooled allocation of class `c`.
    pub open spec fn live_in_class(&self, c: int, q: usize) -> bool {
        match self.spec_fixed() {
            Option::None => false,
            Option::Some(fa) => fa.live_in_class(c, q),
        }
    }

    /// `ptr` is a live pooled allocation made for request size `size`.
    pub open spec fn is_live(&self, ptr: usize, size: int) -> bool {
        match self.spec_fixed() {
            Option::None => false,
            Option::Some(fa) => fa.is_live(ptr, size),
        }
    }

    /// Some pooled arena of class `c` covers the address `a`.
    pub open spec fn class_owns(&self, c: int, a: usize) -> bool {
        match self.spec_fixed() {
            Option::None => false,
            Option::Some(fa) => fa.class_owns(c, a),
        }
    }

    /// The byte at absolute address `a` within class `c`'s arenas.
    pub open spec fn byte_in_class(&self, c: int, a: usize) -> u8 {
        match self.spec_fixed() {
            Option::None => vstd::pervasive::arbitrary(),
            Option::Some(fa) => fa.byte_in_class(c, a),
        }
    }

    /// Creates the front end. The dispatcher does not exist yet; the first
    /// request that routes to the pools creates it, exactly once.
    pub fn new() -> (m: Memory)
        ensures
            m.wf(),
            m.spec_fixed() == Option::<FixedAlloc>::None,
            forall|c: int, q: usize| !(#[trigger] m.live_in_class(c, q)),
    {
        Memory { fixed: None }
    }

    /// Serves `alloc(size, align)`. A request that routes to the pools is
    /// served there, creating the dispatcher on first use and growing the
    /// class on demand; it fails exactly when a new pool is needed and its
    /// arena does not fit in the address space. Any other request is
    /// returned as [`Placement::Fallback`] for the caller's system
    /// allocator, with nothing changed.
    pub fn allocate(&mut self, size: usize, align: usize) -> (r: Result<
        Placement,
        fixed::Error,
    >)
        requires
            old(self).wf(),
            1 <= size,
            pool::power_of_two(align as int),
        ensures
            final(self).wf(),
            match r {
                Ok(Placement::Fallback) => !routes_to_pools(size as int, align as int) && *final(self) == *old(self),
                Ok(Placement::Pooled(ptr)) => {
                    &&& routes_to_pools(size as int, align as int)
                    &&& final(self).is_live(ptr, size as int)
                    &&& (ptr as int) % (align as int) == 0
                    &&& forall|c: int| !(#[trigger] old(self).live_in_class(c, ptr))
                    &&& forall|c: int, q: usize|
                        !(c == class_of(size as int) && q == ptr) ==> ((
                        #[trigger] final(self).live_in_class(c, q)) <==> old(self).live_in_class(
                            c,
                            q,
                        ))
                    &&& forall|c: int, a: usize|
                        (#[trigger] old(self).class_owns(c, a)) ==> final(self).class_owns(c, a)
                            && final(self).byte_in_class(c, a) == old(self).byte_in_class(c, a)
                },
                Err(e) => {
                    &&& routes_to_pools(size as int, align as int)
                    &&& e == fixed::Error::PoolError(pool::Error::LayoutError)
                    &&& forall|c: int, q: usize|
                        ((#[trigger] final(self).live_in_class(c, q)) <==> old(self).live_in_class(c, q))
                    &&& forall|c: int, a: usize|
                        (#[trigger] old(self).class_owns(c, a)) ==> final(self).class_owns(c, a)
                            && final(self).byte_in_class(c, a) == old(self).byte_in_class(c, a)
                    &&& match old(self).spec_fixed() {
                        Option::Some(fa) => !pool::layout_fits(
                            class_size(class_of(size as int)),
                            POOL_SLOTS as int,
                            fa.spec_next_base() as int,
                        ) && forall|i: int|
                            0 <= i < fa.classes_seq()[class_of(size as int)].pools_seq().len()
                                ==> (#[trigger] fa.classes_seq()[class_of(
                                size as int,
                            )].pools_seq()[i]).spec_is_empty(),
                        Option::None => !pool::layout_fits(
                            class_size(class_of(size as int)),
                            POOL_SLOTS as int,
                            0,
                        ),
                    }
                },
            },
    {
        if !routed(size, align) {
            return Ok(Placement::Fallback);
        }
        if self.fixed.is_none() {
            proof {
                lemma2_to64();
                lemma_class_size_pow2((NUM_CLASSES - 1) as int);
                assert(class_size((NUM_CLASSES - 1) as int) == 256);
                assert(class_size(0) == 8);
            }
            self.fixed = Some(FixedAlloc::new(NUM_CLASSES, POOL_SLOTS));
        }
        let res = match &mut self.fixed {
            Option::Some(fa) => fa.allocate(size),
            Option::None => {
                proof {
                    assert(false);
                }
                // not reached: the dispatcher was just created above
                Err(fixed::Error::PoolError(pool::Error::LayoutError))
            },
        };
        match res {
            Ok(ptr) => {
                proof {
                    lemma_class_of_bounds(size as int);
                    match self.spec_fixed() {
                        Option::Some(faf) => {
                            fixed::lemma_live_ptr_aligned(faf, ptr, size);
                            lemma_class_size_pow2(class_of(size as int));
                            let ea = choose|e: nat|
                                (align as int) == vstd::arithmetic::power2::pow2(e);
                            vstd::arithmetic::power2::lemma_pow2_pos(ea);
                            pool::lemma_pow2_divides(
                                align as int,
                                class_size(class_of(size as int)),
                            );
                            pool::lemma_mod_trans(
                                ptr as int,
                                class_size(class_of(size as int)),
                                align as int,
                            );
                        },
                        Option::None => {
                            assert(false);
                        },
                    }
                }
                Ok(Placement::Pooled(ptr))
            },
            Err(e) => Err(e),
        }
    }

    /// Returns the live pooled allocation at `ptr` to its owning pool. The
    /// caller must pass the exact size and alignment of the matching
    /// allocation call; the request must have routed to the pools, as that
    /// same size and alignment reproduce the routing decision.
    pub fn dealloc(&mut self, ptr: usize, size: usize, align: usize)
        requires
            old(self).wf(),
            routes_to_pools(size as int, align as int),
            old(self).is_live(ptr, size as int),
        ensures
            final(self).wf(),
            !final(self).is_live(ptr, size as int),
            forall|c: int, q: usize|
                !(c == class_of(size as int) && q == ptr) ==> ((
                #[trigger] final(self).live_in_class(c, q)) <==> old(self).live_in_class(c, q)),
            forall|c: int, a: usize|
                ((#[trigger] final(self).class_owns(c, a)) <==> old(self).class_owns(c, a)),
            forall|c: int, a: usize|
                old(self).class_owns(c, a) ==> (#[trigger] final(self).byte_in_class(c, a))
                    == old(self).byte_in_class(c, a),
    {
        match &mut self.fixed {
            Option::Some(fa) => fa.dealloc(ptr, size),
            Option::None => {
                proof {
                    assert(false);
                }
            },
        }
    }

    /// Reads one byte of the live pooled allocation at `ptr` made for
    /// request size `size`, `offset` bytes into it.
    pub fn read(&self, ptr: usize, size: usize, offset: usize) -> (v: u8)
        requires
            self.wf(),
            self.is_live(ptr, size as int),
            offset < size,
        ensures
            ptr + offset <= usize::MAX,
            v == self.byte_in_class(class_of(size as int), (ptr + offset) as usize),
    {
        match &self.fixed {
            Option::Some(fa) => fa.read(ptr, size, offset),
            Option::None => {
                proof {
                    assert(false);
                }
                // not reached: a live allocation implies the dispatcher exists
                0
            },
        }
    }

    /// Writes one byte of the live pooled allocation at `ptr` made for
    /// request size `size`, `offset` bytes into it. Exactly one stored
    /// byte changes; no allocation appears or disappears.
    pub fn write(&mut self, ptr: usize, size: usize, offset: usize, v: u8)
        requires
            old(self).wf(),
            old(self).is_live(ptr, size as int),
            offset < size,
        ensures
            final(self).wf(),
            ptr + offset <= usize::MAX,
            forall|c: int, q: usize|
                ((#[trigger] final(self).live_in_class(c, q)) <==> old(self).live_in_class(c, q)),
            forall|c: int, a: usize|
                ((#[trigger] final(self).class_owns(c, a)) <==> old(self).class_owns(c, a)),
            final(self).byte_in_class(class_of(size as int), (ptr + offset) as usize) == v,
            forall|c: int, a: usize|
                old(self).class_owns(c, a) && !(c == class_of(size as int) && a == (ptr
                    + offset) as usize) ==> (#[trigger] final(self).byte_in_class(c, a)) == old(self).byte_in_class(c, a),
    {
        match &mut self.fixed {
            Option::Some(fa) => fa.write(ptr, size, offset, v),
            Option::None => {
                proof {
                    assert(false);
                }
            },
        }
    }
}

/// No two distinct live pooled allocations of the process-wide allocator
/// overlap. Together with the mutual exclusion that the embedding program
/// puts around its one `Memory` instance, this makes every interleaving of
/// allocation calls from several threads equivalent to some serial order
/// in which no two granted ranges ever overlap.
pub proof fn lemma_memory_live_ranges_disjoint(
    m: Memory,
    p1: usize,
    s1: usize,
    p2: usize,
    s2: usize,
)
    requires
        m.wf(),
        m.is_live(p1, s1 as int),
        m.is_live(p2, s2 as int),
        p1 != p2,
    ensures
        p1 + s1 <= p2 || p2 + s2 <= p1,
{
    match m.spec_fixed() {
        Option::Some(fa) => {
            fixed::lemma_live_ranges_disjoint(fa, p1, s1, p2, s2);
        },
        Option::None => {
            assert(false);
        },
    }
}

} // verus!
