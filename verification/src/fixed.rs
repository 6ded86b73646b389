//! Size-classed fixed allocation: an ordered collection of pools for one
//! size class, and the dispatcher that routes a requested size to the right
//! class and grows capacity on demand.

use vstd::prelude::*;
use vstd::arithmetic::power2::{pow2, lemma_pow2_adds, lemma_pow2_strictly_increases, lemma2_to64};
use crate::pool;
use crate::pool::Pool;

verus! {

/// The slot size of size class `c`: one machine word doubled `c` times.
pub open spec fn class_size(c: int) -> int {
    (pool::PTR_WIDTH as int) * pow2(c as nat)
}

/// The smallest size class whose slots hold `size` bytes.
pub open spec fn class_of(size: int) -> int
    decreases size,
{
    if size <= pool::PTR_WIDTH {
        0
    } else {
        1 + class_of((size + 1) / 2)
    }
}

/// Each class size is a power of two of at least one machine word, and one
/// doubling apart from the next.
pub proof fn lemma_class_size_pow2(c: int)
    requires
        0 <= c,
    ensures
        pool::power_of_two(class_size(c)),
        class_size(c) >= pool::PTR_WIDTH,
        class_size(c + 1) == 2 * class_size(c),
{
    lemma2_to64();
    vstd::arithmetic::power2::lemma_pow2_pos(c as nat);
    lemma_pow2_adds(3, c as nat);
    assert(class_size(c) == pow2((c + 3) as nat));
    lemma_pow2_adds(3, (c + 1) as nat);
    lemma_pow2_adds((c + 3) as nat, 1);
}

/// Class sizes grow with the class index.
pub proof fn lemma_class_size_increases(c1: int, c2: int)
    requires
        0 <= c1 <= c2,
    ensures
        class_size(c1) <= class_size(c2),
{
    if c1 < c2 {
        lemma_pow2_strictly_increases(c1 as nat, c2 as nat);
    }
}

/// `class_of(size)` is the least class that holds `size` bytes.
pub proof fn lemma_class_of_bounds(size: int)
    requires
        1 <= size,
    ensures
        0 <= class_of(size),
        size <= class_size(class_of(size)),
        class_of(size) > 0 ==> class_size(class_of(size) - 1) < size,
    decreases size,
{
    lemma2_to64();
    if size <= pool::PTR_WIDTH {
        assert(class_size(0) == pool::PTR_WIDTH);
    } else {
        let h = (size + 1) / 2;
        lemma_class_of_bounds(h);
        let c = class_of(h);
        lemma_class_size_pow2(c);
        assert(size <= 2 * h);
        if c > 0 {
            lemma_class_size_pow2(c - 1);
        }
    }
}

/// The characterisation above pins `class_of`: any class that holds `size`
/// while its predecessor does not is the class of `size`.
pub proof fn lemma_class_of_unique(size: int, c: int)
    requires
        1 <= size,
        0 <= c,
        size <= class_size(c),
        c > 0 ==> class_size(c - 1) < size,
    ensures
        c == class_of(size),
{
    lemma_class_of_bounds(size);
    let cs = class_of(size);
    if c < cs {
        lemma_class_size_increases(c, cs - 1);
    } else if cs < c {
        lemma_class_size_increases(cs, c - 1);
    }
}

/// Failures of the size-classed allocator.
#[derive(Debug, Clone, Copy, PartialEq, Eq, Structural)]
pub enum Error {
    /// Constructing a new pool for a size class failed.
    PoolError(pool::Error),
}

/// An ordered collection of pools of one size class, sorted by arena start
/// address, with pairwise disjoint address ranges. The order makes the
/// owner of an address findable by binary search.
pub struct PoolList {
    pools: Vec<Pool>,
}

impl PoolList {
    /// The pools, in ascending order of their arena start addresses.
    pub closed spec fn pools_seq(&self) -> Seq<Pool> {
        self.pools@
    }

    /// Structural invariant: every pool is well formed, and the arenas are
    /// sorted by start address and pairwise disjoint.
    pub open spec fn wf(&self) -> bool {
        &&& forall|i: int|
            0 <= i < self.pools_seq().len() ==> (#[trigger] self.pools_seq()[i]).wf()
        &&& forall|i: int, k: int|
            #![trigger self.pools_seq()[i], self.pools_seq()[k]]
            0 <= i < k < self.pools_seq().len() ==> self.pools_seq()[i].spec_end()
                <= self.pools_seq()[k].spec_base()
    }

    /// Some pool of this list owns the address `a`.
    pub open spec fn owns(&self, a: usize) -> bool {
        exists|i: int| 0 <= i < self.pools_seq().len() && (#[trigger] self.pools_seq()[i]).owns(a)
    }

    /// The index of the pool that owns address `a` (meaningful when `owns`
    /// holds; the owner is unique because the arenas are disjoint).
    pub open spec fn owner_index(&self, a: usize) -> int {
        choose|i: int| 0 <= i < self.pools_seq().len() && (#[trigger] self.pools_seq()[i]).owns(a)
    }

    /// The byte stored at absolute address `a` (meaningful when `owns(a)`).
    pub open spec fn byte_model(&self, a: usize) -> u8 {
        let p = self.pools_seq()[self.owner_index(a)];
        p.bytes()[a - p.spec_base()]
    }

    /// `ptr` is a live allocation of some pool of this list.
    pub open spec fn is_live(&self, ptr: usize) -> bool {
        exists|i: int|
            0 <= i < self.pools_seq().len() && (#[trigger] self.pools_seq()[i]).is_live(ptr)
    }

    /// At most one pool of a well-formed list owns any given address.
    pub proof fn lemma_owner_unique(&self, i: int, a: usize)
        requires
            self.wf(),
            0 <= i < self.pools_seq().len(),
            self.pools_seq()[i].owns(a),
        ensures
            forall|k: int|
                0 <= k < self.pools_seq().len() && k != i ==> !(
                #[trigger] self.pools_seq()[k]).owns(a),
            self.owns(a),
            self.owner_index(a) == i,
    {
        assert forall|k: int|
            0 <= k < self.pools_seq().len() && k != i implies !(#[trigger] self.pools_seq()[k]).owns(
            a,
        ) by {
            if k < i {
                assert(self.pools_seq()[k].spec_end() <= self.pools_seq()[i].spec_base());
            } else {
                assert(self.pools_seq()[i].spec_end() <= self.pools_seq()[k].spec_base());
            }
        }
    }

    /// Creates an empty list.
    pub fn new() -> (r: PoolList)
        ensures
            r.wf(),
            r.pools_seq().len() == 0,
    {
        PoolList { pools: Vec::new() }
    }

    /// The number of pools in the list.
    pub fn len(&self) -> (r: usize)
        ensures
            r == self.pools_seq().len(),
    {
        self.pools.len()
    }

    /// A reference to the pool at position `i`.
    pub fn pool_at(&self, i: usize) -> (p: &Pool)
        requires
            i < self.pools_seq().len(),
        ensures
            *p == self.pools_seq()[i as int],
    {
        &self.pools[i]
    }

    /// Inserts a pool, keeping the list sorted by arena start address. The
    /// pool's arena must be disjoint from every arena already in the list.
    /// Returns the position at which the pool now stands.
    pub fn insert(&mut self, p: Pool) -> (k: usize)
        requires
            old(self).wf(),
            p.wf(),
            forall|i: int|
                0 <= i < old(self).pools_seq().len() ==> ((#[trigger] old(self).pools_seq()[i]).spec_end()
                    <= p.spec_base() || p.spec_end() <= old(self).pools_seq()[i].spec_base()),
        ensures
            final(self).wf(),
            k <= old(self).pools_seq().len(),
            final(self).pools_seq() == old(self).pools_seq().insert(k as int, p),
            forall|a: usize|
                old(self).owns(a) ==> #[trigger] final(self).owns(a) && final(self).byte_model(a)
                    == old(self).byte_model(a),
            forall|q: usize|
                old(self).is_live(q) ==> #[trigger] final(self).is_live(q),
            forall|q: usize|
                #[trigger] final(self).is_live(q) ==> old(self).is_live(q) || p.is_live(q),
    {
        proof {
            self.lemma_sorted_nonempty();
        }
        let pbase = p.id();
        let n = self.pools.len();
        let mut k: usize = 0;
        while k < n && self.pools[k].end() <= pbase
            invariant
                n == self.pools_seq().len(),
                self.wf(),
                k <= n,
                forall|i: int|
                    0 <= i < k ==> (#[trigger] self.pools_seq()[i]).spec_end() <= pbase,
            decreases n - k,
        {
            k = k + 1;
        }
        proof {
            let s = old(self).pools_seq();
            if (k as int) < s.len() {
                assert(s[k as int].spec_end() > pbase);
                assert(p.spec_end() <= s[k as int].spec_base());
                assert forall|i: int| k <= i < s.len() implies p.spec_end() <= (
                #[trigger] s[i]).spec_base() by {
                    if (k as int) < i {
                        assert(s[k as int].spec_end() <= s[i].spec_base());
                        s[k as int].lemma_arena_nonempty();
                    }
                }
            }
        }
        self.pools.insert(k, p);
        proof {
            let s = old(self).pools_seq();
            let t = final(self).pools_seq();
            assert forall|i: int, j: int|
                #![trigger t[i], t[j]]
                0 <= i < j < t.len() implies t[i].spec_end() <= t[j].spec_base() by {
                if j < k as int {
                    assert(t[i] == s[i] && t[j] == s[j]);
                } else if i > k as int {
                    assert(t[i] == s[i - 1] && t[j] == s[j - 1]);
                } else if i == k as int {
                    assert(t[i] == p && t[j] == s[j - 1]);
                } else if j == k as int {
                    assert(t[i] == s[i] && t[j] == p);
                } else {
                    assert(t[i] == s[i] && t[j] == s[j - 1]);
                    if i < k as int && (k as int) < j {
                        assert(s[i].spec_end() <= pbase);
                        p.lemma_arena_nonempty();
                        assert(p.spec_end() <= s[j - 1].spec_base());
                    }
                }
            }
            assert forall|a: usize| old(self).owns(a) implies #[trigger] final(self).owns(a)
                && final(self).byte_model(a) == old(self).byte_model(a) by {
                let i = old(self).owner_index(a);
                old(self).lemma_owner_unique(i, a);
                let i2 = if i < k as int {
                    i
                } else {
                    i + 1
                };
                assert(t[i2] == s[i]);
                final(self).lemma_owner_unique(i2, a);
            }
            assert forall|q: usize| old(self).is_live(q) implies #[trigger] final(self).is_live(
                q,
            ) by {
                let i = choose|i: int| 0 <= i < s.len() && (#[trigger] s[i]).is_live(q);
                let i2 = if i < k as int {
                    i
                } else {
                    i + 1
                };
                assert(t[i2] == s[i]);
            }
            assert forall|q: usize| #[trigger] final(self).is_live(q) implies old(self).is_live(q)
                || p.is_live(q) by {
                let i2 = choose|i: int| 0 <= i < t.len() && (#[trigger] t[i]).is_live(q);
                if i2 < k as int {
                    assert(t[i2] == s[i2]);
                } else if i2 > k as int {
                    assert(t[i2] == s[i2 - 1]);
                }
            }
        }
        k
    }

    /// All sorted arenas in a well-formed list are nonempty; a helper for
    /// the ordering proofs.
    proof fn lemma_sorted_nonempty(&self)
        requires
            self.wf(),
        ensures
            forall|i: int|
                0 <= i < self.pools_seq().len() ==> (#[trigger] self.pools_seq()[i]).spec_base()
                    < self.pools_seq()[i].spec_end(),
    {
        assert forall|i: int| 0 <= i < self.pools_seq().len() implies (
        #[trigger] self.pools_seq()[i]).spec_base() < self.pools_seq()[i].spec_end() by {
            self.pools_seq()[i].lemma_arena_nonempty();
        }
    }

    /// Finds the pool that owns `ptr` by binary search over the sorted
    /// arena start addresses. Returns its position, or `None` when no pool
    /// of this list owns `ptr`.
    pub fn find_owner(&self, ptr: usize) -> (r: Option<usize>)
        requires
            self.wf(),
        ensures
            match r {
                Some(i) => i < self.pools_seq().len() && self.pools_seq()[i as int].owns(ptr)
                    && self.owner_index(ptr) == i,
                None => !self.owns(ptr),
            },
    {
        proof {
            self.lemma_sorted_nonempty();
        }
        let n = self.pools.len();
        let mut lo: usize = 0;
        let mut hi: usize = n;
        while lo < hi
            invariant
                self.wf(),
                n == self.pools_seq().len(),
                lo <= hi <= n,
                forall|i: int|
                    0 <= i < lo ==> (#[trigger] self.pools_seq()[i]).spec_end() <= ptr,
                forall|i: int|
                    hi <= i < n ==> ptr < (#[trigger] self.pools_seq()[i]).spec_end(),
            decreases hi - lo,
        {
            let mid = lo + (hi - lo) / 2;
            if self.pools[mid].end() <= ptr {
                proof {
                    self.lemma_sorted_nonempty();
                    assert forall|i: int| 0 <= i < mid + 1 implies (
                    #[trigger] self.pools_seq()[i]).spec_end() <= ptr by {
                        if i < mid {
                            assert(self.pools_seq()[i].spec_end()
                                <= self.pools_seq()[mid as int].spec_base());
                            self.pools_seq()[mid as int].lemma_arena_nonempty();
                        }
                    }
                }
                lo = mid + 1;
            } else {
                proof {
                    assert forall|i: int| mid <= i < n implies ptr < (
                    #[trigger] self.pools_seq()[i]).spec_end() by {
                        if mid < i {
                            assert(self.pools_seq()[mid as int].spec_end()
                                <= self.pools_seq()[i].spec_base());
                            self.pools_seq()[i].lemma_arena_nonempty();
                        }
                    }
                }
                hi = mid;
            }
        }
        if lo < n {
            let owner_base = self.pools[lo].id();
            if owner_base <= ptr {
                proof {
                    assert(self.pools_seq()[lo as int].owns(ptr));
                    self.lemma_owner_unique(lo as int, ptr);
                }
                return Some(lo);
            }
            proof {
                assert forall|i: int| 0 <= i < n implies !(#[trigger] self.pools_seq()[i]).owns(
                    ptr,
                ) by {
                    if i > lo as int {
                        assert(self.pools_seq()[lo as int].spec_end()
                            <= self.pools_seq()[i].spec_base());
                        self.pools_seq()[lo as int].lemma_arena_nonempty();
                    }
                }
            }
            return None;
        }
        None
    }

    /// Finds a pool with at least one free slot, scanning from the lowest
    /// arena. Returns `None` when every pool of the list is exhausted.
    pub fn find_available(&self) -> (r: Option<usize>)
        requires
            self.wf(),
        ensures
            match r {
                Some(i) => i < self.pools_seq().len() && !self.pools_seq()[i as int].spec_is_empty()
                    && forall|k: int|
                    0 <= k < i ==> (#[trigger] self.pools_seq()[k]).spec_is_empty(),
                None => forall|i: int|
                    0 <= i < self.pools_seq().len() ==> (
                    #[trigger] self.pools_seq()[i]).spec_is_empty(),
            },
    {
        let n = self.pools.len();
        let mut i: usize = 0;
        while i < n
            invariant
                n == self.pools_seq().len(),
                i <= n,
                forall|k: int|
                    0 <= k < i ==> (#[trigger] self.pools_seq()[k]).spec_is_empty(),
            decreases n - i,
        {
            if !self.pools[i].is_empty() {
                return Some(i);
            }
            i = i + 1;
        }
        None
    }

    /// Allocates one slot from the pool at position `i`, which must have a
    /// free slot. Only that pool's free stack and use count change; every
    /// arena byte and every other live allocation stay as they are.
    pub fn allocate_at(&mut self, i: usize) -> (ptr: usize)
        requires
            old(self).wf(),
            i < old(self).pools_seq().len(),
            !old(self).pools_seq()[i as int].spec_is_empty(),
        ensures
            final(self).wf(),
            final(self).pools_seq().len() == old(self).pools_seq().len(),
            forall|j: int|
                0 <= j < old(self).pools_seq().len() && j != i ==> final(self).pools_seq()[j]
                    == (#[trigger] old(self).pools_seq()[j]),
            final(self).pools_seq()[i as int].spec_size() == old(self).pools_seq()[i as int].spec_size(),
            final(self).pools_seq()[i as int].spec_align() == old(self).pools_seq()[i as int].spec_align(),
            final(self).pools_seq()[i as int].spec_base() == old(self).pools_seq()[i as int].spec_base(),
            final(self).pools_seq()[i as int].num_slots() == old(self).pools_seq()[i as int].num_slots(),
            final(self).pools_seq()[i as int].bytes() == old(self).pools_seq()[i as int].bytes(),
            final(self).pools_seq()[i as int].free_slots() == old(self).pools_seq()[i as int].free_slots().drop_last(),
            final(self).pools_seq()[i as int].used() == old(self).pools_seq()[i as int].used()
                + 1,
            old(self).pools_seq()[i as int].owns(ptr),
            !old(self).is_live(ptr),
            final(self).is_live(ptr),
            forall|q: usize|
                q != ptr ==> ((#[trigger] final(self).is_live(q)) <==> old(self).is_live(q)),
            forall|a: usize|
                #[trigger] old(self).owns(a) ==> final(self).owns(a) && final(self).byte_model(a)
                    == old(self).byte_model(a),
            forall|a: usize| #[trigger] final(self).owns(a) ==> old(self).owns(a),
    {
        let p = &mut self.pools[i];
        let ptr = p.allocate();
        proof {
            let s = old(self).pools_seq();
            let t = final(self).pools_seq();
            let po = s[i as int];
            let pn = t[i as int];
            assert(t == s.update(i as int, pn));
            assert(po.owns(ptr));
            assert(!old(self).is_live(ptr)) by {
                if old(self).is_live(ptr) {
                    let j = choose|j: int| 0 <= j < s.len() && (#[trigger] s[j]).is_live(ptr);
                    old(self).lemma_owner_unique(i as int, ptr);
                }
            }
            assert forall|q: usize| q != ptr implies ((#[trigger] final(self).is_live(q)) <==> old(
                self,
            ).is_live(q)) by {
                if final(self).is_live(q) {
                    let j = choose|j: int| 0 <= j < t.len() && (#[trigger] t[j]).is_live(q);
                    assert(s[j].is_live(q));
                }
                if old(self).is_live(q) {
                    let j = choose|j: int| 0 <= j < s.len() && (#[trigger] s[j]).is_live(q);
                    assert(t[j].is_live(q));
                }
            }
            assert forall|a: usize| #[trigger] old(self).owns(a) implies final(self).owns(a)
                && final(self).byte_model(a) == old(self).byte_model(a) by {
                let j = old(self).owner_index(a);
                old(self).lemma_owner_unique(j, a);
                assert(t[j].owns(a));
                final(self).lemma_owner_unique(j, a);
                assert(t[j].bytes() == s[j].bytes() && t[j].spec_base() == s[j].spec_base());
            }
            assert forall|a: usize| #[trigger] final(self).owns(a) implies old(self).owns(a) by {
                let j = final(self).owner_index(a);
                assert(0 <= j < t.len() && t[j].owns(a));
                assert(s[j].owns(a));
            }
        }
        ptr
    }

    /// Returns the live slot at `ptr` of the pool at position `i` to that
    /// pool's free stack. Only that pool's free stack and use count change.
    pub fn dealloc_at(&mut self, i: usize, ptr: usize)
        requires
            old(self).wf(),
            i < old(self).pools_seq().len(),
            old(self).pools_seq()[i as int].is_live(ptr),
        ensures
            final(self).wf(),
            final(self).pools_seq().len() == old(self).pools_seq().len(),
            forall|j: int|
                0 <= j < old(self).pools_seq().len() && j != i ==> final(self).pools_seq()[j]
                    == (#[trigger] old(self).pools_seq()[j]),
            final(self).pools_seq()[i as int].spec_size() == old(self).pools_seq()[i as int].spec_size(),
            final(self).pools_seq()[i as int].spec_align() == old(self).pools_seq()[i as int].spec_align(),
            final(self).pools_seq()[i as int].spec_base() == old(self).pools_seq()[i as int].spec_base(),
            final(self).pools_seq()[i as int].num_slots() == old(self).pools_seq()[i as int].num_slots(),
            final(self).pools_seq()[i as int].bytes() == old(self).pools_seq()[i as int].bytes(),
            final(self).pools_seq()[i as int].used() == old(self).pools_seq()[i as int].used()
                - 1,
            old(self).pools_seq()[i as int].used() >= 1,
            !final(self).is_live(ptr),
            forall|q: usize|
                q != ptr ==> ((#[trigger] final(self).is_live(q)) <==> old(self).is_live(q)),
            forall|a: usize|
                #[trigger] old(self).owns(a) ==> final(self).owns(a) && final(self).byte_model(a)
                    == old(self).byte_model(a),
            forall|a: usize| #[trigger] final(self).owns(a) ==> old(self).owns(a),
    {
        let p = &mut self.pools[i];
        p.dealloc(ptr);
        proof {
            let s = old(self).pools_seq();
            let t = final(self).pools_seq();
            assert(t == s.update(i as int, t[i as int]));
            assert(!final(self).is_live(ptr)) by {
                if final(self).is_live(ptr) {
                    let j = choose|j: int| 0 <= j < t.len() && (#[trigger] t[j]).is_live(ptr);
                    assert(t[j].owns(ptr));
                    assert(s[i as int].owns(ptr));
                    final(self).lemma_owner_unique(i as int, ptr);
                }
            }
            assert forall|q: usize| q != ptr implies ((#[trigger] final(self).is_live(q)) <==> old(
                self,
            ).is_live(q)) by {
                if final(self).is_live(q) {
                    let j = choose|j: int| 0 <= j < t.len() && (#[trigger] t[j]).is_live(q);
                    assert(s[j].is_live(q));
                }
                if old(self).is_live(q) {
                    let j = choose|j: int| 0 <= j < s.len() && (#[trigger] s[j]).is_live(q);
                    assert(t[j].is_live(q));
                }
            }
            assert forall|a: usize| #[trigger] old(self).owns(a) implies final(self).owns(a)
                && final(self).byte_model(a) == old(self).byte_model(a) by {
                let j = old(self).owner_index(a);
                old(self).lemma_owner_unique(j, a);
                assert(t[j].owns(a));
                final(self).lemma_owner_unique(j, a);
            }
            assert forall|a: usize| #[trigger] final(self).owns(a) implies old(self).owns(a) by {
                let j = final(self).owner_index(a);
                assert(s[j].owns(a));
            }
        }
    }

    /// Reads one byte of the live slot at `ptr` of the pool at position
    /// `i`, `offset` bytes into the slot.
    pub fn read_at(&self, i: usize, ptr: usize, offset: usize) -> (v: u8)
        requires
            self.wf(),
            i < self.pools_seq().len(),
            self.pools_seq()[i as int].is_live(ptr),
            offset < self.pools_seq()[i as int].spec_size(),
        ensures
            ptr + offset <= usize::MAX,
            v == self.byte_model((ptr + offset) as usize),
    {
        proof {
            let p = self.pools_seq()[i as int];
            p.lemma_slot_addr_inverse(ptr);
            p.lemma_slot_addr_in_range(p.slot_of(ptr));
            assert(p.owns((ptr + offset) as usize));
            self.lemma_owner_unique(i as int, (ptr + offset) as usize);
        }
        self.pools[i].read(ptr, offset)
    }

    /// Writes one byte of the live slot at `ptr` of the pool at position
    /// `i`, `offset` bytes into the slot. Exactly one byte of the address
    /// space changes; liveness does not.
    pub fn write_at(&mut self, i: usize, ptr: usize, offset: usize, v: u8)
        requires
            old(self).wf(),
            i < old(self).pools_seq().len(),
            old(self).pools_seq()[i as int].is_live(ptr),
            offset < old(self).pools_seq()[i as int].spec_size(),
        ensures
            final(self).wf(),
            final(self).pools_seq().len() == old(self).pools_seq().len(),
            ptr + offset <= usize::MAX,
            forall|q: usize|
                (#[trigger] final(self).is_live(q)) <==> old(self).is_live(q),
            forall|a: usize| (#[trigger] final(self).owns(a)) <==> old(self).owns(a),
            final(self).byte_model((ptr + offset) as usize) == v,
            forall|a: usize|
                old(self).owns(a) && a != (ptr + offset) as usize ==> (
                #[trigger] final(self).byte_model(a)) == old(self).byte_model(a),
            forall|j: int|
                0 <= j < old(self).pools_seq().len() ==> (#[trigger] final(self).pools_seq()[j]).free_slots()
                    == old(self).pools_seq()[j].free_slots() && final(self).pools_seq()[j].used()
                    == old(self).pools_seq()[j].used() && final(self).pools_seq()[j].spec_base()
                    == old(self).pools_seq()[j].spec_base() && final(self).pools_seq()[j].spec_size()
                    == old(self).pools_seq()[j].spec_size() && final(self).pools_seq()[j].spec_align()
                    == old(self).pools_seq()[j].spec_align() && final(self).pools_seq()[j].num_slots()
                    == old(self).pools_seq()[j].num_slots(),
    {
        proof {
            let p = old(self).pools_seq()[i as int];
            p.lemma_slot_addr_inverse(ptr);
            p.lemma_slot_addr_in_range(p.slot_of(ptr));
        }
        let p = &mut self.pools[i];
        p.write(ptr, offset, v);
        proof {
            let s = old(self).pools_seq();
            let t = final(self).pools_seq();
            let target = (ptr + offset) as usize;
            assert(t == s.update(i as int, t[i as int]));
            assert forall|q: usize| (#[trigger] final(self).is_live(q)) <==> old(self).is_live(
                q,
            ) by {
                if final(self).is_live(q) {
                    let j = choose|j: int| 0 <= j < t.len() && (#[trigger] t[j]).is_live(q);
                    assert(s[j].is_live(q));
                }
                if old(self).is_live(q) {
                    let j = choose|j: int| 0 <= j < s.len() && (#[trigger] s[j]).is_live(q);
                    assert(t[j].is_live(q));
                }
            }
            assert forall|a: usize| (#[trigger] final(self).owns(a)) <==> old(self).owns(a) by {
                if final(self).owns(a) {
                    let j = final(self).owner_index(a);
                    assert(s[j].owns(a));
                }
                if old(self).owns(a) {
                    let j = old(self).owner_index(a);
                    assert(t[j].owns(a));
                }
            }
            let po = s[i as int];
            assert(po.owns(target));
            old(self).lemma_owner_unique(i as int, target);
            final(self).lemma_owner_unique(i as int, target);
            assert(final(self).byte_model(target) == v);
            assert forall|a: usize| old(self).owns(a) && a != target implies (
            #[trigger] final(self).byte_model(a)) == old(self).byte_model(a) by {
                let j = old(self).owner_index(a);
                old(self).lemma_owner_unique(j, a);
                assert(t[j].owns(a));
                final(self).lemma_owner_unique(j, a);
                if j == i as int {
                    assert(t[j].bytes() == s[j].bytes().update(
                        ptr - s[j].spec_base() + offset,
                        v,
                    ));
                    assert(a - s[j].spec_base() != ptr - s[j].spec_base() + offset);
                }
            }
        }
    }
}

/// The size-class dispatcher: an ordered table of pool lists, one per
/// power-of-two size class, with a configured slot count for pools created
/// on demand and a cursor from which fresh arenas are placed.
pub struct FixedAlloc {
    class_sizes: Vec<usize>,
    classes: Vec<PoolList>,
    pool_len: usize,
    next_base: usize,
}

impl FixedAlloc {
    /// The pool lists, indexed by size-class exponent.
    pub closed spec fn classes_seq(&self) -> Seq<PoolList> {
        self.classes@
    }

    /// The table of class slot sizes, indexed by size-class exponent.
    pub closed spec fn spec_class_sizes(&self) -> Seq<usize> {
        self.class_sizes@
    }

    /// The number of slots of each pool created on demand.
    pub closed spec fn spec_pool_len(&self) -> usize {
        self.pool_len
    }

    /// The first address not yet covered by any arena.
    pub closed spec fn spec_next_base(&self) -> usize {
        self.next_base
    }

    /// The number of configured size classes.
    pub open spec fn class_count(&self) -> int {
        self.classes_seq().len() as int
    }

    /// The pool at position `i` of class `c`.
    pub open spec fn pool_of(&self, c: int, i: int) -> Pool {
        self.classes_seq()[c].pools_seq()[i]
    }

    /// Structural invariant: the size table matches the class exponents,
    /// every class list is well formed and holds only pools of its class's
    /// slot size and the configured slot count, every arena lies below the
    /// placement cursor, and arenas of different classes are disjoint.
    pub open spec fn wf(&self) -> bool {
        &&& 1 <= self.class_count()
        &&& self.spec_class_sizes().len() == self.class_count()
        &&& forall|c: int|
            0 <= c < self.class_count() ==> (#[trigger] self.spec_class_sizes()[c]) == class_size(
                c,
            )
        &&& 1 <= self.spec_pool_len()
        &&& (class_size(0) * (self.spec_pool_len() as int)) % class_size(self.class_count() - 1)
            == 0
        &&& (self.spec_next_base() as int) % class_size(self.class_count() - 1) == 0
        &&& forall|c: int|
            0 <= c < self.class_count() ==> (#[trigger] self.classes_seq()[c]).wf()
        &&& forall|c: int, i: int|
            #![trigger self.pool_of(c, i)]
            0 <= c < self.class_count() && 0 <= i < self.classes_seq()[c].pools_seq().len() ==> {
                &&& self.pool_of(c, i).spec_size() == class_size(c)
                &&& self.pool_of(c, i).spec_align() == class_size(c)
                &&& self.pool_of(c, i).num_slots() == self.spec_pool_len()
                &&& self.pool_of(c, i).spec_end() <= self.spec_next_base()
                &&& (self.pool_of(c, i).spec_base() as int) % class_size(c) == 0
            }
        &&& forall|c1: int, i1: int, c2: int, i2: int|
            #![trigger self.pool_of(c1, i1), self.pool_of(c2, i2)]
            0 <= c1 < self.class_count() && 0 <= i1 < self.classes_seq()[c1].pools_seq().len() && 0
                <= c2 < self.class_count() && 0 <= i2
                < self.classes_seq()[c2].pools_seq().len() && c1 != c2 ==> (self.pool_of(
                c1,
                i1,
            ).spec_end() <= self.pool_of(c2, i2).spec_base() || self.pool_of(c2, i2).spec_end()
                <= self.pool_of(c1, i1).spec_base())
    }

    /// `size` can be served by one of the configured classes.
    pub open spec fn fits(&self, size: int) -> bool {
        1 <= size && class_of(size) < self.class_count()
    }

    /// `ptr` is a live allocation of class `c`.
    pub open spec fn live_in_class(&self, c: int, ptr: usize) -> bool {
        0 <= c < self.class_count() && self.classes_seq()[c].is_live(ptr)
    }

    /// `ptr` is a live allocation made for request size `size`.
    pub open spec fn is_live(&self, ptr: usize, size: int) -> bool {
        self.fits(size) && self.live_in_class(class_of(size), ptr)
    }

    /// Some arena of class `c` covers the address `a`.
    pub open spec fn class_owns(&self, c: int, a: usize) -> bool {
        0 <= c < self.class_count() && self.classes_seq()[c].owns(a)
    }

    /// The byte at absolute address `a` within class `c`'s arenas.
    pub open spec fn byte_in_class(&self, c: int, a: usize) -> u8 {
        self.classes_seq()[c].byte_model(a)
    }

    /// Creates a dispatcher with `num_classes` size classes (one machine
    /// word doubled up to `num_classes - 1` times) and `pool_len` slots per
    /// pool created on demand. No pool exists yet; arenas are placed from
    /// address zero upward as classes grow.
    pub fn new(num_classes: usize, pool_len: usize) -> (r: FixedAlloc)
        requires
            1 <= num_classes,
            1 <= pool_len,
            class_size(num_classes - 1) <= usize::MAX,
            (class_size(0) * (pool_len as int)) % class_size(num_classes - 1) == 0,
        ensures
            r.wf(),
            r.class_count() == num_classes,
            r.spec_pool_len() == pool_len,
            r.spec_next_base() == 0,
            forall|c: int|
                0 <= c < r.class_count() ==> (#[trigger] r.classes_seq()[c]).pools_seq().len()
                    == 0,
            forall|c: int, q: usize| !(#[trigger] r.live_in_class(c, q)),
    {
        let mut class_sizes: Vec<usize> = Vec::new();
        let mut cs: usize = pool::PTR_WIDTH;
        let mut c: usize = 0;
        proof {
            lemma2_to64();
            assert(class_size(0) == pool::PTR_WIDTH);
        }
        while c < num_classes
            invariant
                c <= num_classes,
                class_sizes@.len() == c,
                forall|k: int| 0 <= k < c ==> (#[trigger] class_sizes@[k]) == class_size(k),
                c < num_classes ==> cs == class_size(c as int),
                class_size(num_classes - 1) <= usize::MAX,
            decreases num_classes - c,
        {
            class_sizes.push(cs);
            c = c + 1;
            if c < num_classes {
                proof {
                    lemma_class_size_pow2(c - 1);
                    lemma_class_size_increases(c as int, num_classes - 1);
                }
                cs = cs * 2;
            }
        }
        let mut classes: Vec<PoolList> = Vec::new();
        let mut k: usize = 0;
        while k < num_classes
            invariant
                k <= num_classes,
                classes@.len() == k,
                forall|i: int|
                    0 <= i < k ==> (#[trigger] classes@[i]).wf() && classes@[i].pools_seq().len()
                        == 0,
            decreases num_classes - k,
        {
            classes.push(PoolList::new());
            k = k + 1;
        }
        proof {
            lemma_class_size_pow2(num_classes - 1);
        }
        FixedAlloc { class_sizes, classes, pool_len, next_base: 0 }
    }

    /// The index of the smallest class whose slots hold `size` bytes, found
    /// in the ordered size table.
    fn class_index(&self, size: usize) -> (c: usize)
        requires
            self.wf(),
            self.fits(size as int),
        ensures
            c == class_of(size as int),
            c < self.class_count(),
    {
        proof {
            lemma_class_of_bounds(size as int);
        }
        let n = self.class_sizes.len();
        let mut c: usize = 0;
        while self.class_sizes[c] < size
            invariant
                self.wf(),
                self.fits(size as int),
                n == self.class_count(),
                c < n,
                c > 0 ==> class_size(c - 1) < size,
            decreases n - c,
        {
            proof {
                lemma_class_of_bounds(size as int);
                if c + 1 >= n {
                    lemma_class_size_increases(class_of(size as int), c as int);
                }
            }
            c = c + 1;
        }
        proof {
            lemma_class_of_unique(size as int, c as int);
        }
        c
    }

    /// Serves a request of `size` bytes from the matching size class:
    /// allocates from a pool with a free slot, or creates one pool of the
    /// configured slot count at the placement cursor when the whole class is
    /// exhausted. Fails exactly when a new pool is needed and its arena
    /// does not fit in the address space; nothing changes then.
    pub fn allocate(&mut self, size: usize) -> (r: Result<usize, Error>)
        requires
            old(self).wf(),
            old(self).fits(size as int),
        ensures
            final(self).wf(),
            final(self).class_count() == old(self).class_count(),
            final(self).spec_pool_len() == old(self).spec_pool_len(),
            match r {
                Ok(ptr) => {
                    &&& final(self).is_live(ptr, size as int)
                    &&& forall|c: int| !(#[trigger] old(self).live_in_class(c, ptr))
                    &&& forall|c: int, q: usize|
                        !(c == class_of(size as int) && q == ptr) ==> ((
                        #[trigger] final(self).live_in_class(c, q)) <==> old(self).live_in_class(
                            c,
                            q,
                        ))
                    &&& forall|c: int, a: usize|
                        (#[trigger] old(self).class_owns(c, a)) ==> final(self).class_owns(c, a)
                            && final(self).byte_in_class(c, a) == old(self).byte_in_class(c, a)
                },
                Err(e) => {
                    &&& e == Error::PoolError(pool::Error::LayoutError)
                    &&& *final(self) == *old(self)
                    &&& forall|i: int|
                        0 <= i < old(self).classes_seq()[class_of(size as int)].pools_seq().len()
                            ==> (#[trigger] old(self).classes_seq()[class_of(
                            size as int,
                        )].pools_seq()[i]).spec_is_empty()
                    &&& !pool::layout_fits(
                        class_size(class_of(size as int)),
                        old(self).spec_pool_len() as int,
                        old(self).spec_next_base() as int,
                    )
                },
            },
    {
        let c = self.class_index(size);
        let found = self.classes[c].find_available();
        match found {
            Some(i) => {
                let ptr = self.classes[c].allocate_at(i);
                proof {
                    lemma_wf_after_class_update(*old(self), *self, c as int);
                    self.lift_class_effects(*old(self), c as int, ptr);
                }
                Ok(ptr)
            },
            None => {
                let cs = self.class_sizes[c];
                let pl = self.pool_len;
                let nb = self.next_base;
                proof {
                    lemma_class_size_pow2(c as int);
                    pool::lemma_stride_of_pow2(class_size(c as int));
                }
                match Pool::new_at(cs, pl, nb) {
                    Ok(p) => {
                        proof {
                            assert forall|j: int|
                                0 <= j < self.classes_seq()[c as int].pools_seq().len() implies ((
                            #[trigger] self.classes_seq()[c as int].pools_seq()[j]).spec_end()
                                <= p.spec_base() || p.spec_end() <= self.classes_seq()[c as int].pools_seq()[j].spec_base()) by {
                                assert(self.pool_of(c as int, j).spec_end()
                                    <= self.spec_next_base());
                            }
                            assert forall|q: usize| !(#[trigger] p.is_live(q)) by {
                                if p.is_live(q) {
                                    let j = p.slot_of(q);
                                    assert(p.free_slots()[j] == j);
                                    assert(p.free_slots().contains(j as usize));
                                }
                            }
                        }
                        let new_end = p.end();
                        let ghost pg = p;
                        let k = self.classes[c].insert(p);
                        self.next_base = new_end;
                        let ghost mid = *self;
                        proof {
                            lemma_wf_after_class_insert(*old(self), mid, c as int, k as int, pg);
                            assert(!mid.classes_seq()[c as int].pools_seq()[k as int].spec_is_empty());
                        }
                        let ptr = self.classes[c].allocate_at(k);
                        proof {
                            lemma_wf_after_class_update(mid, *self, c as int);
                            self.lift_class_effects(mid, c as int, ptr);
                            let s0 = *old(self);
                            assert forall|cc: int| !(#[trigger] s0.live_in_class(cc, ptr)) by {
                                if s0.live_in_class(cc, ptr) {
                                    let l = s0.classes_seq()[cc];
                                    let j = choose|j: int|
                                        0 <= j < l.pools_seq().len() && (
                                        #[trigger] l.pools_seq()[j]).is_live(ptr);
                                    assert(s0.pool_of(cc, j).spec_end() <= s0.spec_next_base());
                                    assert(mid.classes_seq()[c as int].pools_seq()[k as int].owns(
                                        ptr,
                                    ));
                                    assert(ptr >= pg.spec_base());
                                }
                            }
                            assert forall|cc: int, q: usize|
                                !(cc == class_of(size as int) && q == ptr) implies ((
                            #[trigger] final(self).live_in_class(cc, q)) <==> s0.live_in_class(
                                cc,
                                q,
                            )) by {
                                if cc != c as int {
                                    if 0 <= cc < s0.class_count() {
                                        assert(final(self).classes_seq()[cc]
                                            == s0.classes_seq()[cc]);
                                    }
                                } else {
                                    if s0.live_in_class(cc, q) {
                                        assert(mid.live_in_class(cc, q));
                                    }
                                    if mid.live_in_class(cc, q) && q != ptr {
                                        assert(s0.classes_seq()[cc].is_live(q) || pg.is_live(q));
                                    }
                                }
                            }
                            assert forall|cc: int, a: usize|
                                (#[trigger] s0.class_owns(cc, a)) implies final(self).class_owns(
                                cc,
                                a,
                            ) && final(self).byte_in_class(cc, a) == s0.byte_in_class(cc, a) by {
                                if cc != c as int {
                                    if 0 <= cc < s0.class_count() {
                                        assert(final(self).classes_seq()[cc]
                                            == s0.classes_seq()[cc]);
                                    }
                                } else {
                                    let l0 = s0.classes_seq()[c as int];
                                    let l1 = mid.classes_seq()[c as int];
                                    assert(l1.pools_seq() == l0.pools_seq().insert(
                                        k as int,
                                        pg,
                                    ));
                                    assert(l0.owns(a));
                                    let j = l0.owner_index(a);
                                    l0.lemma_owner_unique(j, a);
                                    let j2: int = if j < k as int {
                                        j
                                    } else {
                                        j + 1
                                    };
                                    assert(l1.pools_seq()[j2] == l0.pools_seq()[j]);
                                    l1.lemma_owner_unique(j2, a);
                                    assert(mid.class_owns(cc, a) && mid.byte_in_class(cc, a)
                                        == s0.byte_in_class(cc, a));
                                }
                            }
                        }
                        Ok(ptr)
                    },
                    Err(e) => {
                        proof {
                            lemma_class_size_pow2(c as int);
                            if e == pool::Error::Unsized {
                                assert(false);
                            }
                        }
                        Err(Error::PoolError(e))
                    },
                }
            },
        }
    }

    /// Returns the live allocation at `ptr`, made for request size `size`,
    /// to the pool that owns it. The caller must pass the same size it
    /// allocated with; the owning pool is found in that size class by
    /// binary search.
    pub fn dealloc(&mut self, ptr: usize, size: usize)
        requires
            old(self).wf(),
            old(self).is_live(ptr, size as int),
        ensures
            final(self).wf(),
            final(self).class_count() == old(self).class_count(),
            final(self).spec_pool_len() == old(self).spec_pool_len(),
            !final(self).is_live(ptr, size as int),
            forall|c: int, q: usize|
                !(c == class_of(size as int) && q == ptr) ==> ((
                #[trigger] final(self).live_in_class(c, q)) <==> old(self).live_in_class(c, q)),
            forall|c: int, a: usize|
                ((#[trigger] final(self).class_owns(c, a)) <==> old(self).class_owns(c, a)),
            forall|c: int, a: usize|
                old(self).class_owns(c, a) ==> (#[trigger] final(self).byte_in_class(c, a))
                    == old(self).byte_in_class(c, a),
    {
        let c = self.class_index(size);
        let ghost l = self.classes_seq()[c as int];
        let ghost jw = choose|j: int|
            0 <= j < l.pools_seq().len() && (#[trigger] l.pools_seq()[j]).is_live(ptr);
        let found = self.classes[c].find_owner(ptr);
        let i = match found {
            Some(i) => i,
            None => {
                proof {
                    assert(l.pools_seq()[jw].owns(ptr));
                    assert(false);
                }
                // not reached: a live allocation always has an owner
                0
            },
        };
        proof {
            l.lemma_owner_unique(jw, ptr);
        }
        self.classes[c].dealloc_at(i, ptr);
        proof {
            lemma_wf_after_class_update(*old(self), *self, c as int);
            let s0 = *old(self);
            assert forall|cc: int, q: usize|
                !(cc == class_of(size as int) && q == ptr) implies ((
            #[trigger] final(self).live_in_class(cc, q)) <==> s0.live_in_class(cc, q)) by {
                if cc != c as int {
                    if 0 <= cc < s0.class_count() {
                        assert(final(self).classes_seq()[cc] == s0.classes_seq()[cc]);
                    }
                }
            }
            assert forall|cc: int, a: usize|
                ((#[trigger] final(self).class_owns(cc, a)) <==> s0.class_owns(cc, a)) by {
                if cc != c as int {
                    if 0 <= cc < s0.class_count() {
                        assert(final(self).classes_seq()[cc] == s0.classes_seq()[cc]);
                    }
                }
            }
            assert forall|cc: int, a: usize| s0.class_owns(cc, a) implies (
            #[trigger] final(self).byte_in_class(cc, a)) == s0.byte_in_class(cc, a) by {
                if cc != c as int {
                    assert(final(self).classes_seq()[cc] == s0.classes_seq()[cc]);
                }
            }
        }
    }

    /// Reads one byte of the live allocation at `ptr` made for request size
    /// `size`, `offset` bytes into it.
    pub fn read(&self, ptr: usize, size: usize, offset: usize) -> (v: u8)
        requires
            self.wf(),
            self.is_live(ptr, size as int),
            offset < size,
        ensures
            ptr + offset <= usize::MAX,
            v == self.byte_in_class(class_of(size as int), (ptr + offset) as usize),
    {
        let c = self.class_index(size);
        let ghost l = self.classes_seq()[c as int];
        let ghost jw = choose|j: int|
            0 <= j < l.pools_seq().len() && (#[trigger] l.pools_seq()[j]).is_live(ptr);
        let found = self.classes[c].find_owner(ptr);
        let i = match found {
            Some(i) => i,
            None => {
                proof {
                    assert(l.pools_seq()[jw].owns(ptr));
                    assert(false);
                }
                // not reached: a live allocation always has an owner
                0
            },
        };
        proof {
            l.lemma_owner_unique(jw, ptr);
            lemma_class_of_bounds(size as int);
            assert(self.pool_of(c as int, i as int).spec_size() == class_size(c as int));
        }
        self.classes[c].read_at(i, ptr, offset)
    }

    /// Writes one byte of the live allocation at `ptr` made for request
    /// size `size`, `offset` bytes into it. Exactly one stored byte
    /// changes; no allocation appears or disappears.
    pub fn write(&mut self, ptr: usize, size: usize, offset: usize, v: u8)
        requires
            old(self).wf(),
            old(self).is_live(ptr, size as int),
            offset < size,
        ensures
            final(self).wf(),
            final(self).class_count() == old(self).class_count(),
            final(self).spec_pool_len() == old(self).spec_pool_len(),
            ptr + offset <= usize::MAX,
            forall|c: int, q: usize|
                ((#[trigger] final(self).live_in_class(c, q)) <==> old(self).live_in_class(c, q)),
            forall|c: int, a: usize|
                ((#[trigger] final(self).class_owns(c, a)) <==> old(self).class_owns(c, a)),
            final(self).byte_in_class(class_of(size as int), (ptr + offset) as usize) == v,
            forall|c: int, a: usize|
                old(self).class_owns(c, a) && !(c == class_of(size as int) && a == (ptr
                    + offset) as usize) ==> (#[trigger] final(self).byte_in_class(c, a)) == old(
                    self,
                ).byte_in_class(c, a),
    {
        let c = self.class_index(size);
        let ghost l = self.classes_seq()[c as int];
        let ghost jw = choose|j: int|
            0 <= j < l.pools_seq().len() && (#[trigger] l.pools_seq()[j]).is_live(ptr);
        let found = self.classes[c].find_owner(ptr);
        let i = match found {
            Some(i) => i,
            None => {
                proof {
                    assert(l.pools_seq()[jw].owns(ptr));
                    assert(false);
                }
                // not reached: a live allocation always has an owner
                0
            },
        };
        proof {
            l.lemma_owner_unique(jw, ptr);
            lemma_class_of_bounds(size as int);
            assert(old(self).pool_of(c as int, i as int).spec_size() == class_size(c as int));
        }
        self.classes[c].write_at(i, ptr, offset, v);
        proof {
            lemma_wf_after_class_update(*old(self), *self, c as int);
            let s0 = *old(self);
            assert forall|cc: int, q: usize| ((#[trigger] final(self).live_in_class(cc, q))
                <==> s0.live_in_class(cc, q)) by {
                if cc != c as int {
                    if 0 <= cc < s0.class_count() {
                        assert(final(self).classes_seq()[cc] == s0.classes_seq()[cc]);
                    }
                }
            }
            assert forall|cc: int, a: usize| ((#[trigger] final(self).class_owns(cc, a))
                <==> s0.class_owns(cc, a)) by {
                if cc != c as int {
                    if 0 <= cc < s0.class_count() {
                        assert(final(self).classes_seq()[cc] == s0.classes_seq()[cc]);
                    }
                }
            }
            assert forall|cc: int, a: usize|
                s0.class_owns(cc, a) && !(cc == class_of(size as int) && a == (ptr
                    + offset) as usize) implies (#[trigger] final(self).byte_in_class(cc, a))
                == s0.byte_in_class(cc, a) by {
                if cc != c as int {
                    assert(final(self).classes_seq()[cc] == s0.classes_seq()[cc]);
                }
            }
        }
    }

    /// Lifts the class-local effects of an allocation in class `c` to the
    /// dispatcher: the returned slot was live nowhere, every other live
    /// allocation and every stored byte stays as it was.
    proof fn lift_class_effects(&self, s0: FixedAlloc, c: int, ptr: usize)
        requires
            s0.wf(),
            0 <= c < s0.class_count(),
            self.class_count() == s0.class_count(),
            forall|cc: int|
                0 <= cc < s0.class_count() && cc != c ==> (#[trigger] self.classes_seq()[cc])
                    == s0.classes_seq()[cc],
            exists|i: int|
                0 <= i < s0.classes_seq()[c].pools_seq().len() && (#[trigger] s0.classes_seq()[c].pools_seq()[i]).owns(ptr),
            !s0.classes_seq()[c].is_live(ptr),
            self.classes_seq()[c].is_live(ptr),
            forall|q: usize|
                q != ptr ==> ((#[trigger] self.classes_seq()[c].is_live(q)) <==> s0.classes_seq()[c].is_live(q)),
            forall|a: usize|
                (#[trigger] s0.classes_seq()[c].owns(a)) ==> self.classes_seq()[c].owns(a)
                    && self.classes_seq()[c].byte_model(a) == s0.classes_seq()[c].byte_model(a),
        ensures
            forall|cc: int| !(#[trigger] s0.live_in_class(cc, ptr)),
            forall|cc: int, q: usize|
                !(cc == c && q == ptr) ==> ((#[trigger] self.live_in_class(cc, q))
                    <==> s0.live_in_class(cc, q)),
            forall|cc: int, a: usize|
                (#[trigger] s0.class_owns(cc, a)) ==> self.class_owns(cc, a)
                    && self.byte_in_class(cc, a) == s0.byte_in_class(cc, a),
    {
        let i0 = choose|i: int|
            0 <= i < s0.classes_seq()[c].pools_seq().len() && (#[trigger] s0.classes_seq()[c].pools_seq()[i]).owns(ptr);
        assert forall|cc: int| !(#[trigger] s0.live_in_class(cc, ptr)) by {
            if s0.live_in_class(cc, ptr) {
                let l = s0.classes_seq()[cc];
                let j = choose|j: int|
                    0 <= j < l.pools_seq().len() && (#[trigger] l.pools_seq()[j]).is_live(ptr);
                if cc == c {
                    assert(s0.classes_seq()[c].is_live(ptr));
                } else {
                    assert(s0.pool_of(cc, j).owns(ptr));
                    assert(s0.pool_of(c, i0).owns(ptr));
                    assert(s0.pool_of(cc, j).spec_end() <= s0.pool_of(c, i0).spec_base()
                        || s0.pool_of(c, i0).spec_end() <= s0.pool_of(cc, j).spec_base());
                }
            }
        }
    }
}

/// A pointwise update of one class list that keeps every pool's geometry
/// (size, stride, base, slot count) and the list's own invariant keeps the
/// dispatcher's invariant.
proof fn lemma_wf_after_class_update(s0: FixedAlloc, s1: FixedAlloc, c: int)
    requires
        s0.wf(),
        0 <= c < s0.class_count(),
        s1.class_count() == s0.class_count(),
        s1.spec_class_sizes() == s0.spec_class_sizes(),
        s1.spec_pool_len() == s0.spec_pool_len(),
        s1.spec_next_base() == s0.spec_next_base(),
        forall|cc: int|
            0 <= cc < s0.class_count() && cc != c ==> (#[trigger] s1.classes_seq()[cc])
                == s0.classes_seq()[cc],
        s1.classes_seq()[c].wf(),
        s1.classes_seq()[c].pools_seq().len() == s0.classes_seq()[c].pools_seq().len(),
        forall|i: int|
            0 <= i < s0.classes_seq()[c].pools_seq().len() ==> {
                &&& (#[trigger] s1.classes_seq()[c].pools_seq()[i]).spec_size()
                    == s0.classes_seq()[c].pools_seq()[i].spec_size()
                &&& s1.classes_seq()[c].pools_seq()[i].spec_align() == s0.classes_seq()[c].pools_seq()[i].spec_align()
                &&& s1.classes_seq()[c].pools_seq()[i].spec_base() == s0.classes_seq()[c].pools_seq()[i].spec_base()
                &&& s1.classes_seq()[c].pools_seq()[i].num_slots() == s0.classes_seq()[c].pools_seq()[i].num_slots()
            },
    ensures
        s1.wf(),
{
    assert forall|cc: int, i: int|
        #![trigger s1.pool_of(cc, i)]
        0 <= cc < s1.class_count() && 0 <= i < s1.classes_seq()[cc].pools_seq().len() implies {
        &&& s1.pool_of(cc, i).spec_size() == class_size(cc)
        &&& s1.pool_of(cc, i).spec_align() == class_size(cc)
        &&& s1.pool_of(cc, i).num_slots() == s1.spec_pool_len()
        &&& s1.pool_of(cc, i).spec_end() <= s1.spec_next_base()
        &&& (s1.pool_of(cc, i).spec_base() as int) % class_size(cc) == 0
    } by {
        assert(s0.pool_of(cc, i).spec_size() == class_size(cc));
        assert((s0.pool_of(cc, i).spec_base() as int) % class_size(cc) == 0);
    }
    assert forall|c1: int, i1: int, c2: int, i2: int|
        #![trigger s1.pool_of(c1, i1), s1.pool_of(c2, i2)]
        0 <= c1 < s1.class_count() && 0 <= i1 < s1.classes_seq()[c1].pools_seq().len() && 0 <= c2
            < s1.class_count() && 0 <= i2 < s1.classes_seq()[c2].pools_seq().len() && c1
            != c2 implies (s1.pool_of(c1, i1).spec_end() <= s1.pool_of(c2, i2).spec_base()
        || s1.pool_of(c2, i2).spec_end() <= s1.pool_of(c1, i1).spec_base()) by {
        assert(s0.pool_of(c1, i1).spec_end() <= s0.pool_of(c2, i2).spec_base() || s0.pool_of(
            c2,
            i2,
        ).spec_end() <= s0.pool_of(c1, i1).spec_base());
    }
}

/// Inserting one fresh pool at the placement cursor into its class list and
/// moving the cursor to the new arena's end keeps the dispatcher's
/// invariant.
proof fn lemma_wf_after_class_insert(s0: FixedAlloc, s1: FixedAlloc, c: int, k: int, p: Pool)
    requires
        s0.wf(),
        0 <= c < s0.class_count(),
        s1.class_count() == s0.class_count(),
        s1.spec_class_sizes() == s0.spec_class_sizes(),
        s1.spec_pool_len() == s0.spec_pool_len(),
        forall|cc: int|
            0 <= cc < s0.class_count() && cc != c ==> (#[trigger] s1.classes_seq()[cc])
                == s0.classes_seq()[cc],
        s1.classes_seq()[c].wf(),
        0 <= k <= s0.classes_seq()[c].pools_seq().len(),
        s1.classes_seq()[c].pools_seq() == s0.classes_seq()[c].pools_seq().insert(k, p),
        p.wf(),
        p.spec_size() == class_size(c),
        p.spec_align() == class_size(c),
        p.num_slots() == s0.spec_pool_len(),
        p.spec_base() == s0.spec_next_base(),
        s1.spec_next_base() == p.spec_end(),
    ensures
        s1.wf(),
{
    let s = s0.classes_seq()[c].pools_seq();
    let t = s1.classes_seq()[c].pools_seq();
    let top = class_size(s0.class_count() - 1);
    let cs = class_size(c);
    let pl = s0.spec_pool_len() as int;
    lemma2_to64();
    lemma_class_size_pow2(s0.class_count() - 1);
    lemma_class_size_pow2(c);
    lemma_class_size_increases(c, s0.class_count() - 1);
    pool::lemma_pow2_divides(cs, top);
    assert(cs * pl == (class_size(0) * pl) * pow2(c as nat)) by (nonlinear_arith)
        requires
            cs == class_size(0) * pow2(c as nat),
    ;
    pool::lemma_mod_mul(class_size(0) * pl, pow2(c as nat) as int, top);
    pool::lemma_mod_add(p.spec_base() as int, cs * pl, top);
    assert((s1.spec_next_base() as int) % top == 0);
    pool::lemma_mod_trans(p.spec_base() as int, top, cs);
    assert forall|cc: int, i: int|
        #![trigger s1.pool_of(cc, i)]
        0 <= cc < s1.class_count() && 0 <= i < s1.classes_seq()[cc].pools_seq().len() implies {
        &&& s1.pool_of(cc, i).spec_size() == class_size(cc)
        &&& s1.pool_of(cc, i).spec_align() == class_size(cc)
        &&& s1.pool_of(cc, i).num_slots() == s1.spec_pool_len()
        &&& s1.pool_of(cc, i).spec_end() <= s1.spec_next_base()
        &&& (s1.pool_of(cc, i).spec_base() as int) % class_size(cc) == 0
    } by {
        if cc == c {
            if i < k {
                assert(t[i] == s[i]);
                assert(s0.pool_of(c, i).spec_size() == class_size(c));
                assert((s0.pool_of(c, i).spec_base() as int) % class_size(c) == 0);
            } else if i == k {
                assert(t[i] == p);
            } else {
                assert(t[i] == s[i - 1]);
                assert(s0.pool_of(c, i - 1).spec_size() == class_size(c));
                assert((s0.pool_of(c, i - 1).spec_base() as int) % class_size(c) == 0);
            }
        } else {
            assert(s0.pool_of(cc, i).spec_size() == class_size(cc));
            assert((s0.pool_of(cc, i).spec_base() as int) % class_size(cc) == 0);
        }
    }
    assert forall|c1: int, i1: int, c2: int, i2: int|
        #![trigger s1.pool_of(c1, i1), s1.pool_of(c2, i2)]
        0 <= c1 < s1.class_count() && 0 <= i1 < s1.classes_seq()[c1].pools_seq().len() && 0 <= c2
            < s1.class_count() && 0 <= i2 < s1.classes_seq()[c2].pools_seq().len() && c1
            != c2 implies (s1.pool_of(c1, i1).spec_end() <= s1.pool_of(c2, i2).spec_base()
        || s1.pool_of(c2, i2).spec_end() <= s1.pool_of(c1, i1).spec_base()) by {
        let q1: Pool = if c1 == c {
            if i1 < k {
                s[i1]
            } else if i1 == k {
                p
            } else {
                s[i1 - 1]
            }
        } else {
            s1.pool_of(c1, i1)
        };
        let q2: Pool = if c2 == c {
            if i2 < k {
                s[i2]
            } else if i2 == k {
                p
            } else {
                s[i2 - 1]
            }
        } else {
            s1.pool_of(c2, i2)
        };
        assert(s1.pool_of(c1, i1) == q1);
        assert(s1.pool_of(c2, i2) == q2);
        if c1 == c && i1 == k {
            if c2 != c {
                assert(s0.pool_of(c2, i2).spec_end() <= s0.spec_next_base());
            }
        } else if c2 == c && i2 == k {
            if c1 != c {
                assert(s0.pool_of(c1, i1).spec_end() <= s0.spec_next_base());
            }
        } else {
            let j1 = if c1 == c && i1 > k {
                i1 - 1
            } else {
                i1
            };
            let j2 = if c2 == c && i2 > k {
                i2 - 1
            } else {
                i2
            };
            assert(q1 == s0.pool_of(c1, j1));
            assert(q2 == s0.pool_of(c2, j2));
            assert(s0.pool_of(c1, j1).spec_end() <= s0.pool_of(c2, j2).spec_base() || s0.pool_of(
                c2,
                j2,
            ).spec_end() <= s0.pool_of(c1, j1).spec_base());
        }
    }
}


/// No two distinct live allocations overlap: whatever the classes of two
/// live allocations, the address ranges they were granted are disjoint.
/// Every interleaving of allocations and deallocations that the contracts
/// admit keeps the dispatcher well formed, so this holds in every
/// reachable state.
pub proof fn lemma_live_ranges_disjoint(
    fa: FixedAlloc,
    p1: usize,
    s1: usize,
    p2: usize,
    s2: usize,
)
    requires
        fa.wf(),
        fa.is_live(p1, s1 as int),
        fa.is_live(p2, s2 as int),
        p1 != p2,
    ensures
        p1 + s1 <= p2 || p2 + s2 <= p1,
{
    let c1 = class_of(s1 as int);
    let c2 = class_of(s2 as int);
    lemma_class_of_bounds(s1 as int);
    lemma_class_of_bounds(s2 as int);
    let l1 = fa.classes_seq()[c1];
    let l2 = fa.classes_seq()[c2];
    let i1 = choose|i: int|
        0 <= i < l1.pools_seq().len() && (#[trigger] l1.pools_seq()[i]).is_live(p1);
    let i2 = choose|i: int|
        0 <= i < l2.pools_seq().len() && (#[trigger] l2.pools_seq()[i]).is_live(p2);
    let pool1 = l1.pools_seq()[i1];
    let pool2 = l2.pools_seq()[i2];
    assert(pool1 == fa.pool_of(c1, i1));
    assert(pool2 == fa.pool_of(c2, i2));
    pool1.lemma_slot_addr_inverse(p1);
    pool1.lemma_slot_addr_in_range(pool1.slot_of(p1));
    pool2.lemma_slot_addr_inverse(p2);
    pool2.lemma_slot_addr_in_range(pool2.slot_of(p2));
    assert(p1 + pool1.spec_align() <= pool1.spec_end());
    assert(p2 + pool2.spec_align() <= pool2.spec_end());
    assert(s1 <= pool1.spec_align());
    assert(s2 <= pool2.spec_align());
    if c1 == c2 && i1 == i2 {
        pool1.lemma_live_slots_disjoint(p1, p2);
        assert(s1 <= pool1.spec_size() && s2 <= pool1.spec_size());
    } else if c1 == c2 {
        if i1 < i2 {
            assert(pool1.spec_end() <= pool2.spec_base());
        } else {
            assert(pool2.spec_end() <= pool1.spec_base());
        }
    } else {
        assert(pool1.spec_end() <= pool2.spec_base() || pool2.spec_end() <= pool1.spec_base());
    }
}


/// A live allocation is aligned to its class's slot size, and with that to
/// every smaller power of two, in particular the alignment its request
/// asked for.
pub proof fn lemma_live_ptr_aligned(fa: FixedAlloc, ptr: usize, size: usize)
    requires
        fa.wf(),
        fa.is_live(ptr, size as int),
    ensures
        (ptr as int) % class_size(class_of(size as int)) == 0,
{
    let c = class_of(size as int);
    lemma_class_of_bounds(size as int);
    lemma_class_size_pow2(c);
    let l = fa.classes_seq()[c];
    let i = choose|i: int|
        0 <= i < l.pools_seq().len() && (#[trigger] l.pools_seq()[i]).is_live(ptr);
    let p = l.pools_seq()[i];
    assert(p == fa.pool_of(c, i));
    p.lemma_slot_addr_inverse(ptr);
    let cs = class_size(c);
    let j = p.slot_of(ptr);
    vstd::arithmetic::div_mod::lemma_mod_multiples_basic(j, cs);
    pool::lemma_mod_add(p.spec_base() as int, j * cs, cs);
    assert(ptr == p.spec_base() + j * cs);
}

} // verus!
