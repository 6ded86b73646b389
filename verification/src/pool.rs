//! A single-size memory pool: one contiguous arena sliced into equal slots,
//! with a stack of free slot indices and O(1) allocate / deallocate.
//!
//! Addresses handed out by a pool are plain integers: a pool placed at base
//! `b` with slot stride `a` owns the half-open address range
//! `[b, b + a * len)`, and slot `j` starts at `b + j * a`. The layer that
//! creates pools is responsible for placing them at disjoint bases.

use vstd::prelude::*;
use vstd::arithmetic::power2::{pow2, lemma_pow2_adds, lemma_pow2_strictly_increases, lemma2_to64};
use vstd::set_lib::{set_int_range, lemma_int_range, lemma_len_subset};

verus! {

/// Minimum slot size in bytes: every slot is at least one machine word wide,
/// so that an unused slot could hold a free-list link. This keeps the classic
/// pool-allocator layout rule even though free slots are tracked in a
/// separate index stack here.
pub const PTR_WIDTH: usize = 8;

/// Failures of pool construction.
#[derive(Debug, Clone, Copy, PartialEq, Eq, Structural)]
pub enum Error {
    /// The requested slot size or slot count was zero.
    Unsized,
    /// The arena layout cannot be represented: the slot stride times the
    /// slot count, placed at the requested base, leaves the address space.
    LayoutError,
}

/// `n` is a power of two.
pub open spec fn power_of_two(n: int) -> bool {
    exists|e: nat| n == pow2(e)
}

/// The smallest power of two that is at least `x`, for `x >= 1`.
pub open spec fn next_pow2_spec(x: int) -> int
    decreases x,
{
    if x <= 1 {
        1
    } else {
        2 * next_pow2_spec((x + 1) / 2)
    }
}

/// `next_pow2_spec(x)` is a power of two and lies in `[x, 2 * x)`.
pub proof fn lemma_next_pow2_bounds(x: int)
    requires
        1 <= x,
    ensures
        power_of_two(next_pow2_spec(x)),
        x <= next_pow2_spec(x) < 2 * x,
    decreases x,
{
    lemma2_to64();
    if x <= 1 {
        assert(next_pow2_spec(x) == pow2(0));
    } else {
        let h = (x + 1) / 2;
        lemma_next_pow2_bounds(h);
        let r = next_pow2_spec(h);
        let e = choose|e: nat| r == pow2(e);
        lemma_pow2_adds(e, 1);
        assert(2 * r == pow2(e + 1));
        assert(power_of_two(next_pow2_spec(x)));
        if x % 2 == 1 && 2 * r == x {
            // an odd number of at least 3 is no doubled power of two
            assert(false);
        }
    }
}

/// There is only one power of two in `[x, 2 * x)`.
pub proof fn lemma_next_pow2_unique(x: int, a: int)
    requires
        1 <= x,
        power_of_two(a),
        x <= a < 2 * x,
    ensures
        a == next_pow2_spec(x),
{
    lemma_next_pow2_bounds(x);
    let r = next_pow2_spec(x);
    let ea = choose|e: nat| a == pow2(e);
    let er = choose|e: nat| r == pow2(e);
    lemma2_to64();
    if ea < er {
        lemma_pow2_adds(ea, 1);
        if ea + 1 < er {
            lemma_pow2_strictly_increases(ea + 1, er);
        }
        assert(r >= 2 * a >= 2 * x);
        assert(false);
    } else if er < ea {
        lemma_pow2_adds(er, 1);
        if er + 1 < ea {
            lemma_pow2_strictly_increases(er + 1, ea);
        }
        assert(a >= 2 * r >= 2 * x);
        assert(false);
    }
}

/// A smaller power of two divides a larger one.
pub proof fn lemma_pow2_divides(a: int, b: int)
    requires
        power_of_two(a),
        power_of_two(b),
        a <= b,
    ensures
        b % a == 0,
{
    let e1 = choose|e: nat| a == pow2(e);
    let e2 = choose|e: nat| b == pow2(e);
    if e2 < e1 {
        lemma_pow2_strictly_increases(e2, e1);
    }
    vstd::arithmetic::power2::lemma_pow2_pos(e1);
    lemma_pow2_adds(e1, (e2 - e1) as nat);
    vstd::arithmetic::div_mod::lemma_mod_multiples_basic(pow2((e2 - e1) as nat) as int, a);
    assert(a * pow2((e2 - e1) as nat) == pow2((e2 - e1) as nat) * a) by (nonlinear_arith);
}

/// A multiple of a multiple of `m` is a multiple of `m`.
pub proof fn lemma_mod_mul(x: int, k: int, m: int)
    requires
        m > 0,
        x % m == 0,
    ensures
        (x * k) % m == 0,
{
    let q = x / m;
    vstd::arithmetic::div_mod::lemma_fundamental_div_mod(x, m);
    assert(x * k == (q * k) * m) by (nonlinear_arith)
        requires
            x == m * q,
    ;
    vstd::arithmetic::div_mod::lemma_mod_multiples_basic(q * k, m);
}

/// A multiple of `m1` is a multiple of every divisor `m2` of `m1`.
pub proof fn lemma_mod_trans(x: int, m1: int, m2: int)
    requires
        m1 > 0,
        m2 > 0,
        x % m1 == 0,
        m1 % m2 == 0,
    ensures
        x % m2 == 0,
{
    let q = x / m1;
    let r = m1 / m2;
    vstd::arithmetic::div_mod::lemma_fundamental_div_mod(x, m1);
    vstd::arithmetic::div_mod::lemma_fundamental_div_mod(m1, m2);
    assert(x == (r * q) * m2) by (nonlinear_arith)
        requires
            x == m1 * q,
            m1 == m2 * r,
    ;
    vstd::arithmetic::div_mod::lemma_mod_multiples_basic(r * q, m2);
}

/// Adding two multiples of `m` gives a multiple of `m`.
pub proof fn lemma_mod_add(x: int, y: int, m: int)
    requires
        m > 0,
        x % m == 0,
        y % m == 0,
    ensures
        (x + y) % m == 0,
{
    vstd::arithmetic::div_mod::lemma_add_mod_noop(x, y, m);
    assert((0int) % m == 0) by (nonlinear_arith)
        requires
            m > 0,
    ;
}

/// A slot size that is already a power of two of at least the machine-word
/// minimum is its own stride.
pub proof fn lemma_stride_of_pow2(x: int)
    requires
        power_of_two(x),
        x >= PTR_WIDTH,
    ensures
        stride_of(x) == x,
        padded_size(x) == x,
{
    lemma_next_pow2_unique(x, x);
}

/// The slot size after padding to the machine-word minimum.
pub open spec fn padded_size(size: int) -> int {
    if size < PTR_WIDTH { PTR_WIDTH as int } else { size }
}

/// The slot stride: the padded slot size rounded up to a power of two.
pub open spec fn stride_of(size: int) -> int {
    next_pow2_spec(padded_size(size))
}

/// The whole arena `[base, base + stride * len)` stays inside the address
/// space.
pub open spec fn layout_fits(size: int, len: int, base: int) -> bool {
    base + stride_of(size) * len <= usize::MAX
}

/// The smallest power of two that is at least `x`, or `None` when it would
/// not fit in `usize`.
fn next_pow2(x: usize) -> (r: Option<usize>)
    requires
        1 <= x,
    ensures
        match r {
            Some(v) => v == next_pow2_spec(x as int),
            None => next_pow2_spec(x as int) > usize::MAX,
        },
{
    let mut a: usize = 1;
    let ghost mut e: nat = 0;
    proof {
        lemma2_to64();
    }
    while a < x
        invariant
            1 <= a,
            a == pow2(e),
            a == 1 || a / 2 < x,
        decreases 2 * x - a,
    {
        if a > usize::MAX / 2 {
            proof {
                lemma2_to64();
                lemma_next_pow2_bounds(x as int);
                let n = next_pow2_spec(x as int);
                let en = choose|ee: nat| n == pow2(ee);
                if en <= e {
                    if en < e {
                        lemma_pow2_strictly_increases(en, e);
                    }
                    assert(n <= a);
                    assert(false);
                }
                lemma_pow2_adds(e, 1);
                if e + 1 < en {
                    lemma_pow2_strictly_increases(e + 1, en);
                }
                assert(n >= 2 * a);
            }
            return None;
        }
        proof {
            lemma_pow2_adds(e, 1);
            lemma2_to64();
            e = e + 1;
        }
        a = a * 2;
    }
    proof {
        lemma_next_pow2_unique(x as int, a as int);
    }
    Some(a)
}

/// A memory pool: one arena of `num_slots` equal slots of `spec_size` bytes
/// each, laid out with stride `spec_align`, plus a stack of the indices of
/// the slots that are currently unused.
///
/// A `Pool` owns its arena exclusively; the type is deliberately not
/// cloneable, so an arena can never have two owners.
pub struct Pool {
    size: usize,
    align: usize,
    len: usize,
    base: usize,
    buffer: Vec<u8>,
    free: Vec<usize>,
    use_cnt: usize,
}

impl Pool {
    /// The slot size in bytes, after padding to the machine-word minimum.
    pub closed spec fn spec_size(&self) -> usize {
        self.size
    }

    /// The slot stride and alignment: the smallest power of two that holds
    /// one slot.
    pub closed spec fn spec_align(&self) -> usize {
        self.align
    }

    /// The number of slots in the arena.
    pub closed spec fn num_slots(&self) -> usize {
        self.len
    }

    /// The start address of the arena.
    pub closed spec fn spec_base(&self) -> usize {
        self.base
    }

    /// The bytes of the arena, indexed from the base address.
    pub closed spec fn bytes(&self) -> Seq<u8> {
        self.buffer@
    }

    /// The stack of free slot indices; the last element is allocated first.
    pub closed spec fn free_slots(&self) -> Seq<usize> {
        self.free@
    }

    /// How many slots are currently handed out.
    pub closed spec fn used(&self) -> usize {
        self.use_cnt
    }

    /// The address one past the end of the arena.
    pub open spec fn spec_end(&self) -> int {
        self.spec_base() + self.spec_align() * self.num_slots()
    }

    /// Structural invariant of a pool: a sound layout, a byte buffer that
    /// covers exactly the arena, and a duplicate-free stack of in-range free
    /// slot indices that accounts for every slot not in use.
    pub open spec fn wf(&self) -> bool {
        &&& 0 < self.spec_size() <= self.spec_align()
        &&& power_of_two(self.spec_align() as int)
        &&& 0 < self.num_slots()
        &&& self.bytes().len() == self.spec_align() * self.num_slots()
        &&& self.used() + self.free_slots().len() == self.num_slots()
        &&& forall|k: int|
            0 <= k < self.free_slots().len() ==> (#[trigger] self.free_slots()[k]) < self.num_slots()
        &&& self.free_slots().no_duplicates()
        &&& self.spec_end() <= usize::MAX
    }

    /// The start address of slot `j`.
    pub open spec fn slot_addr(&self, j: int) -> int {
        self.spec_base() + j * self.spec_align()
    }

    /// `ptr` lies inside this pool's arena.
    pub open spec fn owns(&self, ptr: usize) -> bool {
        self.spec_base() <= ptr < self.spec_end()
    }

    /// `ptr` is the start address of one of this pool's slots.
    pub open spec fn is_slot(&self, ptr: usize) -> bool {
        self.owns(ptr) && (ptr - self.spec_base()) % (self.spec_align() as int) == 0
    }

    /// The index of the slot that `ptr` addresses.
    pub open spec fn slot_of(&self, ptr: usize) -> int {
        (ptr - self.spec_base()) / (self.spec_align() as int)
    }

    /// Slot `j` is currently handed out.
    pub open spec fn slot_live(&self, j: int) -> bool {
        0 <= j < self.num_slots() && !self.free_slots().contains(j as usize)
    }

    /// `ptr` is a live allocation of this pool.
    pub open spec fn is_live(&self, ptr: usize) -> bool {
        self.is_slot(ptr) && self.slot_live(self.slot_of(ptr))
    }

    /// No slot is available to allocate.
    pub open spec fn spec_is_empty(&self) -> bool {
        self.free_slots().len() == 0
    }

    /// No slot is in use: the pool is fully free.
    pub open spec fn spec_is_full(&self) -> bool {
        self.used() == 0
    }

    /// A well-formed pool's arena is nonempty: its end lies strictly after
    /// its base.
    pub proof fn lemma_arena_nonempty(&self)
        requires
            self.wf(),
        ensures
            self.spec_base() < self.spec_end(),
    {
        assert(self.spec_align() * self.num_slots() >= 1) by (nonlinear_arith)
            requires
                self.spec_align() >= 1,
                self.num_slots() >= 1,
        ;
    }

    /// Slot addressing is injective: a slot address determines its index.
    pub proof fn lemma_slot_addr_inverse(&self, ptr: usize)
        requires
            self.wf(),
            self.is_slot(ptr),
        ensures
            0 <= self.slot_of(ptr) < self.num_slots(),
            ptr == self.slot_addr(self.slot_of(ptr)),
    {
        let a = self.spec_align() as int;
        let d = ptr - self.spec_base();
        let j = self.slot_of(ptr);
        assert(d == a * j + d % a) by {
            vstd::arithmetic::div_mod::lemma_fundamental_div_mod(d, a);
        }
        assert(a * j == j * a) by (nonlinear_arith);
        assert(j < self.num_slots()) by (nonlinear_arith)
            requires
                a * j <= d,
                d < a * (self.num_slots() as int),
                a > 0,
        ;
        assert(j >= 0) by (nonlinear_arith)
            requires
                a * j == d,
                d >= 0,
                a > 0,
        ;
    }

    /// A slot start address lies in the arena together with a whole slot:
    /// `[addr, addr + align)` stays below the arena end.
    pub proof fn lemma_slot_addr_in_range(&self, j: int)
        requires
            self.wf(),
            0 <= j < self.num_slots(),
        ensures
            self.spec_base() <= self.slot_addr(j),
            self.slot_addr(j) + self.spec_align() <= self.spec_end(),
            self.slot_of((self.slot_addr(j)) as usize) == j,
            (self.slot_addr(j) - self.spec_base()) % (self.spec_align() as int) == 0,
    {
        let a = self.spec_align() as int;
        let n = self.num_slots() as int;
        assert(0 <= j * a && j * a + a <= n * a) by (nonlinear_arith)
            requires
                0 <= j < n,
                a > 0,
        ;
        assert((j * a) % a == 0) by {
            vstd::arithmetic::div_mod::lemma_mod_multiples_basic(j, a);
        }
        assert((j * a) / a == j) by {
            vstd::arithmetic::div_mod::lemma_div_multiples_vanish(j, a);
            assert(a * j == j * a) by (nonlinear_arith);
        }
    }

    /// A slot stack with a live slot cannot hold all slots: a live slot
    /// means at least one slot is in use.
    pub proof fn lemma_live_slot_used(&self, j: int)
        requires
            self.wf(),
            self.slot_live(j),
        ensures
            self.free_slots().len() < self.num_slots(),
            self.used() >= 1,
    {
        let s = self.free_slots();
        let n = self.num_slots() as int;
        let t = s.map_values(|v: usize| v as int);
        assert forall|k1: int, k2: int|
            0 <= k1 < t.len() && 0 <= k2 < t.len() && k1 != k2 implies t[k1] != t[k2] by {
            assert(s[k1] != s[k2]);
        }
        t.unique_seq_to_set();
        let bounded = set_int_range(0, n).remove(j);
        lemma_int_range(0, n);
        assert(t.to_set().subset_of(bounded)) by {
            assert forall|x: int| t.to_set().contains(x) implies bounded.contains(x) by {
                let k = choose|k: int| 0 <= k < t.len() && t[k] == x;
                assert(s[k] < n);
                assert(s[k] as int != j) by {
                    if s[k] as int == j {
                        assert(s.contains(j as usize));
                    }
                }
            }
        }
        lemma_len_subset(t.to_set(), bounded);
        assert(bounded.len() == n - 1);
    }

    /// When no slot is in use, every slot is free: the pool has returned to
    /// its fully free state, and all `num_slots` slots can be allocated
    /// again.
    pub proof fn lemma_unused_pool_all_free(&self)
        requires
            self.wf(),
            self.used() == 0,
        ensures
            self.free_slots().len() == self.num_slots(),
            forall|j: int| 0 <= j < self.num_slots() ==> !(#[trigger] self.slot_live(j)),
    {
        assert forall|j: int| 0 <= j < self.num_slots() implies !self.slot_live(j) by {
            if self.slot_live(j) {
                self.lemma_live_slot_used(j);
            }
        }
    }

    /// The pool has no free slot exactly when every slot has been allocated.
    pub proof fn lemma_empty_iff_all_used(&self)
        requires
            self.wf(),
        ensures
            self.spec_is_empty() <==> self.used() == self.num_slots(),
    {
    }

    /// Two distinct live allocations of one pool cover disjoint address
    /// ranges of `spec_size` bytes each.
    pub proof fn lemma_live_slots_disjoint(&self, p1: usize, p2: usize)
        requires
            self.wf(),
            self.is_live(p1),
            self.is_live(p2),
            p1 != p2,
        ensures
            p1 + self.spec_size() <= p2 || p2 + self.spec_size() <= p1,
    {
        let a = self.spec_align() as int;
        let j1 = self.slot_of(p1);
        let j2 = self.slot_of(p2);
        self.lemma_slot_addr_inverse(p1);
        self.lemma_slot_addr_inverse(p2);
        assert(j1 != j2);
        assert(j1 < j2 ==> p1 + a <= p2) by (nonlinear_arith)
            requires
                p1 == self.spec_base() + j1 * a,
                p2 == self.spec_base() + j2 * a,
                a > 0,
        ;
        assert(j2 < j1 ==> p2 + a <= p1) by (nonlinear_arith)
            requires
                p1 == self.spec_base() + j1 * a,
                p2 == self.spec_base() + j2 * a,
                a > 0,
        ;
    }

    /// Creates a pool of `len` slots of `size` bytes each, with its arena
    /// placed at address `base`.
    ///
    /// Fails with [`Error::Unsized`] when `size` or `len` is zero, and with
    /// [`Error::LayoutError`] when the arena would not fit in the address
    /// space. On success the pool starts fully free, zero-filled, with the
    /// free stack holding the slot indices in increasing order, so slots are
    /// first handed out in decreasing index order.
    pub fn new_at(size: usize, len: usize, base: usize) -> (r: Result<Pool, Error>)
        ensures
            match r {
                Ok(p) => {
                    &&& size != 0 && len != 0
                    &&& layout_fits(size as int, len as int, base as int)
                    &&& p.wf()
                    &&& p.spec_size() == padded_size(size as int)
                    &&& p.spec_align() == stride_of(size as int)
                    &&& p.num_slots() == len
                    &&& p.spec_base() == base
                    &&& p.used() == 0
                    &&& p.free_slots().len() == len
                    &&& forall|k: int| 0 <= k < len ==> (#[trigger] p.free_slots()[k]) == k
                    &&& forall|i: int| 0 <= i < p.bytes().len() ==> (#[trigger] p.bytes()[i]) == 0
                },
                Err(Error::Unsized) => size == 0 || len == 0,
                Err(Error::LayoutError) => {
                    &&& size != 0 && len != 0
                    &&& !layout_fits(size as int, len as int, base as int)
                },
            },
    {
        if size == 0 || len == 0 {
            return Err(Error::Unsized);
        }
        let padded: usize = if size < PTR_WIDTH {
            PTR_WIDTH
        } else {
            size
        };
        let align = match next_pow2(padded) {
            Some(a) => a,
            None => {
                proof {
                    let stride = stride_of(size as int);
                    assert(stride * (len as int) >= stride) by (nonlinear_arith)
                        requires
                            len >= 1,
                            stride >= 0,
                    ;
                }
                return Err(Error::LayoutError);
            },
        };
        proof {
            lemma_next_pow2_bounds(padded as int);
        }
        if len > usize::MAX / align {
            proof {
                let a = align as int;
                let q = (usize::MAX as int) / a;
                vstd::arithmetic::div_mod::lemma_fundamental_div_mod(usize::MAX as int, a);
                assert(a * q > usize::MAX - a);
                assert(a * (len as int) >= a * (q + 1)) by (nonlinear_arith)
                    requires
                        len as int >= q + 1,
                        a > 0,
                ;
                assert(a * (q + 1) == a * q + a) by (nonlinear_arith);
            }
            return Err(Error::LayoutError);
        }
        proof {
            let a = align as int;
            let q = (usize::MAX as int) / a;
            vstd::arithmetic::div_mod::lemma_fundamental_div_mod(usize::MAX as int, a);
            assert(a * (len as int) <= a * q) by (nonlinear_arith)
                requires
                    len as int <= q,
                    a > 0,
            ;
        }
        let buff_size = align * len;
        if buff_size > usize::MAX - base {
            return Err(Error::LayoutError);
        }
        let mut buffer: Vec<u8> = Vec::new();
        let mut i: usize = 0;
        while i < buff_size
            invariant
                i <= buff_size,
                buffer@.len() == i,
                forall|k: int| 0 <= k < i ==> (#[trigger] buffer@[k]) == 0,
            decreases buff_size - i,
        {
            buffer.push(0u8);
            i = i + 1;
        }
        let mut free: Vec<usize> = Vec::new();
        let mut j: usize = 0;
        while j < len
            invariant
                j <= len,
                free@.len() == j,
                forall|k: int| 0 <= k < j ==> (#[trigger] free@[k]) == k,
            decreases len - j,
        {
            free.push(j);
            j = j + 1;
        }
        Ok(Pool { size: padded, align, len, base, buffer, free, use_cnt: 0 })
    }

    /// Creates a stand-alone pool whose arena starts at address zero.
    ///
    /// `size` is the size of one slot and `len` the number of slots; see
    /// [`Pool::new_at`] for the failure conditions and the initial state.
    pub fn new(size: usize, len: usize) -> (r: Result<Pool, Error>)
        ensures
            match r {
                Ok(p) => {
                    &&& size != 0 && len != 0
                    &&& layout_fits(size as int, len as int, 0)
                    &&& p.wf()
                    &&& p.spec_size() == padded_size(size as int)
                    &&& p.spec_align() == stride_of(size as int)
                    &&& p.num_slots() == len
                    &&& p.spec_base() == 0
                    &&& p.used() == 0
                    &&& p.free_slots().len() == len
                    &&& forall|k: int| 0 <= k < len ==> (#[trigger] p.free_slots()[k]) == k
                    &&& forall|i: int| 0 <= i < p.bytes().len() ==> (#[trigger] p.bytes()[i]) == 0
                },
                Err(Error::Unsized) => size == 0 || len == 0,
                Err(Error::LayoutError) => {
                    &&& size != 0 && len != 0
                    &&& !layout_fits(size as int, len as int, 0)
                },
            },
    {
        Pool::new_at(size, len, 0)
    }

    /// Hands out one free slot and returns its address.
    ///
    /// The caller must have checked that the pool is not empty; the free
    /// stack is popped, so the most recently returned slot is reused first.
    pub fn allocate(&mut self) -> (ptr: usize)
        requires
            old(self).wf(),
            !old(self).spec_is_empty(),
        ensures
            final(self).wf(),
            final(self).spec_size() == old(self).spec_size(),
            final(self).spec_align() == old(self).spec_align(),
            final(self).num_slots() == old(self).num_slots(),
            final(self).spec_base() == old(self).spec_base(),
            final(self).bytes() == old(self).bytes(),
            final(self).free_slots() == old(self).free_slots().drop_last(),
            final(self).used() == old(self).used() + 1,
            ptr == old(self).slot_addr(old(self).free_slots().last() as int),
            old(self).is_slot(ptr),
            !old(self).is_live(ptr),
            final(self).is_live(ptr),
            forall|q: usize| q != ptr ==> (final(self).is_live(q) <==> old(self).is_live(q)),
    {
        proof {
            self.lemma_slot_addr_in_range(self.free_slots().last() as int);
        }
        let j = self.free.pop().unwrap();
        self.use_cnt = self.use_cnt + 1;
        proof {
            let s = old(self).free_slots();
            assert(final(self).free_slots() == s.drop_last());
            assert(!s.drop_last().contains(s.last())) by {
                if s.drop_last().contains(s.last()) {
                    let k = choose|k: int| 0 <= k < s.len() - 1 && s.drop_last()[k] == s.last();
                    assert(s[k] == s[s.len() - 1]);
                }
            }
            assert forall|q: usize| q != (old(self).slot_addr(s.last() as int)) as usize implies
                (final(self).is_live(q) <==> old(self).is_live(q)) by {
                if old(self).is_slot(q) {
                    old(self).lemma_slot_addr_inverse(q);
                    let jq = old(self).slot_of(q);
                    if jq == s.last() as int {
                        old(self).lemma_slot_addr_in_range(jq);
                    }
                    assert(s.drop_last().contains(jq as usize) ==> s.contains(jq as usize));
                    if s.contains(jq as usize) && jq != s.last() as int {
                        let k = choose|k: int| 0 <= k < s.len() && s[k] == jq as usize;
                        assert(k < s.len() - 1);
                        assert(s.drop_last()[k] == jq as usize);
                        assert(s.drop_last().contains(jq as usize));
                    }
                }
            }
        }
        self.base + j * self.align
    }

    /// Returns a live slot to the free stack.
    ///
    /// `ptr` must be a slot address previously handed out by this exact pool
    /// and not returned since.
    pub fn dealloc(&mut self, ptr: usize)
        requires
            old(self).wf(),
            old(self).is_live(ptr),
        ensures
            final(self).wf(),
            final(self).spec_size() == old(self).spec_size(),
            final(self).spec_align() == old(self).spec_align(),
            final(self).num_slots() == old(self).num_slots(),
            final(self).spec_base() == old(self).spec_base(),
            final(self).bytes() == old(self).bytes(),
            final(self).free_slots() == old(self).free_slots().push(
                (old(self).slot_of(ptr)) as usize,
            ),
            old(self).used() >= 1,
            final(self).used() == old(self).used() - 1,
            !final(self).is_live(ptr),
            forall|q: usize| q != ptr ==> (final(self).is_live(q) <==> old(self).is_live(q)),
    {
        proof {
            self.lemma_slot_addr_inverse(ptr);
            self.lemma_live_slot_used(self.slot_of(ptr));
        }
        let j = (ptr - self.base) / self.align;
        self.free.push(j);
        self.use_cnt = self.use_cnt - 1;
        proof {
            let s = old(self).free_slots();
            let jv = (old(self).slot_of(ptr)) as usize;
            assert forall|q: usize| q != ptr implies
                (final(self).is_live(q) <==> old(self).is_live(q)) by {
                if old(self).is_slot(q) {
                    old(self).lemma_slot_addr_inverse(q);
                    let jq = old(self).slot_of(q);
                    assert(jq != jv as int) by {
                        if jq == jv as int {
                            old(self).lemma_slot_addr_inverse(ptr);
                        }
                    }
                    assert forall|x: usize| x != jv implies
                        (s.push(jv).contains(x) <==> s.contains(x)) by {
                        if s.contains(x) {
                            let k = choose|k: int| 0 <= k < s.len() && s[k] == x;
                            assert(s.push(jv)[k] == x);
                        }
                        if s.push(jv).contains(x) {
                            let k = choose|k: int| 0 <= k < s.len() + 1 && s.push(jv)[k] == x;
                            assert(k < s.len());
                            assert(s[k] == x);
                        }
                    }
                }
            }
            assert(final(self).is_live(ptr) == false) by {
                assert(s.push(jv)[s.len() as int] == jv);
                assert(s.push(jv).contains(jv));
            }
        }
    }

    /// True when no slot is in use, i.e. the pool is maximally free. The
    /// name follows the free list: a fully unused pool has a full free
    /// stack.
    pub fn is_full(&self) -> (r: bool)
        ensures
            r == self.spec_is_full(),
    {
        self.use_cnt == 0
    }

    /// True when no free slot is left, i.e. nothing can be allocated.
    pub fn is_empty(&self) -> (r: bool)
        ensures
            r == self.spec_is_empty(),
    {
        self.free.len() == 0
    }

    /// The slot size in bytes, after padding to the machine-word minimum.
    pub fn size(&self) -> (r: usize)
        ensures
            r == self.spec_size(),
    {
        self.size
    }

    /// The slot stride and alignment in bytes.
    pub fn align(&self) -> (r: usize)
        ensures
            r == self.spec_align(),
    {
        self.align
    }

    /// The arena's start address, used as a sortable identity for pool
    /// collections.
    pub fn id(&self) -> (r: usize)
        ensures
            r == self.spec_base(),
    {
        self.base
    }

    /// The address one past the end of the arena.
    pub fn end(&self) -> (r: usize)
        requires
            self.wf(),
        ensures
            r == self.spec_end(),
    {
        self.base + self.buffer.len()
    }

    /// Reads one byte of a live slot: `offset` bytes into the slot that
    /// starts at `ptr`.
    pub fn read(&self, ptr: usize, offset: usize) -> (v: u8)
        requires
            self.wf(),
            self.is_live(ptr),
            offset < self.spec_size(),
        ensures
            v == self.bytes()[ptr - self.spec_base() + offset],
    {
        proof {
            self.lemma_slot_addr_inverse(ptr);
            self.lemma_slot_addr_in_range(self.slot_of(ptr));
        }
        self.buffer[ptr - self.base + offset]
    }

    /// Writes one byte of a live slot: `offset` bytes into the slot that
    /// starts at `ptr`. Only that byte changes; the free stack and the use
    /// count stay as they are.
    pub fn write(&mut self, ptr: usize, offset: usize, v: u8)
        requires
            old(self).wf(),
            old(self).is_live(ptr),
            offset < old(self).spec_size(),
        ensures
            final(self).wf(),
            final(self).spec_size() == old(self).spec_size(),
            final(self).spec_align() == old(self).spec_align(),
            final(self).num_slots() == old(self).num_slots(),
            final(self).spec_base() == old(self).spec_base(),
            final(self).free_slots() == old(self).free_slots(),
            final(self).used() == old(self).used(),
            final(self).bytes() == old(self).bytes().update(
                ptr - old(self).spec_base() + offset,
                v,
            ),
    {
        proof {
            self.lemma_slot_addr_inverse(ptr);
            self.lemma_slot_addr_in_range(self.slot_of(ptr));
        }
        let idx = ptr - self.base + offset;
        self.buffer[idx] = v;
    }
}

/// A byte written into a live slot is read back unchanged as long as the
/// arena bytes are not written again: writing `v` at `offset` into the slot
/// at `ptr` and then reading the same position yields `v`.
pub proof fn lemma_write_then_read(p: Pool, q: Pool, ptr: usize, offset: usize, v: u8)
    requires
        p.wf(),
        p.is_live(ptr),
        offset < p.spec_size(),
        q.spec_base() == p.spec_base(),
        q.bytes() == p.bytes().update(ptr - p.spec_base() + offset, v),
    ensures
        q.bytes()[ptr - q.spec_base() + offset] == v,
{
    p.lemma_slot_addr_inverse(ptr);
    p.lemma_slot_addr_in_range(p.slot_of(ptr));
}



} // verus!
