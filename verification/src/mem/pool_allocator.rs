use vstd::prelude::*;
use crate::error::KError;
use crate::util::PAGE_SIZE;
use crate::mem::block::{USER, VIRTUAL};
use crate::mem::manager;
use crate::mem::manager::{Memory, MemoryManager};

verus! {

/// How much memory a pool grows by.
pub const ALLOCATION_UNIT: u64 = 8192;

/// Free blocks of one size; the one freed last is handed out first.
pub struct Pool {
    pub block_size: u64,
    pub free_list: Vec<u64>,
}

impl Pool {
    pub fn new(block_size: u64) -> (r: Pool)
        ensures
            r.block_size == block_size,
            r.free_list@.len() == 0,
    {
        Pool { block_size, free_list: Vec::new() }
    }
}

/// The pools, each for another block size.
pub struct PoolControlBlock {
    pub pools: Vec<Pool>,
    /// How many pools there can be.
    pub limit: usize,
}

/// What a pool holds.
#[verifier::ext_equal]
pub struct PoolView {
    pub block_size: u64,
    pub free: Seq<u64>,
}

pub open spec fn pool_views(s: Seq<Pool>) -> Seq<PoolView> {
    Seq::new(s.len(), |i: int| PoolView { block_size: s[i].block_size, free: s[i].free_list@ })
}

/// The model of a `PoolControlBlock`.
#[verifier::ext_equal]
pub struct Pools {
    pub pools: Seq<PoolView>,
    pub limit: usize,
}

impl View for PoolControlBlock {
    type V = Pools;

    open spec fn view(&self) -> Pools {
        Pools { pools: pool_views(self.pools@), limit: self.limit }
    }
}

/// The first pool from `i` on with the block size.
pub open spec fn find_pool(s: Seq<PoolView>, i: int, size: u64) -> Option<int>
    decreases s.len() - i,
{
    if i < 0 || i >= s.len() {
        None
    } else if s[i].block_size == size {
        Some(i)
    } else {
        find_pool(s, i + 1, size)
    }
}

/// The pool with the given free blocks.
pub open spec fn with_free(s: Seq<PoolView>, i: int, free: Seq<u64>) -> Seq<PoolView> {
    s.update(i, PoolView { free, ..s[i] })
}

/// The free list once `n` blocks of fresh memory at `base` have been put on it.
pub open spec fn pushed(free: Seq<u64>, base: u64, n: nat, size: u64) -> Seq<u64>
    decreases n,
{
    if n == 0 { free } else { pushed(free, base, (n - 1) as nat, size).push((base + (n - 1) * size) as u64) }
}

impl Pools {
    /// The pools with one for the block size, and its index; none if there is no room for another.
    pub open spec fn with_pool(self, size: u64) -> (Pools, Option<int>) {
        match find_pool(self.pools, 0, size) {
            Some(i) => (self, Some(i)),
            None => if self.pools.len() < self.limit {
                (
                    Pools { pools: self.pools.push(PoolView { block_size: size, free: Seq::empty() }), ..self },
                    Some(self.pools.len() as int),
                )
            } else {
                (self, None)
            },
        }
    }

    pub open spec fn with_free(self, i: int, free: Seq<u64>) -> Pools {
        Pools { pools: with_free(self.pools, i, free), ..self }
    }
}

/// The outcome of a request for a block: the block freed last, or one of fresh memory.
pub open spec fn block_allocated(p: Pools, m: Memory, size: u64) -> (Pools, Memory, Result<u64, KError>) {
    let (p1, found) = p.with_pool(size);
    match found {
        None => (p1, m, Err(KError::OutOfMemory)),
        Some(i) => if p1.pools[i].free.len() > 0 {
            (p1.with_free(i, p1.pools[i].free.drop_last()), m, Ok(p1.pools[i].free.last()))
        } else {
            let (m1, r) = m.allocated(ALLOCATION_UNIT, 4096, VIRTUAL);
            match r {
                Err(e) => (p1, m1, Err(e)),
                Ok(base) => {
                    let all = pushed(Seq::empty(), base, (8192u64 / size) as nat, size);
                    if all.len() > 0 {
                        (p1.with_free(i, all.drop_last()), m1, Ok(all.last()))
                    } else {
                        (p1, m1, Err(KError::OutOfMemory))
                    }
                },
            }
        },
    }
}

proof fn lemma_pool_found(s: Seq<PoolView>, i: int, size: u64)
    requires
        0 <= i,
    ensures
        match find_pool(s, i, size) {
            Some(k) => i <= k < s.len() && s[k].block_size == size,
            None => forall|k: int| i <= k < s.len() ==> (#[trigger] s[k]).block_size != size,
        },
    decreases s.len() - i,
{
    if i < s.len() {
        lemma_pool_found(s, i + 1, size);
    }
}

proof fn lemma_pushed_len(free: Seq<u64>, base: u64, n: nat, size: u64)
    ensures
        pushed(free, base, n, size).len() == free.len() + n,
    decreases n,
{
    if n > 0 {
        lemma_pushed_len(free, base, (n - 1) as nat, size);
    }
}

impl PoolControlBlock {
    fn find_pool_mut(&self, block_size: u64) -> (r: Option<usize>)
        ensures
            match r {
                Some(k) => find_pool(self@.pools, 0, block_size) == Some(k as int) && k < self.pools@.len(),
                None => find_pool(self@.pools, 0, block_size) is None,
            },
    {
        let mut i: usize = 0;
        while i < self.pools.len()
            invariant
                i <= self.pools@.len(),
                find_pool(self@.pools, 0, block_size) == find_pool(self@.pools, i as int, block_size),
            decreases self.pools@.len() - i,
        {
            if self.pools[i].block_size == block_size {
                return Some(i);
            }
            i = i + 1;
        }
        None
    }

    /// The index of the pool for a block size, which is made if there is none.
    fn add_pool(&mut self, block_size: u64) -> (r: Result<usize, KError>)
        ensures
            final(self)@ == old(self)@.with_pool(block_size).0,
            match r {
                Ok(i) => old(self)@.with_pool(block_size).1 == Some(i as int) && i < final(self).pools@.len(),
                Err(e) => e == KError::OutOfMemory && old(self)@.with_pool(block_size).1 is None,
            },
    {
        match self.find_pool_mut(block_size) {
            Some(i) => Ok(i),
            None => {
                if self.pools.len() >= self.limit {
                    return Err(KError::OutOfMemory);
                }
                let i: usize = self.pools.len();
                self.pools.push(Pool::new(block_size));
                assert(self@ =~~= old(self)@.with_pool(block_size).0);
                Ok(i)
            },
        }
    }

    fn set_free(&mut self, i: usize, free_list: Vec<u64>)
        requires
            i < old(self).pools@.len(),
        ensures
            final(self)@ == old(self)@.with_free(i as int, free_list@),
    {
        let block_size: u64 = self.pools[i].block_size;
        self.pools.set(i, Pool { block_size, free_list });
        assert(self@.pools =~= with_free(old(self)@.pools, i as int, free_list@));
    }

    fn take_free(&mut self, i: usize) -> (r: Vec<u64>)
        requires
            i < old(self).pools@.len(),
        ensures
            r@ == old(self)@.pools[i as int].free,
            final(self)@ == old(self)@.with_free(i as int, Seq::empty()),
            final(self).pools@.len() == old(self).pools@.len(),
    {
        let p: Pool = self.pools.remove(i);
        self.pools.insert(i, Pool { block_size: p.block_size, free_list: Vec::new() });
        assert(self@.pools =~= with_free(old(self)@.pools, i as int, Seq::empty()));
        p.free_list
    }

    /// Hands out a block of `size` bytes.
    pub fn allocate_block(&mut self, mm: &mut MemoryManager, size: u64) -> (r: Result<u64, KError>)
        requires
            old(mm).well_formed(),
            old(mm).is_init,
            0 < size,
            old(mm)@.allocated(ALLOCATION_UNIT, 4096, VIRTUAL).1 matches Ok(base) ==> base + 8192 <= u64::MAX,
        ensures
            (final(self)@, final(mm)@, r) == block_allocated(old(self)@, old(mm)@, size),
            final(mm).well_formed(),
    {
        let i: usize = match self.add_pool(size) {
            Ok(i) => i,
            Err(e) => { return Err(e); },
        };
        let ghost s1 = self@.pools;
        let mut free: Vec<u64> = self.take_free(i);
        assert(with_free(with_free(s1, i as int, Seq::empty()), i as int, free@) =~= s1);
        match free.pop() {
            Some(block) => {
                self.set_free(i, free);
                assert(with_free(with_free(s1, i as int, Seq::empty()), i as int, free@)
                    =~= with_free(s1, i as int, free@));
                return Ok(block);
            },
            None => {},
        }
        assert(s1[i as int].free =~= Seq::empty());
        assert(with_free(s1, i as int, Seq::empty()) =~= s1);
        proof {
            assert(manager::has_flag(VIRTUAL, VIRTUAL) && !manager::has_flag(VIRTUAL, USER)) by {
                assert(1u8 & 1u8 != 0 && 1u8 & 2u8 == 0) by (bit_vector);
            }
        }
        let base: u64 = match mm.allocate_memory(ALLOCATION_UNIT, PAGE_SIZE, VIRTUAL) {
            Ok(b) => b,
            Err(e) => { return Err(e); },
        };
        let slots: u64 = ALLOCATION_UNIT / size;
        let mut list: Vec<u64> = Vec::new();
        let mut k: u64 = 0;
        proof {
            assert(slots * size <= 8192) by (nonlinear_arith)
                requires slots == 8192u64 / size, size > 0;
        }
        while k < slots
            invariant
                k <= slots,
                slots * size <= 8192,
                base + 8192 <= u64::MAX,
                list@ == pushed(Seq::empty(), base, k as nat, size),
            decreases slots - k,
        {
            assert(k * size <= slots * size) by (nonlinear_arith)
                requires k <= slots, size >= 0;
            list.push(base + k * size);
            k = k + 1;
        }
        proof {
            lemma_pushed_len(Seq::empty(), base, slots as nat, size);
        }
        match list.pop() {
            Some(block) => {
                self.set_free(i, list);
                Ok(block)
            },
            None => Err(KError::OutOfMemory),
        }
    }

    /// Takes a block back; blocks of a size that no pool has are ignored.
    pub fn deallocate_block(&mut self, addr: u64, size: u64)
        ensures
            final(self)@ == (match find_pool(old(self)@.pools, 0, size) {
                Some(i) => old(self)@.with_free(i, old(self)@.pools[i].free.push(addr)),
                None => old(self)@,
            }),
    {
        if let Some(i) = self.find_pool_mut(size) {
            let ghost s1 = self@.pools;
            let mut free: Vec<u64> = self.take_free(i);
            free.push(addr);
            self.set_free(i, free);
            assert(self@.pools =~= with_free(s1, i as int, s1[i as int].free.push(addr)));
        }
    }
}

/// A block given back is the next one of its size to be handed out, and nothing else changes.
pub proof fn law_last_freed_first_served(p: Pools, m: Memory, size: u64, addr: u64)
    requires
        find_pool(p.pools, 0, size) is Some,
    ensures
        ({
            let i = find_pool(p.pools, 0, size)->0;
            let freed = p.with_free(i, p.pools[i].free.push(addr));
            block_allocated(freed, m, size) == (p, m, Ok::<u64, KError>(addr))
        }),
{
    let s = p.pools;
    lemma_pool_found(s, 0, size);
    let i = find_pool(s, 0, size)->0;
    let freed = with_free(s, i, s[i].free.push(addr));
    lemma_pool_same(s, freed, 0, size);
    assert(freed[i].free.drop_last() =~= s[i].free);
    assert(with_free(freed, i, s[i].free) =~= s);
}

proof fn lemma_pool_same(s: Seq<PoolView>, t: Seq<PoolView>, i: int, size: u64)
    requires
        0 <= i,
        s.len() == t.len(),
        forall|k: int| 0 <= k < s.len() ==> (#[trigger] s[k]).block_size == t[k].block_size,
    ensures
        find_pool(s, i, size) == find_pool(t, i, size),
    decreases s.len() - i,
{
    if i < s.len() {
        assert(s[i].block_size == t[i].block_size);
        lemma_pool_same(s, t, i + 1, size);
    }
}

} // verus!
