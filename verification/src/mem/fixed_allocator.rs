use vstd::prelude::*;
use crate::error::KError;
use crate::util::ceil_div;

verus! {

/// The parts that the boot heap is divided into.
#[derive(Clone, Copy, Debug, PartialEq, Eq, Structural)]
pub enum Regions {
    Region0,
    Region1,
    Region2,
    Region3,
    Region4,
}

pub const TOTAL_REGIONS: usize = 5;
pub const TOTAL_BOOT_MEMORY: u64 = 229376;
/// No slot is smaller than this.
pub const MIN_SLOT_SIZE: u64 = 8;
/// Bytes of the bitmap, which has one bit for each smallest slot.
pub const BITMAP_SIZE: u64 = 3584;

/// Size of a region in bytes.
pub open spec fn region_size(r: Regions) -> int {
    match r {
        Regions::Region0 => 163840,
        Regions::Region1 => 16384,
        Regions::Region2 => 4096,
        Regions::Region3 => 40960,
        Regions::Region4 => 4096,
    }
}

/// Where a region starts in the heap: behind the regions before it.
pub open spec fn region_start(r: Regions) -> int {
    match r {
        Regions::Region0 => 0,
        Regions::Region1 => region_size(Regions::Region0),
        Regions::Region2 => region_start_of_1() + region_size(Regions::Region1),
        Regions::Region3 => region_start_of_1() + region_size(Regions::Region1) + region_size(Regions::Region2),
        Regions::Region4 => region_start_of_1() + region_size(Regions::Region1) + region_size(Regions::Region2)
            + region_size(Regions::Region3),
    }
}

pub open spec fn region_start_of_1() -> int {
    region_size(Regions::Region0)
}

/// Where a region's part of the bitmap starts: one byte covers eight of the smallest slots.
pub open spec fn bitmap_start(r: Regions) -> int {
    region_start(r) / 64
}

/// Bit `k` of a byte is set.
pub open spec fn bit_set(b: u8, k: int) -> bool {
    b & (1u8 << (k as u8)) != 0
}

proof fn lemma_set_bit(b: u8, k: u8, j: u8)
    by (bit_vector)
    requires
        k < 8,
        j < 8,
    ensures
        ((b | (1u8 << k)) & (1u8 << j) != 0) <==> (j == k || b & (1u8 << j) != 0),
{
}

proof fn lemma_clear_bit(b: u8, k: u8, j: u8)
    by (bit_vector)
    requires
        k < 8,
        j < 8,
    ensures
        ((b & !(1u8 << k)) & (1u8 << j) != 0) <==> (j != k && b & (1u8 << j) != 0),
{
}

/// The heap used before the real allocators work: where it lies, where it lay when it was set up,
/// and which slots are in use.
pub struct FixedHeap {
    pub base: u64,
    pub old_base: u64,
    pub bitmap: Vec<u8>,
}

/// Hands out slots of one size from one region.
#[derive(Clone, Copy)]
pub struct FixedAllocator {
    pub region: Regions,
    pub slot_size: u64,
}

/// Slot `i` of a region is in use, where `hdr` is the region's place in the bitmap.
pub open spec fn slot_used(bitmap: Seq<u8>, hdr: int, i: int) -> bool {
    bit_set(bitmap[hdr + i / 8], i % 8)
}

/// The `n` slots from `start` on are free.
pub open spec fn run_free(bitmap: Seq<u8>, hdr: int, start: int, n: int) -> bool {
    forall|i: int| start <= i < start + n ==> !#[trigger] slot_used(bitmap, hdr, i)
}

/// The two bitmaps differ in the `n` slots from `start` on only, which are in use in the second
/// exactly if `used` says so.
pub open spec fn slots_changed(a: Seq<u8>, b: Seq<u8>, hdr: int, start: int, n: int, used: bool) -> bool {
    &&& a.len() == b.len()
    &&& forall|i: int, k: int| 0 <= i < a.len() && 0 <= k < 8 ==> #[trigger] bit_set(b[i], k) == (
        if start <= 8 * (i - hdr) + k < start + n { used } else { bit_set(a[i], k) })
}

impl FixedHeap {
    pub open spec fn well_formed(self) -> bool {
        &&& self.bitmap@.len() == BITMAP_SIZE
        &&& self.base + TOTAL_BOOT_MEMORY <= u64::MAX
        &&& self.old_base + TOTAL_BOOT_MEMORY + BITMAP_SIZE + 4096 <= u64::MAX
    }

    /// A heap with no slot in use that lies at `base`.
    pub fn new(base: u64) -> (r: FixedHeap)
        requires
            base + TOTAL_BOOT_MEMORY + BITMAP_SIZE + 4096 <= u64::MAX,
        ensures
            r.well_formed(),
            r.base == base,
            r.old_base == 0,
            r.bitmap@ == Seq::new(BITMAP_SIZE as nat, |i: int| 0u8),
    {
        let mut bitmap: Vec<u8> = Vec::new();
        let mut i: u64 = 0;
        while i < BITMAP_SIZE
            invariant
                i <= BITMAP_SIZE,
                bitmap@ =~= Seq::new(i as nat, |j: int| 0u8),
            decreases BITMAP_SIZE - i,
        {
            bitmap.push(0);
            i = i + 1;
        }
        FixedHeap { base, old_base: 0, bitmap }
    }

    /// Remembers where the heap lies before the kernel moves.
    pub fn setup_heap(&mut self)
        requires
            old(self).well_formed(),
            old(self).base + TOTAL_BOOT_MEMORY + BITMAP_SIZE + 4096 <= u64::MAX,
        ensures
            *final(self) == (FixedHeap { old_base: old(self).base, ..*old(self) }),
            final(self).well_formed(),
    {
        self.old_base = self.base;
    }

    /// Marks every slot free.
    pub fn clear_heap(&mut self)
        requires
            old(self).well_formed(),
        ensures
            final(self).well_formed(),
            final(self).base == old(self).base,
            final(self).old_base == old(self).old_base,
            final(self).bitmap@ == Seq::new(BITMAP_SIZE as nat, |i: int| 0u8),
    {
        let mut i: usize = 0;
        while i < self.bitmap.len()
            invariant
                i <= self.bitmap@.len(),
                self.well_formed(),
                self.base == old(self).base,
                self.old_base == old(self).old_base,
                forall|j: int| 0 <= j < i ==> #[trigger] self.bitmap@[j] == 0,
            decreases self.bitmap@.len() - i,
        {
            self.bitmap.set(i, 0);
            i = i + 1;
        }
        assert(self.bitmap@ =~= Seq::new(BITMAP_SIZE as nat, |i: int| 0u8));
    }

    /// The address of a region, and the first byte of its part of the bitmap.
    pub fn get_heap(&self, reg: Regions) -> (r: (u64, usize))
        requires
            self.well_formed(),
        ensures
            r.0 == self.base + region_start(reg),
            r.1 == bitmap_start(reg),
    {
        let a: FixedAllocator = FixedAllocator { region: reg, slot_size: 8 };
        let (heap_off, hdr) = a.fetch_hdr_and_base();
        (self.base + heap_off, hdr as usize)
    }
}

impl FixedAllocator {
    pub open spec fn well_formed(self) -> bool {
        self.slot_size >= MIN_SLOT_SIZE
    }

    pub open spec fn hdr(self) -> int {
        bitmap_start(self.region)
    }

    pub open spec fn total_slots(self) -> int {
        region_size(self.region) / (self.slot_size as int)
    }

    /// Where the region starts in the heap, and where its part of the bitmap starts.
    pub fn fetch_hdr_and_base(&self) -> (r: (u64, u64))
        ensures
            r.0 == region_start(self.region),
            r.1 == bitmap_start(self.region),
    {
        match self.region {
            Regions::Region0 => (0, 0),
            Regions::Region1 => (163840, 2560),
            Regions::Region2 => (180224, 2816),
            Regions::Region3 => (184320, 2880),
            Regions::Region4 => (225280, 3520),
        }
    }

    /// How many slots the region has.
    pub fn calculate_total_slots(&self) -> (r: u64)
        requires
            self.well_formed(),
        ensures
            r == self.total_slots(),
            8 * r <= region_size(self.region),
            self.slot_size * r <= region_size(self.region),
    {
        let size: u64 = match self.region {
            Regions::Region0 => 163840,
            Regions::Region1 => 16384,
            Regions::Region2 => 4096,
            Regions::Region3 => 40960,
            Regions::Region4 => 4096,
        };
        let n: u64 = size / self.slot_size;
        proof {
            let s = self.slot_size as int;
            vstd::arithmetic::div_mod::lemma_fundamental_div_mod(size as int, s);
            assert(s * n <= size) by (nonlinear_arith)
                requires size == s * n + (size as int) % s, (size as int) % s >= 0;
            vstd::arithmetic::div_mod::lemma_mod_bound(size as int, s);
            assert(8 * n <= s * n) by (nonlinear_arith)
                requires s >= 8, n >= 0;
        }
        n
    }

    /// The slots wanted do not fit anywhere in the region.
    pub open spec fn no_room(self, bitmap: Seq<u8>, n: int) -> bool {
        forall|s: int| 0 <= s && s + n <= self.total_slots() ==> !#[trigger] run_free(bitmap, self.hdr(), s, n)
    }

    fn slot_in_use(&self, heap: &FixedHeap, hdr: u64, slot: u64) -> (r: bool)
        requires
            heap.well_formed(),
            hdr == self.hdr(),
            8 * slot < region_size(self.region),
        ensures
            r == slot_used(heap.bitmap@, hdr as int, slot as int),
    {
        let bit: u8 = (slot % 8) as u8;
        heap.bitmap[(hdr + slot / 8) as usize] & (1u8 << bit) != 0
    }

    fn mark(&self, heap: &mut FixedHeap, hdr: u64, start: u64, n: u64, used: bool)
        requires
            old(heap).well_formed(),
            hdr == self.hdr(),
            8 * (start + n) <= region_size(self.region),
        ensures
            final(heap).well_formed(),
            final(heap).base == old(heap).base,
            final(heap).old_base == old(heap).old_base,
            slots_changed(old(heap).bitmap@, final(heap).bitmap@, hdr as int, start as int, n as int, used),
    {
        let ghost b0 = heap.bitmap@;
        let mut i: u64 = 0;
        while i < n
            invariant
                i <= n,
                heap.well_formed(),
                heap.base == old(heap).base,
                heap.old_base == old(heap).old_base,
                hdr == self.hdr(),
                8 * (start + n) <= region_size(self.region),
                slots_changed(b0, heap.bitmap@, hdr as int, start as int, i as int, used),
            decreases n - i,
        {
            let slot: u64 = start + i;
            let group: usize = (hdr + slot / 8) as usize;
            let bit: u8 = (slot % 8) as u8;
            let ghost before = heap.bitmap@;
            let old_byte: u8 = heap.bitmap[group];
            let byte: u8 = if used { old_byte | (1u8 << bit) } else { old_byte & !(1u8 << bit) };
            heap.bitmap.set(group, byte);
            proof {
                assert forall|j: int, k: int| 0 <= j < b0.len() && 0 <= k < 8 implies #[trigger] bit_set(
                    heap.bitmap@[j], k) == (if start <= 8 * (j - hdr) + k < start + (i + 1) {
                    used
                } else {
                    bit_set(b0[j], k)
                }) by {
                    assert(bit_set(before[j], k) == (if start <= 8 * (j - hdr) + k < start + i {
                        used
                    } else {
                        bit_set(b0[j], k)
                    }));
                    if j == group {
                        lemma_set_bit(old_byte, bit, k as u8);
                        lemma_clear_bit(old_byte, bit, k as u8);
                        assert(8 * (j - hdr) + bit == slot);
                    } else {
                        assert(heap.bitmap@[j] == before[j]);
                        assert(8 * (j - hdr) + k != slot);
                    }
                }
            }
            i = i + 1;
        }
    }

    /// Hands out the first run of free slots that holds `size` bytes.
    pub fn alloc_slots(&self, heap: &mut FixedHeap, size: u64) -> (r: Result<u64, KError>)
        requires
            self.well_formed(),
            old(heap).well_formed(),
            size > 0,
            size % self.slot_size == 0,
        ensures
            final(heap).well_formed(),
            final(heap).base == old(heap).base,
            final(heap).old_base == old(heap).old_base,
            served(*self, *old(heap), size, r, final(heap).bitmap@),
            r matches Err(e) ==> e == KError::OutOfMemory,
    {
        let (base_off, hdr) = self.fetch_hdr_and_base();
        let num_slots: u64 = self.calculate_total_slots();
        let n: u64 = ceil_div(size, self.slot_size);
        let ghost b = heap.bitmap@;
        let mut start: u64 = 0;
        let mut found: u64 = 0;
        let mut idx: u64 = 0;
        proof {
            assert(n == size as int / self.slot_size as int);
            assert(n > 0) by (nonlinear_arith)
                requires size <= n * self.slot_size, size > 0, self.slot_size > 0;
        }
        while idx < num_slots && found < n
            invariant
                idx <= num_slots,
                found <= n,
                n > 0,
                heap.well_formed(),
                *heap == *old(heap),
                b == heap.bitmap@,
                hdr == self.hdr(),
                8 * num_slots <= region_size(self.region),
                found > 0 ==> start + found == idx,
                forall|i: int| idx - found <= i < idx ==> !#[trigger] slot_used(b, hdr as int, i),
                forall|s: int| 0 <= s < idx - found ==> !#[trigger] run_free(b, hdr as int, s, n as int),
                found <= idx,
            decreases num_slots - idx,
        {
            if !self.slot_in_use(heap, hdr, idx) {
                if found == 0 {
                    start = idx;
                }
                found = found + 1;
            } else {
                proof {
                    assert forall|s: int| 0 <= s < idx + 1 implies !#[trigger] run_free(b, hdr as int, s, n as int) by {
                        if s >= idx - found {
                            assert(slot_used(b, hdr as int, idx as int));
                        }
                    }
                }
                found = 0;
            }
            idx = idx + 1;
        }
        if found != n {
            proof {
                assert forall|s: int| 0 <= s && s + n <= self.total_slots() implies !#[trigger] run_free(
                    b, self.hdr(), s, n as int) by {
                    assert(idx == num_slots);
                    assert(s < idx - found);
                }
            }
            return Err(KError::OutOfMemory);
        }
        assert(run_free(b, hdr as int, start as int, n as int));
        self.mark(heap, hdr, start, n, true);
        proof {
            assert(start * self.slot_size <= self.slot_size * num_slots) by (nonlinear_arith)
                requires start <= num_slots, self.slot_size >= 0;
        }
        Ok(heap.base + base_off + start * self.slot_size)
    }

    /// The slot that an address handed out by this allocator stands for; addresses handed out before
    /// the kernel moved are understood too.
    pub open spec fn slot_of(self, heap: FixedHeap, addr: u64) -> int {
        let whole = 229376 + 3584 + 512;
        let a = if heap.old_base <= addr < heap.old_base + whole { heap.base + addr - heap.old_base } else { addr as int };
        (a - (heap.base + region_start(self.region))) / (self.slot_size as int)
    }

    /// Marks the slots of a block free.
    pub fn dealloc_slots(&self, heap: &mut FixedHeap, addr: u64, size: u64)
        requires
            self.well_formed(),
            old(heap).well_formed(),
            size > 0,
            size % self.slot_size == 0,
            old(heap).base + 233472 <= u64::MAX,
            ({
                let whole = 229376 + 3584 + 512;
                let a = if old(heap).old_base <= addr < old(heap).old_base + whole {
                    old(heap).base + addr - old(heap).old_base
                } else {
                    addr as int
                };
                a >= old(heap).base + region_start(self.region)
            }),
            self.slot_of(*old(heap), addr) + size as int / self.slot_size as int <= self.total_slots(),
        ensures
            final(heap).well_formed(),
            final(heap).base == old(heap).base,
            final(heap).old_base == old(heap).old_base,
            slots_changed(
                old(heap).bitmap@, final(heap).bitmap@, self.hdr(), self.slot_of(*old(heap), addr),
                size as int / self.slot_size as int, false),
    {
        let (base_off, hdr) = self.fetch_hdr_and_base();
        let num_slots: u64 = self.calculate_total_slots();
        let n: u64 = ceil_div(size, self.slot_size);
        let a: u64 = if addr >= heap.old_base && addr - heap.old_base < 233472 {
            heap.base + (addr - heap.old_base)
        } else {
            addr
        };
        let slot: u64 = (a - (heap.base + base_off)) / self.slot_size;
        self.mark(heap, hdr, slot, n, false);
    }
}

/// A slot that was just handed out was free, is in use now, and is free again once it is given back:
/// the bitmap is then what it was.
pub proof fn law_alloc_then_dealloc(a: Seq<u8>, b: Seq<u8>, c: Seq<u8>, hdr: int, start: int, n: int)
    requires
        0 <= hdr,
        0 <= start,
        0 < n,
        hdr + (start + n - 1) / 8 < a.len(),
        run_free(a, hdr, start, n),
        slots_changed(a, b, hdr, start, n, true),
        slots_changed(b, c, hdr, start, n, false),
    ensures
        forall|i: int| start <= i < start + n ==> #[trigger] slot_used(b, hdr, i),
        c == a,
{
    assert forall|i: int| start <= i < start + n implies #[trigger] slot_used(b, hdr, i) by {
        assert(bit_set(b[hdr + i / 8], i % 8));
    }
    assert forall|j: int| 0 <= j < a.len() implies a[j] == c[j] by {
        assert forall|k: int| 0 <= k < 8 implies bit_set(a[j], k) == bit_set(c[j], k) by {
            assert(bit_set(b[j], k) == (if start <= 8 * (j - hdr) + k < start + n { true } else { bit_set(a[j], k) }));
            if start <= 8 * (j - hdr) + k < start + n {
                let i = 8 * (j - hdr) + k;
                assert(!slot_used(a, hdr, i));
                assert(i / 8 == j - hdr && i % 8 == k);
            }
        }
        lemma_byte_eq(a[j], c[j]);
    }
    assert(c =~= a);
}

proof fn lemma_byte_eq(x: u8, y: u8)
    requires
        forall|k: int| 0 <= k < 8 ==> bit_set(x, k) == bit_set(y, k),
    ensures
        x == y,
{
    assert(bit_set(x, 0) == bit_set(y, 0));
    assert(bit_set(x, 1) == bit_set(y, 1));
    assert(bit_set(x, 2) == bit_set(y, 2));
    assert(bit_set(x, 3) == bit_set(y, 3));
    assert(bit_set(x, 4) == bit_set(y, 4));
    assert(bit_set(x, 5) == bit_set(y, 5));
    assert(bit_set(x, 6) == bit_set(y, 6));
    assert(bit_set(x, 7) == bit_set(y, 7));
    assert(x == y) by (bit_vector)
        requires
            (x & (1u8 << 0u8) != 0) == (y & (1u8 << 0u8) != 0),
            (x & (1u8 << 1u8) != 0) == (y & (1u8 << 1u8) != 0),
            (x & (1u8 << 2u8) != 0) == (y & (1u8 << 2u8) != 0),
            (x & (1u8 << 3u8) != 0) == (y & (1u8 << 3u8) != 0),
            (x & (1u8 << 4u8) != 0) == (y & (1u8 << 4u8) != 0),
            (x & (1u8 << 5u8) != 0) == (y & (1u8 << 5u8) != 0),
            (x & (1u8 << 6u8) != 0) == (y & (1u8 << 6u8) != 0),
            (x & (1u8 << 7u8) != 0) == (y & (1u8 << 7u8) != 0);
}

/// What it means that a request for `size` bytes was answered with `r`: an address is that of the
/// first run of free slots that is long enough, which are in use then; without such a run there is
/// none, and nothing changes.
pub open spec fn served(fa: FixedAllocator, before: FixedHeap, size: u64, r: Result<u64, KError>, after: Seq<u8>) -> bool {
    let n = size as int / fa.slot_size as int;
    match r {
        Ok(addr) => exists|start: int| {
            &&& 0 <= start && start + n <= fa.total_slots()
            &&& #[trigger] run_free(before.bitmap@, fa.hdr(), start, n)
            &&& forall|s: int| 0 <= s < start ==> !#[trigger] run_free(before.bitmap@, fa.hdr(), s, n)
            &&& slots_changed(before.bitmap@, after, fa.hdr(), start, n, true)
            &&& addr == before.base + region_start(fa.region) + start * fa.slot_size
        },
        Err(_) => fa.no_room(before.bitmap@, n) && after == before.bitmap@,
    }
}

/// Two bitmaps agree on everything but the `n` slots from `start` on.
pub open spec fn agree_outside(a: Seq<u8>, b: Seq<u8>, hdr: int, start: int, n: int) -> bool {
    &&& a.len() == b.len()
    &&& forall|i: int, k: int| 0 <= i < a.len() && 0 <= k < 8 && !(start <= 8 * (i - hdr) + k < start + n)
        ==> #[trigger] bit_set(b[i], k) == bit_set(a[i], k)
}

/// A block that was handed out and is given back, while the heap stays where it is, leaves the bitmap
/// as it was before, whatever else was handed out and given back in between. So the next request of
/// that size gets the same address.
pub proof fn law_same_block_again(fa: FixedAllocator, first: FixedHeap, size: u64, addr: u64, used: Seq<u8>, later: FixedHeap,
    back: FixedHeap, again: Result<u64, KError>, after: Seq<u8>)
    requires
        fa.well_formed(),
        first.well_formed(),
        size > 0,
        size % fa.slot_size == 0,
        served(fa, first, size, Ok(addr), used),
        later.base == first.base,
        later.old_base == first.old_base,
        first.base == first.old_base || !(first.old_base <= addr < first.old_base + 233472),
        agree_outside(
            first.bitmap@, later.bitmap@, fa.hdr(), fa.slot_of(first, addr), size as int / fa.slot_size as int),
        slots_changed(
            later.bitmap@, back.bitmap@, fa.hdr(), fa.slot_of(later, addr), size as int / fa.slot_size as int, false),
        back.base == later.base,
        served(fa, back, size, again, after),
    ensures
        back.bitmap@ == first.bitmap@,
        again == Ok::<u64, KError>(addr),
        after == used,
{
    let n = size as int / fa.slot_size as int;
    let z = fa.slot_size as int;
    let hdr = fa.hdr();
    let a = first.bitmap@;
    let c = back.bitmap@;
    let start = choose|start: int| {
        &&& 0 <= start && start + n <= fa.total_slots()
        &&& #[trigger] run_free(a, hdr, start, n)
        &&& forall|s: int| 0 <= s < start ==> !#[trigger] run_free(a, hdr, s, n)
        &&& slots_changed(a, used, hdr, start, n, true)
        &&& addr == first.base + region_start(fa.region) + start * z
    };
    assert((start * z) / z == start) by {
        vstd::arithmetic::div_mod::lemma_div_multiples_vanish(start, z);
        assert(start * z == z * start) by (nonlinear_arith);
    }
    assert(fa.slot_of(first, addr) == start);
    assert(fa.slot_of(later, addr) == start);
    assert forall|j: int| 0 <= j < a.len() implies a[j] == c[j] by {
        assert forall|k: int| 0 <= k < 8 implies bit_set(a[j], k) == bit_set(c[j], k) by {
            let i = 8 * (j - hdr) + k;
            if start <= i < start + n {
                assert(!slot_used(a, hdr, i));
                assert(i / 8 == j - hdr && i % 8 == k);
            } else {
                assert(bit_set(later.bitmap@[j], k) == bit_set(a[j], k));
            }
        }
        lemma_byte_eq(a[j], c[j]);
    }
    assert(c =~= a);
    match again {
        Err(_) => {
            assert(!run_free(c, hdr, start, n));
        },
        Ok(p) => {
            let s = choose|s: int| {
                &&& 0 <= s && s + n <= fa.total_slots()
                &&& #[trigger] run_free(c, hdr, s, n)
                &&& forall|t: int| 0 <= t < s ==> !#[trigger] run_free(c, hdr, t, n)
                &&& slots_changed(c, after, hdr, s, n, true)
                &&& p == back.base + region_start(fa.region) + s * z
            };
            assert(s == start) by {
                if s < start {
                    assert(!run_free(a, hdr, s, n));
                } else if start < s {
                    assert(!run_free(c, hdr, start, n));
                }
            }
            assert forall|j: int| 0 <= j < a.len() implies after[j] == used[j] by {
                assert forall|k: int| 0 <= k < 8 implies bit_set(after[j], k) == bit_set(used[j], k) by {}
                lemma_byte_eq(after[j], used[j]);
            }
            assert(after =~= used);
        },
    }
}

} // verus!
