use vstd::prelude::*;
use crate::error::KError;
use crate::loader::elf;
use crate::loader::elf::{
    Ehdr, Phdr, Shdr, PHDR_SIZE, SHDR_SIZE, SYM_SIZE, RELA_SIZE, DYN_SIZE,
    PT_LOAD, PT_DYNAMIC, SHT_SYMTAB,
    DT_PLTRELSZ, DT_HASH, DT_STRTAB, DT_SYMTAB, DT_RELA, DT_RELASZ, DT_RELAENT, DT_STRSZ, DT_JMPREL,
    DT_RELACOUNT,
    check_magic, read_ehdr, read_phdr, read_shdr, read_u32, count_dyn, find_dyn, copy_into, zero_fill,
};
use crate::mem::block::{USER, VIRTUAL};
use crate::mem::manager;
use crate::mem::manager::{Memory, MemoryManager};
use crate::util::PAGE_SIZE;

verus! {

/// A table of equally sized entries in loaded memory.
#[derive(Clone, Copy)]
pub struct ArrayTable {
    pub start: u64,
    pub size: u64,
    pub entry_size: u64,
}

/// A stretch of memory.
#[derive(Clone, Copy)]
pub struct MemoryRegion {
    pub base_address: u64,
    pub size: u64,
}

/// Where the parts of a loaded module lie.
#[derive(Clone, Copy)]
pub struct ModuleInfo {
    pub entry: u64,
    pub base: u64,
    pub size: u64,
    pub total_size: u64,
    pub sym_tab: Option<ArrayTable>,
    pub sym_str: Option<MemoryRegion>,
    pub dyn_tab: Option<ArrayTable>,
    pub dyn_str: Option<MemoryRegion>,
    pub rlc_shn: Option<ArrayTable>,
    pub plt_shn: Option<ArrayTable>,
    pub dyn_shn: Option<ArrayTable>,
    pub rlc_count: u64,
}

/// A piece of the file and the place it is loaded to, relative to the load base.
#[derive(Clone, Copy)]
pub struct AuxRegion {
    pub src_addr: u64,
    pub dest_addr: u64,
    pub src_size: u64,
    pub dest_size: u64,
    pub entry_size: u64,
}

/// The header names a 64-bit object whose tables have the expected entry sizes.
pub open spec fn is_kernel_object(b: Seq<u8>) -> bool {
    &&& elf::has_magic(b)
    &&& elf::ehdr_of(b).e_phentsize == PHDR_SIZE
    &&& elf::ehdr_of(b).e_shentsize == SHDR_SIZE
}

pub open spec fn phdr_of(b: Seq<u8>, i: int) -> Phdr {
    elf::phdr_at(b, elf::ehdr_of(b).e_phoff + 56 * i)
}

pub open spec fn shdr_of(b: Seq<u8>, i: int) -> Shdr {
    elf::shdr_at(b, elf::ehdr_of(b).e_shoff + 64 * i)
}

pub open spec fn is_loadable(p: Phdr) -> bool {
    p.p_type == PT_LOAD || p.p_type == PT_DYNAMIC
}

pub open spec fn region_of(p: Phdr) -> AuxRegion {
    AuxRegion {
        src_addr: p.p_offset,
        dest_addr: p.p_vaddr,
        src_size: p.p_filesz,
        dest_size: p.p_memsz,
        entry_size: 0,
    }
}

/// `s`, ordered by destination, with `r` placed behind all regions that do not come after it.
pub open spec fn insert_region(s: Seq<AuxRegion>, r: AuxRegion) -> Seq<AuxRegion>
    decreases s.len(),
{
    if s.len() == 0 || s.last().dest_addr <= r.dest_addr {
        s.push(r)
    } else {
        insert_region(s.drop_last(), r).push(s.last())
    }
}

/// The loadable regions of the first `n` program headers, ordered by destination; regions with
/// one destination keep the order of their headers.
pub open spec fn regions_of(b: Seq<u8>, n: nat) -> Seq<AuxRegion>
    decreases n,
{
    if n == 0 {
        Seq::empty()
    } else {
        let rest = regions_of(b, (n - 1) as nat);
        let p = phdr_of(b, n - 1);
        if is_loadable(p) { insert_region(rest, region_of(p)) } else { rest }
    }
}

/// The greatest alignment above 1 that a loadable header asks for, 0 if none does.
pub open spec fn max_alignment_of(b: Seq<u8>, n: nat) -> u64
    decreases n,
{
    if n == 0 {
        0
    } else {
        let rest = max_alignment_of(b, (n - 1) as nat);
        let p = phdr_of(b, n - 1);
        if is_loadable(p) && p.p_align != 0 && p.p_align != 1 && p.p_align > rest { p.p_align } else { rest }
    }
}

/// The region of the last dynamic header.
pub open spec fn dynamic_of(b: Seq<u8>, n: nat) -> Option<AuxRegion>
    decreases n,
{
    if n == 0 {
        None
    } else if phdr_of(b, n - 1).p_type == PT_DYNAMIC {
        Some(region_of(phdr_of(b, n - 1)))
    } else {
        dynamic_of(b, (n - 1) as nat)
    }
}

/// The index of the first symbol table section.
pub open spec fn symtab_index(b: Seq<u8>, n: nat) -> Option<int>
    decreases n,
{
    if n == 0 {
        None
    } else {
        match symtab_index(b, (n - 1) as nat) {
            Some(i) => Some(i),
            None => if shdr_of(b, n - 1).sh_type == SHT_SYMTAB { Some(n - 1) } else { None },
        }
    }
}

pub open spec fn symtab_of(b: Seq<u8>) -> Option<AuxRegion> {
    match symtab_index(b, elf::ehdr_of(b).e_shnum as nat) {
        Some(i) => {
            let s = shdr_of(b, i);
            Some(AuxRegion {
                src_addr: s.sh_offset,
                dest_addr: 0,
                src_size: s.sh_size,
                dest_size: 0,
                entry_size: s.sh_entsize,
            })
        },
        None => None,
    }
}

pub open spec fn symstr_of(b: Seq<u8>) -> Option<AuxRegion> {
    match symtab_index(b, elf::ehdr_of(b).e_shnum as nat) {
        Some(i) => {
            let s = shdr_of(b, shdr_of(b, i).sh_link as int);
            Some(AuxRegion {
                src_addr: s.sh_offset,
                dest_addr: 0,
                src_size: s.sh_size,
                dest_size: 0,
                entry_size: 0,
            })
        },
        None => None,
    }
}

pub open spec fn aux_alignment_of(b: Seq<u8>) -> u64 {
    match symtab_index(b, elf::ehdr_of(b).e_shnum as nat) {
        Some(i) => {
            let a = shdr_of(b, i).sh_addralign;
            if a != 1 { a } else { 0 }
        },
        None => 0,
    }
}

/// Both header tables lie inside the file and the symbol table names a section of it.
pub open spec fn tables_in_file(b: Seq<u8>) -> bool {
    &&& elf::ehdr_of(b).e_phoff + 56 * elf::ehdr_of(b).e_phnum <= b.len()
    &&& elf::ehdr_of(b).e_shoff + 64 * elf::ehdr_of(b).e_shnum <= b.len()
    &&& symtab_index(b, elf::ehdr_of(b).e_shnum as nat) matches Some(i)
        ==> shdr_of(b, i).sh_link < elf::ehdr_of(b).e_shnum
}

/// What the headers of a kernel object say about its load layout.
pub struct ImagePlan {
    pub entry: u64,
    pub regions: Vec<AuxRegion>,
    pub dynamic: Option<AuxRegion>,
    pub max_alignment: u64,
    pub symtab: Option<AuxRegion>,
    pub symstr: Option<AuxRegion>,
    pub aux_alignment: u64,
}

impl ImagePlan {
    /// The plan holds what the headers of `b` say.
    pub open spec fn describes(self, b: Seq<u8>) -> bool {
        let n = elf::ehdr_of(b).e_phnum as nat;
        &&& self.entry == elf::ehdr_of(b).e_entry
        &&& self.regions@ == regions_of(b, n)
        &&& self.dynamic == dynamic_of(b, n)
        &&& self.max_alignment == max_alignment_of(b, n)
        &&& self.symtab == symtab_of(b)
        &&& self.symstr == symstr_of(b)
        &&& self.aux_alignment == aux_alignment_of(b)
    }
}

fn insert_sorted(v: &mut Vec<AuxRegion>, r: AuxRegion)
    ensures
        final(v)@ == insert_region(old(v)@, r),
{
    let ghost v0 = v@;
    let mut i: usize = v.len();
    assert(v0.take(i as int) == v0);
    assert(v0.skip(i as int) == Seq::<AuxRegion>::empty());
    assert(insert_region(v0.take(i as int), r) + v0.skip(i as int) == insert_region(v0, r));
    while i > 0 && v[i - 1].dest_addr > r.dest_addr
        invariant
            i <= v@.len(),
            v@ == v0,
            insert_region(v0.take(i as int), r) + v0.skip(i as int) == insert_region(v0, r),
        decreases i,
    {
        let ghost t = v0.take(i as int);
        assert(t.drop_last() == v0.take(i - 1));
        assert(t.last() == v0[i - 1]);
        assert(insert_region(t, r) == insert_region(v0.take(i - 1), r).push(v0[i - 1]));
        assert(seq![v0[i - 1]] + v0.skip(i as int) == v0.skip(i - 1));
        assert(insert_region(v0.take(i - 1), r).push(v0[i - 1]) + v0.skip(i as int)
            == insert_region(v0.take(i - 1), r) + v0.skip(i - 1));
        i = i - 1;
    }
    proof {
        let t = v0.take(i as int);
        if i > 0 {
            assert(t.last() == v0[i - 1]);
        }
        assert(insert_region(t, r) == t.push(r));
        assert(v0.insert(i as int, r) == t.push(r) + v0.skip(i as int));
    }
    v.insert(i, r);
}

/// Reads the headers of a kernel object. Anything that is not a 64-bit object with the expected
/// table entry sizes, or that has nothing to load, is refused.
pub fn plan_image(bytes: &Vec<u8>) -> (r: Result<ImagePlan, KError>)
    requires
        is_kernel_object(bytes@) ==> tables_in_file(bytes@),
    ensures
        match r {
            Ok(plan) => is_kernel_object(bytes@) && plan.describes(bytes@) && plan.regions@.len() > 0,
            Err(e) => e == KError::InvalidArgument
                && (!is_kernel_object(bytes@) || regions_of(bytes@, elf::ehdr_of(bytes@).e_phnum as nat).len() == 0),
        },
{
    if !check_magic(bytes) {
        return Err(KError::InvalidArgument);
    }
    let ehdr: Ehdr = read_ehdr(bytes);
    if ehdr.e_phentsize as u64 != PHDR_SIZE || ehdr.e_shentsize as u64 != SHDR_SIZE {
        return Err(KError::InvalidArgument);
    }
    let len: usize = bytes.len();

    let mut regions: Vec<AuxRegion> = Vec::new();
    let mut dynamic: Option<AuxRegion> = None;
    let mut max_alignment: u64 = 0;
    let mut i: u64 = 0;
    while i < ehdr.e_phnum as u64
        invariant
            i <= ehdr.e_phnum,
            ehdr == elf::ehdr_of(bytes@),
            bytes@.len() == len,
            ehdr.e_phoff + 56 * ehdr.e_phnum <= len,
            regions@ == regions_of(bytes@, i as nat),
            dynamic == dynamic_of(bytes@, i as nat),
            max_alignment == max_alignment_of(bytes@, i as nat),
        decreases ehdr.e_phnum - i,
    {
        let p: Phdr = read_phdr(bytes, ehdr.e_phoff + 56 * i);
        assert(p == phdr_of(bytes@, i as int));
        if p.p_type == PT_LOAD || p.p_type == PT_DYNAMIC {
            let reg: AuxRegion = AuxRegion {
                src_addr: p.p_offset,
                dest_addr: p.p_vaddr,
                src_size: p.p_filesz,
                dest_size: p.p_memsz,
                entry_size: 0,
            };
            if p.p_align != 0 && p.p_align != 1 && p.p_align > max_alignment {
                max_alignment = p.p_align;
            }
            if p.p_type == PT_DYNAMIC {
                dynamic = Some(reg);
            }
            insert_sorted(&mut regions, reg);
        }
        i = i + 1;
    }
    if regions.len() == 0 {
        return Err(KError::InvalidArgument);
    }

    let mut symtab: Option<AuxRegion> = None;
    let mut symstr: Option<AuxRegion> = None;
    let mut aux_alignment: u64 = 0;
    let mut k: u64 = 0;
    let ghost mut found: Option<int> = None;
    while k < ehdr.e_shnum as u64 && symtab.is_none()
        invariant
            k <= ehdr.e_shnum,
            ehdr == elf::ehdr_of(bytes@),
            bytes@.len() == len,
            tables_in_file(bytes@),
            symtab_index(bytes@, k as nat) == found,
            found is None <==> symtab is None,
            found is None ==> symstr is None && aux_alignment == 0,
            found is Some ==> symtab_index(bytes@, ehdr.e_shnum as nat) == found
                && symtab == symtab_of(bytes@) && symstr == symstr_of(bytes@)
                && aux_alignment == aux_alignment_of(bytes@),
        decreases ehdr.e_shnum - k,
    {
        let sh: Shdr = read_shdr(bytes, ehdr.e_shoff + 64 * k);
        assert(sh == shdr_of(bytes@, k as int));
        if sh.sh_type == SHT_SYMTAB {
            proof {
                found = Some(k as int);
                lemma_symtab_first(bytes@, k as nat, ehdr.e_shnum as nat);
            }
            assert(sh.sh_link < ehdr.e_shnum);
            let st: Shdr = read_shdr(bytes, ehdr.e_shoff + 64 * (sh.sh_link as u64));
            assert(st == shdr_of(bytes@, sh.sh_link as int));
            symtab = Some(AuxRegion {
                src_addr: sh.sh_offset,
                dest_addr: 0,
                src_size: sh.sh_size,
                dest_size: 0,
                entry_size: sh.sh_entsize,
            });
            symstr = Some(AuxRegion {
                src_addr: st.sh_offset,
                dest_addr: 0,
                src_size: st.sh_size,
                dest_size: 0,
                entry_size: 0,
            });
            if sh.sh_addralign != 0 && sh.sh_addralign != 1 {
                aux_alignment = sh.sh_addralign;
            }
        }
        k = k + 1;
    }
    Ok(ImagePlan { entry: ehdr.e_entry, regions, dynamic, max_alignment, symtab, symstr, aux_alignment })
}

proof fn lemma_symtab_first(b: Seq<u8>, k: nat, n: nat)
    requires
        k < n,
        symtab_index(b, k) is None,
        shdr_of(b, k as int).sh_type == SHT_SYMTAB,
    ensures
        symtab_index(b, n) == Some(k as int),
        symtab_index(b, k + 1) == Some(k as int),
    decreases n,
{
    if n == k + 1 {
    } else {
        lemma_symtab_first(b, k, (n - 1) as nat);
    }
}

/// How far `addr` lies below the next multiple of `a`; 0 if no alignment is asked for.
pub open spec fn pad_to(addr: int, a: int) -> int {
    if a == 0 || addr % a == 0 { 0 } else { a - addr % a }
}

fn align_offset(addr: u64, a: u64) -> (r: u64)
    ensures
        r == pad_to(addr as int, a as int),
{
    if a == 0 || addr % a == 0 { 0 } else { a - addr % a }
}

impl ImagePlan {
    /// Size of the loaded segments: the end of the region with the highest destination.
    pub open spec fn main_end(self) -> int {
        self.regions@.last().dest_addr + self.regions@.last().dest_size
    }

    /// Space between the loaded segments and the symbol tables.
    pub open spec fn aux_pad(self) -> int {
        pad_to(self.main_end(), self.aux_alignment as int)
    }

    /// Size of the symbol table, its string table and the padding between them.
    pub open spec fn aux_len(self) -> int {
        match (self.symtab, self.symstr) {
            (Some(st), Some(ss)) =>
                st.src_size + pad_to(st.src_size as int, self.aux_alignment as int) + ss.src_size,
            _ => 0,
        }
    }

    /// Size of the whole image in memory.
    pub open spec fn total(self) -> int {
        self.main_end() + self.aux_pad() + self.aux_len()
    }

    /// A file of `len` bytes holds all that the plan loads, every segment starts on a page and
    /// ends where the last one ends or before, and no alignment exceeds a page.
    pub open spec fn fits(self, len: int) -> bool {
        &&& self.regions@.len() > 0
        &&& forall|k: int| 0 <= k < self.regions@.len() ==> {
            let r = #[trigger] self.regions@[k];
            &&& r.dest_addr % 4096 == 0
            &&& r.src_addr + r.src_size <= len
            &&& r.src_size <= r.dest_size
            &&& r.dest_addr + r.dest_size <= self.main_end()
        }
        &&& self.dynamic matches Some(d) ==> d.dest_addr + d.src_size <= self.main_end()
        &&& self.symtab matches Some(st) ==> st.src_addr + st.src_size <= len
        &&& self.symstr matches Some(ss) ==> ss.src_addr + ss.src_size <= len
        &&& self.symtab is Some <==> self.symstr is Some
        &&& self.max_alignment <= 4096
        &&& self.aux_alignment == 0 || 4096int % (self.aux_alignment as int) == 0
        &&& self.total() <= 0x7fff_ffff_ffff_f000
    }

    /// Tests whether an image of `len` bytes can be laid out as planned.
    pub fn check_fits(&self, len: u64) -> (r: bool)
        ensures
            r == self.fits(len as int),
    {
        if self.regions.len() == 0 {
            return false;
        }
        let last: AuxRegion = self.regions[self.regions.len() - 1];
        if last.dest_size > u64::MAX - last.dest_addr {
            return false;
        }
        let end: u64 = last.dest_addr + last.dest_size;
        let mut k: usize = 0;
        while k < self.regions.len()
            invariant
                k <= self.regions@.len(),
                self.regions@.len() > 0,
                end == self.main_end(),
                forall|j: int| 0 <= j < k ==> {
                    let r = #[trigger] self.regions@[j];
                    &&& r.dest_addr % 4096 == 0
                    &&& r.src_addr + r.src_size <= len
                    &&& r.src_size <= r.dest_size
                    &&& r.dest_addr + r.dest_size <= self.main_end()
                },
            decreases self.regions@.len() - k,
        {
            let r: AuxRegion = self.regions[k];
            if r.dest_addr % 4096 != 0 || r.src_addr > len || r.src_size > len - r.src_addr
                || r.src_size > r.dest_size || r.dest_addr > end || r.dest_size > end - r.dest_addr {
                assert(!self.fits(len as int)) by {
                    let bad = self.regions@[k as int];
                }
                return false;
            }
            k = k + 1;
        }
        if let Some(d) = self.dynamic {
            if d.dest_addr > end || d.src_size > end - d.dest_addr {
                return false;
            }
        }
        if self.max_alignment > 4096 {
            return false;
        }
        if self.aux_alignment != 0 && 4096 % self.aux_alignment != 0 {
            return false;
        }
        proof {
            if self.aux_alignment != 0 && 4096int % (self.aux_alignment as int) == 0 {
                assert(self.aux_alignment <= 4096) by {
                    if self.aux_alignment > 4096 {
                        vstd::arithmetic::div_mod::lemma_small_mod(4096nat, self.aux_alignment as nat);
                    }
                }
            }
        }
        if end > 0x7fff_ffff_ffff_f000 {
            return false;
        }
        let pad: u64 = align_offset(end, self.aux_alignment);
        match (self.symtab, self.symstr) {
            (Some(st), Some(ss)) => {
                if st.src_addr > len || st.src_size > len - st.src_addr || ss.src_addr > len
                    || ss.src_size > len - ss.src_addr {
                    return false;
                }
                if st.src_size > 0x7fff_ffff_ffff_f000 || ss.src_size > 0x7fff_ffff_ffff_f000 {
                    return false;
                }
                let mid: u64 = align_offset(st.src_size, self.aux_alignment);
                if st.src_size + mid > 0x7fff_ffff_ffff_f000 || end + pad > 0x7fff_ffff_ffff_f000 {
                    return false;
                }
                if end + pad > 0x7fff_ffff_ffff_f000 - (st.src_size + mid) {
                    return false;
                }
                end + pad + (st.src_size + mid) <= 0x7fff_ffff_ffff_f000 - ss.src_size
            },
            (None, None) => end + pad <= 0x7fff_ffff_ffff_f000,
            _ => false,
        }
    }

    /// The number of bytes to reserve for the image.
    pub fn total_size(&self, len: u64) -> (r: u64)
        requires
            self.fits(len as int),
        ensures
            r == self.total(),
    {
        let last: AuxRegion = self.regions[self.regions.len() - 1];
        let end: u64 = last.dest_addr + last.dest_size;
        let pad: u64 = align_offset(end, self.aux_alignment);
        match (self.symtab, self.symstr) {
            (Some(st), Some(ss)) => {
                end + pad + (st.src_size + align_offset(st.src_size, self.aux_alignment) + ss.src_size)
            },
            _ => end + pad,
        }
    }
}

/// Memory after the first `n` regions have been cleared and filled from the file.
pub open spec fn place_regions(mem: Seq<u8>, file: Seq<u8>, regions: Seq<AuxRegion>, n: nat) -> Seq<u8>
    decreases n,
{
    if n == 0 {
        mem
    } else {
        let r = regions[n - 1];
        let before = place_regions(mem, file, regions, (n - 1) as nat);
        let cleared = elf::overwrite(before, r.dest_addr as int, Seq::new(r.dest_size as nat, |i: int| 0u8));
        elf::overwrite(cleared, r.dest_addr as int, file.subrange(r.src_addr as int, r.src_addr + r.src_size))
    }
}

/// Memory after `r` of the file has been copied to `at`.
pub open spec fn place_aux(mem: Seq<u8>, file: Seq<u8>, r: AuxRegion, at: int) -> Seq<u8> {
    elf::overwrite(mem, at, file.subrange(r.src_addr as int, r.src_addr + r.src_size))
}

impl ImagePlan {
    /// Where the symbol table goes, relative to the load base.
    pub open spec fn symtab_at(self) -> int {
        self.main_end() + self.aux_pad()
    }

    /// Where the symbol string table goes, relative to the load base.
    pub open spec fn symstr_at(self) -> int {
        self.symtab_at() + self.symtab->0.src_size
            + pad_to(self.symtab->0.src_size as int, self.aux_alignment as int)
    }

    /// Contents of the reserved memory once the image has been placed in it.
    pub open spec fn placed(self, mem: Seq<u8>, file: Seq<u8>) -> Seq<u8> {
        let m = place_regions(mem, file, self.regions@, self.regions@.len());
        match (self.symtab, self.symstr) {
            (Some(st), Some(ss)) =>
                place_aux(place_aux(m, file, st, self.symtab_at()), file, ss, self.symstr_at()),
            _ => m,
        }
    }
}

impl ImagePlan {
    /// The image can be placed in some memory at `load_base`, and what its dynamic section says lies in
    /// it.
    pub open spec fn loads_at(self, load_base: u64, mem: Seq<u8>, file: Seq<u8>) -> bool {
        &&& self.fits(file.len() as int)
        &&& load_base % 4096 == 0
        &&& load_base + self.total() <= u64::MAX
        &&& load_base + self.entry <= u64::MAX
        &&& self.dynamic matches Some(d) ==> dynamic_sound(
            self.placed(mem, file),
            load_base as int,
            d.dest_addr as int,
            elf::dyn_live(self.placed(mem, file), d.dest_addr as int, (d.src_size / 16) as nat),
        )
    }

    /// The memory that the image is placed in, before it is.
    pub open spec fn blank(self) -> Seq<u8> {
        Seq::new(self.total() as nat, |i: int| 0u8)
    }
}

/// Padding to a divisor of the page size does not depend on a page-aligned start.
proof fn lemma_pad_shift(base: int, off: int, n: int, a: int)
    requires
        base % 4096 == 0,
        a > 0,
        4096int % a == 0,
        off % a == 0,
    ensures
        pad_to(base + off + n, a) == pad_to(n, a),
{
    let k = base / 4096;
    let q = 4096int / a;
    vstd::arithmetic::div_mod::lemma_fundamental_div_mod(base, 4096);
    vstd::arithmetic::div_mod::lemma_fundamental_div_mod(4096, a);
    vstd::arithmetic::div_mod::lemma_fundamental_div_mod(off, a);
    let t = off / a;
    assert(base + off == a * (q * k + t)) by (nonlinear_arith)
        requires base == 4096 * k, 4096 == a * q, off == a * t;
    vstd::arithmetic::div_mod::lemma_mod_multiples_vanish(q * k + t, n, a);
    assert(base + off + n == a * (q * k + t) + n);
}

/// What lies `pad_to` above an address is a multiple of the alignment.
proof fn lemma_pad_aligned(x: int, a: int)
    requires
        a > 0,
    ensures
        (x + pad_to(x, a)) % a == 0,
{
    if x % a != 0 {
        vstd::arithmetic::div_mod::lemma_fundamental_div_mod(x, a);
        let q = x / a;
        assert(x + (a - x % a) == a * (q + 1) + 0) by (nonlinear_arith)
            requires x == a * q + x % a;
        vstd::arithmetic::div_mod::lemma_mod_multiples_vanish(q + 1, 0, a);
        vstd::arithmetic::div_mod::lemma_small_mod(0, a as nat);
    }
}

/// What the dynamic section says about where the module's tables lie.
#[derive(Clone, Copy)]
pub struct DynamicInfo {
    pub dyn_tab: Option<ArrayTable>,
    pub dyn_str: Option<MemoryRegion>,
    pub rela: Option<ArrayTable>,
    pub relacount: u64,
    pub plt: Option<ArrayTable>,
}

pub open spec fn or_zero(o: Option<u64>) -> u64 {
    match o { Some(v) => v, None => 0 }
}

/// The number of symbols: the chain count of the hash table, which is its second word.
pub open spec fn symbol_count(mem: Seq<u8>, hash: Option<u64>) -> int {
    match hash { Some(h) => elf::le32(mem, h + 4), None => 0 }
}

/// What the `n` live dynamic entries at `off` say, for an image loaded at `base`.
pub open spec fn dynamic_info(mem: Seq<u8>, base: int, off: int, n: nat) -> DynamicInfo {
    let last = |tag: u64| elf::dyn_last(mem, off, n, tag);
    DynamicInfo {
        dyn_tab: match last(DT_SYMTAB) {
            Some(v) => Some(ArrayTable {
                start: (base + v) as u64,
                size: (24 * symbol_count(mem, last(DT_HASH))) as u64,
                entry_size: SYM_SIZE,
            }),
            None => None,
        },
        dyn_str: match last(DT_STRTAB) {
            Some(v) => Some(MemoryRegion { base_address: (base + v) as u64, size: or_zero(last(DT_STRSZ)) }),
            None => None,
        },
        rela: match last(DT_RELA) {
            Some(v) => Some(ArrayTable {
                start: (base + v) as u64,
                size: or_zero(last(DT_RELASZ)),
                entry_size: RELA_SIZE,
            }),
            None => None,
        },
        relacount: or_zero(last(DT_RELACOUNT)),
        plt: match last(DT_JMPREL) {
            Some(v) => Some(ArrayTable {
                start: (base + v) as u64,
                size: or_zero(last(DT_PLTRELSZ)),
                entry_size: RELA_SIZE,
            }),
            None => None,
        },
    }
}

/// The table addresses stay within the address space, the hash table lies in memory, and every
/// relocation entry size given is that of a relocation entry.
pub open spec fn dynamic_sound(mem: Seq<u8>, base: int, off: int, n: nat) -> bool {
    let last = |tag: u64| elf::dyn_last(mem, off, n, tag);
    &&& last(DT_SYMTAB) matches Some(v) ==> base + v <= u64::MAX
    &&& last(DT_STRTAB) matches Some(v) ==> base + v <= u64::MAX
    &&& last(DT_RELA) matches Some(v) ==> base + v <= u64::MAX
    &&& last(DT_JMPREL) matches Some(v) ==> base + v <= u64::MAX
    &&& last(DT_HASH) matches Some(h) ==> h + 8 <= mem.len()
    &&& forall|i: int| 0 <= i < n && #[trigger] elf::dyn_tag(mem, off + 16 * i) == DT_RELAENT
        ==> elf::dyn_val(mem, off + 16 * i) == RELA_SIZE
}

pub fn unwrap_or_zero(o: Option<u64>) -> (r: u64)
    ensures
        r == or_zero(o),
{
    match o { Some(v) => v, None => 0 }
}

fn table_at(base: u64, v: Option<u64>, size: u64, entry_size: u64) -> (r: Option<ArrayTable>)
    requires
        v matches Some(x) ==> base + x <= u64::MAX,
    ensures
        r == (match v {
            Some(x) => Some((ArrayTable { start: (base + x) as u64, size, entry_size })),
            None => None,
        }),
{
    match v {
        Some(x) => Some(ArrayTable { start: base + x, size, entry_size }),
        None => None,
    }
}

/// Reads the dynamic section of an image loaded at `base`. `off` is the section's place relative
/// to the base and `size` its length in bytes; entries from the first null entry on are ignored.
pub fn parse_dynamic_section(mem: &Vec<u8>, base: u64, off: u64, size: u64) -> (r: DynamicInfo)
    requires
        off + size <= mem@.len(),
        dynamic_sound(mem@, base as int, off as int, elf::dyn_live(mem@, off as int, (size / 16) as nat)),
    ensures
        r == dynamic_info(mem@, base as int, off as int, elf::dyn_live(mem@, off as int, (size / 16) as nat)),
{
    let n: u64 = count_dyn(mem, off, size / DYN_SIZE);
    let symtab: Option<u64> = find_dyn(mem, off, n, DT_SYMTAB);
    let strtab: Option<u64> = find_dyn(mem, off, n, DT_STRTAB);
    let rela: Option<u64> = find_dyn(mem, off, n, DT_RELA);
    let plt: Option<u64> = find_dyn(mem, off, n, DT_JMPREL);
    let hash: Option<u64> = find_dyn(mem, off, n, DT_HASH);
    let strsz: u64 = unwrap_or_zero(find_dyn(mem, off, n, DT_STRSZ));
    let relasz: u64 = unwrap_or_zero(find_dyn(mem, off, n, DT_RELASZ));
    let relacount: u64 = unwrap_or_zero(find_dyn(mem, off, n, DT_RELACOUNT));
    let pltsz: u64 = unwrap_or_zero(find_dyn(mem, off, n, DT_PLTRELSZ));
    let len: usize = mem.len();
    let nsyms: u64 = match hash {
        Some(h) => read_u32(mem, h + 4) as u64,
        None => 0,
    };
    DynamicInfo {
        dyn_tab: table_at(base, symtab, 24 * nsyms, SYM_SIZE),
        dyn_str: match strtab {
            Some(v) => Some(MemoryRegion { base_address: base + v, size: strsz }),
            None => None,
        },
        rela: table_at(base, rela, relasz, RELA_SIZE),
        relacount,
        plt: table_at(base, plt, pltsz, RELA_SIZE),
    }
}

/// The description of a module placed at `base` whose memory then holds `mem`.
pub open spec fn module_info(plan: ImagePlan, base: int, mem: Seq<u8>) -> ModuleInfo {
    let dynamic = match plan.dynamic {
        Some(d) => Some(dynamic_info(
            mem, base, d.dest_addr as int, elf::dyn_live(mem, d.dest_addr as int, (d.src_size / 16) as nat))),
        None => None,
    };
    ModuleInfo {
        entry: (plan.entry + base) as u64,
        base: base as u64,
        size: plan.main_end() as u64,
        total_size: plan.total() as u64,
        sym_tab: match plan.symtab {
            Some(st) => Some(ArrayTable {
                start: (base + plan.symtab_at()) as u64,
                size: st.src_size,
                entry_size: st.entry_size,
            }),
            None => None,
        },
        sym_str: match plan.symstr {
            Some(ss) => Some(MemoryRegion {
                base_address: (base + plan.symstr_at()) as u64,
                size: ss.src_size,
            }),
            None => None,
        },
        dyn_tab: match dynamic { Some(i) => i.dyn_tab, None => None },
        dyn_str: match dynamic { Some(i) => i.dyn_str, None => None },
        rlc_shn: match dynamic { Some(i) => i.rela, None => None },
        plt_shn: match dynamic { Some(i) => i.plt, None => None },
        dyn_shn: match plan.dynamic {
            Some(d) => Some(ArrayTable {
                start: (base + d.dest_addr) as u64,
                size: d.src_size,
                entry_size: DYN_SIZE,
            }),
            None => None,
        },
        rlc_count: match dynamic { Some(i) => i.relacount, None => 0 },
    }
}

fn place_segments(plan: &ImagePlan, bytes: &Vec<u8>, mem: &mut Vec<u8>)
    requires
        plan.fits(bytes@.len() as int),
        old(mem)@.len() == plan.total(),
    ensures
        final(mem)@ == place_regions(old(mem)@, bytes@, plan.regions@, plan.regions@.len()),
        final(mem)@.len() == old(mem)@.len(),
{
    let ghost m0 = mem@;
    let mut k: usize = 0;
    while k < plan.regions.len()
        invariant
            k <= plan.regions@.len(),
            plan.fits(bytes@.len() as int),
            m0.len() == plan.total(),
            mem@.len() == plan.total(),
            mem@ == place_regions(m0, bytes@, plan.regions@, k as nat),
        decreases plan.regions@.len() - k,
    {
        let r: AuxRegion = plan.regions[k];
        assert(r == plan.regions@[k as int]);
        assert(plan.aux_len() >= 0 && plan.aux_pad() >= 0);
        zero_fill(mem, r.dest_addr, r.dest_size);
        copy_into(mem, r.dest_addr, bytes, r.src_addr, r.src_size);
        k = k + 1;
    }
}

/// Loads a planned image into the memory reserved for it at `load_base` and describes the result.
/// If nothing could be reserved, that error is returned and the memory is left as it was.
pub fn build_image_layout(
    plan: &ImagePlan,
    bytes: &Vec<u8>,
    reserved: Result<u64, KError>,
    mem: &mut Vec<u8>,
) -> (r: Result<ModuleInfo, KError>)
    requires
        reserved matches Ok(load_base) ==> old(mem)@.len() == plan.total() && plan.loads_at(load_base, old(mem)@, bytes@),
    ensures
        match reserved {
            Err(e) => r == Err::<ModuleInfo, KError>(e) && final(mem)@ == old(mem)@,
            Ok(load_base) => {
                &&& final(mem)@ == plan.placed(old(mem)@, bytes@)
                &&& r == Ok::<ModuleInfo, KError>(module_info(*plan, load_base as int, final(mem)@))
            },
        },
{
    let base: u64 = match reserved {
        Ok(b) => b,
        Err(e) => { return Err(e); },
    };
    let len: usize = bytes.len();
    let ghost m0 = mem@;
    let last: AuxRegion = plan.regions[plan.regions.len() - 1];
    assert(last == plan.regions@.last());
    let end: u64 = last.dest_addr + last.dest_size;
    let pad: u64 = align_offset(end, plan.aux_alignment);
    place_segments(plan, bytes, mem);
    let mut sym_tab: Option<ArrayTable> = None;
    let mut sym_str: Option<MemoryRegion> = None;
    if let (Some(st), Some(ss)) = (plan.symtab, plan.symstr) {
        let at: u64 = end + pad;
        copy_into(mem, at, bytes, st.src_addr, st.src_size);
        let mid: u64 = align_offset(base + at + st.src_size, plan.aux_alignment);
        proof {
            let a = plan.aux_alignment as int;
            if a != 0 {
                lemma_pad_aligned(end as int, a);
                lemma_pad_shift(base as int, at as int, st.src_size as int, a);
            }
            assert(mid == pad_to(st.src_size as int, a));
        }
        let str_at: u64 = at + st.src_size + mid;
        copy_into(mem, str_at, bytes, ss.src_addr, ss.src_size);
        sym_tab = Some(ArrayTable { start: base + at, size: st.src_size, entry_size: st.entry_size });
        sym_str = Some(MemoryRegion { base_address: base + str_at, size: ss.src_size });
    }
    assert(mem@ == plan.placed(m0, bytes@));
    let total: u64 = plan.total_size(len as u64);
    let mut dyn_shn: Option<ArrayTable> = None;
    let mut dyn_tab: Option<ArrayTable> = None;
    let mut dyn_str: Option<MemoryRegion> = None;
    let mut rlc_shn: Option<ArrayTable> = None;
    let mut plt_shn: Option<ArrayTable> = None;
    let mut rlc_count: u64 = 0;
    if let Some(d) = plan.dynamic {
        dyn_shn = Some(ArrayTable { start: base + d.dest_addr, size: d.src_size, entry_size: DYN_SIZE });
        let info: DynamicInfo = parse_dynamic_section(mem, base, d.dest_addr, d.src_size);
        dyn_tab = info.dyn_tab;
        dyn_str = info.dyn_str;
        rlc_shn = info.rela;
        plt_shn = info.plt;
        rlc_count = info.relacount;
    }
    Ok(ModuleInfo {
        entry: plan.entry + base,
        base,
        size: end,
        total_size: total,
        sym_tab,
        sym_str,
        dyn_tab,
        dyn_str,
        rlc_shn,
        plt_shn,
        dyn_shn,
        rlc_count,
    })
}

/// Nothing can be loaded from a file: it is no kernel object, or holds nothing to load.
pub open spec fn nothing_to_load(b: Seq<u8>) -> bool {
    !is_kernel_object(b) || regions_of(b, elf::ehdr_of(b).e_phnum as nat).len() == 0
}

/// What comes of loading an image as planned, with memory that is asked for.
pub open spec fn load_outcome(m: Memory, plan: ImagePlan, file: Seq<u8>) -> (Memory, Result<(ModuleInfo, Seq<u8>), KError>) {
    let (m1, got) = m.allocated(plan.total() as u64, PAGE_SIZE, VIRTUAL);
    match got {
        Err(e) => (m1, Err(e)),
        Ok(base) => {
            let placed = plan.placed(plan.blank(), file);
            (m1, Ok((module_info(plan, base as int, placed), placed)))
        },
    }
}

/// Loads a kernel object: reads its headers, asks for memory and places the image in it. Gives the
/// description of the module and what its memory holds.
pub fn load_kernel_object(memory: &mut MemoryManager, bytes: &Vec<u8>) -> (r: Result<(ModuleInfo, Vec<u8>), KError>)
    requires
        old(memory).well_formed(),
        old(memory).is_init,
        is_kernel_object(bytes@) ==> tables_in_file(bytes@),
        !nothing_to_load(bytes@) ==> forall|p: ImagePlan| #[trigger] p.describes(bytes@) ==> {
            &&& p.fits(bytes@.len() as int)
            &&& p.total() <= usize::MAX
            &&& old(memory)@.allocated(p.total() as u64, PAGE_SIZE, VIRTUAL).1 matches Ok(base) ==> p.loads_at(
                base, p.blank(), bytes@)
        },
    ensures
        nothing_to_load(bytes@) ==> r == Err::<(ModuleInfo, Vec<u8>), KError>(KError::InvalidArgument) && final(memory)@
            == old(memory)@,
        !nothing_to_load(bytes@) ==> exists|p: ImagePlan| #[trigger] p.describes(bytes@) && {
            let (m, got) = load_outcome(old(memory)@, p, bytes@);
            &&& final(memory)@ == m
            &&& match got {
                Err(e) => r == Err::<(ModuleInfo, Vec<u8>), KError>(e),
                Ok((info, placed)) => r is Ok && r->Ok_0.0 == info && r->Ok_0.1@ == placed,
            }
        },
        final(memory).well_formed(),
{
    let plan: ImagePlan = match plan_image(bytes) {
        Err(e) => { return Err(e); },
        Ok(p) => p,
    };
    assert(plan.describes(bytes@));
    assert(manager::has_flag(VIRTUAL, VIRTUAL) && !manager::has_flag(VIRTUAL, USER)) by {
        assert(1u8 & 1u8 != 0 && 1u8 & 2u8 == 0) by (bit_vector);
    }
    let total: u64 = plan.total_size(bytes.len() as u64);
    let reserved: Result<u64, KError> = memory.allocate_memory(total, PAGE_SIZE, VIRTUAL);
    let mut mem: Vec<u8> = Vec::new();
    if reserved.is_ok() {
        let mut i: u64 = 0;
        while i < total
            invariant
                i <= total,
                total <= usize::MAX,
                mem@ == Seq::new(i as nat, |j: int| 0u8),
            decreases total - i,
        {
            mem.push(0);
            i = i + 1;
            assert(mem@ =~= Seq::new(i as nat, |j: int| 0u8));
        }
        assert(mem@ =~= plan.blank());
    }
    match build_image_layout(&plan, bytes, reserved, &mut mem) {
        Err(e) => Err(e),
        Ok(info) => Ok((info, mem)),
    }
}

} // verus!
