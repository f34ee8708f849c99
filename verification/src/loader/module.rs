use vstd::prelude::*;
use crate::util::bytes_eq;
use crate::loader::elf;
use crate::loader::elf::{
    Rela, R_GLOB_DAT, R_JUMP_SLOT, R_X86_64_64, R_X86_64_RELATIVE, read_rela, read_u64, write_u64,
};
use crate::loader::image::{ArrayTable, MemoryRegion, ModuleInfo};
use crate::loader::loader;
use crate::mem::manager::MemoryManager;
use crate::mem::virtual_allocator::MapFetchType;
use crate::util;

verus! {

/// What is told its new address once a region has been remapped.
#[derive(Clone, Copy, PartialEq, Eq, Structural)]
pub enum RemapTarget {
    /// The kernel's own description.
    Kernel,
    /// One file of the boot file system.
    File(u64),
}

/// How a region is carried over into the new address space.
#[derive(Clone, Copy, PartialEq, Eq, Structural)]
pub enum RemapType {
    IdentityMapped,
    OffsetMapped(RemapTarget),
}

#[derive(Clone, Copy)]
pub struct RemapEntry {
    pub value: MemoryRegion,
    pub map_type: RemapType,
    pub flags: u8,
}

/// A file of the boot file system: where its contents lie, with its name right behind them.
#[derive(Clone, Copy)]
pub struct FileDescriptor {
    pub contents: u64,
    pub contents_len: u64,
    pub name: u64,
    pub name_len: u64,
}

pub open spec fn region(base_address: u64, size: u64) -> MemoryRegion {
    MemoryRegion { base_address, size }
}

pub open spec fn file_remap(f: FileDescriptor, i: int) -> RemapEntry {
    RemapEntry {
        value: region(f.contents, (f.contents_len + f.name_len) as u64),
        map_type: RemapType::OffsetMapped(RemapTarget::File(i as u64)),
        flags: 0,
    }
}

/// The regions that the new address space needs: the kernel at its new place, every file, the file
/// table where it is, and the kernel where it is.
pub open spec fn early_remaps(kernel: ModuleInfo, files: Seq<FileDescriptor>, table: MemoryRegion) -> Seq<RemapEntry> {
    let kern = region(kernel.base, kernel.total_size);
    seq![RemapEntry { value: kern, map_type: RemapType::OffsetMapped(RemapTarget::Kernel), flags: 0 }]
        + Seq::new(files.len(), |i: int| file_remap(files[i], i))
        + seq![
            RemapEntry { value: table, map_type: RemapType::IdentityMapped, flags: 0 },
            RemapEntry { value: kern, map_type: RemapType::IdentityMapped, flags: 0 },
        ]
}

/// Lists what has to be remapped before the switch to the new address space.
pub fn early_init(kernel: &ModuleInfo, files: &Vec<FileDescriptor>, table: MemoryRegion) -> (r: Vec<RemapEntry>)
    requires
        forall|i: int| 0 <= i < files@.len() ==> {
            let f = #[trigger] files@[i];
            f.contents % 4096 == 0 && f.contents_len + f.name_len <= u64::MAX
        },
    ensures
        r@ == early_remaps(*kernel, files@, table),
{
    let mut r: Vec<RemapEntry> = Vec::new();
    let kern: MemoryRegion = MemoryRegion { base_address: kernel.base, size: kernel.total_size };
    r.push(RemapEntry { value: kern, map_type: RemapType::OffsetMapped(RemapTarget::Kernel), flags: 0 });
    let mut i: usize = 0;
    while i < files.len()
        invariant
            i <= files@.len(),
            r@.len() == i + 1,
            r@[0] == early_remaps(*kernel, files@, table)[0],
            forall|k: int| 0 <= k < files@.len() ==> {
                let f = #[trigger] files@[k];
                f.contents % 4096 == 0 && f.contents_len + f.name_len <= u64::MAX
            },
            forall|k: int| 1 <= k <= i ==> #[trigger] r@[k] == file_remap(files@[k - 1], k - 1),
        decreases files@.len() - i,
    {
        let f: FileDescriptor = files[i];
        assert(f == files@[i as int]);
        r.push(RemapEntry {
            value: MemoryRegion { base_address: f.contents, size: f.contents_len + f.name_len },
            map_type: RemapType::OffsetMapped(RemapTarget::File(i as u64)),
            flags: 0,
        });
        i = i + 1;
    }
    r.push(RemapEntry { value: table, map_type: RemapType::IdentityMapped, flags: 0 });
    r.push(RemapEntry { value: kern, map_type: RemapType::IdentityMapped, flags: 0 });
    assert(r@ =~= early_remaps(*kernel, files@, table));
    r
}

/// `a`, moved by as much as `new_base` differs from `old_base`, modulo 2^64.
pub open spec fn moved(a: u64, old_base: u64, new_base: u64) -> u64 {
    ((a + new_base - old_base) % 0x1_0000_0000_0000_0000) as u64
}

fn move_by(a: u64, old_base: u64, new_base: u64) -> (r: u64)
    ensures
        r == moved(a, old_base, new_base),
{
    let d: u64 = new_base.wrapping_sub(old_base);
    a.wrapping_add(d)
}

pub open spec fn moved_table(t: Option<ArrayTable>, old_base: u64, new_base: u64) -> Option<ArrayTable> {
    match t {
        Some(x) => Some(ArrayTable { start: moved(x.start, old_base, new_base), ..x }),
        None => None,
    }
}

pub open spec fn moved_region(t: Option<MemoryRegion>, old_base: u64, new_base: u64) -> Option<MemoryRegion> {
    match t {
        Some(x) => Some(MemoryRegion { base_address: moved(x.base_address, old_base, new_base), ..x }),
        None => None,
    }
}

/// The description of a module that has moved to `new_base`.
pub open spec fn rebased(m: ModuleInfo, new_base: u64) -> ModuleInfo {
    ModuleInfo {
        base: new_base,
        entry: moved(m.entry, m.base, new_base),
        sym_tab: moved_table(m.sym_tab, m.base, new_base),
        sym_str: moved_region(m.sym_str, m.base, new_base),
        dyn_tab: moved_table(m.dyn_tab, m.base, new_base),
        dyn_shn: moved_table(m.dyn_shn, m.base, new_base),
        rlc_shn: moved_table(m.rlc_shn, m.base, new_base),
        plt_shn: moved_table(m.plt_shn, m.base, new_base),
        dyn_str: moved_region(m.dyn_str, m.base, new_base),
        ..m
    }
}

fn move_table(t: Option<ArrayTable>, old_base: u64, new_base: u64) -> (r: Option<ArrayTable>)
    ensures
        r == moved_table(t, old_base, new_base),
{
    match t {
        Some(x) => Some(ArrayTable { start: move_by(x.start, old_base, new_base), size: x.size, entry_size: x.entry_size }),
        None => None,
    }
}

fn move_region(t: Option<MemoryRegion>, old_base: u64, new_base: u64) -> (r: Option<MemoryRegion>)
    ensures
        r == moved_region(t, old_base, new_base),
{
    match t {
        Some(x) => Some(MemoryRegion { base_address: move_by(x.base_address, old_base, new_base), size: x.size }),
        None => None,
    }
}

/// Tells a module's description that the module has moved, and gives the distance it moved by.
pub fn rebase_module(m: &mut ModuleInfo, new_base: u64) -> (offset: u64)
    ensures
        *final(m) == rebased(*old(m), new_base),
        offset == moved(0, old(m).base, new_base),
{
    let old_base: u64 = m.base;
    m.base = new_base;
    m.entry = move_by(m.entry, old_base, new_base);
    m.sym_tab = move_table(m.sym_tab, old_base, new_base);
    m.sym_str = move_region(m.sym_str, old_base, new_base);
    m.dyn_tab = move_table(m.dyn_tab, old_base, new_base);
    m.dyn_shn = move_table(m.dyn_shn, old_base, new_base);
    m.rlc_shn = move_table(m.rlc_shn, old_base, new_base);
    m.plt_shn = move_table(m.plt_shn, old_base, new_base);
    m.dyn_str = move_region(m.dyn_str, old_base, new_base);
    move_by(0, old_base, new_base)
}

/// An address inside the module keeps its distance from the base.
pub proof fn law_rebase_keeps_distance(a: u64, old_base: u64, new_base: u64)
    requires
        old_base <= a,
        new_base + (a - old_base) <= u64::MAX,
    ensures
        moved(a, old_base, new_base) == new_base + (a - old_base),
{
}

/// Moving a module back undoes the move.
pub proof fn law_rebase_back(m: ModuleInfo, new_base: u64)
    ensures
        rebased(rebased(m, new_base), m.base) == m,
{
    assert forall|a: u64| #![auto] moved(moved(a, m.base, new_base), new_base, m.base) == a by {
        let x = a + new_base - m.base;
        assert(moved(a, m.base, new_base) == x || moved(a, m.base, new_base) == x - 0x1_0000_0000_0000_0000
            || moved(a, m.base, new_base) == x + 0x1_0000_0000_0000_0000);
    }
}

/// Tells a file of the boot file system where its contents have moved to.
pub fn rebase_file(f: &mut FileDescriptor, virt_addr: u64)
    requires
        virt_addr + old(f).contents_len <= u64::MAX,
    ensures
        *final(f) == (FileDescriptor {
            contents: virt_addr,
            name: (virt_addr + old(f).contents_len) as u64,
            ..*old(f)
        }),
{
    f.contents = virt_addr;
    f.name = virt_addr + f.contents_len;
}

pub open spec fn is_pointer_reloc(t: u32) -> bool {
    t == R_X86_64_RELATIVE || loader::is_symbol_reloc(t)
}

/// The kernel's memory after the pointers named by the first `n` relocations at `off` have been
/// moved by `offset`.
pub open spec fn handed_off(mem: Seq<u8>, off: int, n: nat, offset: u64) -> Seq<u8>
    decreases n,
{
    if n == 0 {
        mem
    } else {
        let before = handed_off(mem, off, (n - 1) as nat, offset);
        let r = elf::rela_at(before, off + 24 * (n - 1));
        if is_pointer_reloc(elf::rela_type(r)) {
            elf::put64(
                before, r.r_offset as int, loader::wrap_sum(offset, elf::le64(before, r.r_offset as int) as u64))
        } else {
            before
        }
    }
}

/// Moves every pointer that the relocations at `off` name by the distance that the kernel has
/// moved. The pointers may have changed since they were first relocated, so they are shifted rather
/// than computed afresh.
pub fn shift_pointers(mem: &mut Vec<u8>, off: u64, count: u64, offset: u64)
    requires
        off + 24 * count <= old(mem)@.len(),
        forall|k: nat| k < count ==> {
            let m = #[trigger] handed_off(old(mem)@, off as int, k, offset);
            let r = elf::rela_at(m, off + 24 * k);
            is_pointer_reloc(elf::rela_type(r)) ==> r.r_offset + 8 <= m.len()
        },
    ensures
        final(mem)@ == handed_off(old(mem)@, off as int, count as nat, offset),
{
    let len: usize = mem.len();
    let ghost m0 = mem@;
    let mut i: u64 = 0;
    while i < count
        invariant
            i <= count,
            len == mem@.len(),
            m0.len() == len,
            off + 24 * count <= len,
            forall|k: nat| k < count ==> {
                let m = #[trigger] handed_off(m0, off as int, k, offset);
                let r = elf::rela_at(m, off + 24 * k);
                is_pointer_reloc(elf::rela_type(r)) ==> r.r_offset + 8 <= m.len()
            },
            mem@ == handed_off(m0, off as int, i as nat, offset),
        decreases count - i,
    {
        let r: Rela = read_rela(mem, off + 24 * i);
        let t: u32 = (r.r_info % 0x100000000) as u32;
        if t == R_X86_64_RELATIVE || t == R_X86_64_64 || t == R_GLOB_DAT || t == R_JUMP_SLOT {
            let cur: u64 = read_u64(mem, r.r_offset);
            write_u64(mem, r.r_offset, loader::wrapping_sum(offset, cur));
        }
        i = i + 1;
    }
}

/// A named stretch of memory of the boot file system.
pub struct FsEntry {
    pub name: Vec<u8>,
    pub contents: MemoryRegion,
}

/// The boot file system: files by name, and names that stand for other names.
pub struct InitFS {
    pub fs: Vec<FsEntry>,
    pub symlinks: Vec<(Vec<u8>, Vec<u8>)>,
}

/// The region of the last entry called `name` among the first `n`.
pub open spec fn last_named(e: Seq<FsEntry>, n: nat, name: Seq<u8>) -> Option<MemoryRegion>
    decreases n,
{
    if n == 0 {
        None
    } else if e[n - 1].name@ == name {
        Some(e[n - 1].contents)
    } else {
        last_named(e, (n - 1) as nat, name)
    }
}

/// `/sys/libaris.so`
pub open spec fn kernel_library() -> Seq<u8> {
    seq![0x2fu8, 0x73, 0x79, 0x73, 0x2f, 0x6c, 0x69, 0x62, 0x61, 0x72, 0x69, 0x73, 0x2e, 0x73, 0x6f]
}

/// `/sys/aris`
pub open spec fn kernel_path() -> Seq<u8> {
    seq![0x2fu8, 0x73, 0x79, 0x73, 0x2f, 0x61, 0x72, 0x69, 0x73]
}

impl InitFS {
    /// Builds the boot file system from the list of files. The kernel library stands for the kernel.
    pub fn new(entries: Vec<FsEntry>) -> (r: InitFS)
        ensures
            r.fs@ == entries@,
            r.symlinks@.len() == 1,
            r.symlinks@[0].0@ == kernel_library(),
            r.symlinks@[0].1@ == kernel_path(),
    {
        let link: Vec<u8> = loader::literal(
            &[0x2f, 0x73, 0x79, 0x73, 0x2f, 0x6c, 0x69, 0x62, 0x61, 0x72, 0x69, 0x73, 0x2e, 0x73, 0x6f]);
        let target: Vec<u8> = loader::literal(&[0x2f, 0x73, 0x79, 0x73, 0x2f, 0x61, 0x72, 0x69, 0x73]);
        assert(link@ =~= kernel_library());
        assert(target@ =~= kernel_path());
        let mut symlinks: Vec<(Vec<u8>, Vec<u8>)> = Vec::new();
        symlinks.push((link, target));
        InitFS { fs: entries, symlinks }
    }

    /// The contents of a file: of two files with one name the later counts.
    pub fn lookup(&self, name: &Vec<u8>) -> (r: Option<MemoryRegion>)
        ensures
            r == last_named(self.fs@, self.fs@.len(), name@),
    {
        let mut i: usize = self.fs.len();
        while i > 0
            invariant
                i <= self.fs@.len(),
                last_named(self.fs@, self.fs@.len(), name@) == last_named(self.fs@, i as nat, name@),
            decreases i,
        {
            i = i - 1;
            if bytes_eq(&self.fs[i].name, name) {
                return Some(self.fs[i].contents);
            }
        }
        None
    }
}

/// Finishes the move of the kernel: its pointers are shifted by the distance it moved, its name is looked
/// up in the new address space and used there, the boot file system becomes usable, and the file table at
/// `table` is given up. The name and the table have to be mapped.
pub fn complete_handoff(kernel: &ModuleInfo, mem: &mut Vec<u8>, offset: u64, name_at: &mut u64, entries: Vec<FsEntry>,
    table: MemoryRegion, memory: &mut MemoryManager) -> (r: InitFS)
    requires
        old(memory).well_formed(),
        old(memory).is_init,
        old(memory)@.virt_at(*old(name_at), 0, MapFetchType::Kernel) is Some,
        old(memory)@.unmapped_from_kernel(table.base_address, table.size).1 is Ok,
        util::align_up_spec(table.size as int, 4096) <= u64::MAX,
        old(memory).kernel.avl_memory + util::align_up_spec(table.size as int, 4096) <= u64::MAX,
        kernel.rlc_shn matches Some(t) ==> {
            &&& t.start >= kernel.base
            &&& t.start - kernel.base + t.size <= old(mem)@.len()
            &&& forall|k: nat| k < t.size / 24 ==> {
                let m = #[trigger] handed_off(old(mem)@, t.start - kernel.base, k, offset);
                let r = elf::rela_at(m, t.start - kernel.base + 24 * k);
                is_pointer_reloc(elf::rela_type(r)) ==> r.r_offset + 8 <= m.len()
            }
        },
    ensures
        final(mem)@ == (match kernel.rlc_shn {
            Some(t) => handed_off(old(mem)@, t.start - kernel.base, (t.size / 24) as nat, offset),
            None => old(mem)@,
        }),
        Some(*final(name_at)) == old(memory)@.virt_at(*old(name_at), 0, MapFetchType::Kernel),
        final(memory)@ == old(memory)@.unmapped_from_kernel(table.base_address, table.size).0,
        final(memory).well_formed(),
        r.fs@ == entries@,
        r.symlinks@.len() == 1,
        r.symlinks@[0].0@ == kernel_library(),
        r.symlinks@[0].1@ == kernel_path(),
{
    if let Some(t) = kernel.rlc_shn {
        shift_pointers(mem, t.start - kernel.base, t.size / 24, offset);
    }
    if let Some(a) = memory.get_virtual_address(*name_at, 0, MapFetchType::Kernel) {
        *name_at = a;
    }
    let fs: InitFS = InitFS::new(entries);
    let _ = memory.unmap_from_kernel(table.base_address, table.size);
    fs
}

/// What is mapped when the kernel moves to its half: the kernel at a new place and also where it is, each file with
/// its name behind it at a new place, and the descriptor table where it is.
pub proof fn law_early_remaps(kernel: ModuleInfo, files: Seq<FileDescriptor>, table: MemoryRegion, i: int)
    requires
        0 <= i < files.len(),
        files[i].contents_len + files[i].name_len <= u64::MAX,
    ensures
        ({
            let r = early_remaps(kernel, files, table);
            let n = files.len() as int;
            &&& r.len() == n + 3
            &&& r[0].map_type == RemapType::OffsetMapped(RemapTarget::Kernel) && r[0].value.base_address == kernel.base
                && r[0].value.size == kernel.total_size
            &&& r[1 + i].map_type == RemapType::OffsetMapped(RemapTarget::File(i as u64))
                && r[1 + i].value.base_address == files[i].contents
                && r[1 + i].value.size == files[i].contents_len + files[i].name_len
            &&& r[n + 1].map_type == RemapType::IdentityMapped && r[n + 1].value == table
            &&& r[n + 2].map_type == RemapType::IdentityMapped && r[n + 2].value.base_address == kernel.base
                && r[n + 2].value.size == kernel.total_size
        }),
{
}

} // verus!
