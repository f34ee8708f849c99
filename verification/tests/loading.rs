use aris::error::KError;
use aris::loader::descriptor::{KernelModule, ModuleDescriptor, ModuleType};
use aris::loader::elf::{
    DT_HASH, DT_JMPREL, DT_NEEDED, DT_PLTRELSZ, DT_RELA, DT_RELAENT, DT_RELASZ, DT_RUNPATH, DT_STRSZ, DT_STRTAB, DT_SYMTAB,
    PT_DYNAMIC, PT_LOAD, R_GLOB_DAT, R_JUMP_SLOT, R_X86_64_RELATIVE, read_u64,
};
use aris::loader::image::{ImagePlan, MemoryRegion, ModuleInfo, build_image_layout, plan_image};
use aris::loader::load::{Image, Loading, Needed, Phase};
use aris::loader::loader::{
    LoadRegistry, LoadStart, LoadedModule, SearchStep, after_attempt, apply_relocations, candidate_paths, configure_module,
    needed_names, parse_runpath, resolve_import,
};
use aris::mem::frame_allocator::PhyMemConBlk;
use aris::mem::manager::MemoryManager;
use aris::mem::virtual_allocator::VirtMemConBlk;
use aris::loader::module::{
    FileDescriptor, FsEntry, InitFS, RemapTarget, RemapType, complete_handoff, early_init, rebase_file, rebase_module,
};
use aris::loader::user_loader::{
    DepModule, DepSegment, UserModule, load_user_into_process, parse_user_elf, segment_records, share_image,
};

fn bytes(s: &str) -> Vec<u8> {
    s.as_bytes().to_vec()
}

fn put16(b: &mut [u8], o: usize, v: u16) {
    b[o..o + 2].copy_from_slice(&v.to_le_bytes());
}

fn put32(b: &mut [u8], o: usize, v: u32) {
    b[o..o + 4].copy_from_slice(&v.to_le_bytes());
}

fn put64(b: &mut [u8], o: usize, v: u64) {
    b[o..o + 8].copy_from_slice(&v.to_le_bytes());
}

const SYMTAB: usize = 0x200;
const STRTAB: usize = 0x300;
const HASH: usize = 0x400;
const DYNAMIC: usize = 0x2000;
const RELA: usize = 0x700;
const PLT: usize = 0x800;
const DATA: usize = 0x1000;

fn phdr(b: &mut [u8], i: usize, p_type: u32, flags: u32, off: usize, size: usize, memsz: usize) {
    let o = 64 + 56 * i;
    put32(b, o, p_type);
    put32(b, o + 4, flags);
    put64(b, o + 8, off as u64);
    put64(b, o + 16, off as u64);
    put64(b, o + 32, size as u64);
    put64(b, o + 40, memsz as u64);
    put64(b, o + 48, 0x1000);
}

/// An object with one read-only and one writable page. It exports `own`, imports `other`, needs
/// `libdep.so` and asks for it to be looked for in `/a` and `/b`.
fn object() -> Vec<u8> {
    let mut b = vec![0u8; 0x3000];
    b[0..5].copy_from_slice(&[0x7f, 0x45, 0x4c, 0x46, 2]);
    put64(&mut b, 24, 0x120);
    put64(&mut b, 32, 64);
    put64(&mut b, 40, 0);
    put16(&mut b, 54, 56);
    put16(&mut b, 56, 3);
    put16(&mut b, 58, 64);
    put16(&mut b, 60, 0);
    phdr(&mut b, 0, PT_LOAD, 4, 0, 0x1000, 0x1000);
    phdr(&mut b, 1, PT_LOAD, 6, DATA, 0x800, 0x1000);
    phdr(&mut b, 2, PT_DYNAMIC, 4, DYNAMIC, 0x200, 0x200);
    // Names: own at 1, other at 5, libdep.so at 11, /a::/b at 21.
    let names = b"\0own\0other\0libdep.so\0/a::/b\0";
    b[STRTAB..STRTAB + names.len()].copy_from_slice(names);
    // The symbols: none, own, other.
    put32(&mut b, SYMTAB + 24, 1);
    put16(&mut b, SYMTAB + 24 + 6, 1);
    put64(&mut b, SYMTAB + 24 + 8, 0x140);
    put32(&mut b, SYMTAB + 48, 5);
    put32(&mut b, HASH, 1);
    put32(&mut b, HASH + 4, 3);
    let entries: Vec<(u64, u64)> = vec![
        (DT_NEEDED, 11),
        (DT_RUNPATH, 21),
        (DT_HASH, HASH as u64),
        (DT_SYMTAB, SYMTAB as u64),
        (DT_STRTAB, STRTAB as u64),
        (DT_STRSZ, names.len() as u64),
        (DT_RELA, RELA as u64),
        (DT_RELASZ, 48),
        (DT_RELAENT, 24),
        (DT_JMPREL, PLT as u64),
        (DT_PLTRELSZ, 24),
        (0, 0),
    ];
    for (i, (tag, val)) in entries.iter().enumerate() {
        put64(&mut b, DYNAMIC + 16 * i, *tag);
        put64(&mut b, DYNAMIC + 16 * i + 8, *val);
    }
    let rela = |b: &mut Vec<u8>, o: usize, off: u64, sym: u64, t: u32, addend: u64| {
        put64(b, o, off);
        put64(b, o + 8, sym << 32 | t as u64);
        put64(b, o + 16, addend);
    };
    rela(&mut b, RELA, DATA as u64, 0, R_X86_64_RELATIVE, 0x55);
    rela(&mut b, RELA + 24, DATA as u64 + 8, 1, R_GLOB_DAT, 2);
    rela(&mut b, PLT, DATA as u64 + 16, 2, R_JUMP_SLOT, 9);
    b
}

fn planned() -> (ImagePlan, Vec<u8>) {
    let b = object();
    let plan = plan_image(&b).unwrap();
    assert!(plan.check_fits(b.len() as u64));
    (plan, b)
}

fn laid_out(base: u64) -> (ModuleInfo, Vec<u8>) {
    let (plan, b) = planned();
    let mut mem = vec![0xffu8; plan.total_size(b.len() as u64) as usize];
    let info = build_image_layout(&plan, &b, Ok(base), &mut mem).unwrap();
    (info, mem)
}

#[test]
fn a_kernel_object_is_laid_out() {
    let (plan, b) = planned();
    assert_eq!(plan.entry, 0x120);
    assert_eq!(plan.max_alignment, 0x1000);
    let (info, mem) = laid_out(0x10000);
    assert_eq!(info.base, 0x10000);
    assert_eq!(info.entry, 0x10120);
    assert_eq!(info.total_size, 0x2200);
    assert_eq!(mem.len(), 0x2200);
    assert_eq!(mem[STRTAB..STRTAB + 4], b[STRTAB..STRTAB + 4]);
    // What the file does not cover is zero.
    assert_eq!(mem[DATA + 0x900], 0);
    assert_eq!(info.dyn_tab.map(|t| (t.start, t.size, t.entry_size)), Some((0x10000 + SYMTAB as u64, 72, 24)));
    assert_eq!(info.dyn_str.map(|t| t.base_address), Some(0x10000 + STRTAB as u64));
    assert_eq!(info.rlc_shn.map(|t| (t.start, t.size)), Some((0x10000 + RELA as u64, 48)));
    assert_eq!(info.plt_shn.map(|t| (t.start, t.size)), Some((0x10000 + PLT as u64, 24)));

    let mut mem = vec![0u8; 0x2200];
    assert_eq!(build_image_layout(&plan, &b, Err(KError::OutOfMemory), &mut mem).err(), Some(KError::OutOfMemory));
}

#[test]
fn what_is_no_object_is_refused() {
    assert_eq!(plan_image(&vec![0u8; 100]).err(), Some(KError::InvalidArgument));
    let mut b = object();
    put16(&mut b, 54, 32);
    assert_eq!(plan_image(&b).err(), Some(KError::InvalidArgument));
    assert_eq!(parse_user_elf(&b).err(), Some(KError::InvalidArgument));
    assert_eq!(parse_user_elf(&vec![1u8; 10]).err(), Some(KError::InvalidArgument));
}

#[test]
fn dependencies_are_read_from_the_image() {
    let (_, mem) = laid_out(0x10000);
    assert_eq!(needed_names(&mem, DYNAMIC as u64, 32, STRTAB as u64), vec![bytes("libdep.so")]);
    assert_eq!(parse_runpath(&mem, DYNAMIC as u64, 32, STRTAB as u64), vec![bytes("/a"), bytes("/b")]);
}

#[test]
fn relocations_of_a_kernel_object() {
    let (dep_info, dep_mem) = laid_out(0x50000);
    let dep = LoadedModule { info: dep_info, mem: dep_mem };
    assert_eq!(dep.load_symbol(&bytes("own")), Some(0x50140));
    assert_eq!(dep.load_symbol(&bytes("other")), None);
    assert_eq!(resolve_import(&bytes("own"), &vec![]), None);

    // Without anything that exports it the import cannot be resolved.
    let (info, mut mem) = laid_out(0x10000);
    assert_eq!(apply_relocations(&info, &mut mem, &vec![]), Err(KError::InvalidArgument));

    // A module that calls its symbol by the imported name serves.
    let (other_info, mut other_mem) = laid_out(0x70000);
    other_mem[STRTAB + 1..STRTAB + 5].copy_from_slice(b"othe");
    put32(&mut other_mem, SYMTAB + 24, 5);
    let other = LoadedModule { info: other_info, mem: other_mem };
    let (info, mut mem) = laid_out(0x10000);
    assert_eq!(apply_relocations(&info, &mut mem, &vec![dep, other]), Ok(()));
    assert_eq!(read_u64(&mem, DATA as u64), 0x10055);
    assert_eq!(read_u64(&mem, DATA as u64 + 8), 0x10142);
    assert_eq!(read_u64(&mem, DATA as u64 + 16), 0x70140);
}

#[test]
fn a_module_names_itself() {
    let (info, mut mem) = laid_out(0x10000);
    let name = b"_shim_module_config\0";
    mem[STRTAB + 0x40..STRTAB + 0x40 + name.len()].copy_from_slice(name);
    put32(&mut mem, SYMTAB + 24, 0x40);
    let m = LoadedModule { info, mem };
    let shims = configure_module(&m, &vec![Some(bytes("disk"))]);
    assert_eq!(shims.name, Some(bytes("disk")));
    assert_eq!(shims.driver_init, None);
    assert_eq!(configure_module(&m, &vec![None]).name, None);
}

#[test]
fn places_to_look_for_a_module() {
    let got = candidate_paths(&bytes("x.so"), &vec![bytes("/opt")], &bytes("/home/x.so"));
    let want: Vec<Vec<u8>> =
        vec![bytes("/x.so"), bytes("/sys/x.so"), bytes("/sys/drivers/x.so"), bytes("/opt/x.so"), bytes("/home/x.so")];
    assert_eq!(got, want);
    assert_eq!(candidate_paths(&bytes("/bin/x"), &vec![bytes("/opt")], &bytes("/bin/x")), vec![bytes("/bin/x")]);

    assert!(matches!(after_attempt(false, 0, 3, Err(KError::NotFound)), SearchStep::Next));
    assert!(matches!(after_attempt(false, 0, 3, Err(KError::InvalidArgument)), SearchStep::Next));
    assert!(matches!(after_attempt(false, 0, 3, Err(KError::OutOfMemory)), SearchStep::Done(Err(KError::OutOfMemory))));
    assert!(matches!(after_attempt(false, 2, 3, Err(KError::OutOfMemory)), SearchStep::Done(Err(KError::NotFound))));
    assert!(matches!(after_attempt(true, 0, 1, Err(KError::NotFound)), SearchStep::Done(Err(KError::NotFound))));
    assert!(matches!(after_attempt(false, 1, 3, Ok(4)), SearchStep::Done(Ok(4))));
}

#[test]
fn the_registry_knows_what_is_loaded() {
    let mut r = LoadRegistry::new();
    assert!(r.begin_load(&bytes("/a"), &bytes("/a")) == LoadStart::Begin);
    assert!(r.begin_load(&bytes("/a"), &bytes("/a")) == LoadStart::Circular);
    r.end_load();
    r.add_module(3, bytes("/a"));
    assert!(r.begin_load(&bytes("/link"), &bytes("/a")) == LoadStart::Cached(3));
    assert_eq!(r.find_loaded_module(&bytes("/a")), Some(3));
    r.modules[0].alive = false;
    assert_eq!(r.find_loaded_module(&bytes("/a")), None);
    r.purge();
    assert_eq!(r.modules.len(), 0);
}

fn need(name: &str) -> Needed {
    Needed { name: bytes(name), in_cwd: bytes(&format!("/home/{}", name)) }
}

/// Files that can be opened, with what they need.
fn run_load(files: &[(&str, &[&str])], name: &str) -> (Result<u64, KError>, Vec<String>, usize) {
    let mut l = Loading::load_image(LoadRegistry::new(), &need(name));
    let mut finished: Vec<String> = Vec::new();
    let mut opened = 0;
    loop {
        match l.phase {
            Phase::Done(r) => return (r, finished, opened),
            Phase::Resolve => {
                let p = l.place();
                l.on_resolved(&p);
            }
            Phase::Open => {
                let p = String::from_utf8(l.place()).unwrap();
                opened += 1;
                match files.iter().find(|f| f.0 == p) {
                    None => l.on_opened(Err(KError::NotFound)),
                    Some(f) => {
                        let needed: Vec<Needed> = f.1.iter().map(|n| need(n)).collect();
                        l.on_opened(Ok(Image { canonical: bytes(&p), needed, dirs: vec![bytes("/lib")], deps: Vec::new() }));
                    }
                }
            }
            Phase::Finish => {
                let p = String::from_utf8(l.place()).unwrap();
                assert!(l.dependencies().iter().all(|d| (*d as usize) <= finished.len()));
                finished.push(p);
                let id = finished.len() as u64;
                l.on_finished(Ok(id));
            }
        }
    }
}

#[test]
fn dependencies_are_loaded_first() {
    let files: &[(&str, &[&str])] =
        &[("/sys/a.so", &["b.so", "c.so"]), ("/lib/b.so", &["c.so"]), ("/sys/drivers/c.so", &[])];
    let (r, order, _) = run_load(files, "a.so");
    assert_eq!(r, Ok(3));
    assert_eq!(order, vec!["/sys/drivers/c.so".to_string(), "/lib/b.so".to_string(), "/sys/a.so".to_string()]);
}

#[test]
fn cycles_and_missing_images() {
    let (r, order, _) = run_load(&[("/a", &["/b"]), ("/b", &["/a"])], "/a");
    assert_eq!(r, Err(KError::CircularDependency));
    assert!(order.is_empty());
    let (r, _, opened) = run_load(&[], "x.so");
    assert_eq!(r, Err(KError::NotFound));
    assert_eq!(opened, 4);
    let (r, order, _) = run_load(&[("/sys/a.so", &["gone.so"])], "a.so");
    assert_eq!(r, Err(KError::NotFound));
    assert!(order.is_empty());
    assert_eq!(run_load(&[], "/x").0, Err(KError::NotFound));
}

fn user_object() -> Vec<u8> {
    object()
}

fn dep(base: u64) -> DepModule {
    let b = object();
    DepModule {
        base,
        dyn_tab_off: Some(SYMTAB as u64),
        num_syms: 3,
        dyn_str_off: Some(STRTAB as u64),
        dyn_str_size: 28,
        segments: vec![DepSegment { offset: 0, size: 0x1000, data: Some(b[0..0x1000].to_vec()) }],
    }
}

#[test]
fn a_user_image_is_loaded_cold_and_warm() {
    let b = user_object();
    let img = parse_user_elf(&b).unwrap();
    assert_eq!(img.segments.len(), 2);
    assert_eq!(img.total_size, 0x2000);
    assert_eq!(img.entry, 0x120);
    assert_eq!(img.va_to_off(DATA as u64 + 4), Some(DATA as u64 + 4));
    assert_eq!(img.va_to_off(0x5000), None);
    assert_eq!(img.segment_for_va(DATA as u64), Some(1));
    let d = img.dependencies(&b).unwrap();
    assert_eq!(d.needed, vec![bytes("libdep.so")]);
    assert_eq!(d.extra_dirs, vec![bytes("/a"), bytes("/b")]);

    assert_eq!(load_user_into_process(&img, &b, 0x40000, &vec![], None).err(), Some(KError::InvalidArgument));

    let mut other = dep(0x90000);
    match &mut other.segments[0].data {
        Some(bytes) => put32(bytes, SYMTAB + 24, 5),
        None => panic!("the segment is readable"),
    }
    assert_eq!(other.lookup(&bytes("other")), Some(0x90140));
    let deps = vec![dep(0x80000), other];
    let cold = load_user_into_process(&img, &b, 0x40000, &deps, None).unwrap();
    assert_eq!(cold.chunks.len(), 2);
    assert_eq!(cold.shared.len(), 0);
    assert_eq!(read_u64(&cold.chunks[1].data, 0), 0x40055);
    assert_eq!(read_u64(&cold.chunks[1].data, 8), 0x40142);
    assert_eq!(read_u64(&cold.chunks[1].data, 16), 0x90140);

    let records = segment_records(&cold.chunks, &vec![0x1000, 0x2000]);
    let shared = share_image(&img, bytes("/lib/x.so"), records);
    assert_eq!(shared.entry_offset, 0x120);
    let warm = load_user_into_process(&img, &b, 0x60000, &deps, Some(&shared)).unwrap();
    assert_eq!(warm.shared.len(), 1);
    assert_eq!(warm.shared[0].phys_addr, 0x1000);
    assert_eq!(warm.shared[0].virt_addr, 0x60000);
    assert_eq!(warm.chunks.len(), 1);
    assert_eq!(read_u64(&warm.chunks[0].data, 0), 0x60055);

    let mut registry = LoadRegistry::new();
    let freed: Vec<u64> = shared.release(&mut registry).iter().map(|g| g.base_address).collect();
    assert_eq!(freed, vec![0x1000, 0x2000]);
}

#[test]
fn overlapping_segments_are_refused() {
    let mut b = user_object();
    put64(&mut b, 64 + 56 + 16, 0x800);
    assert_eq!(parse_user_elf(&b).err(), Some(KError::InvalidArgument));
    let mut b = user_object();
    put64(&mut b, 64 + 48, 0x2000);
    assert_eq!(parse_user_elf(&b).err(), Some(KError::InvalidArgument));
}

#[test]
fn the_kernel_moves_to_its_half() {
    let (mut info, mut mem) = laid_out(0x10000);
    info.rlc_shn = Some(aris::loader::image::ArrayTable { start: 0x10000 + RELA as u64, size: 24, entry_size: 24 });
    put64(&mut mem, DATA, 0x10055);
    let files = vec![FileDescriptor { contents: 0x30000, contents_len: 100, name: 0x30064, name_len: 4 }];
    let table = MemoryRegion { base_address: 0x2000, size: 32 };
    let remaps = early_init(&info, &files, table);
    assert_eq!(remaps.len(), 4);
    assert!(remaps[0].map_type == RemapType::OffsetMapped(RemapTarget::Kernel));
    assert!(remaps[1].map_type == RemapType::OffsetMapped(RemapTarget::File(0)));
    assert_eq!(remaps[1].value.size, 104);
    assert!(remaps[2].map_type == RemapType::IdentityMapped);
    assert_eq!(remaps[2].value.base_address, 0x2000);

    let offset = rebase_module(&mut info, 0xffff_8000_0001_0000);
    assert_eq!(offset, 0xffff_8000_0000_0000);
    assert_eq!(info.base, 0xffff_8000_0001_0000);
    assert_eq!(info.entry, 0xffff_8000_0001_0120);
    // The kernel's name is at 0x12345, and the file table has a page of the new address space.
    let mut mm = MemoryManager {
        is_init: true,
        phys: PhyMemConBlk {
            total_memory: 0,
            avl_memory: 0,
            hard_limit: u64::MAX,
            lower_limit: 0,
            free_block_list: Vec::new(),
            alloc_block_list: Vec::new(),
            node_limit: 1000,
        },
        kernel: VirtMemConBlk::new(0),
        process: None,
        invalidated: Vec::new(),
    };
    let kernel_at = mm.map_to_kernel(0x10000, 0x3000).unwrap();
    let table_at = mm.map_to_kernel(0x2000, 0x1000).unwrap();
    let mut name_at = 0x12345;
    let fs = complete_handoff(
        &info,
        &mut mem,
        offset,
        &mut name_at,
        vec![FsEntry { name: bytes("/sys/aris"), contents: MemoryRegion { base_address: 1, size: 2 } }],
        MemoryRegion { base_address: table_at, size: 32 },
        &mut mm,
    );
    assert_eq!(name_at, kernel_at + 0x2345);
    assert_eq!(mm.get_physical_address(table_at, 0), None);
    assert_eq!(mm.get_physical_address(kernel_at, 0), Some(0x10000));
    assert_eq!(read_u64(&mem, DATA as u64), 0xffff_8000_0001_0055);
    assert_eq!(fs.lookup(&bytes("/sys/aris")).map(|g| g.base_address), Some(1));
    assert_eq!(fs.lookup(&bytes("/none")).map(|g| g.base_address), None);
    assert_eq!(fs.symlinks, vec![(bytes("/sys/libaris.so"), bytes("/sys/aris"))]);

    let back = rebase_module(&mut info, 0x10000);
    assert_eq!(offset.wrapping_add(back), 0);
    assert_eq!(info.entry, 0x10120);

    let mut f = files[0];
    rebase_file(&mut f, 0xffff_9000_0000_0000);
    assert_eq!(f.contents, 0xffff_9000_0000_0000);
    assert_eq!(f.name, 0xffff_9000_0000_0064);

    let last = InitFS::new(vec![
        FsEntry { name: bytes("a"), contents: MemoryRegion { base_address: 1, size: 1 } },
        FsEntry { name: bytes("a"), contents: MemoryRegion { base_address: 2, size: 1 } },
    ]);
    assert_eq!(last.lookup(&bytes("a")).map(|g| g.base_address), Some(2));
}

#[test]
fn descriptors() {
    let (info, _) = laid_out(0x10000);
    let k = ModuleDescriptor {
        mod_type: ModuleType::Kernel(KernelModule {
            name: bytes("disk"),
            driver_init_address: None,
            driver_unload_address: None,
            canonical_file_path: None,
            info,
            deps: Vec::new(),
        }),
    };
    let u = ModuleDescriptor { mod_type: ModuleType::User(UserModule { base: 1, entry: 2 }) };
    assert_eq!(k.kernel().name, bytes("disk"));
    assert!(k.kernel_opt().is_some());
    assert!(u.kernel_opt().is_none());
    assert_eq!(u.user().entry, 2);
    let mut r = LoadRegistry::new();
    assert_eq!(k.release(&mut r).map(|g| (g.base_address, g.size)), Some((0x10000, 0x2200)));
    assert!(u.release(&mut r).is_none());
}
