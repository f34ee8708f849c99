use vstd::prelude::*;
use crate::error::KError;
use crate::util;
use crate::util::{bytes_copy, bytes_eq, read_cstr, split_nonempty};
use crate::loader::elf;
use crate::loader::elf::{
    Sym, Rela, SHN_UNDEF, DT_NEEDED, DT_RPATH, DT_RUNPATH, R_X86_64_64, R_GLOB_DAT, R_JUMP_SLOT,
    R_X86_64_RELATIVE, read_sym, read_rela, write_u64, count_dyn, find_dyn, collect_dyn,
};
use crate::loader::image::{ArrayTable, MemoryRegion, ModuleInfo};

verus! {

/// A kernel module: where its parts lie, and the memory it was loaded to.
pub struct LoadedModule {
    pub info: ModuleInfo,
    pub mem: Vec<u8>,
}

/// The name of symbol `i`, for a symbol table at `tab` and a string table at `strs`.
pub open spec fn symbol_name(mem: Seq<u8>, tab: int, strs: int, i: int) -> Seq<u8> {
    util::cstr_at(mem, strs + elf::sym_at(mem, tab + 24 * i).st_name)
}

/// The first symbol from `i` on that is defined and has the given name.
pub open spec fn find_symbol(mem: Seq<u8>, tab: int, strs: int, i: int, n: int, name: Seq<u8>) -> Option<int>
    decreases n - i,
{
    if i >= n {
        None
    } else if elf::sym_at(mem, tab + 24 * i).st_shndx != SHN_UNDEF && symbol_name(mem, tab, strs, i) == name {
        Some(i)
    } else {
        find_symbol(mem, tab, strs, i + 1, n, name)
    }
}

impl LoadedModule {
    /// Offset of the dynamic symbol table in the module's memory.
    pub open spec fn tab_off(self) -> int {
        self.info.dyn_tab->0.start - self.info.base
    }

    /// Offset of the dynamic string table in the module's memory.
    pub open spec fn str_off(self) -> int {
        self.info.dyn_str->0.base_address - self.info.base
    }

    pub open spec fn num_syms(self) -> int {
        self.info.dyn_tab->0.size as int / 24
    }

    pub open spec fn has_symbols(self) -> bool {
        self.info.dyn_tab is Some && self.info.dyn_str is Some
    }

    /// The symbol tables lie inside the module's memory, and every symbol's address inside the
    /// address space.
    pub open spec fn well_formed(self) -> bool {
        self.has_symbols() ==> {
            &&& self.info.base <= self.info.dyn_tab->0.start
            &&& self.info.dyn_tab->0.entry_size == 24
            &&& self.tab_off() + self.info.dyn_tab->0.size <= self.mem@.len()
            &&& self.info.base <= self.info.dyn_str->0.base_address
            &&& forall|i: int| 0 <= i < self.num_syms() ==> {
                let s = #[trigger] elf::sym_at(self.mem@, self.tab_off() + 24 * i);
                &&& self.info.base + s.st_value <= u64::MAX
                &&& self.str_off() + s.st_name <= u64::MAX
            }
        }
    }

    /// Address of the first defined symbol called `name`, if the module has one.
    pub open spec fn symbol_address(self, name: Seq<u8>) -> Option<u64> {
        if self.has_symbols() {
            match find_symbol(self.mem@, self.tab_off(), self.str_off(), 0, self.num_syms(), name) {
                Some(i) => Some(
                    (self.info.base + elf::sym_at(self.mem@, self.tab_off() + 24 * i).st_value) as u64,
                ),
                None => None,
            }
        } else {
            None
        }
    }

    /// Gives the address of an exported symbol.
    pub fn load_symbol(&self, symbol: &Vec<u8>) -> (r: Option<u64>)
        requires
            self.well_formed(),
        ensures
            r == self.symbol_address(symbol@),
    {
        let dyn_tab: ArrayTable = match self.info.dyn_tab { Some(t) => t, None => { return None; } };
        let dyn_str: MemoryRegion = match self.info.dyn_str { Some(s) => s, None => { return None; } };
        let tab: u64 = dyn_tab.start - self.info.base;
        let strs: u64 = dyn_str.base_address - self.info.base;
        let n: u64 = dyn_tab.size / dyn_tab.entry_size;
        let len: usize = self.mem.len();
        let mut i: u64 = 0;
        while i < n
            invariant
                i <= n,
                self.well_formed(),
                self.has_symbols(),
                tab == self.tab_off(),
                strs == self.str_off(),
                n == self.num_syms(),
                len == self.mem@.len(),
                find_symbol(self.mem@, tab as int, strs as int, 0, n as int, symbol@)
                    == find_symbol(self.mem@, tab as int, strs as int, i as int, n as int, symbol@),
            decreases n - i,
        {
            let sym: Sym = read_sym(&self.mem, tab + 24 * i);
            assert(sym == elf::sym_at(self.mem@, self.tab_off() + 24 * i));
            if sym.st_shndx != SHN_UNDEF {
                let name: Vec<u8> = read_cstr(&self.mem, strs + sym.st_name as u64);
                if bytes_eq(&name, symbol) {
                    return Some(self.info.base + sym.st_value);
                }
            }
            i = i + 1;
        }
        None
    }
}

/// The address that the first module from `k` on gives for `name`.
pub open spec fn import_from(deps: Seq<LoadedModule>, k: int, name: Seq<u8>) -> Option<u64>
    decreases deps.len() - k,
{
    if k < 0 || k >= deps.len() {
        None
    } else {
        match deps[k].symbol_address(name) {
            Some(a) => Some(a),
            None => import_from(deps, k + 1, name),
        }
    }
}

/// Looks a symbol up in the dependencies, in the order in which they were loaded.
pub fn resolve_import(name: &Vec<u8>, deps: &Vec<LoadedModule>) -> (r: Option<u64>)
    requires
        forall|k: int| 0 <= k < deps@.len() ==> (#[trigger] deps@[k]).well_formed(),
    ensures
        r == import_from(deps@, 0, name@),
{
    let mut k: usize = 0;
    while k < deps.len()
        invariant
            k <= deps@.len(),
            forall|j: int| 0 <= j < deps@.len() ==> (#[trigger] deps@[j]).well_formed(),
            import_from(deps@, 0, name@) == import_from(deps@, k as int, name@),
        decreases deps@.len() - k,
    {
        assert(deps@[k as int].well_formed());
        let found: Option<u64> = deps[k].load_symbol(name);
        if found.is_some() {
            return found;
        }
        k = k + 1;
    }
    None
}

/// Sum modulo 2^64: addends are stored in two's complement.
pub open spec fn wrap_sum(a: u64, b: u64) -> u64 {
    ((a + b) % 0x1_0000_0000_0000_0000) as u64
}

pub fn wrapping_sum(a: u64, b: u64) -> (r: u64)
    ensures
        r == wrap_sum(a, b),
{
    a.wrapping_add(b)
}

pub open spec fn is_symbol_reloc(t: u32) -> bool {
    t == R_X86_64_64 || t == R_GLOB_DAT || t == R_JUMP_SLOT
}

/// What a relocation against a symbol resolved to `resolved` stores.
pub open spec fn symbol_reloc_value(r: Rela, resolved: u64) -> u64 {
    if elf::rela_type(r) == R_JUMP_SLOT { resolved } else { wrap_sum(resolved, r.r_addend) }
}

/// The address of symbol `sym` of a module at `base`: its own if it defines it, else what the
/// dependencies give for its name.
pub open spec fn resolve_symbol(
    mem: Seq<u8>, base: int, strs: int, sym: Sym, deps: Seq<LoadedModule>,
) -> Option<u64> {
    if sym.st_shndx == SHN_UNDEF {
        import_from(deps, 0, util::cstr_at(mem, strs + sym.st_name))
    } else {
        Some((base + sym.st_value) as u64)
    }
}

/// One relocation: the memory after it, and whether its symbol could be resolved.
#[verifier::opaque]
pub open spec fn reloc_one(
    mem: Seq<u8>, base: int, tab: int, strs: int, r: Rela, deps: Seq<LoadedModule>,
) -> (Seq<u8>, bool) {
    if elf::rela_type(r) == R_X86_64_RELATIVE {
        (elf::put64(mem, r.r_offset as int, wrap_sum(base as u64, r.r_addend)), true)
    } else if is_symbol_reloc(elf::rela_type(r)) {
        match resolve_symbol(mem, base, strs, elf::sym_at(mem, tab + 24 * elf::rela_sym(r)), deps) {
            Some(v) => (elf::put64(mem, r.r_offset as int, symbol_reloc_value(r, v)), true),
            None => (mem, false),
        }
    } else {
        (mem, true)
    }
}

/// The first `n` relocations of the table at `off`, applied in order up to the first that fails.
pub open spec fn reloc_run(
    mem: Seq<u8>, base: int, tab: int, strs: int, off: int, n: nat, deps: Seq<LoadedModule>,
) -> (Seq<u8>, bool)
    decreases n,
{
    if n == 0 {
        (mem, true)
    } else {
        let before = reloc_run(mem, base, tab, strs, off, (n - 1) as nat, deps);
        if before.1 {
            reloc_one(before.0, base, tab, strs, elf::rela_at(before.0, off + 24 * (n - 1)), deps)
        } else {
            before
        }
    }
}

/// The target lies in the module's memory, and so does the symbol a relocation refers to; a
/// relocation by symbol needs the symbol table, and one by name the string table.
#[verifier::opaque]
pub open spec fn reloc_sound(
    mem: Seq<u8>, base: int, dyn_tab: Option<u64>, dyn_str: Option<u64>, r: Rela,
) -> bool {
    let t = elf::rela_type(r);
    &&& t == R_X86_64_RELATIVE || is_symbol_reloc(t) ==> r.r_offset + 8 <= mem.len()
    &&& is_symbol_reloc(t) ==> {
        let sym = elf::sym_at(mem, dyn_tab->0 + 24 * elf::rela_sym(r));
        &&& dyn_tab is Some
        &&& dyn_tab->0 + 24 * elf::rela_sym(r) + 24 <= mem.len()
        &&& sym.st_shndx == SHN_UNDEF ==> dyn_str is Some && dyn_str->0 + sym.st_name <= u64::MAX
        &&& sym.st_shndx != SHN_UNDEF ==> base + sym.st_value <= u64::MAX
    }
}

proof fn lemma_reloc_len(
    mem: Seq<u8>, base: int, tab: int, strs: int, off: int, n: nat, deps: Seq<LoadedModule>,
)
    ensures
        reloc_run(mem, base, tab, strs, off, n, deps).0.len() == mem.len(),
    decreases n,
{
    reveal(reloc_one);
    if n > 0 {
        lemma_reloc_len(mem, base, tab, strs, off, (n - 1) as nat, deps);
    }
}

/// Once a relocation has failed, the rest is left alone.
proof fn lemma_reloc_failed(
    mem: Seq<u8>, base: int, tab: int, strs: int, off: int, i: nat, n: nat, deps: Seq<LoadedModule>,
)
    requires
        i <= n,
        !reloc_run(mem, base, tab, strs, off, i, deps).1,
    ensures
        reloc_run(mem, base, tab, strs, off, n, deps) == reloc_run(mem, base, tab, strs, off, i, deps),
    decreases n,
{
    if n > i {
        lemma_reloc_failed(mem, base, tab, strs, off, i, (n - 1) as nat, deps);
    }
}

/// Applies one relocation to a module loaded at `load_base`; false if its symbol is unresolved.
fn apply_reloc(
    mem: &mut Vec<u8>,
    load_base: u64,
    dyn_tab: Option<u64>,
    dyn_str: Option<u64>,
    entry: Rela,
    deps: &Vec<LoadedModule>,
) -> (r: bool)
    requires
        reloc_sound(old(mem)@, load_base as int, dyn_tab, dyn_str, entry),
        forall|k: int| 0 <= k < deps@.len() ==> (#[trigger] deps@[k]).well_formed(),
    ensures
        (final(mem)@, r)
            == reloc_one(old(mem)@, load_base as int, dyn_tab->0 as int, dyn_str->0 as int, entry, deps@),
{
    reveal(reloc_one);
    reveal(reloc_sound);
    let rtype: u32 = (entry.r_info % 0x100000000) as u32;
    if rtype == R_X86_64_RELATIVE {
        write_u64(mem, entry.r_offset, wrapping_sum(load_base, entry.r_addend));
    } else if rtype == R_X86_64_64 || rtype == R_GLOB_DAT || rtype == R_JUMP_SLOT {
        let len: usize = mem.len();
        let idx: u64 = entry.r_info / 0x100000000;
        let t: u64 = match dyn_tab { Some(t) => t, None => 0 };
        let sym: Sym = read_sym(mem, t + 24 * idx);
        let resolved: u64 = if sym.st_shndx == SHN_UNDEF {
            let s: u64 = match dyn_str { Some(s) => s, None => 0 };
            let name: Vec<u8> = read_cstr(mem, s + sym.st_name as u64);
            match resolve_import(&name, deps) {
                Some(v) => v,
                None => { return false; },
            }
        } else {
            load_base + sym.st_value
        };
        let value: u64 = if rtype == R_JUMP_SLOT { resolved } else { wrapping_sum(resolved, entry.r_addend) };
        write_u64(mem, entry.r_offset, value);
    }
    true
}

/// Applies the `count` relocations of the table at `off` to a module loaded at `load_base`.
/// `dyn_tab` and `dyn_str` are the places of its symbol and string table. Relocations of other
/// types are skipped; one whose symbol nobody defines stops the run with an error.
pub fn process_reloc_shn(
    mem: &mut Vec<u8>,
    load_base: u64,
    dyn_tab: Option<u64>,
    dyn_str: Option<u64>,
    off: u64,
    count: u64,
    deps: &Vec<LoadedModule>,
) -> (r: Result<(), KError>)
    requires
        off + 24 * count <= old(mem)@.len(),
        forall|k: int| 0 <= k < deps@.len() ==> (#[trigger] deps@[k]).well_formed(),
        forall|k: nat| k < count ==> {
            let m = (#[trigger] reloc_run(
                old(mem)@, load_base as int, dyn_tab->0 as int, dyn_str->0 as int, off as int, k, deps@)).0;
            reloc_sound(m, load_base as int, dyn_tab, dyn_str, elf::rela_at(m, off + 24 * k))
        },
    ensures
        ({
            let run = reloc_run(
                old(mem)@, load_base as int, dyn_tab->0 as int, dyn_str->0 as int, off as int, count as nat, deps@);
            &&& final(mem)@ == run.0
            &&& r == (if run.1 { Ok(()) } else { Err(KError::InvalidArgument) })
        }),
{
    let ghost m0 = mem@;
    let ghost base = load_base as int;
    let ghost tab = dyn_tab->0 as int;
    let ghost strs = dyn_str->0 as int;
    let len: usize = mem.len();
    let mut i: u64 = 0;
    while i < count
        invariant
            i <= count,
            base == load_base,
            tab == dyn_tab->0,
            strs == dyn_str->0,
            len == mem@.len(),
            m0 == old(mem)@,
            len == m0.len(),
            off + 24 * count <= len,
            mem@ == reloc_run(m0, base, tab, strs, off as int, i as nat, deps@).0,
            reloc_run(m0, base, tab, strs, off as int, i as nat, deps@).1,
            forall|k: int| 0 <= k < deps@.len() ==> (#[trigger] deps@[k]).well_formed(),
            forall|k: nat| k < count ==> {
                let m = (#[trigger] reloc_run(m0, base, tab, strs, off as int, k, deps@)).0;
                reloc_sound(m, base, dyn_tab, dyn_str, elf::rela_at(m, off + 24 * k))
            },
        decreases count - i,
    {
        let entry: Rela = read_rela(mem, off + 24 * i);
        assert(reloc_sound(mem@, base, dyn_tab, dyn_str, entry));
        let ok: bool = apply_reloc(mem, load_base, dyn_tab, dyn_str, entry, deps);
        proof {
            lemma_reloc_len(m0, base, tab, strs, off as int, (i + 1) as nat, deps@);
        }
        if !ok {
            proof {
                lemma_reloc_failed(m0, base, tab, strs, off as int, (i + 1) as nat, count as nat, deps@);
            }
            return Err(KError::InvalidArgument);
        }
        i = i + 1;
    }
    Ok(())
}

/// The relocation table `t` of a module at `base`, as offset and entry count.
pub open spec fn reloc_table(t: Option<ArrayTable>, base: u64) -> (int, nat) {
    match t {
        Some(x) => (x.start - base, (x.size / x.entry_size) as nat),
        None => (0, 0),
    }
}

/// All relocations of a module: first those of its relocation table, then, if these succeed,
/// those of its procedure linkage table.
pub open spec fn relocated(info: ModuleInfo, mem: Seq<u8>, deps: Seq<LoadedModule>) -> (Seq<u8>, bool) {
    let base = info.base as int;
    let tab = info.dyn_tab->0.start - base;
    let strs = info.dyn_str->0.base_address - base;
    let (ro, rn) = reloc_table(info.rlc_shn, info.base);
    let (po, pn) = reloc_table(info.plt_shn, info.base);
    let first = reloc_run(mem, base, tab, strs, ro, rn, deps);
    if first.1 { reloc_run(first.0, base, tab, strs, po, pn, deps) } else { first }
}

/// Every entry of the table can be applied at the moment its turn comes.
pub open spec fn table_sound(
    info: ModuleInfo, mem: Seq<u8>, t: Option<ArrayTable>, deps: Seq<LoadedModule>,
) -> bool {
    let base = info.base as int;
    let tab = info.dyn_tab->0.start - base;
    let strs = info.dyn_str->0.base_address - base;
    let (off, n) = reloc_table(t, info.base);
    &&& t matches Some(x) ==> x.entry_size > 0 && x.start >= info.base && off + 24 * n <= mem.len()
    &&& forall|k: nat| k < n ==> {
        let m = (#[trigger] reloc_run(mem, base, tab, strs, off, k, deps)).0;
        reloc_sound(
            m,
            base,
            (if info.dyn_tab is Some { Some(tab as u64) } else { None }),
            (if info.dyn_str is Some { Some(strs as u64) } else { None }),
            elf::rela_at(m, off + 24 * k),
        )
    }
}

/// Applies all relocations of a freshly loaded module.
pub fn apply_relocations(info: &ModuleInfo, mem: &mut Vec<u8>, deps: &Vec<LoadedModule>) -> (r: Result<(), KError>)
    requires
        info.dyn_tab matches Some(t) ==> t.start >= info.base,
        info.dyn_str matches Some(t) ==> t.base_address >= info.base,
        forall|k: int| 0 <= k < deps@.len() ==> (#[trigger] deps@[k]).well_formed(),
        table_sound(*info, old(mem)@, info.rlc_shn, deps@),
        ({
            let (ro, rn) = reloc_table(info.rlc_shn, info.base);
            let first = reloc_run(
                old(mem)@, info.base as int, info.dyn_tab->0.start - info.base,
                info.dyn_str->0.base_address - info.base, ro, rn, deps@);
            first.1 ==> table_sound(*info, first.0, info.plt_shn, deps@)
        }),
    ensures
        final(mem)@ == relocated(*info, old(mem)@, deps@).0,
        r == (if relocated(*info, old(mem)@, deps@).1 { Ok(()) } else { Err(KError::InvalidArgument) }),
{
    let dyn_tab: Option<u64> = match info.dyn_tab { Some(t) => Some(t.start - info.base), None => None };
    let dyn_str: Option<u64> = match info.dyn_str { Some(t) => Some(t.base_address - info.base), None => None };
    let ghost m0 = mem@;
    proof {
        lemma_reloc_no_tables(*info, m0, info.rlc_shn, dyn_tab, dyn_str, deps@);
    }
    if let Some(t) = info.rlc_shn {
        let res: Result<(), KError> = process_reloc_shn(
            mem, info.base, dyn_tab, dyn_str, t.start - info.base, t.size / t.entry_size, deps);
        if res.is_err() {
            return Err(KError::InvalidArgument);
        }
    }
    proof {
        lemma_reloc_no_tables(*info, mem@, info.plt_shn, dyn_tab, dyn_str, deps@);
    }
    if let Some(t) = info.plt_shn {
        return process_reloc_shn(
            mem, info.base, dyn_tab, dyn_str, t.start - info.base, t.size / t.entry_size, deps);
    }
    Ok(())
}

/// Where a table is absent no relocation refers to it, so its place does not matter.
proof fn lemma_reloc_no_tables(
    info: ModuleInfo, mem: Seq<u8>, t: Option<ArrayTable>, dyn_tab: Option<u64>, dyn_str: Option<u64>,
    deps: Seq<LoadedModule>,
)
    requires
        info.dyn_tab matches Some(x) ==> x.start >= info.base && dyn_tab == Some((x.start - info.base) as u64),
        info.dyn_str matches Some(x) ==> x.base_address >= info.base
            && dyn_str == Some((x.base_address - info.base) as u64),
        info.dyn_tab is None ==> dyn_tab is None,
        info.dyn_str is None ==> dyn_str is None,
        table_sound(info, mem, t, deps),
    ensures
        ({
            let base = info.base as int;
            let (off, n) = reloc_table(t, info.base);
            forall|k: nat| k <= n ==> #[trigger] reloc_run(
                mem, base, dyn_tab->0 as int, dyn_str->0 as int, off, k, deps)
                == reloc_run(
                mem, base, info.dyn_tab->0.start - base, info.dyn_str->0.base_address - base, off, k, deps)
        }),
{
    let base = info.base as int;
    let (off, n) = reloc_table(t, info.base);
    assert forall|k: nat| k <= n implies #[trigger] reloc_run(
        mem, base, dyn_tab->0 as int, dyn_str->0 as int, off, k, deps) == reloc_run(
        mem, base, info.dyn_tab->0.start - base, info.dyn_str->0.base_address - base, off, k, deps) by {
        lemma_reloc_tables_upto(info, mem, t, dyn_tab, dyn_str, deps, k);
    }
}

proof fn lemma_reloc_tables_upto(
    info: ModuleInfo, mem: Seq<u8>, t: Option<ArrayTable>, dyn_tab: Option<u64>, dyn_str: Option<u64>,
    deps: Seq<LoadedModule>, k: nat,
)
    requires
        info.dyn_tab matches Some(x) ==> x.start >= info.base && dyn_tab == Some((x.start - info.base) as u64),
        info.dyn_str matches Some(x) ==> x.base_address >= info.base
            && dyn_str == Some((x.base_address - info.base) as u64),
        info.dyn_tab is None ==> dyn_tab is None,
        info.dyn_str is None ==> dyn_str is None,
        table_sound(info, mem, t, deps),
        k <= reloc_table(t, info.base).1,
    ensures
        reloc_run(
            mem, info.base as int, dyn_tab->0 as int, dyn_str->0 as int, reloc_table(t, info.base).0, k, deps)
            == reloc_run(
            mem, info.base as int, info.dyn_tab->0.start - info.base,
            info.dyn_str->0.base_address - info.base, reloc_table(t, info.base).0, k, deps),
    decreases k,
{
    reveal(reloc_one);
    reveal(reloc_sound);
    if k > 0 {
        lemma_reloc_tables_upto(info, mem, t, dyn_tab, dyn_str, deps, (k - 1) as nat);
        let m = reloc_run(
            mem, info.base as int, info.dyn_tab->0.start - info.base,
            info.dyn_str->0.base_address - info.base, reloc_table(t, info.base).0, (k - 1) as nat, deps).0;
        assert(reloc_sound(
            m,
            info.base as int,
            dyn_tab,
            dyn_str,
            elf::rela_at(m, reloc_table(t, info.base).0 + 24 * (k - 1)),
        ));
    }
}

/// The directories named by the module's own run path, or by its older form if it has none.
pub open spec fn runpath_dirs(mem: Seq<u8>, off: int, n: nat, strs: int) -> Seq<Seq<u8>> {
    match elf::dyn_last(mem, off, n, DT_RUNPATH) {
        Some(o) => util::split_nonempty_spec(util::cstr_at(mem, strs + o), 0x3a),
        None => match elf::dyn_last(mem, off, n, DT_RPATH) {
            Some(o) => util::split_nonempty_spec(util::cstr_at(mem, strs + o), 0x3a),
            None => Seq::empty(),
        },
    }
}

/// Splits the run path at its colons. `off` is the place of the dynamic section, `count` its
/// number of entries, `strs` the place of the string table.
pub fn parse_runpath(mem: &Vec<u8>, off: u64, count: u64, strs: u64) -> (r: Vec<Vec<u8>>)
    requires
        off + 16 * count <= mem@.len(),
        ({
            let n = elf::dyn_live(mem@, off as int, count as nat);
            &&& elf::dyn_last(mem@, off as int, n, DT_RUNPATH) matches Some(o) ==> strs + o <= u64::MAX
            &&& elf::dyn_last(mem@, off as int, n, DT_RPATH) matches Some(o) ==> strs + o <= u64::MAX
        }),
    ensures
        util::strings(r@)
            == runpath_dirs(mem@, off as int, elf::dyn_live(mem@, off as int, count as nat), strs as int),
{
    let n: u64 = count_dyn(mem, off, count);
    let run: Option<u64> = find_dyn(mem, off, n, DT_RUNPATH);
    let old_style: Option<u64> = find_dyn(mem, off, n, DT_RPATH);
    let pick: Option<u64> = match run { Some(o) => Some(o), None => old_style };
    match pick {
        Some(o) => {
            let raw: Vec<u8> = read_cstr(mem, strs + o);
            split_nonempty(&raw, 0x3a)
        },
        None => {
            let r: Vec<Vec<u8>> = Vec::new();
            assert(util::strings(r@) =~= Seq::empty());
            r
        },
    }
}

/// The names at the given places of the string table.
pub open spec fn names_at(mem: Seq<u8>, strs: int, offs: Seq<u64>) -> Seq<Seq<u8>> {
    Seq::new(offs.len(), |i: int| util::cstr_at(mem, strs + offs[i]))
}

/// The names of the modules that this one needs, in the order of its dynamic section.
pub fn needed_names(mem: &Vec<u8>, off: u64, count: u64, strs: u64) -> (r: Vec<Vec<u8>>)
    requires
        off + 16 * count <= mem@.len(),
        ({
            let offs = elf::dyn_all(
                mem@, off as int, elf::dyn_live(mem@, off as int, count as nat), DT_NEEDED);
            forall|i: int| 0 <= i < offs.len() ==> strs + #[trigger] offs[i] <= u64::MAX
        }),
    ensures
        util::strings(r@) == names_at(
            mem@,
            strs as int,
            elf::dyn_all(mem@, off as int, elf::dyn_live(mem@, off as int, count as nat), DT_NEEDED),
        ),
{
    let n: u64 = count_dyn(mem, off, count);
    let offs: Vec<u64> = collect_dyn(mem, off, n, DT_NEEDED);
    let mut r: Vec<Vec<u8>> = Vec::new();
    let mut i: usize = 0;
    while i < offs.len()
        invariant
            i <= offs@.len(),
            r@.len() == i,
            forall|j: int| 0 <= j < offs@.len() ==> strs + #[trigger] offs@[j] <= u64::MAX,
            forall|j: int| 0 <= j < i ==> (#[trigger] r@[j])@ == util::cstr_at(mem@, strs + offs@[j]),
        decreases offs@.len() - i,
    {
        let o: u64 = offs[i];
        assert(strs + offs@[i as int] <= u64::MAX);
        let name: Vec<u8> = read_cstr(mem, strs + o);
        r.push(name);
        i = i + 1;
    }
    assert(util::strings(r@) =~= names_at(mem@, strs as int, offs@));
    r
}

/// What a scan of a module's symbols for its entry points has found so far.
pub struct ModuleShims {
    /// The name that the module reported for itself.
    pub name: Option<Vec<u8>>,
    pub driver_init: Option<u64>,
    pub driver_unload: Option<u64>,
}

/// State of the scan: the index of the reported name, the two driver entry points, the number of
/// configuration entry points called, and whether one of them reported no name.
pub struct ShimScan {
    pub name: Option<int>,
    pub driver_init: Option<u64>,
    pub driver_unload: Option<u64>,
    pub calls: nat,
    pub stopped: bool,
}

/// `_shim_module_config`
pub open spec fn config_symbol() -> Seq<u8> {
    seq![0x5fu8, 0x73, 0x68, 0x69, 0x6d, 0x5f, 0x6d, 0x6f, 0x64, 0x75, 0x6c, 0x65, 0x5f, 0x63, 0x6f, 0x6e,
        0x66, 0x69, 0x67]
}

/// `_shim_driver_init`
pub open spec fn init_symbol() -> Seq<u8> {
    seq![0x5fu8, 0x73, 0x68, 0x69, 0x6d, 0x5f, 0x64, 0x72, 0x69, 0x76, 0x65, 0x72, 0x5f, 0x69, 0x6e, 0x69,
        0x74]
}

/// `_shim_driver_unload`
pub open spec fn unload_symbol() -> Seq<u8> {
    seq![0x5fu8, 0x73, 0x68, 0x69, 0x6d, 0x5f, 0x64, 0x72, 0x69, 0x76, 0x65, 0x72, 0x5f, 0x75, 0x6e, 0x6c,
        0x6f, 0x61, 0x64]
}

impl LoadedModule {
    pub open spec fn symbol(self, i: int) -> Sym {
        elf::sym_at(self.mem@, self.tab_off() + 24 * i)
    }

    pub open spec fn symbol_is(self, i: int, name: Seq<u8>) -> bool {
        self.symbol(i).st_shndx != SHN_UNDEF
            && symbol_name(self.mem@, self.tab_off(), self.str_off(), i) == name
    }

    /// The scan over the first `n` symbols; `replies` are the non-empty names reported by the
    /// configuration entry points in the order in which they are called.
    pub open spec fn shims(self, n: nat, replies: Seq<Option<Vec<u8>>>) -> ShimScan
        decreases n,
    {
        if n == 0 {
            ShimScan { name: None, driver_init: None, driver_unload: None, calls: 0, stopped: false }
        } else {
            let s = self.shims((n - 1) as nat, replies);
            let addr = (self.info.base + self.symbol(n - 1).st_value) as u64;
            if s.stopped {
                s
            } else if self.symbol_is(n - 1, config_symbol()) {
                if replies[s.calls as int] is Some {
                    ShimScan { name: Some(s.calls as int), calls: s.calls + 1, ..s }
                } else {
                    ShimScan { calls: s.calls + 1, stopped: true, ..s }
                }
            } else if self.symbol_is(n - 1, init_symbol()) {
                ShimScan { driver_init: Some(addr), ..s }
            } else if self.symbol_is(n - 1, unload_symbol()) {
                ShimScan { driver_unload: Some(addr), ..s }
            } else {
                s
            }
        }
    }
}

pub fn literal(bytes: &[u8]) -> (r: Vec<u8>)
    ensures
        r@ == bytes@,
{
    let mut v: Vec<u8> = Vec::new();
    let mut i: usize = 0;
    while i < bytes.len()
        invariant
            i <= bytes@.len(),
            v@ == bytes@.take(i as int),
        decreases bytes@.len() - i,
    {
        assert(bytes@.take(i + 1) == bytes@.take(i as int).push(bytes@[i as int]));
        v.push(bytes[i]);
        i = i + 1;
    }
    assert(bytes@.take(i as int) == bytes@);
    v
}

proof fn lemma_shims_stop(m: LoadedModule, i: nat, n: nat, replies: Seq<Option<Vec<u8>>>)
    requires
        i <= n,
        m.shims(i, replies).stopped,
    ensures
        m.shims(n, replies) == m.shims(i, replies),
    decreases n,
{
    if i < n {
        lemma_shims_stop(m, i, (n - 1) as nat, replies);
    }
}

proof fn lemma_shims_calls(m: LoadedModule, i: nat, n: nat, replies: Seq<Option<Vec<u8>>>)
    requires
        i <= n,
    ensures
        m.shims(i, replies).calls <= m.shims(n, replies).calls,
    decreases n,
{
    if i < n {
        lemma_shims_calls(m, i, (n - 1) as nat, replies);
    }
}

/// Finds the module's own name and its driver entry points. Each configuration entry point is
/// called by the caller, who hands in what they reported; the scan ends at the first that reports
/// no name.
pub fn configure_module(module: &LoadedModule, replies: &Vec<Option<Vec<u8>>>) -> (r: ModuleShims)
    requires
        module.well_formed(),
        module.has_symbols() ==> module.shims(module.num_syms() as nat, replies@).calls <= replies@.len(),
    ensures
        if module.has_symbols() {
            let s = module.shims(module.num_syms() as nat, replies@);
            &&& r.driver_init == s.driver_init
            &&& r.driver_unload == s.driver_unload
            &&& match s.name {
                Some(k) => r.name is Some && r.name->0@ == replies@[k]->0@,
                None => r.name is None,
            }
        } else {
            r.name is None && r.driver_init is None && r.driver_unload is None
        },
{
    let mut out: ModuleShims = ModuleShims { name: None, driver_init: None, driver_unload: None };
    let dyn_tab: ArrayTable = match module.info.dyn_tab { Some(t) => t, None => { return out; } };
    let dyn_str: MemoryRegion = match module.info.dyn_str { Some(s) => s, None => { return out; } };
    let config: Vec<u8> = literal(&[0x5f, 0x73, 0x68, 0x69, 0x6d, 0x5f, 0x6d, 0x6f, 0x64, 0x75, 0x6c, 0x65, 0x5f,
        0x63, 0x6f, 0x6e, 0x66, 0x69, 0x67]);
    let init: Vec<u8> = literal(&[0x5f, 0x73, 0x68, 0x69, 0x6d, 0x5f, 0x64, 0x72, 0x69, 0x76, 0x65, 0x72, 0x5f,
        0x69, 0x6e, 0x69, 0x74]);
    let unload: Vec<u8> = literal(&[0x5f, 0x73, 0x68, 0x69, 0x6d, 0x5f, 0x64, 0x72, 0x69, 0x76, 0x65, 0x72, 0x5f,
        0x75, 0x6e, 0x6c, 0x6f, 0x61, 0x64]);
    assert(config@ =~= config_symbol());
    assert(init@ =~= init_symbol());
    assert(unload@ =~= unload_symbol());
    let tab: u64 = dyn_tab.start - module.info.base;
    let strs: u64 = dyn_str.base_address - module.info.base;
    let n: u64 = dyn_tab.size / dyn_tab.entry_size;
    let len: usize = module.mem.len();
    let num_replies: usize = replies.len();
    let mut calls: usize = 0;
    let mut i: u64 = 0;
    while i < n
        invariant
            i <= n,
            num_replies == replies@.len(),
            module.well_formed(),
            module.has_symbols(),
            tab == module.tab_off(),
            strs == module.str_off(),
            n == module.num_syms(),
            len == module.mem@.len(),
            config@ == config_symbol(),
            init@ == init_symbol(),
            unload@ == unload_symbol(),
            module.shims(n as nat, replies@).calls <= replies@.len(),
            calls == module.shims(i as nat, replies@).calls,
            !module.shims(i as nat, replies@).stopped,
            out.driver_init == module.shims(i as nat, replies@).driver_init,
            out.driver_unload == module.shims(i as nat, replies@).driver_unload,
            match module.shims(i as nat, replies@).name {
                Some(k) => out.name is Some && out.name->0@ == replies@[k]->0@,
                None => out.name is None,
            },
        decreases n - i,
    {
        let sym: Sym = read_sym(&module.mem, tab + 24 * i);
        assert(sym == elf::sym_at(module.mem@, module.tab_off() + 24 * i));
        assert(sym == module.symbol(i as int));
        proof {
            lemma_shims_calls(*module, (i + 1) as nat, n as nat, replies@);
        }
        if sym.st_shndx != SHN_UNDEF {
            let name: Vec<u8> = read_cstr(&module.mem, strs + sym.st_name as u64);
            if bytes_eq(&name, &config) {
                assert(module.symbol_is(i as int, config_symbol()));
                match &replies[calls] {
                    Some(s) => {
                        out.name = Some(bytes_copy(s));
                    },
                    None => {
                        proof {
                            lemma_shims_stop(*module, (i + 1) as nat, n as nat, replies@);
                        }
                        return out;
                    },
                }
                calls = calls + 1;
            } else if bytes_eq(&name, &init) {
                out.driver_init = Some(module.info.base + sym.st_value);
            } else if bytes_eq(&name, &unload) {
                out.driver_unload = Some(module.info.base + sym.st_value);
            }
        }
        i = i + 1;
    }
    out
}

/// The directory `dir`, a slash, and `path`.
pub open spec fn join_path(dir: Seq<u8>, path: Seq<u8>) -> Seq<u8> {
    dir.push(0x2f) + path
}

pub open spec fn is_absolute(path: Seq<u8>) -> bool {
    path.len() > 0 && path[0] == 0x2f
}

/// The directories that are always searched: the root, `/sys` and `/sys/drivers`.
pub open spec fn predefined_directories() -> Seq<Seq<u8>> {
    seq![
        Seq::empty(),
        seq![0x2fu8, 0x73, 0x79, 0x73],
        seq![0x2fu8, 0x73, 0x79, 0x73, 0x2f, 0x64, 0x72, 0x69, 0x76, 0x65, 0x72, 0x73],
    ]
}

/// The places to try for a module, in order: an absolute path names its only place; any other is
/// tried in the predefined directories, then in the extra ones, and last relative to the working
/// directory, where it is called `in_cwd`.
pub open spec fn search_order(path: Seq<u8>, extra: Seq<Seq<u8>>, in_cwd: Seq<u8>) -> Seq<Seq<u8>> {
    if is_absolute(path) {
        seq![path]
    } else {
        let dirs = predefined_directories() + extra;
        Seq::new(dirs.len(), |i: int| join_path(dirs[i], path)).push(in_cwd)
    }
}

fn join(dir: &Vec<u8>, path: &Vec<u8>) -> (r: Vec<u8>)
    ensures
        r@ == join_path(dir@, path@),
{
    let mut r: Vec<u8> = bytes_copy(dir);
    r.push(0x2f);
    let ghost head = r@;
    let mut i: usize = 0;
    assert(path@.take(0) == Seq::<u8>::empty());
    while i < path.len()
        invariant
            i <= path@.len(),
            r@ == head + path@.take(i as int),
        decreases path@.len() - i,
    {
        assert(path@.take(i + 1) == path@.take(i as int).push(path@[i as int]));
        r.push(path[i]);
        i = i + 1;
    }
    assert(path@.take(i as int) == path@);
    r
}

/// Lists the places where a module is looked for.
pub fn candidate_paths(path: &Vec<u8>, extra: &Vec<Vec<u8>>, in_cwd: &Vec<u8>) -> (r: Vec<Vec<u8>>)
    ensures
        util::strings(r@) == search_order(path@, util::strings(extra@), in_cwd@),
{
    let mut r: Vec<Vec<u8>> = Vec::new();
    if path.len() > 0 && path[0] == 0x2f {
        r.push(bytes_copy(path));
        assert(util::strings(r@) =~= seq![path@]);
        return r;
    }
    let root: Vec<u8> = Vec::new();
    let sys: Vec<u8> = literal(&[0x2f, 0x73, 0x79, 0x73]);
    let drivers: Vec<u8> =
        literal(&[0x2f, 0x73, 0x79, 0x73, 0x2f, 0x64, 0x72, 0x69, 0x76, 0x65, 0x72, 0x73]);
    let ghost dirs = predefined_directories() + util::strings(extra@);
    assert(root@ =~= dirs[0]);
    assert(sys@ =~= dirs[1]);
    assert(drivers@ =~= dirs[2]);
    r.push(join(&root, path));
    r.push(join(&sys, path));
    r.push(join(&drivers, path));
    let mut i: usize = 0;
    while i < extra.len()
        invariant
            i <= extra@.len(),
            r@.len() == i + 3,
            dirs == predefined_directories() + util::strings(extra@),
            forall|j: int| 0 <= j < i + 3 ==> (#[trigger] r@[j])@ == join_path(dirs[j], path@),
        decreases extra@.len() - i,
    {
        assert(dirs[i + 3] == extra@[i as int]@);
        r.push(join(&extra[i], path));
        i = i + 1;
    }
    r.push(bytes_copy(in_cwd));
    assert(util::strings(r@) =~= search_order(path@, util::strings(extra@), in_cwd@));
    r
}

/// What the search does after one attempt.
#[derive(Clone, Copy)]
pub enum SearchStep {
    /// Try the next place.
    Next,
    /// The search ends with this module or this error.
    Done(Result<u64, KError>),
}

/// Decides how the search goes on after place `k` of `n`. In a search through directories a
/// module that is missing or malformed is looked for in the next place, any other outcome is
/// final, and after the last place every failure means that nothing was found. An absolute path is
/// tried once, and its outcome is final.
pub fn after_attempt(absolute: bool, k: usize, n: usize, outcome: Result<u64, KError>) -> (r: SearchStep)
    requires
        k < n,
    ensures
        absolute ==> r == SearchStep::Done(outcome),
        !absolute && outcome is Ok ==> r == SearchStep::Done(outcome),
        !absolute && k + 1 == n && outcome is Err ==> r == SearchStep::Done(Err(KError::NotFound)),
        !absolute && k + 1 < n && outcome is Err ==> r == (
            if outcome->Err_0 == KError::NotFound || outcome->Err_0 == KError::InvalidArgument {
                SearchStep::Next
            } else {
                SearchStep::Done(outcome)
            }
        ),
{
    if absolute {
        return SearchStep::Done(outcome);
    }
    match outcome {
        Ok(_) => SearchStep::Done(outcome),
        Err(e) => {
            if k + 1 == n {
                SearchStep::Done(Err(KError::NotFound))
            } else if e == KError::NotFound || e == KError::InvalidArgument {
                SearchStep::Next
            } else {
                SearchStep::Done(outcome)
            }
        },
    }
}

/// One module known to the loader.
pub struct RegistryEntry {
    pub id: u64,
    pub canonical_file_path: Vec<u8>,
    /// Whether anybody still holds the module.
    pub alive: bool,
}

/// The modules loaded so far, and the paths whose load is under way.
pub struct LoadRegistry {
    pub modules: Vec<RegistryEntry>,
    pub in_progress: Vec<Vec<u8>>,
}

/// How a load of one place begins.
#[derive(Clone, Copy, PartialEq, Eq, Structural)]
pub enum LoadStart {
    /// The module is loaded already.
    Cached(u64),
    /// The module is being loaded further up: its dependencies lead back to it.
    Circular,
    /// The load has begun.
    Begin,
}

/// The first live module from `i` on with the given canonical path.
pub open spec fn find_loaded(m: Seq<RegistryEntry>, i: int, canonical: Seq<u8>) -> Option<u64>
    decreases m.len() - i,
{
    if i < 0 || i >= m.len() {
        None
    } else if m[i].alive && m[i].canonical_file_path@ == canonical {
        Some(m[i].id)
    } else {
        find_loaded(m, i + 1, canonical)
    }
}

impl LoadRegistry {
    pub fn new() -> (r: LoadRegistry)
        ensures
            r.modules@.len() == 0,
            r.in_progress@.len() == 0,
    {
        LoadRegistry { modules: Vec::new(), in_progress: Vec::new() }
    }

    /// Finds a live module by its canonical path.
    pub fn find_loaded_module(&self, canonical: &Vec<u8>) -> (r: Option<u64>)
        ensures
            r == find_loaded(self.modules@, 0, canonical@),
    {
        let mut i: usize = 0;
        while i < self.modules.len()
            invariant
                i <= self.modules@.len(),
                find_loaded(self.modules@, 0, canonical@) == find_loaded(self.modules@, i as int, canonical@),
            decreases self.modules@.len() - i,
        {
            if self.modules[i].alive && bytes_eq(&self.modules[i].canonical_file_path, canonical) {
                return Some(self.modules[i].id);
            }
            i = i + 1;
        }
        None
    }

    /// Begins the load of `path`, unless the module is loaded already or its load is under way.
    pub fn begin_load(&mut self, path: &Vec<u8>, canonical: &Vec<u8>) -> (r: LoadStart)
        ensures
            final(self).modules@ == old(self).modules@,
            r == (match find_loaded(old(self).modules@, 0, canonical@) {
                Some(id) => LoadStart::Cached(id),
                None => if util::strings(old(self).in_progress@).contains(path@) {
                    LoadStart::Circular
                } else {
                    LoadStart::Begin
                },
            }),
            util::strings(final(self).in_progress@) == (if r == LoadStart::Begin {
                util::strings(old(self).in_progress@).push(path@)
            } else {
                util::strings(old(self).in_progress@)
            }),
    {
        if let Some(id) = self.find_loaded_module(canonical) {
            return LoadStart::Cached(id);
        }
        let mut i: usize = 0;
        while i < self.in_progress.len()
            invariant
                i <= self.in_progress@.len(),
                *self == *old(self),
                find_loaded(self.modules@, 0, canonical@) is None,
                forall|j: int| 0 <= j < i ==> (#[trigger] self.in_progress@[j])@ != path@,
            decreases self.in_progress@.len() - i,
        {
            if bytes_eq(&self.in_progress[i], path) {
                assert(util::strings(self.in_progress@)[i as int] == path@);
                assert(util::strings(self.in_progress@).contains(path@));
                return LoadStart::Circular;
            }
            i = i + 1;
        }
        let ghost before = util::strings(self.in_progress@);
        assert(!before.contains(path@)) by {
            if before.contains(path@) {
                let j = choose|j: int| 0 <= j < before.len() && before[j] == path@;
                assert(self.in_progress@[j]@ == path@);
            }
        }
        self.in_progress.push(bytes_copy(path));
        assert(util::strings(self.in_progress@) =~= before.push(path@));
        LoadStart::Begin
    }

    /// Ends the load that began last, whatever came of it.
    pub fn end_load(&mut self)
        requires
            old(self).in_progress@.len() > 0,
        ensures
            final(self).modules@ == old(self).modules@,
            final(self).in_progress@ == old(self).in_progress@.drop_last(),
    {
        let _ = self.in_progress.pop();
    }

    /// Records a loaded module.
    pub fn add_module(&mut self, id: u64, canonical: Vec<u8>)
        ensures
            final(self).in_progress@ == old(self).in_progress@,
            final(self).modules@ == old(self).modules@.push(
                (RegistryEntry { id, canonical_file_path: canonical, alive: true })),
    {
        self.modules.push(RegistryEntry { id, canonical_file_path: canonical, alive: true });
    }

    /// Forgets the modules that nobody holds any more; the others keep their order.
    pub fn purge(&mut self)
        ensures
            final(self).in_progress@ == old(self).in_progress@,
            final(self).modules@ == old(self).modules@.filter(|e: RegistryEntry| e.alive),
    {
        let ghost m0 = self.modules@;
        let ghost live = |e: RegistryEntry| e.alive;
        let ghost mut j: int = 0;
        let mut i: usize = 0;
        assert(m0.take(0).filter(live) =~= Seq::empty()) by {
            reveal(Seq::filter);
        }
        assert(self.modules@ =~= m0.take(0).filter(live) + m0.skip(0));
        while i < self.modules.len()
            invariant
                0 <= j <= m0.len(),
                live == (|e: RegistryEntry| e.alive),
                i == m0.take(j).filter(live).len(),
                self.modules@ == m0.take(j).filter(live) + m0.skip(j),
                self.in_progress@ == old(self).in_progress@,
            decreases self.modules@.len() - i,
        {
            let ghost head = m0.take(j).filter(live);
            proof {
                util::lemma_filter_step(m0, j, live);
                assert(self.modules@[i as int] == m0[j]);
                assert(m0.skip(j) =~= seq![m0[j]] + m0.skip(j + 1));
            }
            if self.modules[i].alive {
                assert(self.modules@ =~= head.push(m0[j]) + m0.skip(j + 1));
                i = i + 1;
            } else {
                let _ = self.modules.remove(i);
                assert(self.modules@ =~= head + m0.skip(j + 1));
            }
            proof {
                j = j + 1;
            }
        }
        assert(j == m0.len());
        assert(m0.take(j) =~= m0);
        assert(m0.skip(j) =~= Seq::empty());
        assert(self.modules@ =~= m0.filter(live));
    }
}

} // verus!
