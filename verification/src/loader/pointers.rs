use vstd::prelude::*;
use crate::util;
use crate::loader::elf;
use crate::loader::image::{ArrayTable, ModuleInfo};
use crate::loader::loader;
use crate::loader::loader::LoadedModule;
use crate::loader::module;

verus! {

/// Symbol `i` of a module is defined there and called `name`: its entry of 24 bytes holds the
/// section index six bytes in, and starts with the place of the name among the strings.
pub open spec fn exported_at(m: LoadedModule, name: Seq<u8>, i: int) -> bool {
    let e = m.info.dyn_tab->0.start - m.info.base + 24 * i;
    &&& 0 <= i < m.info.dyn_tab->0.size as int / 24
    &&& elf::le16(m.mem@, e + 6) != 0
    &&& util::cstr_at(m.mem@, m.info.dyn_str->0.base_address - m.info.base + elf::le32(m.mem@, e)) == name
}

/// The module exports `name` at address `a`: the value of its first symbol of that name, counted
/// from the module's base.
pub open spec fn exports(m: LoadedModule, name: Seq<u8>, a: int) -> bool {
    &&& m.info.dyn_tab is Some && m.info.dyn_str is Some
    &&& exists|i: int| #[trigger] exported_at(m, name, i)
        && (forall|j: int| 0 <= j < i ==> !#[trigger] exported_at(m, name, j))
        && a == m.info.base + elf::le64(m.mem@, m.info.dyn_tab->0.start - m.info.base + 24 * i + 8)
}

/// The module exports the name at no address.
pub open spec fn lacks(m: LoadedModule, name: Seq<u8>) -> bool {
    m.info.dyn_tab is Some && m.info.dyn_str is Some ==> forall|i: int| !#[trigger] exported_at(m, name, i)
}

/// The first of the dependencies that exports `name` does so at address `a`.
pub open spec fn imported(deps: Seq<LoadedModule>, name: Seq<u8>, a: int) -> bool {
    exists|k: int| 0 <= k < deps.len() && #[trigger] exports(deps[k], name, a)
        && (forall|j: int| 0 <= j < k ==> lacks(#[trigger] deps[j], name))
}

/// No dependency exports `name`.
pub open spec fn unknown(deps: Seq<LoadedModule>, name: Seq<u8>) -> bool {
    forall|k: int| 0 <= k < deps.len() ==> lacks(#[trigger] deps[k], name)
}

/// Where the relocation entry at `e` stores its word.
pub open spec fn entry_target(m: Seq<u8>, e: int) -> int {
    elf::le64(m, e)
}

/// The type of the relocation entry at `e`.
pub open spec fn entry_type(m: Seq<u8>, e: int) -> int {
    elf::le64(m, e + 8) % 0x1_0000_0000
}

/// The addend of the relocation entry at `e`.
pub open spec fn entry_addend(m: Seq<u8>, e: int) -> int {
    elf::le64(m, e + 16)
}

/// The place of the symbol that the relocation entry at `e` names, for a symbol table at `tab`.
pub open spec fn entry_symbol(m: Seq<u8>, tab: int, e: int) -> int {
    tab + 24 * (elf::le64(m, e + 8) / 0x1_0000_0000)
}

/// Types 1, 6 and 7 store the address of a symbol, type 8 an address in the module itself; no
/// other type stores anything.
pub open spec fn entry_stores(m: Seq<u8>, e: int) -> bool {
    let t = entry_type(m, e);
    t == 1 || t == 6 || t == 7 || t == 8
}

pub open spec fn entry_by_symbol(m: Seq<u8>, e: int) -> bool {
    let t = entry_type(m, e);
    t == 1 || t == 6 || t == 7
}

/// The symbol of the entry at `e` has address `a`: its value from the base on where the module
/// defines it, else the address under which a dependency exports its name.
pub open spec fn symbol_is_at(
    m: Seq<u8>, base: int, tab: int, strs: int, e: int, deps: Seq<LoadedModule>, a: int,
) -> bool {
    let s = entry_symbol(m, tab, e);
    if elf::le16(m, s + 6) != 0 {
        a == base + elf::le64(m, s + 8)
    } else {
        imported(deps, util::cstr_at(m, strs + elf::le32(m, s)), a)
    }
}

/// The word that the entry at `e` asks for: the symbol's address and the addend for types 1 and 6,
/// the symbol's address alone for type 7, the base and the addend for type 8; sums modulo 2^64.
pub open spec fn asked_for(
    m: Seq<u8>, base: int, tab: int, strs: int, e: int, deps: Seq<LoadedModule>, word: int,
) -> bool {
    let t = entry_type(m, e);
    if t == 8 {
        word == (base + entry_addend(m, e)) % 0x1_0000_0000_0000_0000
    } else if t == 7 {
        symbol_is_at(m, base, tab, strs, e, deps, word)
    } else {
        exists|a: int| #[trigger] symbol_is_at(m, base, tab, strs, e, deps, a)
            && word == (a + entry_addend(m, e)) % 0x1_0000_0000_0000_0000
    }
}

/// The entry's word lies in the memory, and the address of a symbol that the module defines in the
/// address space.
pub open spec fn entry_fits(m: Seq<u8>, base: int, tab: int, e: int) -> bool {
    &&& entry_stores(m, e) ==> entry_target(m, e) + 8 <= m.len()
    &&& entry_by_symbol(m, e) && elf::le16(m, entry_symbol(m, tab, e) + 6) != 0
        ==> base + elf::le64(m, entry_symbol(m, tab, e) + 8) <= u64::MAX
}

pub open spec fn all_well_formed(deps: Seq<LoadedModule>) -> bool {
    forall|k: int| 0 <= k < deps.len() ==> (#[trigger] deps[k]).well_formed()
}

proof fn lemma_find(m: LoadedModule, i: int, name: Seq<u8>)
    requires
        0 <= i,
    ensures
        match loader::find_symbol(m.mem@, m.tab_off(), m.str_off(), i, m.num_syms(), name) {
            Some(k) => i <= k && exported_at(m, name, k)
                && forall|j: int| i <= j < k ==> !#[trigger] exported_at(m, name, j),
            None => forall|j: int| i <= j ==> !#[trigger] exported_at(m, name, j),
        },
    decreases m.num_syms() - i,
{
    if i < m.num_syms() {
        lemma_find(m, i + 1, name);
    }
}

/// What a look-up in a module answers: the address under which the module exports the name, and
/// nothing where it does not.
pub proof fn law_symbol_address(m: LoadedModule, name: Seq<u8>)
    requires
        m.well_formed(),
    ensures
        match m.symbol_address(name) {
            Some(a) => exports(m, name, a as int),
            None => lacks(m, name),
        },
{
    if m.has_symbols() {
        lemma_find(m, 0, name);
        match loader::find_symbol(m.mem@, m.tab_off(), m.str_off(), 0, m.num_syms(), name) {
            Some(k) => {
                assert(exported_at(m, name, k));
                let s = elf::sym_at(m.mem@, m.tab_off() + 24 * k);
            },
            None => {
                assert forall|j: int| !#[trigger] exported_at(m, name, j) by {}
            },
        }
    }
}

proof fn lemma_import(deps: Seq<LoadedModule>, k: int, name: Seq<u8>)
    requires
        0 <= k <= deps.len(),
        all_well_formed(deps),
        forall|j: int| 0 <= j < k ==> lacks(#[trigger] deps[j], name),
    ensures
        match loader::import_from(deps, k, name) {
            Some(a) => imported(deps, name, a as int),
            None => unknown(deps, name),
        },
    decreases deps.len() - k,
{
    if k < deps.len() {
        law_symbol_address(deps[k], name);
        if deps[k].symbol_address(name) is None {
            lemma_import(deps, k + 1, name);
        }
    }
}

/// What one entry does: it fails exactly if its symbol is one that the module leaves undefined and
/// no dependency exports; else it stores the word it asks for, and nothing besides.
proof fn lemma_one(m: Seq<u8>, base: u64, tab: int, strs: int, e: int, deps: Seq<LoadedModule>)
    requires
        all_well_formed(deps),
        entry_fits(m, base as int, tab, e),
    ensures
        ({
            let r = loader::reloc_one(m, base as int, tab, strs, elf::rela_at(m, e), deps);
            let s = entry_symbol(m, tab, e);
            let t = entry_target(m, e);
            &&& r.0.len() == m.len()
            &&& r.1 == !(entry_by_symbol(m, e) && elf::le16(m, s + 6) == 0
                && unknown(deps, util::cstr_at(m, strs + elf::le32(m, s))))
            &&& r.1 && entry_stores(m, e) ==> 0 <= elf::le64(r.0, t) <= u64::MAX
                && asked_for(m, base as int, tab, strs, e, deps, elf::le64(r.0, t))
            &&& forall|i: int| 0 <= i < m.len() && !(r.1 && entry_stores(m, e) && t <= i < t + 8)
                ==> #[trigger] r.0[i] == m[i]
        }),
{
    reveal(loader::reloc_one);
    let r = elf::rela_at(m, e);
    let s = entry_symbol(m, tab, e);
    let sym = elf::sym_at(m, s);
    assert(r.r_offset == entry_target(m, e) && r.r_addend == entry_addend(m, e));
    assert(elf::rela_type(r) == entry_type(m, e));
    assert(tab + 24 * elf::rela_sym(r) == s);
    assert(sym.st_shndx == elf::le16(m, s + 6));
    let one = loader::reloc_one(m, base as int, tab, strs, r, deps);
    let name = util::cstr_at(m, strs + elf::le32(m, s));
    if entry_by_symbol(m, e) {
        assert(sym.st_name == elf::le32(m, s));
        if sym.st_shndx == 0 {
            lemma_import(deps, 0, name);
            if let Some(a) = loader::import_from(deps, 0, name) {
                assert(imported(deps, name, a as int));
                let k = choose|k: int| 0 <= k < deps.len() && #[trigger] exports(deps[k], name, a as int)
                    && (forall|j: int| 0 <= j < k ==> lacks(#[trigger] deps[j], name));
                assert(!lacks(deps[k], name));
                assert(symbol_is_at(m, base as int, tab, strs, e, deps, a as int));
                elf::law_put64_read_back(m, r.r_offset as int, loader::symbol_reloc_value(r, a));
            }
        } else {
            let a = (base + sym.st_value) as u64;
            assert(symbol_is_at(m, base as int, tab, strs, e, deps, a as int));
            elf::law_put64_read_back(m, r.r_offset as int, loader::symbol_reloc_value(r, a));
        }
    } else if entry_stores(m, e) {
        elf::law_put64_read_back(m, r.r_offset as int, loader::wrap_sum(base, r.r_addend));
    }
}

/// The memory when the turn of entry `j` of the table at `off` comes.
pub open spec fn turn(
    mem: Seq<u8>, base: u64, tab: int, strs: int, off: int, deps: Seq<LoadedModule>, j: int,
) -> Seq<u8> {
    loader::reloc_run(mem, base as int, tab, strs, off, j as nat, deps).0
}

/// Each of the `n` entries fits when its turn comes.
pub open spec fn entries_fit(
    mem: Seq<u8>, base: u64, tab: int, strs: int, off: int, n: nat, deps: Seq<LoadedModule>,
) -> bool {
    forall|j: int| 0 <= j < n ==> entry_fits(
        #[trigger] turn(mem, base, tab, strs, off, deps, j), base as int, tab, off + 24 * j)
}

/// None of the entries from `k` on writes to the eight bytes at `at`.
pub open spec fn kept_from(
    mem: Seq<u8>, base: u64, tab: int, strs: int, off: int, k: int, n: nat, deps: Seq<LoadedModule>, at: int,
) -> bool {
    forall|j: int| k <= j < n ==> {
        let m = #[trigger] turn(mem, base, tab, strs, off, deps, j);
        entry_stores(m, off + 24 * j) ==> entry_target(m, off + 24 * j) + 8 <= at
            || at + 8 <= entry_target(m, off + 24 * j)
    }
}

proof fn lemma_run_len(
    mem: Seq<u8>, base: u64, tab: int, strs: int, off: int, n: nat, deps: Seq<LoadedModule>,
)
    requires
        all_well_formed(deps),
        entries_fit(mem, base, tab, strs, off, n, deps),
    ensures
        loader::reloc_run(mem, base as int, tab, strs, off, n, deps).0.len() == mem.len(),
    decreases n,
{
    if n > 0 {
        lemma_run_len(mem, base, tab, strs, off, (n - 1) as nat, deps);
        let m = turn(mem, base, tab, strs, off, deps, n - 1);
        lemma_one(m, base, tab, strs, off + 24 * (n - 1), deps);
    }
}

proof fn lemma_run_keeps(
    mem: Seq<u8>, base: u64, tab: int, strs: int, off: int, k: nat, n: nat, deps: Seq<LoadedModule>, at: int,
)
    requires
        all_well_formed(deps),
        k <= n,
        entries_fit(mem, base, tab, strs, off, n, deps),
        kept_from(mem, base, tab, strs, off, k as int, n, deps, at),
        0 <= at,
        at + 8 <= mem.len(),
    ensures
        elf::le64(loader::reloc_run(mem, base as int, tab, strs, off, n, deps).0, at)
            == elf::le64(loader::reloc_run(mem, base as int, tab, strs, off, k, deps).0, at),
    decreases n,
{
    if k < n {
        lemma_run_keeps(mem, base, tab, strs, off, k, (n - 1) as nat, deps, at);
        lemma_run_len(mem, base, tab, strs, off, (n - 1) as nat, deps);
        let m = turn(mem, base, tab, strs, off, deps, n - 1);
        lemma_one(m, base, tab, strs, off + 24 * (n - 1), deps);
        let r = loader::reloc_run(mem, base as int, tab, strs, off, n, deps).0;
        assert(forall|i: int| at <= i < at + 8 ==> #[trigger] r[i] == m[i]);
    }
}

proof fn lemma_run_prefix(
    mem: Seq<u8>, base: u64, tab: int, strs: int, off: int, k: nat, n: nat, deps: Seq<LoadedModule>,
)
    requires
        k <= n,
        loader::reloc_run(mem, base as int, tab, strs, off, n, deps).1,
    ensures
        loader::reloc_run(mem, base as int, tab, strs, off, k, deps).1,
    decreases n,
{
    if k < n {
        lemma_run_prefix(mem, base, tab, strs, off, k, (n - 1) as nat, deps);
    }
}

/// After a table has been accepted, each of its entries that stores something finds the word that
/// it asks for at its target, unless a later entry writes there.
pub proof fn law_table_words(
    mem: Seq<u8>, base: u64, tab: int, strs: int, off: int, n: nat, deps: Seq<LoadedModule>, k: nat,
)
    requires
        all_well_formed(deps),
        k < n,
        loader::reloc_run(mem, base as int, tab, strs, off, n, deps).1,
        entries_fit(mem, base, tab, strs, off, n, deps),
        ({
            let m = turn(mem, base, tab, strs, off, deps, k as int);
            entry_stores(m, off + 24 * k)
                && kept_from(mem, base, tab, strs, off, k as int + 1, n, deps, entry_target(m, off + 24 * k))
        }),
    ensures
        ({
            let m = turn(mem, base, tab, strs, off, deps, k as int);
            let out = loader::reloc_run(mem, base as int, tab, strs, off, n, deps).0;
            asked_for(
                m, base as int, tab, strs, off + 24 * k, deps, elf::le64(out, entry_target(m, off + 24 * k)))
        }),
{
    let m = turn(mem, base, tab, strs, off, deps, k as int);
    lemma_run_prefix(mem, base, tab, strs, off, (k + 1) as nat, n, deps);
    lemma_run_prefix(mem, base, tab, strs, off, k, n, deps);
    lemma_run_len(mem, base, tab, strs, off, k, deps);
    lemma_one(m, base, tab, strs, off + 24 * k, deps);
    lemma_run_keeps(mem, base, tab, strs, off, (k + 1) as nat, n, deps, entry_target(m, off + 24 * k));
}

/// A table is refused exactly if one of its entries, when its turn comes, names a symbol that the
/// module leaves undefined and no dependency exports.
pub proof fn law_table_refused(
    mem: Seq<u8>, base: u64, tab: int, strs: int, off: int, n: nat, deps: Seq<LoadedModule>,
)
    requires
        all_well_formed(deps),
        entries_fit(mem, base, tab, strs, off, n, deps),
    ensures
        !loader::reloc_run(mem, base as int, tab, strs, off, n, deps).1 <==> exists|k: int|
            0 <= k < n && dangles(#[trigger] turn(mem, base, tab, strs, off, deps, k), tab, strs, off + 24 * k, deps),
    decreases n,
{
    if n > 0 {
        law_table_refused(mem, base, tab, strs, off, (n - 1) as nat, deps);
        let m = turn(mem, base, tab, strs, off, deps, n - 1);
        lemma_one(m, base, tab, strs, off + 24 * (n - 1), deps);
        let before = loader::reloc_run(mem, base as int, tab, strs, off, (n - 1) as nat, deps);
        if before.1 && dangles(m, tab, strs, off + 24 * (n - 1), deps) {
            assert(dangles(turn(mem, base, tab, strs, off, deps, n - 1), tab, strs, off + 24 * (n - 1), deps));
        }
        if !before.1 {
            let k = choose|k: int|
                0 <= k < n - 1 && dangles(
                    #[trigger] turn(mem, base, tab, strs, off, deps, k), tab, strs, off + 24 * k, deps);
            assert(dangles(turn(mem, base, tab, strs, off, deps, k), tab, strs, off + 24 * k, deps));
        }
    }
}

/// The entry at `e` names a symbol that the module leaves undefined and no dependency exports.
pub open spec fn dangles(m: Seq<u8>, tab: int, strs: int, e: int, deps: Seq<LoadedModule>) -> bool {
    let s = entry_symbol(m, tab, e);
    entry_by_symbol(m, e) && elf::le16(m, s + 6) == 0
        && unknown(deps, util::cstr_at(m, strs + elf::le32(m, s)))
}

/// The number of entries of a relocation table.
pub open spec fn entry_count(t: Option<ArrayTable>) -> nat {
    match t { Some(x) => (x.size / x.entry_size) as nat, None => 0 }
}

/// The offset of a relocation table in a module's memory.
pub open spec fn table_place(info: ModuleInfo, t: Option<ArrayTable>) -> int {
    match t { Some(x) => x.start - info.base, None => 0 }
}

/// The memory when the turn of entry `j` of table `t` comes, if the table starts on memory `mem`.
pub open spec fn module_turn(
    info: ModuleInfo, mem: Seq<u8>, t: Option<ArrayTable>, deps: Seq<LoadedModule>, j: int,
) -> Seq<u8> {
    turn(
        mem, info.base, info.dyn_tab->0.start - info.base, info.dyn_str->0.base_address - info.base,
        table_place(info, t), deps, j)
}

pub open spec fn module_fits(
    info: ModuleInfo, mem: Seq<u8>, t: Option<ArrayTable>, deps: Seq<LoadedModule>,
) -> bool {
    entries_fit(
        mem, info.base, info.dyn_tab->0.start - info.base, info.dyn_str->0.base_address - info.base,
        table_place(info, t), entry_count(t), deps)
}

pub open spec fn module_keeps(
    info: ModuleInfo, mem: Seq<u8>, t: Option<ArrayTable>, deps: Seq<LoadedModule>, k: int, at: int,
) -> bool {
    kept_from(
        mem, info.base, info.dyn_tab->0.start - info.base, info.dyn_str->0.base_address - info.base,
        table_place(info, t), k, entry_count(t), deps, at)
}

/// `word` is what entry `k` of table `t` asks for, where `m` is the memory when its turn comes.
pub open spec fn module_asks(
    info: ModuleInfo, m: Seq<u8>, t: Option<ArrayTable>, deps: Seq<LoadedModule>, k: int, word: int,
) -> bool {
    asked_for(
        m, info.base as int, info.dyn_tab->0.start - info.base, info.dyn_str->0.base_address - info.base,
        table_place(info, t) + 24 * k, deps, word)
}

/// In a module whose relocations were accepted, each entry of the relocation table that stores
/// something finds the word that it asks for at its target, unless a later entry of this table, or
/// one of the linkage table, writes there.
pub proof fn law_relocated_words(info: ModuleInfo, mem: Seq<u8>, deps: Seq<LoadedModule>, k: int)
    requires
        all_well_formed(deps),
        loader::relocated(info, mem, deps).1,
        0 <= k < entry_count(info.rlc_shn),
        module_fits(info, mem, info.rlc_shn, deps),
        ({
            let m = module_turn(info, mem, info.rlc_shn, deps, k);
            let e = table_place(info, info.rlc_shn) + 24 * k;
            let mid = module_turn(info, mem, info.rlc_shn, deps, entry_count(info.rlc_shn) as int);
            &&& entry_stores(m, e)
            &&& module_keeps(info, mem, info.rlc_shn, deps, k + 1, entry_target(m, e))
            &&& module_fits(info, mid, info.plt_shn, deps)
            &&& module_keeps(info, mid, info.plt_shn, deps, 0, entry_target(m, e))
        }),
    ensures
        ({
            let m = module_turn(info, mem, info.rlc_shn, deps, k);
            let e = table_place(info, info.rlc_shn) + 24 * k;
            module_asks(
                info, m, info.rlc_shn, deps, k,
                elf::le64(loader::relocated(info, mem, deps).0, entry_target(m, e)))
        }),
{
    let tab = info.dyn_tab->0.start - info.base;
    let strs = info.dyn_str->0.base_address - info.base;
    let off = table_place(info, info.rlc_shn);
    let n = entry_count(info.rlc_shn);
    let m = module_turn(info, mem, info.rlc_shn, deps, k);
    let mid = module_turn(info, mem, info.rlc_shn, deps, n as int);
    let at = entry_target(m, off + 24 * k);
    law_table_words(mem, info.base, tab, strs, off, n, deps, k as nat);
    lemma_run_len(mem, info.base, tab, strs, off, k as nat, deps);
    lemma_run_len(mem, info.base, tab, strs, off, n, deps);
    lemma_run_keeps(
        mid, info.base, tab, strs, table_place(info, info.plt_shn), 0, entry_count(info.plt_shn), deps, at);
}

/// The same for the entries of the linkage table.
pub proof fn law_linkage_words(info: ModuleInfo, mem: Seq<u8>, deps: Seq<LoadedModule>, k: int)
    requires
        all_well_formed(deps),
        loader::relocated(info, mem, deps).1,
        0 <= k < entry_count(info.plt_shn),
        ({
            let mid = module_turn(info, mem, info.rlc_shn, deps, entry_count(info.rlc_shn) as int);
            let m = module_turn(info, mid, info.plt_shn, deps, k);
            let e = table_place(info, info.plt_shn) + 24 * k;
            &&& entry_stores(m, e)
            &&& module_fits(info, mid, info.plt_shn, deps)
            &&& module_keeps(info, mid, info.plt_shn, deps, k + 1, entry_target(m, e))
        }),
    ensures
        ({
            let mid = module_turn(info, mem, info.rlc_shn, deps, entry_count(info.rlc_shn) as int);
            let m = module_turn(info, mid, info.plt_shn, deps, k);
            let e = table_place(info, info.plt_shn) + 24 * k;
            module_asks(
                info, m, info.plt_shn, deps, k,
                elf::le64(loader::relocated(info, mem, deps).0, entry_target(m, e)))
        }),
{
    let tab = info.dyn_tab->0.start - info.base;
    let strs = info.dyn_str->0.base_address - info.base;
    let mid = module_turn(info, mem, info.rlc_shn, deps, entry_count(info.rlc_shn) as int);
    law_table_words(
        mid, info.base, tab, strs, table_place(info, info.plt_shn), entry_count(info.plt_shn), deps, k as nat);
}

/// The relocations of a module are refused exactly if an entry of one of its two tables, when its
/// turn comes, names a symbol that the module leaves undefined and no dependency exports.
pub proof fn law_relocation_refused(info: ModuleInfo, mem: Seq<u8>, deps: Seq<LoadedModule>)
    requires
        all_well_formed(deps),
        module_fits(info, mem, info.rlc_shn, deps),
        module_fits(
            info, module_turn(info, mem, info.rlc_shn, deps, entry_count(info.rlc_shn) as int), info.plt_shn, deps),
    ensures
        ({
            let tab = info.dyn_tab->0.start - info.base;
            let strs = info.dyn_str->0.base_address - info.base;
            let mid = module_turn(info, mem, info.rlc_shn, deps, entry_count(info.rlc_shn) as int);
            !loader::relocated(info, mem, deps).1 <==> {
                ||| exists|k: int| 0 <= k < entry_count(info.rlc_shn) && dangles(
                    #[trigger] module_turn(info, mem, info.rlc_shn, deps, k), tab, strs,
                    table_place(info, info.rlc_shn) + 24 * k, deps)
                ||| exists|k: int| 0 <= k < entry_count(info.plt_shn) && dangles(
                    #[trigger] module_turn(info, mid, info.plt_shn, deps, k), tab, strs,
                    table_place(info, info.plt_shn) + 24 * k, deps)
            }
        }),
{
    let tab = info.dyn_tab->0.start - info.base;
    let strs = info.dyn_str->0.base_address - info.base;
    let (ro, rn) = (table_place(info, info.rlc_shn), entry_count(info.rlc_shn));
    let (po, pn) = (table_place(info, info.plt_shn), entry_count(info.plt_shn));
    let mid = module_turn(info, mem, info.rlc_shn, deps, rn as int);
    law_table_refused(mem, info.base, tab, strs, ro, rn, deps);
    law_table_refused(mid, info.base, tab, strs, po, pn, deps);
    let done = loader::relocated(info, mem, deps).1;
    if !loader::reloc_run(mem, info.base as int, tab, strs, ro, rn, deps).1 {
        let k = choose|k: int|
            0 <= k < rn && dangles(
                #[trigger] turn(mem, info.base, tab, strs, ro, deps, k), tab, strs, ro + 24 * k, deps);
        assert(dangles(module_turn(info, mem, info.rlc_shn, deps, k), tab, strs, ro + 24 * k, deps));
    } else if !done {
        let k = choose|k: int|
            0 <= k < pn && dangles(
                #[trigger] turn(mid, info.base, tab, strs, po, deps, k), tab, strs, po + 24 * k, deps);
        assert(dangles(module_turn(info, mid, info.plt_shn, deps, k), tab, strs, po + 24 * k, deps));
    }
}

/// The kernel's memory when the turn of entry `j` comes to be moved.
pub open spec fn moving(mem: Seq<u8>, off: int, offset: u64, j: int) -> Seq<u8> {
    module::handed_off(mem, off, j as nat, offset)
}

/// Every word that is to be moved lies in the memory.
pub open spec fn moves_fit(mem: Seq<u8>, off: int, n: nat, offset: u64) -> bool {
    forall|j: int| 0 <= j < n ==> {
        let m = #[trigger] moving(mem, off, offset, j);
        entry_stores(m, off + 24 * j) ==> entry_target(m, off + 24 * j) + 8 <= m.len()
    }
}

/// None of the entries from `k` on concerns the eight bytes at `at`.
pub open spec fn unmoved_from(mem: Seq<u8>, off: int, k: int, n: nat, offset: u64, at: int) -> bool {
    forall|j: int| k <= j < n ==> {
        let m = #[trigger] moving(mem, off, offset, j);
        entry_stores(m, off + 24 * j) ==> entry_target(m, off + 24 * j) + 8 <= at
            || at + 8 <= entry_target(m, off + 24 * j)
    }
}

proof fn lemma_moved_one(mem: Seq<u8>, off: int, n: nat, offset: u64)
    requires
        n > 0,
        moves_fit(mem, off, n, offset),
    ensures
        ({
            let m = moving(mem, off, offset, n - 1);
            let r = moving(mem, off, offset, n as int);
            let e = off + 24 * (n - 1);
            let t = entry_target(m, e);
            &&& r.len() == m.len()
            &&& entry_stores(m, e) ==> elf::le64(r, t) == (elf::le64(m, t) + offset) % 0x1_0000_0000_0000_0000
            &&& forall|i: int| 0 <= i < m.len() && !(entry_stores(m, e) && t <= i < t + 8) ==> #[trigger] r[i] == m[i]
        }),
{
    let m = moving(mem, off, offset, n - 1);
    let e = off + 24 * (n - 1);
    let r = elf::rela_at(m, e);
    assert(r.r_offset == entry_target(m, e));
    assert(elf::rela_type(r) == entry_type(m, e));
    if entry_stores(m, e) {
        elf::law_put64_read_back(
            m, r.r_offset as int, loader::wrap_sum(offset, elf::le64(m, r.r_offset as int) as u64));
    }
}

proof fn lemma_moved_len(mem: Seq<u8>, off: int, n: nat, offset: u64)
    requires
        moves_fit(mem, off, n, offset),
    ensures
        moving(mem, off, offset, n as int).len() == mem.len(),
    decreases n,
{
    if n > 0 {
        lemma_moved_len(mem, off, (n - 1) as nat, offset);
        lemma_moved_one(mem, off, n, offset);
    }
}

/// A word that no entry concerns is not moved.
pub proof fn law_other_words_stay(mem: Seq<u8>, off: int, k: nat, n: nat, offset: u64, at: int)
    requires
        k <= n,
        moves_fit(mem, off, n, offset),
        unmoved_from(mem, off, k as int, n, offset, at),
        0 <= at,
        at + 8 <= mem.len(),
    ensures
        elf::le64(module::handed_off(mem, off, n, offset), at) == elf::le64(module::handed_off(mem, off, k, offset), at),
    decreases n,
{
    if k < n {
        law_other_words_stay(mem, off, k, (n - 1) as nat, offset, at);
        lemma_moved_len(mem, off, (n - 1) as nat, offset);
        lemma_moved_one(mem, off, n, offset);
        let m = moving(mem, off, offset, n - 1);
        let r = moving(mem, off, offset, n as int);
        assert(forall|i: int| at <= i < at + 8 ==> #[trigger] r[i] == m[i]);
    }
}

/// When the kernel has moved, every pointer that one of its relocation entries names has moved with it,
/// modulo 2^64, unless a later entry names it again.
pub proof fn law_pointers_move(mem: Seq<u8>, off: int, n: nat, offset: u64, k: nat)
    requires
        k < n,
        moves_fit(mem, off, n, offset),
        ({
            let m = moving(mem, off, offset, k as int);
            entry_stores(m, off + 24 * k)
                && unmoved_from(mem, off, k as int + 1, n, offset, entry_target(m, off + 24 * k))
        }),
    ensures
        ({
            let m = moving(mem, off, offset, k as int);
            let t = entry_target(m, off + 24 * k);
            elf::le64(module::handed_off(mem, off, n, offset), t)
                == (elf::le64(m, t) + offset) % 0x1_0000_0000_0000_0000
        }),
{
    let m = moving(mem, off, offset, k as int);
    lemma_moved_len(mem, off, k, offset);
    lemma_moved_one(mem, off, (k + 1) as nat, offset);
    law_other_words_stay(mem, off, (k + 1) as nat, n, offset, entry_target(m, off + 24 * k));
}

/// `_shim_driver_init`
pub open spec fn init_name() -> Seq<u8> {
    seq![
        95u8, 115, 104, 105, 109, 95, 100, 114, 105, 118, 101, 114, 95, 105, 110, 105, 116,
    ]
}

/// `_shim_driver_unload`
pub open spec fn unload_name() -> Seq<u8> {
    seq![
        95u8, 115, 104, 105, 109, 95, 100, 114, 105, 118, 101, 114, 95, 117, 110, 108, 111, 97, 100,
    ]
}

proof fn lemma_shim_names()
    ensures
        init_name() == loader::init_symbol(),
        unload_name() == loader::unload_symbol(),
        loader::config_symbol() != init_name(),
        loader::config_symbol() != unload_name(),
        init_name() != unload_name(),
{
    assert(init_name() =~= loader::init_symbol());
    assert(unload_name() =~= loader::unload_symbol());
    assert(loader::config_symbol()[6] != init_name()[6]);
    assert(loader::config_symbol()[6] != unload_name()[6]);
    assert(init_name().len() != unload_name().len());
}

proof fn lemma_shim_kept(m: LoadedModule, n: nat, replies: Seq<Option<Vec<u8>>>, i: int)
    requires
        m.well_formed(),
        m.has_symbols(),
        n <= m.info.dyn_tab->0.size as int / 24,
        0 <= i < n,
        !m.shims(n, replies).stopped,
    ensures
        exported_at(m, init_name(), i) && (forall|j: int| i < j < n ==> !#[trigger] exported_at(m, init_name(), j))
            ==> m.shims(n, replies).driver_init == Some((m.info.base + m.symbol(i).st_value) as u64),
        exported_at(m, unload_name(), i) && (forall|j: int| i < j < n ==> !#[trigger] exported_at(m, unload_name(), j))
            ==> m.shims(n, replies).driver_unload == Some((m.info.base + m.symbol(i).st_value) as u64),
    decreases n,
{
    lemma_shim_names();
    let k = n - 1;
    assert(m.symbol_is(k, init_name()) == exported_at(m, init_name(), k));
    assert(m.symbol_is(k, unload_name()) == exported_at(m, unload_name(), k));
    if i < k {
        lemma_shim_kept(m, k as nat, replies, i);
    }
}

/// A driver's module is entered, and left, where its last symbols of these names are.
pub proof fn law_driver_entries(m: LoadedModule, n: nat, replies: Seq<Option<Vec<u8>>>, i: int)
    requires
        m.well_formed(),
        m.has_symbols(),
        n <= m.info.dyn_tab->0.size as int / 24,
        0 <= i < n,
        !m.shims(n, replies).stopped,
    ensures
        ({
            let s = m.shims(n, replies);
            let at = m.info.base + elf::le64(m.mem@, m.info.dyn_tab->0.start - m.info.base + 24 * i + 8);
            &&& exported_at(m, init_name(), i) && (forall|j: int| i < j < n ==> !#[trigger] exported_at(m, init_name(), j))
                ==> s.driver_init is Some && s.driver_init->0 == at
            &&& exported_at(m, unload_name(), i)
                && (forall|j: int| i < j < n ==> !#[trigger] exported_at(m, unload_name(), j))
                ==> s.driver_unload is Some && s.driver_unload->0 == at
        }),
{
    lemma_shim_kept(m, n, replies, i);
    let s = elf::sym_at(m.mem@, m.tab_off() + 24 * i);
    assert(m.info.base + s.st_value <= u64::MAX);
}

} // verus!
