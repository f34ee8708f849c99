use vstd::prelude::*;
use crate::util;
use crate::loader::elf;
use crate::loader::pointers::{entry_addend, entry_by_symbol, entry_stores, entry_symbol, entry_target, entry_type};
use crate::loader::user_loader;
use crate::loader::user_loader::{
    ChunkView, DepModule, DepSegment, ParsedImage, ParsedSegment, SymbolFiles, UserReloc,
};

verus! {

/// The segment holds the `len` bytes at `off`.
pub open spec fn holds_range(s: DepSegment, off: int, len: int) -> bool {
    s.offset <= off && off + len <= s.offset + s.size
}

/// The first segment that holds the `len` bytes at `off` is segment `k`, and its contents are known.
pub open spec fn found_in(s: Seq<DepSegment>, off: int, len: int, k: int) -> bool {
    &&& 0 <= k < s.len() && holds_range(s[k], off, len) && s[k].data is Some
    &&& forall|j: int| 0 <= j < k ==> !holds_range(#[trigger] s[j], off, len)
}

/// Symbol `i` of a module whose symbol table is in segment `ts` and whose strings are in segment `ss`
/// is defined and called `name`.
pub open spec fn exported_at(d: DepModule, ts: int, ss: int, name: Seq<u8>, i: int) -> bool {
    let tab = d.segments@[ts].data->0@;
    let e = d.dyn_tab_off->0 - d.segments@[ts].offset + 24 * i;
    &&& 0 <= i < d.num_syms
    &&& elf::le16(tab, e + 6) != 0
    &&& util::cstr_at(
        d.segments@[ss].data->0@, d.dyn_str_off->0 - d.segments@[ss].offset + elf::le32(tab, e)) == name
}

/// The symbols of the module can be read: its table is in segment `ts` and its strings are in `ss`.
pub open spec fn tables_at(d: DepModule, ts: int, ss: int) -> bool {
    &&& d.dyn_tab_off is Some && d.dyn_str_off is Some && d.num_syms != 0
    &&& found_in(d.segments@, d.dyn_tab_off->0 as int, 24 * d.num_syms, ts)
    &&& found_in(d.segments@, d.dyn_str_off->0 as int, d.dyn_str_size as int, ss)
}

/// The module exports `name` at address `a`.
pub open spec fn exports(d: DepModule, name: Seq<u8>, a: int) -> bool {
    exists|ts: int, ss: int, i: int| #[trigger] tables_at(d, ts, ss) && #[trigger] exported_at(d, ts, ss, name, i)
        && (forall|j: int| 0 <= j < i ==> !#[trigger] exported_at(d, ts, ss, name, j))
        && a == d.base + elf::le64(
            d.segments@[ts].data->0@, d.dyn_tab_off->0 - d.segments@[ts].offset + 24 * i + 8)
}

/// The module exports the name at no address.
pub open spec fn lacks(d: DepModule, name: Seq<u8>) -> bool {
    forall|ts: int, ss: int, i: int| #[trigger] tables_at(d, ts, ss) ==> !#[trigger] exported_at(d, ts, ss, name, i)
}

/// The first of the dependencies that exports `name` does so at address `a`.
pub open spec fn imported(deps: Seq<DepModule>, name: Seq<u8>, a: int) -> bool {
    exists|k: int| 0 <= k < deps.len() && #[trigger] exports(deps[k], name, a)
        && (forall|j: int| 0 <= j < k ==> lacks(#[trigger] deps[j], name))
}

/// No dependency exports `name`.
pub open spec fn unknown(deps: Seq<DepModule>, name: Seq<u8>) -> bool {
    forall|k: int| 0 <= k < deps.len() ==> lacks(#[trigger] deps[k], name)
}

pub open spec fn all_well_formed(deps: Seq<DepModule>) -> bool {
    forall|k: int| 0 <= k < deps.len() ==> (#[trigger] deps[k]).well_formed()
}

proof fn lemma_range_segment(s: Seq<DepSegment>, i: int, off: int, len: int)
    requires
        0 <= i,
    ensures
        match user_loader::range_segment(s, i, off, len) {
            Some(k) => i <= k < s.len() && holds_range(s[k], off, len)
                && forall|j: int| i <= j < k ==> !holds_range(#[trigger] s[j], off, len),
            None => forall|j: int| i <= j < s.len() ==> !holds_range(#[trigger] s[j], off, len),
        },
    decreases s.len() - i,
{
    if i < s.len() {
        lemma_range_segment(s, i + 1, off, len);
    }
}

proof fn lemma_tables(d: DepModule)
    ensures
        d.readable() ==> tables_at(d, d.tab_segment()->0, d.str_segment()->0),
        forall|ts: int, ss: int| #[trigger] tables_at(d, ts, ss)
            ==> d.readable() && d.tab_segment() == Some(ts) && d.str_segment() == Some(ss),
{
    lemma_range_segment(d.segments@, 0, d.dyn_tab_off->0 as int, 24 * d.num_syms);
    lemma_range_segment(d.segments@, 0, d.dyn_str_off->0 as int, d.dyn_str_size as int);
    assert forall|ts: int, ss: int| #[trigger] tables_at(d, ts, ss) implies d.readable()
        && d.tab_segment() == Some(ts) && d.str_segment() == Some(ss) by {
        assert(holds_range(d.segments@[ts], d.dyn_tab_off->0 as int, 24 * d.num_syms));
        assert(holds_range(d.segments@[ss], d.dyn_str_off->0 as int, d.dyn_str_size as int));
        let a = d.tab_segment()->0;
        let b = d.str_segment()->0;
        assert(holds_range(d.segments@[a], d.dyn_tab_off->0 as int, 24 * d.num_syms));
        assert(holds_range(d.segments@[b], d.dyn_str_off->0 as int, d.dyn_str_size as int));
    }
}

proof fn lemma_find(d: DepModule, i: int, name: Seq<u8>)
    requires
        0 <= i,
        d.readable(),
    ensures
        ({
            let (ts, ss) = (d.tab_segment()->0, d.str_segment()->0);
            match d.find(i, name) {
                Some(k) => i <= k && exported_at(d, ts, ss, name, k)
                    && forall|j: int| i <= j < k ==> !#[trigger] exported_at(d, ts, ss, name, j),
                None => forall|j: int| i <= j ==> !#[trigger] exported_at(d, ts, ss, name, j),
            }
        }),
    decreases d.num_syms - i,
{
    if i < d.num_syms {
        lemma_find(d, i + 1, name);
        let s = d.symbol(i);
    }
}

/// What a look-up in a loaded user module answers: the address under which the module exports the name,
/// and nothing where it does not.
pub proof fn law_user_export(d: DepModule, name: Seq<u8>)
    requires
        d.well_formed(),
    ensures
        match d.export(name) {
            Some(a) => exports(d, name, a as int),
            None => lacks(d, name),
        },
{
    lemma_tables(d);
    if d.readable() {
        lemma_find(d, 0, name);
        let (ts, ss) = (d.tab_segment()->0, d.str_segment()->0);
        match d.find(0, name) {
            Some(i) => {
                assert(d.base + d.symbol(i).st_value <= u64::MAX);
                assert(tables_at(d, ts, ss) && exported_at(d, ts, ss, name, i));
            },
            None => {
                assert forall|a: int, b: int, j: int| #[trigger] tables_at(d, a, b)
                    implies !#[trigger] exported_at(d, a, b, name, j) by {
                    assert(a == ts && b == ss);
                }
            },
        }
    }
}

proof fn lemma_import(deps: Seq<DepModule>, k: int, name: Seq<u8>)
    requires
        0 <= k <= deps.len(),
        all_well_formed(deps),
        forall|j: int| 0 <= j < k ==> lacks(#[trigger] deps[j], name),
    ensures
        match user_loader::user_import(deps, k, name) {
            Some(a) => imported(deps, name, a as int),
            None => unknown(deps, name),
        },
    decreases deps.len() - k,
{
    if k < deps.len() {
        law_user_export(deps[k], name);
        if deps[k].export(name) is None {
            lemma_import(deps, k + 1, name);
        }
    }
}

/// The segment holds the address.
pub open spec fn has_address(s: ParsedSegment, va: int) -> bool {
    s.vaddr <= va < s.vaddr + s.mem_size
}

/// The first segment that holds the address may be written.
pub open spec fn writable_at(segs: Seq<ParsedSegment>, va: int) -> bool {
    exists|k: int| 0 <= k < segs.len() && has_address(#[trigger] segs[k], va) && segs[k].writable
        && forall|j: int| 0 <= j < k ==> !has_address(#[trigger] segs[j], va)
}

proof fn lemma_segment_at(segs: Seq<ParsedSegment>, i: int, va: u64)
    requires
        0 <= i,
    ensures
        match user_loader::segment_at(segs, i, va) {
            Some(k) => i <= k < segs.len() && has_address(segs[k], va as int)
                && forall|j: int| i <= j < k ==> !has_address(#[trigger] segs[j], va as int),
            None => forall|j: int| i <= j < segs.len() ==> !has_address(#[trigger] segs[j], va as int),
        },
    decreases segs.len() - i,
{
    if i < segs.len() {
        lemma_segment_at(segs, i + 1, va);
    }
}

/// The symbol of the entry at `e` of the file has address `a`: its value from the base on where the
/// image defines it, else the address under which a dependency exports its name.
pub open spec fn symbol_is_at(
    file: Seq<u8>, base: int, tab: int, strs: Option<u64>, e: int, deps: Seq<DepModule>, a: int,
) -> bool {
    let s = entry_symbol(file, tab, e);
    if elf::le16(file, s + 6) != 0 {
        a == base + elf::le64(file, s + 8)
    } else {
        strs matches Some(st) && imported(deps, util::cstr_at(file, st + elf::le32(file, s)), a)
    }
}

/// The word that the entry at `e` of the file asks for: the symbol's address and the addend for types 1
/// and 6, the symbol's address alone for type 7, the base and the addend for type 8; sums modulo 2^64.
pub open spec fn asked_for(
    file: Seq<u8>, base: int, syms: SymbolFiles, e: int, deps: Seq<DepModule>, word: int,
) -> bool {
    let t = entry_type(file, e);
    let tab = syms.symtab_off->0 as int;
    if t == 8 {
        word == (base + entry_addend(file, e)) % 0x1_0000_0000_0000_0000
    } else if t == 7 {
        symbol_is_at(file, base, tab, syms.strtab_off, e, deps, word)
    } else {
        exists|a: int| #[trigger] symbol_is_at(file, base, tab, syms.strtab_off, e, deps, a)
            && word == (a + entry_addend(file, e)) % 0x1_0000_0000_0000_0000
    }
}

/// No address can be given to the symbol of the entry: there is no symbol table, or the image leaves the
/// symbol undefined and no dependency exports its name.
pub open spec fn dangles(file: Seq<u8>, syms: SymbolFiles, e: int, deps: Seq<DepModule>) -> bool {
    let s = entry_symbol(file, syms.symtab_off->0 as int, e);
    entry_by_symbol(file, e) && (syms.symtab_off is None || elf::le16(file, s + 6) == 0
        && (syms.strtab_off is None
            || unknown(deps, util::cstr_at(file, syms.strtab_off->0 + elf::le32(file, s)))))
}

/// The address of a symbol that the image defines is in the address space.
pub open spec fn entry_fits(file: Seq<u8>, base: int, syms: SymbolFiles, e: int) -> bool {
    let s = entry_symbol(file, syms.symtab_off->0 as int, e);
    entry_by_symbol(file, e) && syms.symtab_off is Some && elf::le16(file, s + 6) != 0
        ==> base + elf::le64(file, s + 8) <= u64::MAX
}

/// What one entry comes to. It is refused exactly if its target is not in a writable segment or its
/// symbol has no address; else it stores the word that it asks for, or nothing if its type is none that
/// stores.
pub proof fn law_user_entry(
    segs: Seq<ParsedSegment>, file: Seq<u8>, base: u64, deps: Seq<DepModule>, syms: SymbolFiles, e: int,
)
    requires
        all_well_formed(deps),
        entry_fits(file, base as int, syms, e),
    ensures
        ({
            let o = user_loader::user_reloc(segs, file, base, deps, syms, elf::rela_at(file, e));
            &&& o is Refused <==> !writable_at(segs, entry_target(file, e)) || dangles(file, syms, e, deps)
            &&& o is Skip ==> !entry_stores(file, e)
            &&& o matches UserReloc::Store(w) ==> entry_stores(file, e)
                && asked_for(file, base as int, syms, e, deps, w as int)
        }),
{
    let r = elf::rela_at(file, e);
    let s = entry_symbol(file, syms.symtab_off->0 as int, e);
    let sym = elf::sym_at(file, s);
    assert(r.r_offset == entry_target(file, e) && r.r_addend == entry_addend(file, e));
    assert(elf::rela_type(r) == entry_type(file, e));
    assert(syms.symtab_off->0 + 24 * elf::rela_sym(r) == s);
    assert(sym.st_shndx == elf::le16(file, s + 6));
    let o = user_loader::user_reloc(segs, file, base, deps, syms, r);
    lemma_segment_at(segs, 0, r.r_offset);
    match user_loader::segment_at(segs, 0, r.r_offset) {
        Some(k) => {
            if writable_at(segs, entry_target(file, e)) {
                let w = choose|w: int| 0 <= w < segs.len() && has_address(#[trigger] segs[w], r.r_offset as int)
                    && segs[w].writable && forall|j: int| 0 <= j < w ==> !has_address(#[trigger] segs[j], r.r_offset as int);
                assert(w == k) by {
                    assert(has_address(segs[k], r.r_offset as int));
                }
            } else {
                assert(!segs[k].writable);
            }
        },
        None => {},
    }
    let tab = syms.symtab_off->0 as int;
    if entry_by_symbol(file, e) && syms.symtab_off is Some {
        assert(sym.st_name == elf::le32(file, s));
        if sym.st_shndx == 0 {
            if let Some(st) = syms.strtab_off {
                let name = util::cstr_at(file, st + elf::le32(file, s));
                lemma_import(deps, 0, name);
                if let Some(a) = user_loader::user_import(deps, 0, name) {
                    let k = choose|k: int| 0 <= k < deps.len() && #[trigger] exports(deps[k], name, a as int)
                        && (forall|j: int| 0 <= j < k ==> lacks(#[trigger] deps[j], name));
                    assert(!lacks(deps[k], name));
                    assert(symbol_is_at(file, base as int, tab, syms.strtab_off, e, deps, a as int));
                }
            }
        } else {
            let a = (base + sym.st_value) as u64;
            assert(symbol_is_at(file, base as int, tab, syms.strtab_off, e, deps, a as int));
        }
    }
}

/// The chunk holds all eight bytes at the address.
pub open spec fn holds_word(c: ChunkView, va: int) -> bool {
    c.offset <= va && va + 8 <= c.offset + c.data.len()
}

/// The first chunk that holds the eight bytes at the address is chunk `i`.
pub open spec fn word_in(c: Seq<ChunkView>, va: int, i: int) -> bool {
    &&& 0 <= i < c.len() && holds_word(c[i], va)
    &&& forall|j: int| 0 <= j < i ==> !holds_word(#[trigger] c[j], va)
}

/// The chunks have the same places and sizes.
pub open spec fn same_places(c: Seq<ChunkView>, d: Seq<ChunkView>) -> bool {
    &&& c.len() == d.len()
    &&& forall|i: int| 0 <= i < c.len() ==> {
        (#[trigger] c[i]).offset == d[i].offset && c[i].writable == d[i].writable && c[i].data.len() == d[i].data.len()
    }
}

/// Two words that are eight bytes apart or more.
pub open spec fn apart(a: int, b: int) -> bool {
    a + 8 <= b || b + 8 <= a
}

proof fn lemma_target_chunk(c: Seq<ChunkView>, i: int, va: u64)
    requires
        0 <= i,
    ensures
        match user_loader::target_chunk(c, i, va) {
            Some(k) => i <= k < c.len() && holds_word(c[k], va as int)
                && forall|j: int| i <= j < k ==> !holds_word(#[trigger] c[j], va as int),
            None => forall|j: int| i <= j < c.len() ==> !holds_word(#[trigger] c[j], va as int),
        },
    decreases c.len() - i,
{
    if i < c.len() {
        lemma_target_chunk(c, i + 1, va);
    }
}

proof fn lemma_word_same(c: Seq<ChunkView>, d: Seq<ChunkView>, va: int, i: int)
    requires
        same_places(c, d),
        word_in(c, va, i),
    ensures
        word_in(d, va, i),
{
    assert forall|j: int| 0 <= j < i implies !holds_word(#[trigger] d[j], va) by {
        assert(!holds_word(c[j], va));
    }
}

/// What one accepted entry does to the chunks.
proof fn lemma_store(c: Seq<ChunkView>, va: u64, o: UserReloc)
    ensures
        ({
            let r = user_loader::store_reloc(c, va, o);
            &&& same_places(c, r.0)
            &&& r.1 == !(o is Refused || o is Store && !exists|i: int| #[trigger] word_in(c, va as int, i))
            &&& forall|i: int| r.1 && #[trigger] word_in(c, va as int, i) ==> (o matches UserReloc::Store(w)
                ==> elf::le64(r.0[i].data, va - c[i].offset) == w)
            &&& o is Store || r.0 == c
            &&& forall|i: int, at: int|
                0 <= i < c.len() && holds_word(c[i], at) && apart(at, va as int) ==> #[trigger] elf::le64(
                    r.0[i].data, at - c[i].offset) == elf::le64(c[i].data, at - c[i].offset)
        }),
{
    let r = user_loader::store_reloc(c, va, o);
    lemma_target_chunk(c, 0, va);
    if let UserReloc::Store(w) = o {
        match user_loader::target_chunk(c, 0, va) {
            Some(k) => {
                assert(word_in(c, va as int, k));
                elf::law_put64_read_back(c[k].data, va - c[k].offset, w);
                assert forall|i: int| #[trigger] word_in(c, va as int, i) implies i == k by {
                    assert(holds_word(c[i], va as int) && holds_word(c[k], va as int));
                }
                assert forall|i: int, at: int|
                    0 <= i < c.len() && holds_word(c[i], at) && apart(at, va as int) implies #[trigger] elf::le64(
                    r.0[i].data, at - c[i].offset) == elf::le64(c[i].data, at - c[i].offset) by {
                    if i == k {
                        let a = at - c[i].offset;
                        assert(forall|b: int| a <= b < a + 8 ==> #[trigger] r.0[i].data[b] == c[i].data[b]);
                    }
                }
            },
            None => {
                assert forall|i: int| !#[trigger] word_in(c, va as int, i) by {
                    if word_in(c, va as int, i) {
                        assert(holds_word(c[i], va as int));
                    }
                }
            },
        }
    }
}

proof fn lemma_run_places(
    c: Seq<ChunkView>, segs: Seq<ParsedSegment>, file: Seq<u8>, base: u64, deps: Seq<DepModule>,
    syms: SymbolFiles, off: int, n: nat,
)
    ensures
        same_places(c, user_loader::user_reloc_run(c, segs, file, base, deps, syms, off, n).0),
    decreases n,
{
    if n > 0 {
        lemma_run_places(c, segs, file, base, deps, syms, off, (n - 1) as nat);
        let before = user_loader::user_reloc_run(c, segs, file, base, deps, syms, off, (n - 1) as nat);
        let r = elf::rela_at(file, off + 24 * (n - 1));
        lemma_store(before.0, r.r_offset, user_loader::user_reloc(segs, file, base, deps, syms, r));
    }
}

/// None of the entries from `k` to `n` of the table at `off` stores anything in the eight bytes at `at`.
pub open spec fn kept_from(file: Seq<u8>, off: int, k: int, n: int, at: int) -> bool {
    forall|j: int| k <= j < n && #[trigger] entry_stores(file, off + 24 * j)
        ==> apart(at, entry_target(file, off + 24 * j))
}

pub open spec fn entries_fit(file: Seq<u8>, base: u64, syms: SymbolFiles, off: int, n: int) -> bool {
    forall|j: int| 0 <= j < n ==> #[trigger] entry_fits(file, base as int, syms, off + 24 * j)
}

proof fn lemma_run_keeps(
    c: Seq<ChunkView>, segs: Seq<ParsedSegment>, file: Seq<u8>, base: u64, deps: Seq<DepModule>,
    syms: SymbolFiles, off: int, k: nat, n: nat, i: int, at: int,
)
    requires
        all_well_formed(deps),
        k <= n,
        entries_fit(file, base, syms, off, n as int),
        kept_from(file, off, k as int, n as int, at),
        0 <= i < c.len(),
        holds_word(c[i], at),
    ensures
        elf::le64(
            user_loader::user_reloc_run(c, segs, file, base, deps, syms, off, n).0[i].data, at - c[i].offset)
            == elf::le64(
            user_loader::user_reloc_run(c, segs, file, base, deps, syms, off, k).0[i].data, at - c[i].offset),
    decreases n,
{
    if k < n {
        lemma_run_keeps(c, segs, file, base, deps, syms, off, k, (n - 1) as nat, i, at);
        lemma_run_places(c, segs, file, base, deps, syms, off, (n - 1) as nat);
        let before = user_loader::user_reloc_run(c, segs, file, base, deps, syms, off, (n - 1) as nat);
        let e = off + 24 * (n - 1);
        let r = elf::rela_at(file, e);
        let o = user_loader::user_reloc(segs, file, base, deps, syms, r);
        assert(entry_fits(file, base as int, syms, off + 24 * (n - 1)));
        law_user_entry(segs, file, base, deps, syms, e);
        lemma_store(before.0, r.r_offset, o);
        assert(r.r_offset == entry_target(file, e));
        assert(c[i].offset == before.0[i].offset);
        if o is Store {
            assert(entry_stores(file, off + 24 * (n - 1)));
        }
    }
}

proof fn lemma_run_prefix(
    c: Seq<ChunkView>, segs: Seq<ParsedSegment>, file: Seq<u8>, base: u64, deps: Seq<DepModule>,
    syms: SymbolFiles, off: int, k: nat, n: nat,
)
    requires
        k <= n,
        user_loader::user_reloc_run(c, segs, file, base, deps, syms, off, n).1,
    ensures
        user_loader::user_reloc_run(c, segs, file, base, deps, syms, off, k).1,
    decreases n,
{
    if k < n {
        lemma_run_prefix(c, segs, file, base, deps, syms, off, k, (n - 1) as nat);
    }
}

/// After a table has been accepted, each of its entries that stores something finds the word that it
/// asks for at its target, unless a later entry writes there.
pub proof fn law_user_table_words(
    c: Seq<ChunkView>, segs: Seq<ParsedSegment>, file: Seq<u8>, base: u64, deps: Seq<DepModule>,
    syms: SymbolFiles, off: int, n: nat, k: int, i: int,
)
    requires
        all_well_formed(deps),
        user_loader::user_reloc_run(c, segs, file, base, deps, syms, off, n).1,
        entries_fit(file, base, syms, off, n as int),
        0 <= k < n,
        entry_stores(file, off + 24 * k),
        kept_from(file, off, k + 1, n as int, entry_target(file, off + 24 * k)),
        word_in(c, entry_target(file, off + 24 * k), i),
    ensures
        asked_for(
            file, base as int, syms, off + 24 * k, deps,
            elf::le64(
                user_loader::user_reloc_run(c, segs, file, base, deps, syms, off, n).0[i].data,
                entry_target(file, off + 24 * k) - c[i].offset)),
{
    let e = off + 24 * k;
    let at = entry_target(file, e);
    lemma_run_prefix(c, segs, file, base, deps, syms, off, (k + 1) as nat, n);
    lemma_run_prefix(c, segs, file, base, deps, syms, off, k as nat, n);
    lemma_run_places(c, segs, file, base, deps, syms, off, k as nat);
    let before = user_loader::user_reloc_run(c, segs, file, base, deps, syms, off, k as nat);
    let r = elf::rela_at(file, e);
    assert(entry_fits(file, base as int, syms, off + 24 * k));
    law_user_entry(segs, file, base, deps, syms, e);
    lemma_store(before.0, r.r_offset, user_loader::user_reloc(segs, file, base, deps, syms, r));
    assert(r.r_offset == at);
    lemma_word_same(c, before.0, at, i);
    assert(word_in(before.0, at, i));
    assert(c[i].offset == before.0[i].offset);
    lemma_run_keeps(c, segs, file, base, deps, syms, off, (k + 1) as nat, n, i, at);
}

/// An entry is refused: its target is not in a writable segment, its symbol has no address, or no chunk
/// holds the word that it stores.
pub open spec fn refused(
    c: Seq<ChunkView>, segs: Seq<ParsedSegment>, file: Seq<u8>, deps: Seq<DepModule>, syms: SymbolFiles, e: int,
) -> bool {
    ||| !writable_at(segs, entry_target(file, e))
    ||| dangles(file, syms, e, deps)
    ||| entry_stores(file, e) && !exists|i: int| #[trigger] word_in(c, entry_target(file, e), i)
}

/// A table is refused exactly if one of its entries is.
pub proof fn law_user_table_refused(
    c: Seq<ChunkView>, segs: Seq<ParsedSegment>, file: Seq<u8>, base: u64, deps: Seq<DepModule>,
    syms: SymbolFiles, off: int, n: nat,
)
    requires
        all_well_formed(deps),
        entries_fit(file, base, syms, off, n as int),
    ensures
        !user_loader::user_reloc_run(c, segs, file, base, deps, syms, off, n).1 <==> exists|k: int|
            0 <= k < n && #[trigger] refused(c, segs, file, deps, syms, off + 24 * k),
    decreases n,
{
    if n > 0 {
        law_user_table_refused(c, segs, file, base, deps, syms, off, (n - 1) as nat);
        lemma_run_places(c, segs, file, base, deps, syms, off, (n - 1) as nat);
        let before = user_loader::user_reloc_run(c, segs, file, base, deps, syms, off, (n - 1) as nat);
        let e = off + 24 * (n - 1);
        let r = elf::rela_at(file, e);
        let at = entry_target(file, e);
        assert(entry_fits(file, base as int, syms, off + 24 * (n - 1)));
        law_user_entry(segs, file, base, deps, syms, e);
        lemma_store(before.0, r.r_offset, user_loader::user_reloc(segs, file, base, deps, syms, r));
        assert(r.r_offset == at);
        assert((exists|i: int| #[trigger] word_in(before.0, at, i)) == (exists|i: int| #[trigger] word_in(c, at, i))) by {
            if exists|i: int| #[trigger] word_in(before.0, at, i) {
                let i = choose|i: int| #[trigger] word_in(before.0, at, i);
                lemma_word_same(before.0, c, at, i);
            }
            if exists|i: int| #[trigger] word_in(c, at, i) {
                let i = choose|i: int| #[trigger] word_in(c, at, i);
                lemma_word_same(c, before.0, at, i);
            }
        }
        if !before.1 {
            let k = choose|k: int| 0 <= k < n - 1 && #[trigger] refused(c, segs, file, deps, syms, off + 24 * k);
            assert(refused(c, segs, file, deps, syms, off + 24 * k));
        } else if refused(c, segs, file, deps, syms, e) {
            assert(refused(c, segs, file, deps, syms, off + 24 * (n - 1)));
        }
    }
}

/// The segment's part of the file holds the address.
pub open spec fn backs(s: ParsedSegment, va: int) -> bool {
    s.vaddr <= va < s.vaddr + s.file_size
}

/// The address is backed by the file at offset `off`: in the first segment that has it, as far behind
/// the segment's part of the file as the address is behind the segment's start.
pub open spec fn in_file(segs: Seq<ParsedSegment>, va: int, off: int) -> bool {
    exists|k: int| 0 <= k < segs.len() && backs(#[trigger] segs[k], va) && off == segs[k].file_off + va - segs[k].vaddr
        && forall|j: int| 0 <= j < k ==> !backs(#[trigger] segs[j], va)
}

pub open spec fn not_in_file(segs: Seq<ParsedSegment>, va: int) -> bool {
    forall|k: int| 0 <= k < segs.len() ==> !backs(#[trigger] segs[k], va)
}

proof fn lemma_file_offset(segs: Seq<ParsedSegment>, i: int, va: u64)
    requires
        0 <= i,
        forall|k: int| 0 <= k < segs.len() ==> user_loader::segment_bounded(#[trigger] segs[k]),
        forall|j: int| 0 <= j < i && j < segs.len() ==> !backs(#[trigger] segs[j], va as int),
    ensures
        match user_loader::file_offset(segs, i, va) {
            Some(o) => in_file(segs, va as int, o as int),
            None => not_in_file(segs, va as int),
        },
    decreases segs.len() - i,
{
    if i < segs.len() {
        if backs(segs[i], va as int) {
            assert(user_loader::segment_bounded(segs[i]));
        } else {
            lemma_file_offset(segs, i + 1, va);
        }
    }
}

/// Where the file has an address of the image.
pub proof fn law_file_place(img: ParsedImage, va: u64)
    requires
        img.bounded(),
    ensures
        match user_loader::file_offset(img.segments@, 0, va) {
            Some(o) => in_file(img.segments@, va as int, o as int),
            None => not_in_file(img.segments@, va as int),
        },
{
    lemma_file_offset(img.segments@, 0, va);
}

/// The symbol and the string table are read where the file has the addresses that its dynamic section
/// gives for them.
pub proof fn law_symbol_places(img: ParsedImage)
    requires
        img.bounded(),
        img.dyn_info is Some,
    ensures
        match img.symbol_files().symtab_off {
            Some(o) => img.dyn_info->0.symtab_va matches Some(v) && in_file(img.segments@, v as int, o as int),
            None => img.dyn_info->0.symtab_va matches Some(v) ==> not_in_file(img.segments@, v as int),
        },
        match img.symbol_files().strtab_off {
            Some(o) => img.dyn_info->0.strtab_va matches Some(v) && in_file(img.segments@, v as int, o as int),
            None => img.dyn_info->0.strtab_va matches Some(v) ==> not_in_file(img.segments@, v as int),
        },
{
    if let Some(v) = img.dyn_info->0.symtab_va {
        lemma_file_offset(img.segments@, 0, v);
    }
    if let Some(v) = img.dyn_info->0.strtab_va {
        lemma_file_offset(img.segments@, 0, v);
    }
}

/// A table of `size` bytes at an address of the image has `n` entries at offset `off` of the file.
pub open spec fn table_at(img: ParsedImage, file: Seq<u8>, va: Option<u64>, size: u64, off: int, n: int) -> bool {
    match va {
        Some(v) => in_file(img.segments@, v as int, off) && off + size <= file.len() && n == size as int / 24,
        None => n == 0,
    }
}

proof fn lemma_table_at(
    img: ParsedImage, c: Seq<ChunkView>, file: Seq<u8>, base: u64, deps: Seq<DepModule>, va: Option<u64>, size: u64,
    off: int, n: int,
)
    requires
        img.bounded(),
        table_at(img, file, va, size, off, n),
    ensures
        n >= 0,
        img.table_run(c, file, base, deps, va, size)
            == user_loader::user_reloc_run(
            c, img.segments@, file, base, deps, img.symbol_files(), off, n as nat),
{
    if let Some(v) = va {
        lemma_file_offset(img.segments@, 0, v);
        let segs = img.segments@;
        let k = choose|k: int|
            0 <= k < segs.len() && backs(#[trigger] segs[k], v as int)
                && off == segs[k].file_off + v - segs[k].vaddr
                && forall|j: int| 0 <= j < k ==> !backs(#[trigger] segs[j], v as int);
        assert(!not_in_file(segs, v as int)) by {
            assert(backs(segs[k], v as int));
        }
        let o = user_loader::file_offset(segs, 0, v)->0;
        let m = choose|m: int|
            0 <= m < segs.len() && backs(#[trigger] segs[m], v as int)
                && o == segs[m].file_off + v - segs[m].vaddr
                && forall|j: int| 0 <= j < m ==> !backs(#[trigger] segs[j], v as int);
        assert(m == k) by {
            assert(backs(segs[k], v as int) && backs(segs[m], v as int));
        }
    }
}

/// In an image whose relocations were accepted, each entry of the relocation table that stores something
/// finds the word that it asks for at its target, unless a later entry of this table, or one of the
/// linkage table, writes there.
pub proof fn law_user_words(
    img: ParsedImage, c: Seq<ChunkView>, file: Seq<u8>, base: u64, deps: Seq<DepModule>,
    off: int, n: int, plt_off: int, plt_n: int, k: int, i: int,
)
    requires
        img.bounded(),
        all_well_formed(deps),
        img.dyn_info is Some,
        img.relocated(c, file, base, deps).1,
        table_at(img, file, img.dyn_info->0.rela_va, img.dyn_info->0.relasz, off, n),
        table_at(img, file, img.dyn_info->0.plt_va, img.dyn_info->0.pltsz, plt_off, plt_n),
        entries_fit(file, base, img.symbol_files(), off, n),
        entries_fit(file, base, img.symbol_files(), plt_off, plt_n),
        0 <= k < n,
        entry_stores(file, off + 24 * k),
        kept_from(file, off, k + 1, n, entry_target(file, off + 24 * k)),
        kept_from(file, plt_off, 0, plt_n, entry_target(file, off + 24 * k)),
        word_in(c, entry_target(file, off + 24 * k), i),
    ensures
        asked_for(
            file, base as int, img.symbol_files(), off + 24 * k, deps,
            elf::le64(
                img.relocated(c, file, base, deps).0[i].data, entry_target(file, off + 24 * k) - c[i].offset)),
{
    let d = img.dyn_info->0;
    let syms = img.symbol_files();
    lemma_table_at(img, c, file, base, deps, d.rela_va, d.relasz, off, n);
    let first = user_loader::user_reloc_run(c, img.segments@, file, base, deps, syms, off, n as nat);
    lemma_table_at(img, first.0, file, base, deps, d.plt_va, d.pltsz, plt_off, plt_n);
    law_user_table_words(c, img.segments@, file, base, deps, syms, off, n as nat, k, i);
    lemma_run_places(c, img.segments@, file, base, deps, syms, off, n as nat);
    let at = entry_target(file, off + 24 * k);
    lemma_word_same(c, first.0, at, i);
    assert(first.0[i].offset == c[i].offset);
    lemma_run_keeps(first.0, img.segments@, file, base, deps, syms, plt_off, 0, plt_n as nat, i, at);
}

/// The same for the entries of the linkage table.
pub proof fn law_user_linkage_words(
    img: ParsedImage, c: Seq<ChunkView>, file: Seq<u8>, base: u64, deps: Seq<DepModule>,
    off: int, n: int, plt_off: int, plt_n: int, k: int, i: int,
)
    requires
        img.bounded(),
        all_well_formed(deps),
        img.dyn_info is Some,
        img.relocated(c, file, base, deps).1,
        table_at(img, file, img.dyn_info->0.rela_va, img.dyn_info->0.relasz, off, n),
        table_at(img, file, img.dyn_info->0.plt_va, img.dyn_info->0.pltsz, plt_off, plt_n),
        entries_fit(file, base, img.symbol_files(), plt_off, plt_n),
        0 <= k < plt_n,
        entry_stores(file, plt_off + 24 * k),
        kept_from(file, plt_off, k + 1, plt_n, entry_target(file, plt_off + 24 * k)),
        word_in(c, entry_target(file, plt_off + 24 * k), i),
    ensures
        asked_for(
            file, base as int, img.symbol_files(), plt_off + 24 * k, deps,
            elf::le64(
                img.relocated(c, file, base, deps).0[i].data,
                entry_target(file, plt_off + 24 * k) - c[i].offset)),
{
    let d = img.dyn_info->0;
    let syms = img.symbol_files();
    lemma_table_at(img, c, file, base, deps, d.rela_va, d.relasz, off, n);
    let first = user_loader::user_reloc_run(c, img.segments@, file, base, deps, syms, off, n as nat);
    lemma_table_at(img, first.0, file, base, deps, d.plt_va, d.pltsz, plt_off, plt_n);
    lemma_run_places(c, img.segments@, file, base, deps, syms, off, n as nat);
    let at = entry_target(file, plt_off + 24 * k);
    lemma_word_same(c, first.0, at, i);
    assert(first.0[i].offset == c[i].offset);
    law_user_table_words(first.0, img.segments@, file, base, deps, syms, plt_off, plt_n as nat, k, i);
}

proof fn lemma_one_address(d: DepModule, name: Seq<u8>, a: int, b: int)
    requires
        exports(d, name, a),
        exports(d, name, b),
    ensures
        a == b,
{
    lemma_tables(d);
    let (ts, ss, i) = choose|ts: int, ss: int, i: int| #[trigger] tables_at(d, ts, ss)
        && #[trigger] exported_at(d, ts, ss, name, i)
        && (forall|j: int| 0 <= j < i ==> !#[trigger] exported_at(d, ts, ss, name, j))
        && a == d.base + elf::le64(
            d.segments@[ts].data->0@, d.dyn_tab_off->0 - d.segments@[ts].offset + 24 * i + 8);
    let (tt, st, k) = choose|ts: int, ss: int, i: int| #[trigger] tables_at(d, ts, ss)
        && #[trigger] exported_at(d, ts, ss, name, i)
        && (forall|j: int| 0 <= j < i ==> !#[trigger] exported_at(d, ts, ss, name, j))
        && b == d.base + elf::le64(
            d.segments@[ts].data->0@, d.dyn_tab_off->0 - d.segments@[ts].offset + 24 * i + 8);
    assert(tables_at(d, ts, ss) && tables_at(d, tt, st));
    assert(exported_at(d, ts, ss, name, i) && exported_at(d, tt, st, name, k));
}

proof fn lemma_one_import(deps: Seq<DepModule>, name: Seq<u8>, a: int, b: int)
    requires
        imported(deps, name, a),
        imported(deps, name, b),
    ensures
        a == b,
{
    let k = choose|k: int| 0 <= k < deps.len() && #[trigger] exports(deps[k], name, a)
        && (forall|j: int| 0 <= j < k ==> lacks(#[trigger] deps[j], name));
    let m = choose|k: int| 0 <= k < deps.len() && #[trigger] exports(deps[k], name, b)
        && (forall|j: int| 0 <= j < k ==> lacks(#[trigger] deps[j], name));
    assert(!lacks(deps[k], name) && !lacks(deps[m], name));
    assert(k == m);
    lemma_one_address(deps[k], name, a, b);
}

proof fn lemma_one_symbol(
    file: Seq<u8>, base: int, tab: int, strs: Option<u64>, e: int, f: int, deps: Seq<DepModule>, a: int, b: int,
)
    requires
        entry_symbol(file, tab, e) == entry_symbol(file, tab, f),
        symbol_is_at(file, base, tab, strs, e, deps, a),
        symbol_is_at(file, base, tab, strs, f, deps, b),
    ensures
        a == b,
{
    let s = entry_symbol(file, tab, e);
    if elf::le16(file, s + 6) == 0 {
        lemma_one_import(deps, util::cstr_at(file, strs->0 + elf::le32(file, s)), a, b);
    }
}

proof fn lemma_addend_off(a: int, d: int, v: int)
    requires
        v == (a + d) % 0x1_0000_0000_0000_0000,
    ensures
        (v - d) % 0x1_0000_0000_0000_0000 == a % 0x1_0000_0000_0000_0000,
{
}

/// Two entries of types 1 or 6 against one symbol store words that differ as their addends do.
pub proof fn law_addends_tell_apart(
    segs: Seq<ParsedSegment>, file: Seq<u8>, base: u64, deps: Seq<DepModule>, syms: SymbolFiles, e: int, f: int,
)
    requires
        all_well_formed(deps),
        entry_fits(file, base as int, syms, e),
        entry_fits(file, base as int, syms, f),
        entry_type(file, e) == 1 || entry_type(file, e) == 6,
        entry_type(file, f) == 1 || entry_type(file, f) == 6,
        entry_symbol(file, syms.symtab_off->0 as int, e) == entry_symbol(file, syms.symtab_off->0 as int, f),
    ensures
        ({
            let v = user_loader::user_reloc(segs, file, base, deps, syms, elf::rela_at(file, e));
            let w = user_loader::user_reloc(segs, file, base, deps, syms, elf::rela_at(file, f));
            v is Store && w is Store ==> (v->Store_0 - entry_addend(file, e)) % 0x1_0000_0000_0000_0000
                == (w->Store_0 - entry_addend(file, f)) % 0x1_0000_0000_0000_0000
        }),
{
    law_user_entry(segs, file, base, deps, syms, e);
    law_user_entry(segs, file, base, deps, syms, f);
    let v = user_loader::user_reloc(segs, file, base, deps, syms, elf::rela_at(file, e));
    let w = user_loader::user_reloc(segs, file, base, deps, syms, elf::rela_at(file, f));
    if v is Store && w is Store {
        let tab = syms.symtab_off->0 as int;
        let a = choose|a: int| #[trigger] symbol_is_at(file, base as int, tab, syms.strtab_off, e, deps, a)
            && v->Store_0 == (a + entry_addend(file, e)) % 0x1_0000_0000_0000_0000;
        let b = choose|a: int| #[trigger] symbol_is_at(file, base as int, tab, syms.strtab_off, f, deps, a)
            && w->Store_0 == (a + entry_addend(file, f)) % 0x1_0000_0000_0000_0000;
        lemma_one_symbol(file, base as int, tab, syms.strtab_off, e, f, deps, a, b);
        lemma_addend_off(a, entry_addend(file, e), v->Store_0 as int);
        lemma_addend_off(a, entry_addend(file, f), w->Store_0 as int);
    }
}

} // verus!
