use vstd::prelude::*;
use crate::util;
use crate::loader::elf;
use crate::loader::image;
use crate::loader::image::{AuxRegion, ImagePlan};
use crate::loader::loader;
use crate::loader::user_loader;
use crate::loader::user_loader::{DynFileInfo, ParsedImage, ParsedSegment, UserModuleSegment};

verus! {

/// Where program header `i` of an object file begins.
pub open spec fn header_place(b: Seq<u8>, i: int) -> int {
    elf::le64(b, 32) + 56 * i
}

/// The number of program headers of an object file.
pub open spec fn header_count(b: Seq<u8>) -> int {
    elf::le16(b, 56)
}

/// Program header `i` is for something to be loaded into the kernel: its type is 1 or 2.
pub open spec fn asks_for_memory(b: Seq<u8>, i: int) -> bool {
    elf::le32(b, header_place(b, i)) == 1 || elf::le32(b, header_place(b, i)) == 2
}

/// The region takes its bytes from the file, and has its place and size in memory, as header `i` says.
pub open spec fn follows_header(r: AuxRegion, b: Seq<u8>, i: int) -> bool {
    let h = header_place(b, i);
    &&& r.src_addr == elf::le64(b, h + 8)
    &&& r.dest_addr == elf::le64(b, h + 16)
    &&& r.src_size == elf::le64(b, h + 32)
    &&& r.dest_size == elf::le64(b, h + 40)
}

/// The region is the one that one of the first `n` headers describes.
pub open spec fn from_header(r: AuxRegion, b: Seq<u8>, n: int) -> bool {
    exists|i: int| 0 <= i < n && asks_for_memory(b, i) && #[trigger] follows_header(r, b, i)
}

pub open spec fn regions_sorted(s: Seq<AuxRegion>) -> bool {
    forall|i: int, j: int| 0 <= i < j < s.len() ==> (#[trigger] s[i]).dest_addr <= (#[trigger] s[j]).dest_addr
}

proof fn lemma_insert_region(s: Seq<AuxRegion>, r: AuxRegion)
    requires
        regions_sorted(s),
    ensures
        regions_sorted(image::insert_region(s, r)),
        image::insert_region(s, r).len() == s.len() + 1,
        image::insert_region(s, r).contains(r),
        forall|x: AuxRegion| s.contains(x) ==> #[trigger] image::insert_region(s, r).contains(x),
        forall|x: AuxRegion| #[trigger] image::insert_region(s, r).contains(x) ==> s.contains(x) || x == r,
    decreases s.len(),
{
    let t = image::insert_region(s, r);
    if s.len() == 0 || s.last().dest_addr <= r.dest_addr {
        assert(t[s.len() as int] == r);
        assert forall|x: AuxRegion| s.contains(x) implies #[trigger] t.contains(x) by {
            let i = choose|i: int| 0 <= i < s.len() && s[i] == x;
            assert(t[i] == x);
        }
        assert forall|x: AuxRegion| #[trigger] t.contains(x) implies s.contains(x) || x == r by {
            let i = choose|i: int| 0 <= i < t.len() && t[i] == x;
            if i < s.len() {
                assert(s[i] == x);
            }
        }
    } else {
        let q = s.drop_last();
        let u = image::insert_region(q, r);
        lemma_insert_region(q, r);
        assert(t == u.push(s.last()));
        assert forall|x: AuxRegion| u.contains(x) implies x.dest_addr <= s.last().dest_addr by {
            if q.contains(x) {
                let i = choose|i: int| 0 <= i < q.len() && q[i] == x;
                assert(s[i] == x);
                assert(s[s.len() - 1] == s.last());
            }
        }
        assert forall|i: int, j: int| 0 <= i < j < t.len() implies
            (#[trigger] t[i]).dest_addr <= (#[trigger] t[j]).dest_addr by {
            assert(u[i] == t[i]);
            assert(u.contains(u[i]));
        }
        assert forall|x: AuxRegion| s.contains(x) implies #[trigger] t.contains(x) by {
            let i = choose|i: int| 0 <= i < s.len() && s[i] == x;
            if i < q.len() {
                assert(q[i] == x);
                assert(u.contains(x));
                let k = choose|k: int| 0 <= k < u.len() && u[k] == x;
                assert(t[k] == x);
            } else {
                assert(t[u.len() as int] == x);
            }
        }
        assert(u.contains(r));
        let k = choose|k: int| 0 <= k < u.len() && u[k] == r;
        assert(t[k] == r);
        assert forall|x: AuxRegion| #[trigger] t.contains(x) implies s.contains(x) || x == r by {
            let i = choose|i: int| 0 <= i < t.len() && t[i] == x;
            if i < u.len() {
                assert(u.contains(x)) by {
                    assert(u[i] == x);
                }
                if q.contains(x) {
                    let j = choose|j: int| 0 <= j < q.len() && q[j] == x;
                    assert(s[j] == x);
                }
            } else {
                assert(s[s.len() - 1] == x);
            }
        }
    }
}

proof fn lemma_region_follows(b: Seq<u8>, i: int)
    ensures
        follows_header(image::region_of(image::phdr_of(b, i)), b, i),
        image::is_loadable(image::phdr_of(b, i)) == asks_for_memory(b, i),
{
    assert(elf::ehdr_of(b).e_phoff == elf::le64(b, 32));
    let p = image::phdr_of(b, i);
    assert(p.p_type == elf::le32(b, header_place(b, i)));
}

proof fn lemma_regions(b: Seq<u8>, n: nat)
    ensures
        regions_sorted(image::regions_of(b, n)),
        forall|i: int| 0 <= i < n && asks_for_memory(b, i)
            ==> image::regions_of(b, n).contains(#[trigger] image::region_of(image::phdr_of(b, i))),
        forall|k: int| 0 <= k < image::regions_of(b, n).len()
            ==> from_header(#[trigger] image::regions_of(b, n)[k], b, n as int),
    decreases n,
{
    if n > 0 {
        let m = (n - 1) as nat;
        lemma_regions(b, m);
        lemma_region_follows(b, n - 1);
        let rest = image::regions_of(b, m);
        let all = image::regions_of(b, n);
        let r = image::region_of(image::phdr_of(b, n - 1));
        if asks_for_memory(b, n - 1) {
            lemma_insert_region(rest, r);
            assert forall|k: int| 0 <= k < all.len() implies from_header(#[trigger] all[k], b, n as int) by {
                assert(all.contains(all[k]));
                if rest.contains(all[k]) {
                    let j = choose|j: int| 0 <= j < rest.len() && rest[j] == all[k];
                    assert(from_header(rest[j], b, m as int));
                    let i = choose|i: int|
                        0 <= i < m && asks_for_memory(b, i) && #[trigger] follows_header(rest[j], b, i);
                    assert(follows_header(all[k], b, i));
                } else {
                    assert(follows_header(all[k], b, n - 1));
                }
            }
        } else {
            assert forall|k: int| 0 <= k < all.len() implies from_header(#[trigger] all[k], b, n as int) by {
                assert(from_header(rest[k], b, m as int));
                let i = choose|i: int| 0 <= i < m && asks_for_memory(b, i) && #[trigger] follows_header(rest[k], b, i);
                assert(follows_header(all[k], b, i));
            }
        }
    }
}

/// The regions of a kernel object are those that its headers of type 1 and 2 describe, every one of
/// them and no others, ordered by their place in memory.
pub proof fn law_regions_of_headers(b: Seq<u8>, i: int, k: int)
    ensures
        ({
            let s = image::regions_of(b, elf::ehdr_of(b).e_phnum as nat);
            &&& regions_sorted(s)
            &&& 0 <= i < header_count(b) && asks_for_memory(b, i) ==> exists|j: int|
                0 <= j < s.len() && follows_header(#[trigger] s[j], b, i)
            &&& 0 <= k < s.len() ==> from_header(s[k], b, header_count(b))
        }),
{
    let n = elf::ehdr_of(b).e_phnum as nat;
    assert(n == header_count(b));
    lemma_regions(b, n);
    let s = image::regions_of(b, n);
    if 0 <= i < n && asks_for_memory(b, i) {
        lemma_region_follows(b, i);
        let r = image::region_of(image::phdr_of(b, i));
        assert(s.contains(r));
        let j = choose|j: int| 0 <= j < s.len() && s[j] == r;
        assert(follows_header(s[j], b, i));
    }
}

/// The region does not cover the place.
pub open spec fn clear_of(r: AuxRegion, at: int) -> bool {
    !(r.dest_addr <= at < r.dest_addr + r.dest_size)
}

proof fn lemma_placed_byte(mem: Seq<u8>, file: Seq<u8>, regions: Seq<AuxRegion>, n: nat, k: int, at: int)
    requires
        0 <= k < n <= regions.len(),
        regions[k].dest_addr <= at < regions[k].dest_addr + regions[k].dest_size,
        at < mem.len(),
        forall|j: int| 0 <= j < regions.len() ==> (#[trigger] regions[j]).src_size <= regions[j].dest_size
            && regions[j].src_addr + regions[j].src_size <= file.len(),
        forall|j: int| k < j < n ==> clear_of(#[trigger] regions[j], at),
    ensures
        image::place_regions(mem, file, regions, n).len() == mem.len(),
        ({
            let o = at - regions[k].dest_addr;
            image::place_regions(mem, file, regions, n)[at] == if o < regions[k].src_size {
                file[regions[k].src_addr + o]
            } else {
                0
            }
        }),
    decreases n,
{
    lemma_placed_len(mem, file, regions, n);
    lemma_placed_len(mem, file, regions, (n - 1) as nat);
    if n - 1 > k {
        lemma_placed_byte(mem, file, regions, (n - 1) as nat, k, at);
        assert(clear_of(regions[n - 1], at));
    }
}

proof fn lemma_placed_len(mem: Seq<u8>, file: Seq<u8>, regions: Seq<AuxRegion>, n: nat)
    ensures
        image::place_regions(mem, file, regions, n).len() == mem.len(),
    decreases n,
{
    if n > 0 {
        lemma_placed_len(mem, file, regions, (n - 1) as nat);
    }
}

/// A loaded kernel object holds, in every region, the bytes that the file has for it, and behind them
/// zeros up to the region's end; a region that comes later takes precedence where two overlap.
pub proof fn law_region_filled(plan: ImagePlan, mem: Seq<u8>, file: Seq<u8>, k: int, at: int)
    requires
        plan.fits(file.len() as int),
        mem.len() == plan.total(),
        0 <= k < plan.regions@.len(),
        plan.regions@[k].dest_addr <= at < plan.regions@[k].dest_addr + plan.regions@[k].dest_size,
        forall|j: int| k < j < plan.regions@.len() ==> clear_of(#[trigger] plan.regions@[j], at),
    ensures
        ({
            let r = plan.regions@[k];
            let o = at - r.dest_addr;
            plan.placed(mem, file)[at] == if o < r.src_size { file[r.src_addr + o] } else { 0 }
        }),
{
    let r = plan.regions@[k];
    lemma_pad(plan.main_end(), plan.aux_alignment as int);
    lemma_pad(plan.symtab->0.src_size as int, plan.aux_alignment as int);
    lemma_placed_byte(mem, file, plan.regions@, plan.regions@.len(), k, at);
}

proof fn lemma_pad(addr: int, a: int)
    requires
        0 <= addr,
        0 <= a,
    ensures
        0 <= image::pad_to(addr, a),
        a != 0 ==> image::pad_to(addr, a) < a && (addr + image::pad_to(addr, a)) % a == 0,
{
    if a != 0 {
        vstd::arithmetic::div_mod::lemma_fundamental_div_mod(addr, a);
        let q = addr / a;
        let r = addr % a;
        assert(0 <= r < a) by (nonlinear_arith)
            requires
                r == addr % a,
                0 < a,
        ;
        if r != 0 {
            assert(addr + (a - r) == (q + 1) * a + 0) by (nonlinear_arith)
                requires
                    addr == a * q + r,
            ;
            vstd::arithmetic::div_mod::lemma_fundamental_div_mod_converse(addr + (a - r), a, q + 1, 0);
        }
    }
}

/// Behind the last region, at the next place that is aligned as the symbol table asks for, a loaded
/// kernel object holds the file's symbol table, and at the next such place behind that its strings.
pub proof fn law_symbols_kept(plan: ImagePlan, mem: Seq<u8>, file: Seq<u8>)
    requires
        plan.fits(file.len() as int),
        mem.len() == plan.total(),
        plan.symtab is Some,
    ensures
        ({
            let st = plan.symtab->0;
            let ss = plan.symstr->0;
            let end = plan.regions@.last().dest_addr + plan.regions@.last().dest_size;
            let a = plan.symtab_at();
            let s = plan.symstr_at();
            &&& end <= a
            &&& plan.aux_alignment == 0 ==> a == end && s == a + st.src_size
            &&& plan.aux_alignment != 0 ==> a % plan.aux_alignment as int == 0 && a < end + plan.aux_alignment
                && (s - a) % plan.aux_alignment as int == 0 && s < a + st.src_size + plan.aux_alignment
            &&& a + st.src_size <= s
            &&& s + ss.src_size == mem.len()
            &&& forall|i: int| 0 <= i < st.src_size ==> plan.placed(mem, file)[a + i] == #[trigger] file[st.src_addr + i]
            &&& forall|i: int| 0 <= i < ss.src_size ==> plan.placed(mem, file)[s + i] == #[trigger] file[ss.src_addr + i]
        }),
{
    let al = plan.aux_alignment as int;
    lemma_pad(plan.main_end(), al);
    lemma_pad(plan.symtab->0.src_size as int, al);
    lemma_placed_len(mem, file, plan.regions@, plan.regions@.len());
    let s = plan.symstr_at();
    let a = plan.symtab_at();
    assert(s - a == plan.symtab->0.src_size + image::pad_to(plan.symtab->0.src_size as int, al));
}

/// Entry `i` of the dynamic section at `off` counts: no entry up to it ends the section.
pub open spec fn counts(b: Seq<u8>, off: int, n: int, i: int) -> bool {
    0 <= i < n && forall|j: int| 0 <= j <= i ==> #[trigger] elf::le64(b, off + 16 * j) != 0
}

proof fn lemma_live(b: Seq<u8>, off: int, n: nat)
    ensures
        elf::dyn_live(b, off, n) <= n,
        forall|i: int| 0 <= i < elf::dyn_live(b, off, n) ==> #[trigger] elf::le64(b, off + 16 * i) != 0,
        elf::dyn_live(b, off, n) < n ==> elf::le64(b, off + 16 * elf::dyn_live(b, off, n)) == 0,
    decreases n,
{
    if n > 0 {
        lemma_live(b, off, (n - 1) as nat);
    }
}

/// The entries of a dynamic section that are read are those before the first whose tag is zero.
pub proof fn law_dynamic_entries(b: Seq<u8>, off: int, n: nat, i: int)
    ensures
        counts(b, off, n as int, i) <==> 0 <= i < elf::dyn_live(b, off, n),
{
    lemma_live(b, off, n);
    let m = elf::dyn_live(b, off, n) as int;
    if counts(b, off, n as int, i) && i >= m {
        assert(elf::le64(b, off + 16 * m) != 0);
    }
}

/// The last of the first `n` entries with the tag has the value.
pub open spec fn tells(b: Seq<u8>, off: int, n: int, tag: int, v: Option<u64>) -> bool {
    match v {
        Some(x) => exists|i: int| 0 <= i < n && #[trigger] elf::le64(b, off + 16 * i) == tag
            && x == elf::le64(b, off + 16 * i + 8)
            && forall|j: int| i < j < n ==> #[trigger] elf::le64(b, off + 16 * j) != tag,
        None => forall|j: int| 0 <= j < n ==> #[trigger] elf::le64(b, off + 16 * j) != tag,
    }
}

proof fn lemma_tells(b: Seq<u8>, off: int, n: nat, tag: u64)
    ensures
        tells(b, off, n as int, tag as int, elf::dyn_last(b, off, n, tag)),
    decreases n,
{
    if n > 0 {
        lemma_tells(b, off, (n - 1) as nat, tag);
        if elf::dyn_tag(b, off + 16 * (n - 1)) == tag {
            assert(elf::le64(b, off + 16 * (n - 1)) == tag);
        } else if let Some(x) = elf::dyn_last(b, off, (n - 1) as nat, tag) {
            let i = choose|i: int| 0 <= i < n - 1 && #[trigger] elf::le64(b, off + 16 * i) == tag
                && x == elf::le64(b, off + 16 * i + 8)
                && forall|j: int| i < j < n - 1 ==> #[trigger] elf::le64(b, off + 16 * j) != tag;
            assert(elf::le64(b, off + 16 * i) == tag);
        }
    }
}

pub open spec fn value_or_zero(v: Option<u64>) -> int {
    match v { Some(x) => x as int, None => 0 }
}

/// What a dynamic section says of a module at `base`: tag 6 is the place of the symbols, of which there
/// are as many as the second word of the hash table at tag 4 says; tag 5 that of the strings and tag 10
/// their size; tag 7 that of the relocations and tag 8 their size; tag 23 that of the linkage table and
/// tag 2 its size. Places are counted from the base.
pub proof fn law_dynamic_tables(
    mem: Seq<u8>, base: int, off: int, n: nat, hash: Option<u64>, syms: Option<u64>, strs: Option<u64>,
    strsz: Option<u64>, rela: Option<u64>, relasz: Option<u64>, plt: Option<u64>, pltsz: Option<u64>,
)
    requires
        image::dynamic_sound(mem, base, off, n),
        0 <= base,
        tells(mem, off, n as int, 4, hash),
        tells(mem, off, n as int, 6, syms),
        tells(mem, off, n as int, 5, strs),
        tells(mem, off, n as int, 10, strsz),
        tells(mem, off, n as int, 7, rela),
        tells(mem, off, n as int, 8, relasz),
        tells(mem, off, n as int, 23, plt),
        tells(mem, off, n as int, 2, pltsz),
    ensures
        ({
            let d = image::dynamic_info(mem, base, off, n);
            let count = match hash { Some(h) => elf::le32(mem, h + 4), None => 0 };
            &&& d.dyn_tab is Some <==> syms is Some
            &&& syms is Some ==> d.dyn_tab->0.start == base + syms->0 && d.dyn_tab->0.size == 24 * count
                && d.dyn_tab->0.entry_size == 24
            &&& d.dyn_str is Some <==> strs is Some
            &&& strs is Some ==> d.dyn_str->0.base_address == base + strs->0
                && d.dyn_str->0.size == value_or_zero(strsz)
            &&& d.rela is Some <==> rela is Some
            &&& rela is Some ==> d.rela->0.start == base + rela->0 && d.rela->0.size == value_or_zero(relasz)
                && d.rela->0.entry_size == 24
            &&& d.plt is Some <==> plt is Some
            &&& plt is Some ==> d.plt->0.start == base + plt->0 && d.plt->0.size == value_or_zero(pltsz)
                && d.plt->0.entry_size == 24
        }),
{
    lemma_same_value(mem, off, n, 4, hash);
    lemma_same_value(mem, off, n, 6, syms);
    lemma_same_value(mem, off, n, 5, strs);
    lemma_same_value(mem, off, n, 10, strsz);
    lemma_same_value(mem, off, n, 7, rela);
    lemma_same_value(mem, off, n, 8, relasz);
    lemma_same_value(mem, off, n, 23, plt);
    lemma_same_value(mem, off, n, 2, pltsz);
}

proof fn lemma_same_value(b: Seq<u8>, off: int, n: nat, tag: u64, v: Option<u64>)
    requires
        tells(b, off, n as int, tag as int, v),
    ensures
        elf::dyn_last(b, off, n, tag) == v,
{
    lemma_tells(b, off, n, tag);
    let w = elf::dyn_last(b, off, n, tag);
    if let Some(x) = v {
        let i = choose|i: int| 0 <= i < n && #[trigger] elf::le64(b, off + 16 * i) == tag
            && x == elf::le64(b, off + 16 * i + 8)
            && forall|j: int| i < j < n ==> #[trigger] elf::le64(b, off + 16 * j) != tag;
        assert(w is Some);
        let y = w->0;
        let k = choose|k: int| 0 <= k < n && #[trigger] elf::le64(b, off + 16 * k) == tag
            && y == elf::le64(b, off + 16 * k + 8)
            && forall|j: int| k < j < n ==> #[trigger] elf::le64(b, off + 16 * j) != tag;
        assert(elf::le64(b, off + 16 * i) == tag && elf::le64(b, off + 16 * k) == tag);
        assert(i == k);
    } else if let Some(y) = w {
        let k = choose|k: int| 0 <= k < n && #[trigger] elf::le64(b, off + 16 * k) == tag
            && y == elf::le64(b, off + 16 * k + 8);
        assert(elf::le64(b, off + 16 * k) == tag);
    }
}

/// How many of the first `n` entries have the tag.
pub open spec fn tagged(b: Seq<u8>, off: int, n: nat, tag: int) -> nat
    decreases n,
{
    if n == 0 {
        0
    } else {
        tagged(b, off, (n - 1) as nat, tag) + if elf::le64(b, off + 16 * (n - 1)) == tag { 1nat } else { 0 }
    }
}

/// All values of a tag are read, in the order of their entries.
pub proof fn law_all_values(b: Seq<u8>, off: int, n: nat, tag: u64, i: int)
    requires
        0 <= i < n,
        elf::le64(b, off + 16 * i) == tag,
    ensures
        elf::dyn_all(b, off, n, tag).len() == tagged(b, off, n, tag as int),
        tagged(b, off, i as nat, tag as int) < tagged(b, off, n, tag as int),
        elf::dyn_all(b, off, n, tag)[tagged(b, off, i as nat, tag as int) as int] == elf::le64(b, off + 16 * i + 8),
    decreases n,
{
    lemma_all_len(b, off, n, tag);
    lemma_all_len(b, off, (n - 1) as nat, tag);
    if i < n - 1 {
        law_all_values(b, off, (n - 1) as nat, tag, i);
    }
}

proof fn lemma_all_len(b: Seq<u8>, off: int, n: nat, tag: u64)
    ensures
        elf::dyn_all(b, off, n, tag).len() == tagged(b, off, n, tag as int),
    decreases n,
{
    if n > 0 {
        lemma_all_len(b, off, (n - 1) as nat, tag);
    }
}

/// A string ends before the first zero byte, or where the bytes end; a place behind them has none.
pub proof fn law_string_read(s: Seq<u8>, off: int)
    requires
        0 <= off,
    ensures
        off >= s.len() ==> util::cstr_at(s, off).len() == 0,
        off < s.len() ==> {
            let n = util::cstr_at(s, off).len();
            &&& off + n <= s.len()
            &&& util::cstr_at(s, off) == s.subrange(off, off + n)
            &&& off + n == s.len() || s[off + n] == 0
            &&& forall|i: int| off <= i < off + n ==> #[trigger] s[i] != 0
        },
    decreases s.len() - off,
{
    if off < s.len() && s[off] != 0 {
        law_string_read(s, off + 1);
        let n = util::cstr_at(s, off).len() as int;
        assert(util::cstr_at(s, off) =~= s.subrange(off, off + n));
    } else if off < s.len() {
        assert(util::cstr_at(s, off) =~= s.subrange(off, off));
    }
}

/// A piece begins at `a`: there is no separator there, but before it there is, or nothing.
pub open spec fn piece_begins(s: Seq<u8>, sep: u8, a: int) -> bool {
    0 <= a < s.len() && s[a] != sep && (a == 0 || s[a - 1] == sep)
}

/// How many pieces begin before `n`.
pub open spec fn pieces_before(s: Seq<u8>, sep: u8, n: nat) -> nat
    decreases n,
{
    if n == 0 {
        0
    } else {
        pieces_before(s, sep, (n - 1) as nat) + if piece_begins(s, sep, n - 1) { 1nat } else { 0 }
    }
}

/// The piece that begins at `a` ends at `b`.
pub open spec fn piece_ends(s: Seq<u8>, sep: u8, a: int, b: int) -> bool {
    &&& a < b <= s.len() && (b == s.len() || s[b] == sep)
    &&& forall|i: int| a <= i < b ==> #[trigger] s[i] != sep
}

proof fn lemma_pieces_len(s: Seq<u8>, sep: u8, i: int, cur: Seq<u8>)
    requires
        0 <= i <= s.len(),
        cur.len() > 0 <==> i > 0 && s[i - 1] != sep,
    ensures
        util::pieces_from(s, sep, i, cur).len() + pieces_before(s, sep, i as nat)
            == pieces_before(s, sep, s.len()) + (if cur.len() > 0 { 1int } else { 0 }),
    decreases s.len() - i,
{
    if i < s.len() {
        if s[i] == sep {
            lemma_pieces_len(s, sep, i + 1, Seq::empty());
        } else {
            lemma_pieces_len(s, sep, i + 1, cur.push(s[i]));
        }
    }
}

proof fn lemma_piece(s: Seq<u8>, sep: u8, i: int, cur: Seq<u8>, a: int, b: int)
    requires
        0 <= i <= s.len(),
        cur.len() > 0 <==> i > 0 && s[i - 1] != sep,
        cur.len() <= i,
        cur == s.subrange(i - cur.len(), i),
        piece_begins(s, sep, a),
        piece_ends(s, sep, a, b),
        i <= a || (cur.len() > 0 && a == i - cur.len() && i <= b),
        forall|k: int| i - cur.len() <= k < i ==> #[trigger] s[k] != sep,
        i - cur.len() == 0 || cur.len() == 0 || s[i - cur.len() - 1] == sep,
    ensures
        ({
            let r = util::pieces_from(s, sep, i, cur);
            let k = if i <= a {
                pieces_before(s, sep, a as nat) - pieces_before(s, sep, i as nat) + (if cur.len() > 0 { 1int } else { 0 })
            } else {
                0
            };
            0 <= k < r.len() && r[k] == s.subrange(a, b)
        }),
    decreases s.len() - i,
{
    if i < s.len() {
        if s[i] == sep {
            let rest = util::pieces_from(s, sep, i + 1, Seq::empty());
            if i <= a {
                assert(a != i);
                assert(s.subrange(i + 1, i + 1) =~= Seq::empty());
                lemma_piece(s, sep, i + 1, Seq::empty(), a, b);
            } else {
                assert(b == i) by {
                    if b > i {
                        assert(s[i] != sep);
                    }
                }
            }
        } else {
            let next = cur.push(s[i]);
            assert(next =~= s.subrange(i + 1 - next.len(), i + 1));
            assert forall|k: int| i + 1 - next.len() <= k < i + 1 implies #[trigger] s[k] != sep by {}
            if i > a {
                assert(i != b);
            }
            lemma_piece(s, sep, i + 1, next, a, b);
            if cur.len() == 0 {
                assert(piece_begins(s, sep, i));
            } else {
                assert(!piece_begins(s, sep, i));
            }
        }
    } else {
        assert(i > a);
    }
}

/// A list between separators has each of its pieces that is not empty, in their order.
pub proof fn law_list_pieces(s: Seq<u8>, sep: u8, a: int, b: int)
    ensures
        util::split_nonempty_spec(s, sep).len() == pieces_before(s, sep, s.len()),
        piece_begins(s, sep, a) && piece_ends(s, sep, a, b) ==> {
            let k = pieces_before(s, sep, a as nat) as int;
            k < util::split_nonempty_spec(s, sep).len()
                && util::split_nonempty_spec(s, sep)[k] == s.subrange(a, b)
        },
{
    lemma_pieces_len(s, sep, 0, Seq::empty());
    if piece_begins(s, sep, a) && piece_ends(s, sep, a, b) {
        assert(s.subrange(0, 0) =~= Seq::empty());
        lemma_piece(s, sep, 0, Seq::empty(), a, b);
    }
}

/// The extra directories of a module are the list between colons that tag 29 of its dynamic section
/// points to, or tag 15 where there is no tag 29; without either there are none.
pub proof fn law_extra_directories(
    mem: Seq<u8>, off: int, n: nat, strs: int, runpath: Option<u64>, rpath: Option<u64>,
)
    requires
        tells(mem, off, n as int, 29, runpath),
        tells(mem, off, n as int, 15, rpath),
    ensures
        runpath is Some ==> loader::runpath_dirs(mem, off, n, strs)
            == util::split_nonempty_spec(util::cstr_at(mem, strs + runpath->0), 58),
        runpath is None && rpath is Some ==> loader::runpath_dirs(mem, off, n, strs)
            == util::split_nonempty_spec(util::cstr_at(mem, strs + rpath->0), 58),
        runpath is None && rpath is None ==> loader::runpath_dirs(mem, off, n, strs).len() == 0,
{
    lemma_same_value(mem, off, n, 29, runpath);
    lemma_same_value(mem, off, n, 15, rpath);
}

/// Where a file is looked for: under its own name if that begins with `/`, else in `/`, in `/sys` and in
/// `/sys/drivers`, then in the extra directories, and at last in the current directory.
pub proof fn law_where_looked_for(path: Seq<u8>, extra: Seq<Seq<u8>>, in_cwd: Seq<u8>, i: int)
    ensures
        path.len() > 0 && path[0] == 47 ==> loader::search_order(path, extra, in_cwd) == seq![path],
        path.len() == 0 || path[0] != 47 ==> {
            let r = loader::search_order(path, extra, in_cwd);
            &&& r.len() == 4 + extra.len()
            &&& r[0] == seq![47u8] + path
            &&& r[1] == seq![47u8, 115, 121, 115, 47] + path
            &&& r[2] == seq![47u8, 115, 121, 115, 47, 100, 114, 105, 118, 101, 114, 115, 47] + path
            &&& 0 <= i < extra.len() ==> r[3 + i] == extra[i] + seq![47u8] + path
            &&& r.last() == in_cwd
        },
{
    if !(path.len() > 0 && path[0] == 47) {
        let r = loader::search_order(path, extra, in_cwd);
        let dirs = loader::predefined_directories() + extra;
        assert(r[0] == loader::join_path(dirs[0], path));
        assert(r[1] == loader::join_path(dirs[1], path));
        assert(r[2] == loader::join_path(dirs[2], path));
        assert(r[0] =~= seq![47u8] + path);
        assert(r[1] =~= seq![47u8, 115, 121, 115, 47] + path);
        assert(r[2] =~= seq![47u8, 115, 121, 115, 47, 100, 114, 105, 118, 101, 114, 115, 47] + path);
        if 0 <= i < extra.len() {
            assert(dirs[3 + i] == extra[i]);
            assert(r[3 + i] =~= extra[i] + seq![47u8] + path);
        }
    }
}

/// A loaded kernel module is entered at its base and the entry point of its file, ends with its last
/// region, and takes all the memory that it was laid out in; its dynamic section is where its header puts
/// it.
pub proof fn law_module_entry(plan: ImagePlan, b: Seq<u8>, base: u64, mem: Seq<u8>)
    requires
        plan.describes(b),
        plan.fits(b.len() as int),
        base + plan.total() <= u64::MAX,
        base + plan.entry <= u64::MAX,
    ensures
        ({
            let m = image::module_info(plan, base as int, mem);
            let last = plan.regions@.last();
            &&& m.entry == base + elf::le64(b, 24)
            &&& m.base == base
            &&& m.size == last.dest_addr + last.dest_size
            &&& m.total_size == plan.total()
            &&& plan.dynamic matches Some(d) ==> m.dyn_shn is Some && m.dyn_shn->0.start == base + d.dest_addr
                && m.dyn_shn->0.size == d.src_size && m.dyn_shn->0.entry_size == 16
            &&& plan.symtab matches Some(st) ==> m.sym_tab is Some && m.sym_tab->0.start == base + plan.symtab_at()
                && m.sym_tab->0.size == st.src_size && m.sym_tab->0.entry_size == st.entry_size
            &&& plan.symstr matches Some(ss) ==> m.sym_str is Some
                && m.sym_str->0.base_address == base + plan.symstr_at() && m.sym_str->0.size == ss.src_size
        }),
{
    assert(elf::ehdr_of(b).e_entry == elf::le64(b, 24));
    lemma_pad(plan.main_end(), plan.aux_alignment as int);
    lemma_pad(plan.symtab->0.src_size as int, plan.aux_alignment as int);
}

/// The chunk of a segment of a user image covers its pages. It holds the file's bytes for the segment at
/// the segment's place, and zeros before and behind them.
pub proof fn law_chunk_filled(s: ParsedSegment, file: Seq<u8>, at: int)
    requires
        s.chunk_off <= at < s.chunk_off + s.chunk_size,
        s.chunk_off <= s.vaddr,
        s.file_off + s.file_size <= file.len(),
    ensures
        ({
            let c = user_loader::chunk_of(s, file);
            &&& c.offset == s.chunk_off && c.writable == s.writable && c.data.len() == s.chunk_size
            &&& c.data[at - s.chunk_off] == if s.vaddr <= at < s.vaddr + s.file_size {
                file[s.file_off + (at - s.vaddr)]
            } else {
                0
            }
        }),
{
}

/// How many of the first `n` segments may be written.
pub open spec fn writable_count(s: Seq<ParsedSegment>, n: nat) -> nat
    decreases n,
{
    if n == 0 { 0 } else { writable_count(s, (n - 1) as nat) + if s[n - 1].writable { 1nat } else { 0 } }
}

/// The first load of an image fills a chunk for every segment; a later one only those for the segments
/// that may be written; both in the order of the segments.
pub proof fn law_chunks_to_fill(segs: Seq<ParsedSegment>, file: Seq<u8>, n: nat, i: int)
    requires
        0 <= i < n <= segs.len(),
    ensures
        user_loader::staged(segs, file, true, n).len() == n,
        user_loader::staged(segs, file, true, n)[i] == user_loader::chunk_of(segs[i], file),
        user_loader::staged(segs, file, false, n).len() == writable_count(segs, n),
        segs[i].writable ==> writable_count(segs, i as nat) < writable_count(segs, n)
            && user_loader::staged(segs, file, false, n)[writable_count(segs, i as nat) as int]
            == user_loader::chunk_of(segs[i], file),
    decreases n,
{
    lemma_staged_len(segs, file, n);
    lemma_staged_len(segs, file, (n - 1) as nat);
    if i < n - 1 {
        law_chunks_to_fill(segs, file, (n - 1) as nat, i);
    }
}

proof fn lemma_staged_len(segs: Seq<ParsedSegment>, file: Seq<u8>, n: nat)
    requires
        n <= segs.len(),
    ensures
        user_loader::staged(segs, file, true, n).len() == n,
        user_loader::staged(segs, file, false, n).len() == writable_count(segs, n),
    decreases n,
{
    if n > 0 {
        lemma_staged_len(segs, file, (n - 1) as nat);
    }
}

/// The segment has its place in the file and in memory as header `i` says, and takes whole pages: from
/// the one that it begins in to the one that it ends in.
pub open spec fn segment_follows(r: ParsedSegment, b: Seq<u8>, i: int) -> bool {
    let h = header_place(b, i);
    let end = r.chunk_off + r.chunk_size;
    &&& r.file_off == elf::le64(b, h + 8)
    &&& r.vaddr == elf::le64(b, h + 16)
    &&& r.file_size == elf::le64(b, h + 32)
    &&& r.mem_size == elf::le64(b, h + 40)
    &&& r.writable == ((elf::le32(b, h + 4) / 2) % 2 == 1)
    &&& r.chunk_off % 4096 == 0 && r.chunk_off <= r.vaddr < r.chunk_off + 4096
    &&& end % 4096 == 0 && r.vaddr + r.mem_size <= end < r.vaddr + r.mem_size + 4096
}

/// What a header of type 1 of a user image is taken for.
pub proof fn law_segment_of_header(b: Seq<u8>, i: int)
    requires
        elf::le64(b, header_place(b, i) + 16) + elf::le64(b, header_place(b, i) + 40) + 4096 <= u64::MAX,
    ensures
        segment_follows(user_loader::segment_of(image::phdr_of(b, i)), b, i),
{
    let h = header_place(b, i);
    lemma_header_fields(b, i);
    lemma_page_span(elf::le64(b, h + 16), elf::le64(b, h + 40));
}

proof fn lemma_page_span(v: int, m: int)
    requires
        0 <= v,
        0 <= m,
    ensures
        ({
            let down = util::align_down_spec(v, 4096);
            let up = util::align_up_spec(v + m, 4096);
            &&& 0 <= down && down % 4096 == 0 && down <= v < down + 4096
            &&& up % 4096 == 0 && v + m <= up < v + m + 4096
        }),
{
}

proof fn lemma_header_fields(b: Seq<u8>, i: int)
    ensures
        ({
            let h = header_place(b, i);
            let p = image::phdr_of(b, i);
            &&& p.p_flags == elf::le32(b, h + 4)
            &&& p.p_offset == elf::le64(b, h + 8)
            &&& p.p_vaddr == elf::le64(b, h + 16)
            &&& p.p_filesz == elf::le64(b, h + 32)
            &&& p.p_memsz == elf::le64(b, h + 40)
        }),
{
    assert(elf::ehdr_of(b).e_phoff == elf::le64(b, 32));
}

proof fn lemma_insert_segment(s: Seq<ParsedSegment>, r: ParsedSegment)
    ensures
        user_loader::insert_segment(s, r).len() == s.len() + 1,
        exists|k: int| 0 <= k <= s.len() && #[trigger] user_loader::insert_segment(s, r) == s.insert(k, r)
            && (forall|j: int| k <= j < s.len() ==> r.chunk_off < (#[trigger] s[j]).chunk_off)
            && (k > 0 ==> s[k - 1].chunk_off <= r.chunk_off),
    decreases s.len(),
{
    let t = user_loader::insert_segment(s, r);
    if s.len() == 0 || s.last().chunk_off <= r.chunk_off {
        assert(t =~= s.insert(s.len() as int, r));
    } else {
        let q = s.drop_last();
        lemma_insert_segment(q, r);
        let u = user_loader::insert_segment(q, r);
        let k = choose|k: int| 0 <= k <= q.len() && #[trigger] user_loader::insert_segment(q, r) == q.insert(k, r)
            && (forall|j: int| k <= j < q.len() ==> r.chunk_off < (#[trigger] q[j]).chunk_off)
            && (k > 0 ==> q[k - 1].chunk_off <= r.chunk_off);
        assert(t =~= s.insert(k, r));
        assert forall|j: int| k <= j < s.len() implies r.chunk_off < (#[trigger] s[j]).chunk_off by {
            if j < q.len() {
                assert(q[j] == s[j]);
            }
        }
    }
}

/// The segments of a user image are those of its headers of type 1, one for each and none besides,
/// ordered by the page that they begin in.
pub proof fn law_segments_of_headers(b: Seq<u8>, n: nat, i: int, k: int)
    ensures
        ({
            let s = user_loader::segments_of(b, n);
            &&& forall|x: int, y: int| 0 <= x < y < s.len() ==> (#[trigger] s[x]).chunk_off <= (#[trigger] s[y]).chunk_off
            &&& 0 <= i < n && elf::le32(b, header_place(b, i)) == 1
                ==> s.contains(user_loader::segment_of(image::phdr_of(b, i)))
            &&& 0 <= k < s.len() ==> exists|j: int| 0 <= j < n && elf::le32(b, header_place(b, j)) == 1
                && s[k] == user_loader::segment_of(#[trigger] image::phdr_of(b, j))
        }),
    decreases n,
{
    if n > 0 {
        let m = (n - 1) as nat;
        let rest = user_loader::segments_of(b, m);
        let s = user_loader::segments_of(b, n);
        let p = image::phdr_of(b, n - 1);
        let r = user_loader::segment_of(p);
        assert(elf::ehdr_of(b).e_phoff == elf::le64(b, 32));
        assert(p.p_type == elf::le32(b, header_place(b, n - 1)));
        law_segments_of_headers(b, m, i, k);
        if p.p_type == 1 {
            lemma_insert_segment(rest, r);
            let at = choose|at: int| 0 <= at <= rest.len() && #[trigger] user_loader::insert_segment(rest, r) == rest.insert(at, r)
                && (forall|j: int| at <= j < rest.len() ==> r.chunk_off < (#[trigger] rest[j]).chunk_off)
                && (at > 0 ==> rest[at - 1].chunk_off <= r.chunk_off);
            assert(s == rest.insert(at, r));
            assert(s[at] == r);
            let w = user_loader::segment_of(image::phdr_of(b, i));
            if rest.contains(w) {
                let j = choose|j: int| 0 <= j < rest.len() && rest[j] == w;
                assert(s[if j < at { j } else { j + 1 }] == w);
            }
            assert forall|x: int, y: int| 0 <= x < y < s.len() implies
                (#[trigger] s[x]).chunk_off <= (#[trigger] s[y]).chunk_off by {
                let x2 = if x < at { x } else { x - 1 };
                let y2 = if y < at { y } else { y - 1 };
                if x == at {
                    assert(rest[y2].chunk_off > r.chunk_off);
                } else if y == at {
                    assert(rest[x2].chunk_off <= rest[at - 1].chunk_off);
                }
            }
            if 0 <= k < s.len() {
                if k == at {
                    assert(s[k] == user_loader::segment_of(image::phdr_of(b, n - 1)));
                } else {
                    law_segments_of_headers(b, m, i, if k < at { k } else { k - 1 });
                }
            }
        }
    }
}

/// How many of the first `n` segments are shared.
pub open spec fn shared_count(s: Seq<UserModuleSegment>, n: nat) -> nat
    decreases n,
{
    if n == 0 { 0 } else { shared_count(s, (n - 1) as nat) + if s[n - 1].writable { 0nat } else { 1 } }
}

/// A process that loads an image that is loaded already gets the pages of every segment that cannot be written, at
/// the segment's distance from the base, and no others.
pub proof fn law_shared_pages_mapped(s: Seq<UserModuleSegment>, base: u64, n: nat, i: int)
    requires
        0 <= i < n <= s.len(),
        base + s[i].offset <= u64::MAX,
    ensures
        user_loader::shared_maps(s, base, n).len() == shared_count(s, n),
        !s[i].writable ==> shared_count(s, i as nat) < shared_count(s, n) && {
            let m = user_loader::shared_maps(s, base, n)[shared_count(s, i as nat) as int];
            m.phys_addr == s[i].phys_addr && m.virt_addr == base + s[i].offset && m.size == s[i].size
        },
    decreases n,
{
    lemma_shared_len(s, base, n);
    lemma_shared_len(s, base, (n - 1) as nat);
    if i < n - 1 {
        law_shared_pages_mapped(s, base, (n - 1) as nat, i);
    }
}

proof fn lemma_shared_len(s: Seq<UserModuleSegment>, base: u64, n: nat)
    ensures
        user_loader::shared_maps(s, base, n).len() == shared_count(s, n),
    decreases n,
{
    if n > 0 {
        lemma_shared_len(s, base, (n - 1) as nat);
    }
}

/// The file begins as an object file of 64 bits does, with program headers of 56 bytes each.
pub open spec fn begins_as_object(b: Seq<u8>) -> bool {
    &&& b.len() >= 64
    &&& b[0] == 127 && b[1] == 69 && b[2] == 76 && b[3] == 70 && b[4] == 2
    &&& elf::le16(b, 54) == 56
}

/// Program header `i` of a user image cannot be loaded: it is to be aligned to more than a page, or its part of the
/// file is not there.
pub open spec fn header_unsound(b: Seq<u8>, i: int) -> bool {
    let h = header_place(b, i);
    elf::le32(b, h) == 1 && (elf::le64(b, h + 48) > 4096 || elf::le64(b, h + 8) + elf::le64(b, h + 32) > b.len())
}

/// A user image that is accepted begins as an object file does, has something to be loaded, and all of it can be; one
/// that does not begin so, or has a header that cannot be loaded, is refused.
pub proof fn law_user_image_accepted(b: Seq<u8>, i: int)
    ensures
        !user_loader::user_elf_refused(b) ==> begins_as_object(b),
        !user_loader::user_elf_refused(b) && 0 <= i < header_count(b) ==> !header_unsound(b, i),
        !user_loader::user_elf_refused(b) ==> exists|k: int| 0 <= k < header_count(b)
            && elf::le32(b, #[trigger] header_place(b, k)) == 1,
        !begins_as_object(b) ==> user_loader::user_elf_refused(b),
        0 <= i < header_count(b) && header_unsound(b, i) ==> user_loader::user_elf_refused(b),
{
    let n = elf::ehdr_of(b).e_phnum as nat;
    assert(n == header_count(b));
    assert(elf::ehdr_of(b).e_phentsize == elf::le16(b, 54));
    assert(elf::ehdr_of(b).e_phoff == elf::le64(b, 32));
    let p = image::phdr_of(b, i);
    assert(p.p_type == elf::le32(b, header_place(b, i)));
    lemma_header_fields(b, i);
    assert(p.p_align == elf::le64(b, header_place(b, i) + 48));
    assert(user_loader::bad_load(b, i) == header_unsound(b, i));
    if !user_loader::user_elf_refused(b) {
        law_segments_of_headers(b, n, 0, 0);
        let s = user_loader::segments_of(b, n);
        assert(s.len() > 0);
        let k = choose|k: int| 0 <= k < n && elf::le32(b, header_place(b, k)) == 1
            && s[0] == user_loader::segment_of(#[trigger] image::phdr_of(b, k));
        assert(elf::le32(b, header_place(b, k)) == 1);
    }
}

/// A kernel object begins as an object file does, with section headers of 64 bytes each.
pub proof fn law_kernel_object(b: Seq<u8>)
    ensures
        image::is_kernel_object(b) <==> begins_as_object(b) && elf::le16(b, 58) == 64,
{
    assert(elf::ehdr_of(b).e_phentsize == elf::le16(b, 54));
    assert(elf::ehdr_of(b).e_shentsize == elf::le16(b, 58));
}

/// The last of the first `n` entries with the tag has the number, or there is none and the number is zero.
pub open spec fn tells_number(b: Seq<u8>, off: int, n: int, tag: int, v: int) -> bool {
    exists|o: Option<u64>| #[trigger] tells(b, off, n, tag, o) && v == value_or_zero(o)
}

/// What the dynamic section of a user image says: tag 6 is the address of the symbols and tag 5 that of the strings,
/// tag 10 their size; tag 7 is the address of the relocations and tag 8 their size; tag 23 is the address of the
/// linkage table and tag 2 its size; tags 29 and 15 point to lists of directories, and each tag 1 to the name of a
/// module that is needed.
pub proof fn law_user_dynamic(d: DynFileInfo, b: Seq<u8>, segs: Seq<ParsedSegment>, off: int, n: nat)
    requires
        d.describes(b, segs, off, n),
    ensures
        tells(b, off, n as int, 6, d.symtab_va),
        tells(b, off, n as int, 5, d.strtab_va),
        tells(b, off, n as int, 7, d.rela_va),
        tells(b, off, n as int, 23, d.plt_va),
        tells(b, off, n as int, 29, d.runpath_off),
        tells(b, off, n as int, 15, d.rpath_off),
        tells_number(b, off, n as int, 10, d.strsz as int),
        tells_number(b, off, n as int, 8, d.relasz as int),
        tells_number(b, off, n as int, 2, d.pltsz as int),
        d.needed@ == elf::dyn_all(b, off, n, 1),
{
    lemma_tells(b, off, n, 6);
    lemma_tells(b, off, n, 5);
    lemma_tells(b, off, n, 7);
    lemma_tells(b, off, n, 23);
    lemma_tells(b, off, n, 29);
    lemma_tells(b, off, n, 15);
    lemma_tells(b, off, n, 10);
    lemma_tells(b, off, n, 8);
    lemma_tells(b, off, n, 2);
}

/// The dynamic section of an image is where its last program header of type 2 says.
pub proof fn law_dynamic_header(b: Seq<u8>, n: nat)
    ensures
        match user_loader::dynamic_section(b, n) {
            Some(p) => exists|i: int| 0 <= i < n && elf::le32(b, #[trigger] header_place(b, i)) == 2
                && p.0 == elf::le64(b, header_place(b, i) + 8) && p.1 == elf::le64(b, header_place(b, i) + 32)
                && forall|j: int| i < j < n ==> elf::le32(b, #[trigger] header_place(b, j)) != 2,
            None => forall|j: int| 0 <= j < n ==> elf::le32(b, #[trigger] header_place(b, j)) != 2,
        },
        match image::dynamic_of(b, n) {
            Some(r) => exists|i: int| 0 <= i < n && elf::le32(b, #[trigger] header_place(b, i)) == 2
                && follows_header(r, b, i)
                && forall|j: int| i < j < n ==> elf::le32(b, #[trigger] header_place(b, j)) != 2,
            None => forall|j: int| 0 <= j < n ==> elf::le32(b, #[trigger] header_place(b, j)) != 2,
        },
    decreases n,
{
    if n > 0 {
        law_dynamic_header(b, (n - 1) as nat);
        lemma_header_fields(b, n - 1);
        lemma_region_follows(b, n - 1);
        assert(elf::ehdr_of(b).e_phoff == elf::le64(b, 32));
        assert(image::phdr_of(b, n - 1).p_type == elf::le32(b, header_place(b, n - 1)));
        if elf::le32(b, header_place(b, n - 1)) != 2 {
            if let Some(p) = user_loader::dynamic_section(b, (n - 1) as nat) {
                let i = choose|i: int| 0 <= i < n - 1 && elf::le32(b, #[trigger] header_place(b, i)) == 2
                    && p.0 == elf::le64(b, header_place(b, i) + 8) && p.1 == elf::le64(b, header_place(b, i) + 32)
                    && forall|j: int| i < j < n - 1 ==> elf::le32(b, #[trigger] header_place(b, j)) != 2;
                assert(elf::le32(b, header_place(b, i)) == 2);
            }
            if let Some(r) = image::dynamic_of(b, (n - 1) as nat) {
                let i = choose|i: int| 0 <= i < n - 1 && elf::le32(b, #[trigger] header_place(b, i)) == 2
                    && follows_header(r, b, i)
                    && forall|j: int| i < j < n - 1 ==> elf::le32(b, #[trigger] header_place(b, j)) != 2;
                assert(elf::le32(b, header_place(b, i)) == 2);
            }
        }
    }
}

/// A user image is entered where its file says, and takes all pages up to the end of its last segment.
pub proof fn law_user_entry_point(img: ParsedImage, b: Seq<u8>)
    requires
        img.describes(b),
    ensures
        img.entry == elf::le64(b, 24),
        img.total_size == img.segments@.last().chunk_off + img.segments@.last().chunk_size,
{
    assert(elf::ehdr_of(b).e_entry == elf::le64(b, 24));
}

/// The alignment that an image asks for is the largest that one of its loadable headers does, or nothing if none asks
/// for more than a byte.
pub proof fn law_largest_alignment(b: Seq<u8>, n: nat, i: int)
    requires
        0 <= i < n,
    ensures
        asks_for_memory(b, i) && elf::le64(b, header_place(b, i) + 48) > 1
            ==> image::max_alignment_of(b, n) >= elf::le64(b, header_place(b, i) + 48),
        image::max_alignment_of(b, n) != 0 ==> exists|k: int| 0 <= k < n && #[trigger] asks_for_memory(b, k)
            && image::max_alignment_of(b, n) == elf::le64(b, header_place(b, k) + 48),
    decreases n,
{
    lemma_region_follows(b, n - 1);
    assert(elf::ehdr_of(b).e_phoff == elf::le64(b, 32));
    assert(image::phdr_of(b, n - 1).p_align == elf::le64(b, header_place(b, n - 1) + 48));
    if n > 1 {
        law_largest_alignment(b, (n - 1) as nat, if i < n - 1 { i } else { 0 });
    }
    if image::max_alignment_of(b, n) != 0 {
        if image::max_alignment_of(b, n) == image::max_alignment_of(b, (n - 1) as nat) {
            assert(n > 1);
            let k = choose|k: int| 0 <= k < n - 1 && #[trigger] asks_for_memory(b, k)
                && image::max_alignment_of(b, (n - 1) as nat) == elf::le64(b, header_place(b, k) + 48);
            assert(asks_for_memory(b, k));
        } else {
            assert(asks_for_memory(b, n - 1));
        }
    }
}

} // verus!
