use vstd::prelude::*;

verus! {

pub const EHDR_SIZE: u64 = 64;
pub const PHDR_SIZE: u64 = 56;
pub const SHDR_SIZE: u64 = 64;
pub const SYM_SIZE: u64 = 24;
pub const RELA_SIZE: u64 = 24;
pub const DYN_SIZE: u64 = 16;

pub const ELFCLASS64: u8 = 2;
pub const PT_LOAD: u32 = 1;
pub const PT_DYNAMIC: u32 = 2;
pub const PF_W: u32 = 2;
pub const SHT_SYMTAB: u32 = 2;
pub const SHN_UNDEF: u16 = 0;

pub const DT_NULL: u64 = 0;
pub const DT_NEEDED: u64 = 1;
pub const DT_PLTRELSZ: u64 = 2;
pub const DT_HASH: u64 = 4;
pub const DT_STRTAB: u64 = 5;
pub const DT_SYMTAB: u64 = 6;
pub const DT_RELA: u64 = 7;
pub const DT_RELASZ: u64 = 8;
pub const DT_RELAENT: u64 = 9;
pub const DT_STRSZ: u64 = 10;
pub const DT_RPATH: u64 = 15;
pub const DT_JMPREL: u64 = 23;
pub const DT_RUNPATH: u64 = 29;
pub const DT_RELACOUNT: u64 = 0x6ffffff9;

pub const R_X86_64_64: u32 = 1;
pub const R_GLOB_DAT: u32 = 6;
pub const R_JUMP_SLOT: u32 = 7;
pub const R_X86_64_RELATIVE: u32 = 8;

/// The little-endian 16-bit number stored at `o`.
pub open spec fn le16(b: Seq<u8>, o: int) -> int {
    b[o] + 256 * b[o + 1]
}

/// The little-endian 32-bit number stored at `o`.
pub open spec fn le32(b: Seq<u8>, o: int) -> int {
    le16(b, o) + 65536 * le16(b, o + 2)
}

/// The little-endian 64-bit number stored at `o`.
pub open spec fn le64(b: Seq<u8>, o: int) -> int {
    le32(b, o) + 4294967296 * le32(b, o + 4)
}

pub fn read_u16(b: &Vec<u8>, o: u64) -> (r: u16)
    requires
        o + 2 <= b@.len(),
    ensures
        r == le16(b@, o as int),
{
    let n: usize = b.len();
    let i: usize = o as usize;
    (b[i] as u16) + 256 * (b[i + 1] as u16)
}

pub fn read_u32(b: &Vec<u8>, o: u64) -> (r: u32)
    requires
        o + 4 <= b@.len(),
    ensures
        r == le32(b@, o as int),
{
    let n: usize = b.len();
    (read_u16(b, o) as u32) + 65536 * (read_u16(b, o + 2) as u32)
}

pub fn read_u64(b: &Vec<u8>, o: u64) -> (r: u64)
    requires
        o + 8 <= b@.len(),
    ensures
        r == le64(b@, o as int),
{
    let n: usize = b.len();
    (read_u32(b, o) as u64) + 4294967296 * (read_u32(b, o + 4) as u64)
}

/// `v` with its `k` low bytes dropped.
pub open spec fn drop_bytes(v: nat, k: nat) -> nat
    decreases k,
{
    if k == 0 { v } else { drop_bytes(v, (k - 1) as nat) / 256 }
}

/// Byte `k` of `v`, counted from the low end.
pub open spec fn byte_of(v: u64, k: int) -> u8 {
    (drop_bytes(v as nat, k as nat) % 256) as u8
}

/// `b` with the eight bytes of `v` stored at `o`.
pub open spec fn put64(b: Seq<u8>, o: int, v: u64) -> Seq<u8> {
    Seq::new(b.len(), |i: int| if o <= i < o + 8 { byte_of(v, i - o) } else { b[i] })
}

pub fn write_u64(b: &mut Vec<u8>, o: u64, v: u64)
    requires
        o + 8 <= old(b)@.len(),
    ensures
        final(b)@ == put64(old(b)@, o as int, v),
{
    let n: usize = b.len();
    let i: usize = o as usize;
    let mut k: usize = 0;
    let mut rest: u64 = v;
    let ghost b0 = b@;
    while k < 8
        invariant
            k <= 8,
            b@.len() == n,
            b0.len() == n,
            i + 8 <= n,
            rest == drop_bytes(v as nat, k as nat),
            forall|j: int| 0 <= j < n ==> b@[j] == (if i <= j < i + k { byte_of(v, j - i) } else { b0[j] }),
        decreases 8 - k,
    {
        b.set(i + k, (rest % 256) as u8);
        rest = rest / 256;
        k = k + 1;
    }
    assert(b@ =~= put64(old(b)@, o as int, v));
}

/// Reading back a stored number gives the number, and no other byte changes.
pub proof fn law_put64_read_back(b: Seq<u8>, o: int, v: u64)
    requires
        0 <= o,
        o + 8 <= b.len(),
    ensures
        le64(put64(b, o, v), o) == v,
        forall|i: int| 0 <= i < b.len() && !(o <= i < o + 8) ==> put64(b, o, v)[i] == b[i],
{
    let p = put64(b, o, v);
    let w = v as nat;
    assert(drop_bytes(w, 0) == w);
    assert(drop_bytes(w, 1) == drop_bytes(w, 0) / 256);
    assert(drop_bytes(w, 2) == drop_bytes(w, 1) / 256);
    assert(drop_bytes(w, 3) == drop_bytes(w, 2) / 256);
    assert(drop_bytes(w, 4) == drop_bytes(w, 3) / 256);
    assert(drop_bytes(w, 5) == drop_bytes(w, 4) / 256);
    assert(drop_bytes(w, 6) == drop_bytes(w, 5) / 256);
    assert(drop_bytes(w, 7) == drop_bytes(w, 6) / 256);
    assert(drop_bytes(w, 7) < 256);
    assert(p[o] == byte_of(v, 0) && p[o + 1] == byte_of(v, 1));
    assert(p[o + 2] == byte_of(v, 2) && p[o + 3] == byte_of(v, 3));
    assert(p[o + 4] == byte_of(v, 4) && p[o + 5] == byte_of(v, 5));
    assert(p[o + 6] == byte_of(v, 6) && p[o + 7] == byte_of(v, 7));
}

/// The file header fields that the loaders read.
#[derive(Clone, Copy)]
pub struct Ehdr {
    pub e_entry: u64,
    pub e_phoff: u64,
    pub e_shoff: u64,
    pub e_phentsize: u16,
    pub e_phnum: u16,
    pub e_shentsize: u16,
    pub e_shnum: u16,
}

pub open spec fn ehdr_of(b: Seq<u8>) -> Ehdr {
    Ehdr {
        e_entry: le64(b, 24) as u64,
        e_phoff: le64(b, 32) as u64,
        e_shoff: le64(b, 40) as u64,
        e_phentsize: le16(b, 54) as u16,
        e_phnum: le16(b, 56) as u16,
        e_shentsize: le16(b, 58) as u16,
        e_shnum: le16(b, 60) as u16,
    }
}

pub fn read_ehdr(b: &Vec<u8>) -> (r: Ehdr)
    requires
        b@.len() >= EHDR_SIZE,
    ensures
        r == ehdr_of(b@),
{
    Ehdr {
        e_entry: read_u64(b, 24),
        e_phoff: read_u64(b, 32),
        e_shoff: read_u64(b, 40),
        e_phentsize: read_u16(b, 54),
        e_phnum: read_u16(b, 56),
        e_shentsize: read_u16(b, 58),
        e_shnum: read_u16(b, 60),
    }
}

/// The first five bytes name a 64-bit object file.
pub open spec fn has_magic(b: Seq<u8>) -> bool {
    &&& b.len() >= EHDR_SIZE
    &&& b[0] == 0x7f && b[1] == 0x45 && b[2] == 0x4c && b[3] == 0x46
    &&& b[4] == ELFCLASS64
}

pub fn check_magic(b: &Vec<u8>) -> (r: bool)
    ensures
        r == has_magic(b@),
{
    b.len() >= 64 && b[0] == 0x7f && b[1] == 0x45 && b[2] == 0x4c && b[3] == 0x46 && b[4] == ELFCLASS64
}

/// One program header.
#[derive(Clone, Copy)]
pub struct Phdr {
    pub p_type: u32,
    pub p_flags: u32,
    pub p_offset: u64,
    pub p_vaddr: u64,
    pub p_filesz: u64,
    pub p_memsz: u64,
    pub p_align: u64,
}

pub open spec fn phdr_at(b: Seq<u8>, o: int) -> Phdr {
    Phdr {
        p_type: le32(b, o) as u32,
        p_flags: le32(b, o + 4) as u32,
        p_offset: le64(b, o + 8) as u64,
        p_vaddr: le64(b, o + 16) as u64,
        p_filesz: le64(b, o + 32) as u64,
        p_memsz: le64(b, o + 40) as u64,
        p_align: le64(b, o + 48) as u64,
    }
}

pub fn read_phdr(b: &Vec<u8>, o: u64) -> (r: Phdr)
    requires
        o + PHDR_SIZE <= b@.len(),
    ensures
        r == phdr_at(b@, o as int),
{
    let n: usize = b.len();
    Phdr {
        p_type: read_u32(b, o),
        p_flags: read_u32(b, o + 4),
        p_offset: read_u64(b, o + 8),
        p_vaddr: read_u64(b, o + 16),
        p_filesz: read_u64(b, o + 32),
        p_memsz: read_u64(b, o + 40),
        p_align: read_u64(b, o + 48),
    }
}

/// One section header.
#[derive(Clone, Copy)]
pub struct Shdr {
    pub sh_type: u32,
    pub sh_offset: u64,
    pub sh_size: u64,
    pub sh_link: u32,
    pub sh_addralign: u64,
    pub sh_entsize: u64,
}

pub open spec fn shdr_at(b: Seq<u8>, o: int) -> Shdr {
    Shdr {
        sh_type: le32(b, o + 4) as u32,
        sh_offset: le64(b, o + 24) as u64,
        sh_size: le64(b, o + 32) as u64,
        sh_link: le32(b, o + 40) as u32,
        sh_addralign: le64(b, o + 48) as u64,
        sh_entsize: le64(b, o + 56) as u64,
    }
}

pub fn read_shdr(b: &Vec<u8>, o: u64) -> (r: Shdr)
    requires
        o + SHDR_SIZE <= b@.len(),
    ensures
        r == shdr_at(b@, o as int),
{
    let n: usize = b.len();
    Shdr {
        sh_type: read_u32(b, o + 4),
        sh_offset: read_u64(b, o + 24),
        sh_size: read_u64(b, o + 32),
        sh_link: read_u32(b, o + 40),
        sh_addralign: read_u64(b, o + 48),
        sh_entsize: read_u64(b, o + 56),
    }
}

/// One symbol table entry.
#[derive(Clone, Copy)]
pub struct Sym {
    pub st_name: u32,
    pub st_shndx: u16,
    pub st_value: u64,
}

pub open spec fn sym_at(b: Seq<u8>, o: int) -> Sym {
    Sym { st_name: le32(b, o) as u32, st_shndx: le16(b, o + 6) as u16, st_value: le64(b, o + 8) as u64 }
}

pub fn read_sym(b: &Vec<u8>, o: u64) -> (r: Sym)
    requires
        o + SYM_SIZE <= b@.len(),
    ensures
        r == sym_at(b@, o as int),
{
    let n: usize = b.len();
    Sym { st_name: read_u32(b, o), st_shndx: read_u16(b, o + 6), st_value: read_u64(b, o + 8) }
}

/// One relocation entry.
#[derive(Clone, Copy)]
pub struct Rela {
    pub r_offset: u64,
    pub r_info: u64,
    /// The addend in two's complement.
    pub r_addend: u64,
}

pub open spec fn rela_at(b: Seq<u8>, o: int) -> Rela {
    Rela { r_offset: le64(b, o) as u64, r_info: le64(b, o + 8) as u64, r_addend: le64(b, o + 16) as u64 }
}

pub fn read_rela(b: &Vec<u8>, o: u64) -> (r: Rela)
    requires
        o + RELA_SIZE <= b@.len(),
    ensures
        r == rela_at(b@, o as int),
{
    let n: usize = b.len();
    Rela { r_offset: read_u64(b, o), r_info: read_u64(b, o + 8), r_addend: read_u64(b, o + 16) }
}

/// The relocation type: the low half of `r_info`.
pub open spec fn rela_type(r: Rela) -> u32 {
    (r.r_info % 0x100000000) as u32
}

/// The symbol index: the high half of `r_info`.
pub open spec fn rela_sym(r: Rela) -> int {
    r.r_info as int / 0x100000000
}

/// Tag of the dynamic entry at `o`.
pub open spec fn dyn_tag(b: Seq<u8>, o: int) -> u64 {
    le64(b, o) as u64
}

/// Value of the dynamic entry at `o`.
pub open spec fn dyn_val(b: Seq<u8>, o: int) -> u64 {
    le64(b, o + 8) as u64
}

/// How many of the first `n` dynamic entries at `off` stand before the first null entry.
pub open spec fn dyn_live(b: Seq<u8>, off: int, n: nat) -> nat
    decreases n,
{
    if n == 0 {
        0
    } else {
        let m = dyn_live(b, off, (n - 1) as nat);
        if m == n - 1 && dyn_tag(b, off + 16 * (n - 1)) != DT_NULL { n } else { m }
    }
}

/// The value of the last entry tagged `tag` among the first `n`.
pub open spec fn dyn_last(b: Seq<u8>, off: int, n: nat, tag: u64) -> Option<u64>
    decreases n,
{
    if n == 0 {
        None
    } else if dyn_tag(b, off + 16 * (n - 1)) == tag {
        Some(dyn_val(b, off + 16 * (n - 1)))
    } else {
        dyn_last(b, off, (n - 1) as nat, tag)
    }
}

/// The values of all entries tagged `tag` among the first `n`, in order.
pub open spec fn dyn_all(b: Seq<u8>, off: int, n: nat, tag: u64) -> Seq<u64>
    decreases n,
{
    if n == 0 {
        Seq::empty()
    } else {
        let rest = dyn_all(b, off, (n - 1) as nat, tag);
        if dyn_tag(b, off + 16 * (n - 1)) == tag {
            rest.push(dyn_val(b, off + 16 * (n - 1)))
        } else {
            rest
        }
    }
}

proof fn lemma_dyn_live_bound(b: Seq<u8>, off: int, n: nat)
    ensures
        dyn_live(b, off, n) <= n,
    decreases n,
{
    if n > 0 {
        lemma_dyn_live_bound(b, off, (n - 1) as nat);
    }
}

/// Once a null entry has been met, later entries add nothing.
proof fn lemma_dyn_live_stops(b: Seq<u8>, off: int, i: nat, n: nat)
    requires
        i < n,
        dyn_live(b, off, i) == i,
        dyn_tag(b, off + 16 * i) == DT_NULL,
    ensures
        dyn_live(b, off, n) == i,
    decreases n,
{
    if n == i + 1 {
    } else {
        lemma_dyn_live_stops(b, off, i, (n - 1) as nat);
    }
}

/// Counts the dynamic entries before the first null entry.
pub fn count_dyn(b: &Vec<u8>, off: u64, n: u64) -> (r: u64)
    requires
        off + 16 * n <= b@.len(),
    ensures
        r == dyn_live(b@, off as int, n as nat),
        r <= n,
{
    let len: usize = b.len();
    let mut i: u64 = 0;
    while i < n
        invariant
            i <= n,
            off + 16 * n <= b@.len(),
            b@.len() == len,
            dyn_live(b@, off as int, i as nat) == i,
        decreases n - i,
    {
        if read_u64(b, off + 16 * i) == DT_NULL {
            proof {
                lemma_dyn_live_stops(b@, off as int, i as nat, n as nat);
            }
            return i;
        }
        i = i + 1;
    }
    i
}

/// Finds the last of the first `n` entries that carries `tag`.
pub fn find_dyn(b: &Vec<u8>, off: u64, n: u64, tag: u64) -> (r: Option<u64>)
    requires
        off + 16 * n <= b@.len(),
    ensures
        r == dyn_last(b@, off as int, n as nat, tag),
{
    let len: usize = b.len();
    let mut i: u64 = n;
    while i > 0
        invariant
            i <= n,
            off + 16 * n <= b@.len(),
            b@.len() == len,
            dyn_last(b@, off as int, n as nat, tag) == dyn_last(b@, off as int, i as nat, tag),
        decreases i,
    {
        i = i - 1;
        if read_u64(b, off + 16 * i) == tag {
            return Some(read_u64(b, off + 16 * i + 8));
        }
    }
    None
}

/// Collects the values of all entries that carry `tag`.
pub fn collect_dyn(b: &Vec<u8>, off: u64, n: u64, tag: u64) -> (r: Vec<u64>)
    requires
        off + 16 * n <= b@.len(),
    ensures
        r@ == dyn_all(b@, off as int, n as nat, tag),
{
    let len: usize = b.len();
    let mut r: Vec<u64> = Vec::new();
    let mut i: u64 = 0;
    while i < n
        invariant
            i <= n,
            off + 16 * n <= b@.len(),
            b@.len() == len,
            r@ == dyn_all(b@, off as int, i as nat, tag),
        decreases n - i,
    {
        if read_u64(b, off + 16 * i) == tag {
            r.push(read_u64(b, off + 16 * i + 8));
        }
        i = i + 1;
    }
    r
}

/// `mem` with `data` stored from `at` on.
pub open spec fn overwrite(mem: Seq<u8>, at: int, data: Seq<u8>) -> Seq<u8> {
    Seq::new(mem.len(), |i: int| if at <= i < at + data.len() { data[i - at] } else { mem[i] })
}

/// Copies `len` bytes of `src` from `off` on to `mem` at `at`.
pub fn copy_into(mem: &mut Vec<u8>, at: u64, src: &Vec<u8>, off: u64, len: u64)
    requires
        at + len <= old(mem)@.len(),
        off + len <= src@.len(),
    ensures
        final(mem)@ == overwrite(old(mem)@, at as int, src@.subrange(off as int, off + len)),
{
    let n: usize = mem.len();
    let m: usize = src.len();
    let ghost m0 = mem@;
    let mut i: usize = 0;
    while i < len as usize
        invariant
            i <= len,
            at + len <= n,
            mem@.len() == n,
            m0.len() == n,
            off + len <= src@.len(),
            src@.len() == m,
            forall|j: int| 0 <= j < n ==> mem@[j] == (if at <= j < at + i { src@[off + j - at] } else { m0[j] }),
        decreases len - i,
    {
        mem.set(at as usize + i, src[off as usize + i]);
        i = i + 1;
    }
    assert(mem@ =~= overwrite(m0, at as int, src@.subrange(off as int, off + len)));
}

/// Clears `len` bytes of `mem` from `at` on.
pub fn zero_fill(mem: &mut Vec<u8>, at: u64, len: u64)
    requires
        at + len <= old(mem)@.len(),
    ensures
        final(mem)@ == overwrite(old(mem)@, at as int, Seq::new(len as nat, |i: int| 0u8)),
{
    let n: usize = mem.len();
    let ghost m0 = mem@;
    let mut i: usize = 0;
    while i < len as usize
        invariant
            i <= len,
            at + len <= n,
            mem@.len() == n,
            m0.len() == n,
            forall|j: int| 0 <= j < n ==> mem@[j] == (if at <= j < at + i { 0u8 } else { m0[j] }),
        decreases len - i,
    {
        mem.set(at as usize + i, 0);
        i = i + 1;
    }
    assert(mem@ =~= overwrite(m0, at as int, Seq::new(len as nat, |i: int| 0u8)));
}

} // verus!
