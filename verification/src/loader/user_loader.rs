use vstd::prelude::*;
use crate::error::KError;
use crate::util;
use crate::util::{align_down, align_up, bytes_eq, read_cstr, split_nonempty};
use crate::loader::elf;
use crate::loader::elf::{
    Ehdr, Phdr, Rela, Sym, PHDR_SIZE, PT_DYNAMIC, PT_LOAD, SHN_UNDEF,
    DT_HASH, DT_JMPREL, DT_NEEDED, DT_PLTRELSZ, DT_RELA, DT_RELACOUNT, DT_RELAENT, DT_RELASZ, DT_RPATH,
    DT_RUNPATH, DT_STRSZ, DT_STRTAB, DT_SYMTAB,
    R_GLOB_DAT, R_JUMP_SLOT, R_X86_64_64, R_X86_64_RELATIVE,
    check_magic, collect_dyn, copy_into, count_dyn, find_dyn, read_ehdr, read_phdr, read_rela, read_sym, read_u32,
    write_u64,
};
use crate::loader::image;
use crate::loader::loader;
use crate::loader::loader::wrapping_sum;

verus! {

/// One loadable segment, widened to whole pages.
#[derive(Clone, Copy)]
pub struct ParsedSegment {
    pub file_off: u64,
    pub file_size: u64,
    pub vaddr: u64,
    pub mem_size: u64,
    pub writable: bool,
    pub chunk_off: u64,
    pub chunk_size: u64,
}

/// What the dynamic section of the file says.
pub struct DynFileInfo {
    pub symtab_va: Option<u64>,
    pub strtab_va: Option<u64>,
    pub strsz: u64,
    pub rela_va: Option<u64>,
    pub relasz: u64,
    pub relacount: u64,
    pub plt_va: Option<u64>,
    pub pltsz: u64,
    pub num_syms: u64,
    /// String table offsets of the names of needed modules.
    pub needed: Vec<u64>,
    pub runpath_off: Option<u64>,
    pub rpath_off: Option<u64>,
}

/// A user image as its file describes it.
pub struct ParsedImage {
    pub segments: Vec<ParsedSegment>,
    pub dyn_info: Option<DynFileInfo>,
    /// Entry point, relative to the load base.
    pub entry: u64,
    /// Number of bytes from the load base to the end of the last page.
    pub total_size: u64,
}

pub open spec fn is_user_object(b: Seq<u8>) -> bool {
    elf::has_magic(b) && elf::ehdr_of(b).e_phentsize == PHDR_SIZE
}

/// The segment that a loadable header describes.
pub open spec fn segment_of(p: Phdr) -> ParsedSegment {
    let chunk_off = util::align_down_spec(p.p_vaddr as int, 4096);
    ParsedSegment {
        file_off: p.p_offset,
        file_size: p.p_filesz,
        vaddr: p.p_vaddr,
        mem_size: p.p_memsz,
        writable: (p.p_flags / 2) % 2 == 1,
        chunk_off: chunk_off as u64,
        chunk_size: (util::align_up_spec(p.p_vaddr + p.p_memsz, 4096) - chunk_off) as u64,
    }
}

/// `s`, ordered by page, with `r` behind all segments that do not come after it.
pub open spec fn insert_segment(s: Seq<ParsedSegment>, r: ParsedSegment) -> Seq<ParsedSegment>
    decreases s.len(),
{
    if s.len() == 0 || s.last().chunk_off <= r.chunk_off {
        s.push(r)
    } else {
        insert_segment(s.drop_last(), r).push(s.last())
    }
}

/// The segments of the first `n` headers ordered by page; those that start on one page keep the
/// order of their headers.
pub open spec fn segments_of(b: Seq<u8>, n: nat) -> Seq<ParsedSegment>
    decreases n,
{
    if n == 0 {
        Seq::empty()
    } else {
        let rest = segments_of(b, (n - 1) as nat);
        let p = image::phdr_of(b, n - 1);
        if p.p_type == PT_LOAD { insert_segment(rest, segment_of(p)) } else { rest }
    }
}

/// A loadable header whose alignment is above a page or whose contents reach past the file.
pub open spec fn bad_load(b: Seq<u8>, i: int) -> bool {
    let p = image::phdr_of(b, i);
    p.p_type == PT_LOAD && (p.p_align > 4096 || p.p_offset + p.p_filesz > b.len())
}

/// Place and size of the last dynamic section.
pub open spec fn dynamic_section(b: Seq<u8>, n: nat) -> Option<(u64, u64)>
    decreases n,
{
    if n == 0 {
        None
    } else if image::phdr_of(b, n - 1).p_type == PT_DYNAMIC {
        Some((image::phdr_of(b, n - 1).p_offset, image::phdr_of(b, n - 1).p_filesz))
    } else {
        dynamic_section(b, (n - 1) as nat)
    }
}

/// Two neighbours share a page.
pub open spec fn segments_overlap(s: Seq<ParsedSegment>) -> bool {
    exists|k: int| 0 <= k && k + 1 < s.len() && #[trigger] shares_page(s, k)
}

pub open spec fn shares_page(s: Seq<ParsedSegment>, k: int) -> bool {
    s[k].chunk_off + s[k].chunk_size > s[k + 1].chunk_off
}

/// The file offset of an address, looked up among the segments from `i` on.
pub open spec fn file_offset(s: Seq<ParsedSegment>, i: int, va: u64) -> Option<u64>
    decreases s.len() - i,
{
    if i < 0 || i >= s.len() {
        None
    } else if s[i].vaddr <= va < s[i].vaddr + s[i].file_size {
        Some((s[i].file_off + (va - s[i].vaddr)) as u64)
    } else {
        file_offset(s, i + 1, va)
    }
}

/// The first segment from `i` on that holds an address.
pub open spec fn segment_at(s: Seq<ParsedSegment>, i: int, va: u64) -> Option<int>
    decreases s.len() - i,
{
    if i < 0 || i >= s.len() {
        None
    } else if s[i].vaddr <= va < s[i].vaddr + s[i].mem_size {
        Some(i)
    } else {
        segment_at(s, i + 1, va)
    }
}

/// Sums of the segment's fields stay within 64 bits.
pub open spec fn segment_bounded(s: ParsedSegment) -> bool {
    &&& s.vaddr + s.mem_size + 4096 <= u64::MAX
    &&& s.vaddr + s.file_size <= u64::MAX
    &&& s.file_off + s.file_size <= u64::MAX
    &&& s.chunk_off + s.chunk_size <= u64::MAX
    &&& s.chunk_off <= s.vaddr
    &&& s.vaddr + s.mem_size <= s.chunk_off + s.chunk_size
}

/// The header table lies in the file, sums of header fields do not overflow, every relocation
/// entry size given is that of a relocation entry, and the hash table lies in the file.
pub open spec fn user_headers_sound(b: Seq<u8>) -> bool {
    let n = elf::ehdr_of(b).e_phnum as nat;
    &&& elf::ehdr_of(b).e_phoff + 56 * n <= b.len()
    &&& forall|i: int| 0 <= i < n && (#[trigger] image::phdr_of(b, i)).p_type == PT_LOAD ==> {
        let p = image::phdr_of(b, i);
        &&& p.p_vaddr + p.p_memsz + 4096 <= u64::MAX
        &&& p.p_vaddr + p.p_filesz <= u64::MAX
        &&& p.p_offset + p.p_filesz <= u64::MAX
    }
    &&& dynamic_section(b, n) matches Some((off, size)) ==> off + size <= u64::MAX && (off + size <= b.len() ==> {
        let live = elf::dyn_live(b, off as int, (size / 16) as nat);
        &&& forall|i: int| 0 <= i < live && #[trigger] elf::dyn_tag(b, off + 16 * i) == DT_RELAENT
            ==> elf::dyn_val(b, off + 16 * i) == 24
        &&& elf::dyn_last(b, off as int, live, DT_HASH) matches Some(h) ==>
            (file_offset(segments_of(b, n), 0, h) matches Some(o) ==> o + 8 <= b.len())
    })
}

/// The file is rejected.
pub open spec fn user_elf_refused(b: Seq<u8>) -> bool {
    let n = elf::ehdr_of(b).e_phnum as nat;
    ||| !is_user_object(b)
    ||| exists|i: int| 0 <= i < n && #[trigger] bad_load(b, i)
    ||| segments_of(b, n).len() == 0
    ||| segments_overlap(segments_of(b, n))
    ||| dynamic_section(b, n) matches Some((off, size)) && off + size > b.len()
}

impl DynFileInfo {
    /// The fields are what the `n` live entries at `off` say.
    pub open spec fn describes(self, b: Seq<u8>, segs: Seq<ParsedSegment>, off: int, n: nat) -> bool {
        let last = |tag: u64| elf::dyn_last(b, off, n, tag);
        &&& self.symtab_va == last(DT_SYMTAB)
        &&& self.strtab_va == last(DT_STRTAB)
        &&& self.strsz == image::or_zero(last(DT_STRSZ))
        &&& self.rela_va == last(DT_RELA)
        &&& self.relasz == image::or_zero(last(DT_RELASZ))
        &&& self.relacount == image::or_zero(last(DT_RELACOUNT))
        &&& self.plt_va == last(DT_JMPREL)
        &&& self.pltsz == image::or_zero(last(DT_PLTRELSZ))
        &&& self.needed@ == elf::dyn_all(b, off, n, DT_NEEDED)
        &&& self.runpath_off == last(DT_RUNPATH)
        &&& self.rpath_off == last(DT_RPATH)
        &&& self.num_syms == (match last(DT_HASH) {
            Some(h) => match file_offset(segs, 0, h) {
                Some(o) => elf::le32(b, o + 4),
                None => 0,
            },
            None => 0,
        })
    }
}

impl ParsedImage {
    pub open spec fn describes(self, b: Seq<u8>) -> bool {
        let n = elf::ehdr_of(b).e_phnum as nat;
        &&& self.segments@ == segments_of(b, n)
        &&& self.entry == elf::ehdr_of(b).e_entry
        &&& self.total_size == self.segments@.last().chunk_off + self.segments@.last().chunk_size
        &&& match dynamic_section(b, n) {
            Some((off, size)) => self.dyn_info is Some && self.dyn_info->0.describes(
                b, self.segments@, off as int, elf::dyn_live(b, off as int, (size / 16) as nat)),
            None => self.dyn_info is None,
        }
    }

    pub open spec fn bounded(self) -> bool {
        forall|k: int| 0 <= k < self.segments@.len() ==> segment_bounded(#[trigger] self.segments@[k])
    }

    /// The file offset of an address that the file backs.
    pub fn va_to_off(&self, va: u64) -> (r: Option<u64>)
        requires
            self.bounded(),
        ensures
            r == file_offset(self.segments@, 0, va),
    {
        offset_of(&self.segments, va)
    }

    /// The index of the segment that holds an address.
    pub fn segment_for_va(&self, va: u64) -> (r: Option<usize>)
        requires
            self.bounded(),
        ensures
            match r {
                Some(k) => segment_at(self.segments@, 0, va) == Some(k as int) && k < self.segments@.len(),
                None => segment_at(self.segments@, 0, va) is None,
            },
    {
        let mut i: usize = 0;
        while i < self.segments.len()
            invariant
                i <= self.segments@.len(),
                self.bounded(),
                segment_at(self.segments@, 0, va) == segment_at(self.segments@, i as int, va),
            decreases self.segments@.len() - i,
        {
            let s: ParsedSegment = self.segments[i];
            assert(segment_bounded(self.segments@[i as int]));
            if s.vaddr <= va && va < s.vaddr + s.mem_size {
                return Some(i);
            }
            i = i + 1;
        }
        None
    }
}

fn offset_of(segments: &Vec<ParsedSegment>, va: u64) -> (r: Option<u64>)
    requires
        forall|k: int| 0 <= k < segments@.len() ==> segment_bounded(#[trigger] segments@[k]),
    ensures
        r == file_offset(segments@, 0, va),
{
    let mut i: usize = 0;
    while i < segments.len()
        invariant
            i <= segments@.len(),
            forall|k: int| 0 <= k < segments@.len() ==> segment_bounded(#[trigger] segments@[k]),
            file_offset(segments@, 0, va) == file_offset(segments@, i as int, va),
        decreases segments@.len() - i,
    {
        let s: ParsedSegment = segments[i];
        assert(segment_bounded(segments@[i as int]));
        if s.vaddr <= va && va < s.vaddr + s.file_size {
            return Some(s.file_off + (va - s.vaddr));
        }
        i = i + 1;
    }
    None
}

fn insert_sorted(v: &mut Vec<ParsedSegment>, r: ParsedSegment)
    requires
        segment_bounded(r),
        forall|k: int| 0 <= k < old(v)@.len() ==> segment_bounded(#[trigger] old(v)@[k]),
    ensures
        final(v)@ == insert_segment(old(v)@, r),
        forall|k: int| 0 <= k < final(v)@.len() ==> segment_bounded(#[trigger] final(v)@[k]),
{
    let ghost v0 = v@;
    let mut i: usize = v.len();
    assert(v0.take(i as int) == v0);
    assert(v0.skip(i as int) == Seq::<ParsedSegment>::empty());
    assert(insert_segment(v0.take(i as int), r) + v0.skip(i as int) == insert_segment(v0, r));
    while i > 0 && v[i - 1].chunk_off > r.chunk_off
        invariant
            i <= v@.len(),
            v@ == v0,
            insert_segment(v0.take(i as int), r) + v0.skip(i as int) == insert_segment(v0, r),
        decreases i,
    {
        let ghost t = v0.take(i as int);
        assert(t.drop_last() == v0.take(i - 1));
        assert(t.last() == v0[i - 1]);
        assert(insert_segment(t, r) == insert_segment(v0.take(i - 1), r).push(v0[i - 1]));
        assert(insert_segment(v0.take(i - 1), r).push(v0[i - 1]) + v0.skip(i as int)
            == insert_segment(v0.take(i - 1), r) + v0.skip(i - 1));
        i = i - 1;
    }
    proof {
        let t = v0.take(i as int);
        if i > 0 {
            assert(t.last() == v0[i - 1]);
        }
        assert(insert_segment(t, r) == t.push(r));
        assert(v0.insert(i as int, r) == t.push(r) + v0.skip(i as int));
    }
    v.insert(i, r);
}

fn parse_segment(p: Phdr) -> (r: ParsedSegment)
    requires
        p.p_vaddr + p.p_memsz + 4096 <= u64::MAX,
        p.p_vaddr + p.p_filesz <= u64::MAX,
        p.p_offset + p.p_filesz <= u64::MAX,
    ensures
        r == segment_of(p),
        segment_bounded(r),
{
    let chunk_off: u64 = align_down(p.p_vaddr, 4096);
    let end: u64 = align_up(p.p_vaddr + p.p_memsz, 4096);
    ParsedSegment {
        file_off: p.p_offset,
        file_size: p.p_filesz,
        vaddr: p.p_vaddr,
        mem_size: p.p_memsz,
        writable: (p.p_flags / 2) % 2 == 1,
        chunk_off,
        chunk_size: end - chunk_off,
    }
}

fn parse_dynamic(bytes: &Vec<u8>, segments: &Vec<ParsedSegment>, off: u64, size: u64) -> (r: DynFileInfo)
    requires
        off + size <= bytes@.len(),
        forall|k: int| 0 <= k < segments@.len() ==> segment_bounded(#[trigger] segments@[k]),
        elf::dyn_last(bytes@, off as int, elf::dyn_live(bytes@, off as int, (size / 16) as nat), DT_HASH)
            matches Some(h) ==> (file_offset(segments@, 0, h) matches Some(o) ==> o + 8 <= bytes@.len()),
    ensures
        r.describes(bytes@, segments@, off as int, elf::dyn_live(bytes@, off as int, (size / 16) as nat)),
{
    let n: u64 = count_dyn(bytes, off, size / 16);
    let len: usize = bytes.len();
    let num_syms: u64 = match find_dyn(bytes, off, n, DT_HASH) {
        Some(h) => match offset_of(segments, h) {
            Some(o) => read_u32(bytes, o + 4) as u64,
            None => 0,
        },
        None => 0,
    };
    DynFileInfo {
        symtab_va: find_dyn(bytes, off, n, DT_SYMTAB),
        strtab_va: find_dyn(bytes, off, n, DT_STRTAB),
        strsz: image::unwrap_or_zero(find_dyn(bytes, off, n, DT_STRSZ)),
        rela_va: find_dyn(bytes, off, n, DT_RELA),
        relasz: image::unwrap_or_zero(find_dyn(bytes, off, n, DT_RELASZ)),
        relacount: image::unwrap_or_zero(find_dyn(bytes, off, n, DT_RELACOUNT)),
        plt_va: find_dyn(bytes, off, n, DT_JMPREL),
        pltsz: image::unwrap_or_zero(find_dyn(bytes, off, n, DT_PLTRELSZ)),
        num_syms,
        needed: collect_dyn(bytes, off, n, DT_NEEDED),
        runpath_off: find_dyn(bytes, off, n, DT_RUNPATH),
        rpath_off: find_dyn(bytes, off, n, DT_RPATH),
    }
}

/// Parses a user image. Read-only pages are shared between processes and writable ones are not, so
/// an image with segments that share a page is refused, as is one with a segment aligned to more
/// than a page, one that reaches past the file, and one with nothing to load.
pub fn parse_user_elf(bytes: &Vec<u8>) -> (r: Result<ParsedImage, KError>)
    requires
        is_user_object(bytes@) ==> user_headers_sound(bytes@),
    ensures
        r is Err <==> user_elf_refused(bytes@),
        match r {
            Ok(img) => img.describes(bytes@) && img.bounded(),
            Err(e) => e == KError::InvalidArgument,
        },
{
    if !check_magic(bytes) {
        return Err(KError::InvalidArgument);
    }
    let ehdr: Ehdr = read_ehdr(bytes);
    if ehdr.e_phentsize as u64 != PHDR_SIZE {
        return Err(KError::InvalidArgument);
    }
    let len: usize = bytes.len();
    let ghost b = bytes@;
    let ghost num = ehdr.e_phnum as nat;

    let mut segments: Vec<ParsedSegment> = Vec::new();
    let mut dynamic: Option<(u64, u64)> = None;
    let mut i: u64 = 0;
    while i < ehdr.e_phnum as u64
        invariant
            i <= ehdr.e_phnum,
            num == ehdr.e_phnum,
            b == bytes@,
            ehdr == elf::ehdr_of(b),
            b.len() == len,
            is_user_object(b),
            user_headers_sound(b),
            segments@ == segments_of(b, i as nat),
            dynamic == dynamic_section(b, i as nat),
            forall|k: int| 0 <= k < segments@.len() ==> segment_bounded(#[trigger] segments@[k]),
            forall|k: int| 0 <= k < i ==> !#[trigger] bad_load(b, k),
        decreases ehdr.e_phnum - i,
    {
        let p: Phdr = read_phdr(bytes, ehdr.e_phoff + 56 * i);
        assert(p == image::phdr_of(b, i as int));
        if p.p_type == PT_LOAD {
            if p.p_align > 4096 || p.p_offset + p.p_filesz > len as u64 {
                assert(bad_load(b, i as int));
                return Err(KError::InvalidArgument);
            }
            insert_sorted(&mut segments, parse_segment(p));
        } else if p.p_type == PT_DYNAMIC {
            dynamic = Some((p.p_offset, p.p_filesz));
        }
        i = i + 1;
    }
    if segments.len() == 0 {
        return Err(KError::InvalidArgument);
    }
    let mut k: usize = 0;
    while k < segments.len() - 1
        invariant
            k < segments@.len(),
            segments@ == segments_of(b, num),
            b == bytes@,
            num == elf::ehdr_of(b).e_phnum,
            forall|j: int| 0 <= j < segments@.len() ==> segment_bounded(#[trigger] segments@[j]),
            forall|j: int| 0 <= j < k ==> !#[trigger] shares_page(segments@, j),
        decreases segments@.len() - k,
    {
        assert(segment_bounded(segments@[k as int]));
        if segments[k].chunk_off + segments[k].chunk_size > segments[k + 1].chunk_off {
            assert(shares_page(segments@, k as int));
            assert(segments_overlap(segments@));
            return Err(KError::InvalidArgument);
        }
        assert(!shares_page(segments@, k as int));
        k = k + 1;
    }
    assert(!segments_overlap(segments@));
    let last: ParsedSegment = segments[segments.len() - 1];
    assert(segment_bounded(segments@.last()));
    let total_size: u64 = last.chunk_off + last.chunk_size;
    let mut dyn_info: Option<DynFileInfo> = None;
    if let Some((off, size)) = dynamic {
        if off + size > len as u64 {
            return Err(KError::InvalidArgument);
        }
        dyn_info = Some(parse_dynamic(bytes, &segments, off, size));
    }
    Ok(ParsedImage { segments, dyn_info, entry: ehdr.e_entry, total_size })
}

/// The pages of one segment, prepared for one process.
pub struct StagedChunk {
    pub offset: u64,
    pub writable: bool,
    pub data: Vec<u8>,
}

/// What a staged chunk holds.
#[verifier::ext_equal]
pub struct ChunkView {
    pub offset: u64,
    pub writable: bool,
    pub data: Seq<u8>,
}

pub open spec fn chunk_views(c: Seq<StagedChunk>) -> Seq<ChunkView> {
    Seq::new(c.len(), |i: int| ChunkView { offset: c[i].offset, writable: c[i].writable, data: c[i].data@ })
}

/// The pages of segment `s`: its part of the file at its place, zeros around it.
pub open spec fn chunk_of(s: ParsedSegment, file: Seq<u8>) -> ChunkView {
    ChunkView {
        offset: s.chunk_off,
        writable: s.writable,
        data: elf::overwrite(
            Seq::new(s.chunk_size as nat, |i: int| 0u8),
            s.vaddr - s.chunk_off,
            file.subrange(s.file_off as int, s.file_off + s.file_size),
        ),
    }
}

/// The chunks that a load has to fill: all of them when nobody has loaded the image before, only
/// the writable ones otherwise.
pub open spec fn staged(segs: Seq<ParsedSegment>, file: Seq<u8>, cold: bool, n: nat) -> Seq<ChunkView>
    decreases n,
{
    if n == 0 {
        Seq::empty()
    } else {
        let rest = staged(segs, file, cold, (n - 1) as nat);
        if cold || segs[n - 1].writable { rest.push(chunk_of(segs[n - 1], file)) } else { rest }
    }
}

fn zeros(n: u64) -> (r: Vec<u8>)
    requires
        n <= usize::MAX,
    ensures
        r@ == Seq::new(n as nat, |i: int| 0u8),
{
    let mut v: Vec<u8> = Vec::new();
    let mut i: u64 = 0;
    while i < n
        invariant
            i <= n,
            v@ == Seq::new(i as nat, |j: int| 0u8),
        decreases n - i,
    {
        v.push(0);
        i = i + 1;
        assert(v@ =~= Seq::new(i as nat, |j: int| 0u8));
    }
    v
}

/// Prepares the chunks that this load has to fill.
pub fn build_staging_chunks(img: &ParsedImage, bytes: &Vec<u8>, cold: bool) -> (r: Vec<StagedChunk>)
    requires
        img.bounded(),
        forall|k: int| 0 <= k < img.segments@.len() ==> {
            let s = #[trigger] img.segments@[k];
            &&& s.file_off + s.file_size <= bytes@.len()
            &&& s.vaddr - s.chunk_off + s.file_size <= s.chunk_size
            &&& s.chunk_size <= usize::MAX
        },
    ensures
        chunk_views(r@) == staged(img.segments@, bytes@, cold, img.segments@.len()),
{
    let mut out: Vec<StagedChunk> = Vec::new();
    let mut i: usize = 0;
    assert(chunk_views(out@) =~= Seq::empty());
    while i < img.segments.len()
        invariant
            i <= img.segments@.len(),
            img.bounded(),
            forall|k: int| 0 <= k < img.segments@.len() ==> {
                let s = #[trigger] img.segments@[k];
                &&& s.file_off + s.file_size <= bytes@.len()
                &&& s.vaddr - s.chunk_off + s.file_size <= s.chunk_size
                &&& s.chunk_size <= usize::MAX
            },
            chunk_views(out@) == staged(img.segments@, bytes@, cold, i as nat),
        decreases img.segments@.len() - i,
    {
        let s: ParsedSegment = img.segments[i];
        assert(s == img.segments@[i as int]);
        if cold || s.writable {
            let ghost before = chunk_views(out@);
            let mut data: Vec<u8> = zeros(s.chunk_size);
            copy_into(&mut data, s.vaddr - s.chunk_off, bytes, s.file_off, s.file_size);
            out.push(StagedChunk { offset: s.chunk_off, writable: s.writable, data });
            assert(chunk_views(out@) =~= before.push(chunk_of(s, bytes@)));
        }
        i = i + 1;
    }
    out
}

/// A segment of a module that is loaded already, with its contents where they could be read.
pub struct DepSegment {
    pub offset: u64,
    pub size: u64,
    pub data: Option<Vec<u8>>,
}

/// A loaded module as a dependent sees it: its base in this process, and where its symbols lie.
pub struct DepModule {
    pub base: u64,
    pub dyn_tab_off: Option<u64>,
    pub num_syms: u64,
    pub dyn_str_off: Option<u64>,
    pub dyn_str_size: u64,
    pub segments: Vec<DepSegment>,
}

/// The first segment from `i` on that holds `len` bytes at `off`.
pub open spec fn range_segment(s: Seq<DepSegment>, i: int, off: int, len: int) -> Option<int>
    decreases s.len() - i,
{
    if i < 0 || i >= s.len() {
        None
    } else if s[i].offset <= off && off + len <= s[i].offset + s[i].size {
        Some(i)
    } else {
        range_segment(s, i + 1, off, len)
    }
}

impl DepModule {
    pub open spec fn well_formed(self) -> bool {
        &&& self.num_syms <= 0xffff_ffff
        &&& self.dyn_tab_off matches Some(o) ==> o + 24 * self.num_syms <= u64::MAX
        &&& self.dyn_str_off matches Some(o) ==> o + self.dyn_str_size <= u64::MAX
        &&& forall|k: int| 0 <= k < self.segments@.len() ==> {
            let s = #[trigger] self.segments@[k];
            &&& s.offset + s.size <= u64::MAX
            &&& s.data matches Some(d) ==> d@.len() == s.size
        }
        &&& self.readable() ==> forall|i: int| 0 <= i < self.num_syms
            ==> self.base + (#[trigger] self.symbol(i)).st_value <= u64::MAX
    }

    /// Both symbol tables are there and can be read.
    pub open spec fn readable(self) -> bool {
        &&& self.dyn_tab_off is Some && self.dyn_str_off is Some
        &&& self.num_syms != 0
        &&& self.tab_segment() is Some && self.segments@[self.tab_segment()->0].data is Some
        &&& self.str_segment() is Some && self.segments@[self.str_segment()->0].data is Some
    }

    pub open spec fn tab_segment(self) -> Option<int> {
        range_segment(self.segments@, 0, self.dyn_tab_off->0 as int, 24 * self.num_syms)
    }

    pub open spec fn str_segment(self) -> Option<int> {
        range_segment(self.segments@, 0, self.dyn_str_off->0 as int, self.dyn_str_size as int)
    }

    pub open spec fn tab(self) -> Seq<u8> {
        self.segments@[self.tab_segment()->0].data->0@
    }

    pub open spec fn strs(self) -> Seq<u8> {
        self.segments@[self.str_segment()->0].data->0@
    }

    pub open spec fn symbol(self, i: int) -> Sym {
        elf::sym_at(self.tab(), sym_place(self.dyn_tab_off->0 - self.segments@[self.tab_segment()->0].offset, i))
    }

    pub open spec fn name(self, i: int) -> Seq<u8> {
        util::cstr_at(
            self.strs(),
            self.dyn_str_off->0 - self.segments@[self.str_segment()->0].offset + self.symbol(i).st_name,
        )
    }

    /// The first defined symbol from `i` on with the given name.
    pub open spec fn find(self, i: int, name: Seq<u8>) -> Option<int>
        decreases self.num_syms - i,
    {
        if i >= self.num_syms {
            None
        } else if self.symbol(i).st_shndx != SHN_UNDEF && self.name(i) == name {
            Some(i)
        } else {
            self.find(i + 1, name)
        }
    }

    pub open spec fn export(self, name: Seq<u8>) -> Option<u64> {
        if self.readable() {
            match self.find(0, name) {
                Some(i) => Some((self.base + self.symbol(i).st_value) as u64),
                None => None,
            }
        } else {
            None
        }
    }

    /// The segment that holds a whole range of the module.
    pub fn map_module_range(&self, off: u64, len: u64) -> (r: Option<usize>)
        requires
            self.well_formed(),
            off + len <= u64::MAX,
        ensures
            match r {
                Some(k) => {
                    &&& range_segment(self.segments@, 0, off as int, len as int) == Some(k as int)
                    &&& k < self.segments@.len()
                    &&& self.segments@[k as int].offset <= off
                    &&& off + len <= self.segments@[k as int].offset + self.segments@[k as int].size
                },
                None => range_segment(self.segments@, 0, off as int, len as int) is None,
            },
    {
        let mut i: usize = 0;
        while i < self.segments.len()
            invariant
                i <= self.segments@.len(),
                self.well_formed(),
                off + len <= u64::MAX,
                range_segment(self.segments@, 0, off as int, len as int)
                    == range_segment(self.segments@, i as int, off as int, len as int),
            decreases self.segments@.len() - i,
        {
            assert(self.segments@[i as int].offset + self.segments@[i as int].size <= u64::MAX);
            if off >= self.segments[i].offset && off + len <= self.segments[i].offset + self.segments[i].size {
                return Some(i);
            }
            i = i + 1;
        }
        None
    }

    /// Looks an exported symbol up.
    pub fn lookup(&self, name: &Vec<u8>) -> (r: Option<u64>)
        requires
            self.well_formed(),
        ensures
            r == self.export(name@),
    {
        let tab_off: u64 = match self.dyn_tab_off { Some(t) => t, None => { return None; } };
        let str_off: u64 = match self.dyn_str_off { Some(t) => t, None => { return None; } };
        if self.num_syms == 0 {
            return None;
        }
        let ts: usize = match self.map_module_range(tab_off, 24 * self.num_syms) {
            Some(k) => k,
            None => { return None; },
        };
        let tab: &Vec<u8> = match &self.segments[ts].data { Some(d) => d, None => { return None; } };
        let ss: usize = match self.map_module_range(str_off, self.dyn_str_size) {
            Some(k) => k,
            None => { return None; },
        };
        let strs: &Vec<u8> = match &self.segments[ss].data { Some(d) => d, None => { return None; } };
        assert(self.readable());
        assert(self.segments@[ts as int].data->0@.len() == self.segments@[ts as int].size);
        let to: u64 = tab_off - self.segments[ts].offset;
        let so: u64 = str_off - self.segments[ss].offset;
        let len: usize = tab.len();
        let strs_len: usize = strs.len();
        let mut i: u64 = 0;
        while i < self.num_syms
            invariant
                i <= self.num_syms,
                self.well_formed(),
                self.readable(),
                self.tab_segment() == Some(ts as int),
                self.str_segment() == Some(ss as int),
                tab@ == self.tab(),
                strs@ == self.strs(),
                len == tab@.len(),
                strs_len == strs@.len(),
                to == self.dyn_tab_off->0 - self.segments@[ts as int].offset,
                so == self.dyn_str_off->0 - self.segments@[ss as int].offset,
                to + 24 * self.num_syms <= len,
                so <= strs_len,
                self.find(0, name@) == self.find(i as int, name@),
            decreases self.num_syms - i,
        {
            let sym: Sym = read_sym(tab, to + 24 * i);
            assert(sym_place(to as int, i as int) == to + 24 * i);
            assert(self.symbol(i as int) == sym);
            if sym.st_shndx != SHN_UNDEF {
                let at: u64 = if sym.st_name as u64 <= u64::MAX - so { so + sym.st_name as u64 } else { u64::MAX };
                let sym_name: Vec<u8> = read_cstr(strs, at);
                if bytes_eq(&sym_name, name) {
                    return Some(self.base + sym.st_value);
                }
            }
            i = i + 1;
        }
        None
    }
}

/// Place of symbol `i` in a table at `tab`.
pub open spec fn sym_place(tab: int, i: int) -> int {
    tab + 24 * i
}

/// What the first dependency from `k` on that exports `name` gives for it.
pub open spec fn user_import(deps: Seq<DepModule>, k: int, name: Seq<u8>) -> Option<u64>
    decreases deps.len() - k,
{
    if k < 0 || k >= deps.len() {
        None
    } else {
        match deps[k].export(name) {
            Some(a) => Some(a),
            None => user_import(deps, k + 1, name),
        }
    }
}

/// Looks an exported symbol up in the dependencies, in order.
pub fn resolve_user_import(name: &Vec<u8>, deps: &Vec<DepModule>) -> (r: Option<u64>)
    requires
        forall|k: int| 0 <= k < deps@.len() ==> (#[trigger] deps@[k]).well_formed(),
    ensures
        r == user_import(deps@, 0, name@),
{
    let mut k: usize = 0;
    while k < deps.len()
        invariant
            k <= deps@.len(),
            forall|j: int| 0 <= j < deps@.len() ==> (#[trigger] deps@[j]).well_formed(),
            user_import(deps@, 0, name@) == user_import(deps@, k as int, name@),
        decreases deps@.len() - k,
    {
        assert(deps@[k as int].well_formed());
        let found: Option<u64> = deps[k].lookup(name);
        if found.is_some() {
            return found;
        }
        k = k + 1;
    }
    None
}

/// How one relocation of a user image ends.
pub enum UserReloc {
    Refused,
    /// Nothing is stored.
    Skip,
    /// The value is stored at the target.
    Store(u64),
}

/// Places of the symbol and the string table in the file.
#[derive(Clone, Copy)]
pub struct SymbolFiles {
    pub symtab_off: Option<u64>,
    pub strtab_off: Option<u64>,
}

/// The value that a relocation stores, for an image at `base`. A relocation outside the segments or
/// into a read-only one is refused, as is one whose symbol cannot be resolved.
pub open spec fn user_reloc(
    segs: Seq<ParsedSegment>, file: Seq<u8>, base: u64, deps: Seq<DepModule>, syms: SymbolFiles, r: Rela,
) -> UserReloc {
    let t = elf::rela_type(r);
    match segment_at(segs, 0, r.r_offset) {
        None => UserReloc::Refused,
        Some(k) => if !segs[k].writable {
            UserReloc::Refused
        } else if t == R_X86_64_RELATIVE {
            UserReloc::Store(loader::wrap_sum(base, r.r_addend))
        } else if loader::is_symbol_reloc(t) {
            match syms.symtab_off {
                None => UserReloc::Refused,
                Some(tab) => {
                    let sym = elf::sym_at(file, tab + 24 * elf::rela_sym(r));
                    if sym.st_shndx != SHN_UNDEF {
                        UserReloc::Store(loader::symbol_reloc_value(r, (base + sym.st_value) as u64))
                    } else {
                        match syms.strtab_off {
                            None => UserReloc::Refused,
                            Some(strs) => match user_import(deps, 0, util::cstr_at(file, strs + sym.st_name)) {
                                Some(v) => UserReloc::Store(loader::symbol_reloc_value(r, v)),
                                None => UserReloc::Refused,
                            },
                        }
                    }
                },
            }
        } else {
            UserReloc::Skip
        },
    }
}

/// The symbol of a relocation lies in the file, and its address in the address space.
pub open spec fn user_reloc_sound(file: Seq<u8>, base: u64, syms: SymbolFiles, r: Rela) -> bool {
    &&& r.r_offset + 8 <= u64::MAX
    &&& loader::is_symbol_reloc(elf::rela_type(r)) ==> (syms.symtab_off matches Some(tab) ==> {
        let sym = elf::sym_at(file, tab + 24 * elf::rela_sym(r));
        &&& tab + 24 * elf::rela_sym(r) + 24 <= file.len()
        &&& sym.st_shndx != SHN_UNDEF ==> base + sym.st_value <= u64::MAX
        &&& syms.strtab_off matches Some(strs) ==> strs + sym.st_name <= u64::MAX
    })
}

/// The first chunk from `i` on that holds all eight bytes at `va`.
pub open spec fn target_chunk(c: Seq<ChunkView>, i: int, va: u64) -> Option<int>
    decreases c.len() - i,
{
    if i < 0 || i >= c.len() {
        None
    } else if c[i].offset <= va && va + 8 <= c[i].offset + c[i].data.len() {
        Some(i)
    } else {
        target_chunk(c, i + 1, va)
    }
}

/// The chunks after one relocation, and whether it was accepted.
pub open spec fn store_reloc(c: Seq<ChunkView>, va: u64, o: UserReloc) -> (Seq<ChunkView>, bool) {
    match o {
        UserReloc::Refused => (c, false),
        UserReloc::Skip => (c, true),
        UserReloc::Store(v) => match target_chunk(c, 0, va) {
            Some(k) => (
                c.update(k, ChunkView { data: elf::put64(c[k].data, va - c[k].offset, v), ..c[k] }),
                true,
            ),
            None => (c, false),
        },
    }
}

/// The first `n` relocations at `off`, applied in order up to the first that is refused.
pub open spec fn user_reloc_run(
    c: Seq<ChunkView>, segs: Seq<ParsedSegment>, file: Seq<u8>, base: u64, deps: Seq<DepModule>,
    syms: SymbolFiles, off: int, n: nat,
) -> (Seq<ChunkView>, bool)
    decreases n,
{
    if n == 0 {
        (c, true)
    } else {
        let before = user_reloc_run(c, segs, file, base, deps, syms, off, (n - 1) as nat);
        let r = elf::rela_at(file, off + 24 * (n - 1));
        if before.1 {
            store_reloc(before.0, r.r_offset, user_reloc(segs, file, base, deps, syms, r))
        } else {
            before
        }
    }
}

proof fn lemma_user_reloc_failed(
    c: Seq<ChunkView>, segs: Seq<ParsedSegment>, file: Seq<u8>, base: u64, deps: Seq<DepModule>,
    syms: SymbolFiles, off: int, i: nat, n: nat,
)
    requires
        i <= n,
        !user_reloc_run(c, segs, file, base, deps, syms, off, i).1,
    ensures
        user_reloc_run(c, segs, file, base, deps, syms, off, n)
            == user_reloc_run(c, segs, file, base, deps, syms, off, i),
    decreases n,
{
    if i < n {
        lemma_user_reloc_failed(c, segs, file, base, deps, syms, off, i, (n - 1) as nat);
    }
}

fn reloc_value(
    img: &ParsedImage, bytes: &Vec<u8>, base: u64, deps: &Vec<DepModule>, syms: SymbolFiles, entry: Rela,
) -> (r: UserReloc)
    requires
        img.bounded(),
        user_reloc_sound(bytes@, base, syms, entry),
        forall|k: int| 0 <= k < deps@.len() ==> (#[trigger] deps@[k]).well_formed(),
    ensures
        r == user_reloc(img.segments@, bytes@, base, deps@, syms, entry),
{
    let rtype: u32 = (entry.r_info % 0x100000000) as u32;
    let k: usize = match img.segment_for_va(entry.r_offset) {
        Some(k) => k,
        None => { return UserReloc::Refused; },
    };
    if !img.segments[k].writable {
        return UserReloc::Refused;
    }
    if rtype == R_X86_64_RELATIVE {
        return UserReloc::Store(wrapping_sum(base, entry.r_addend));
    }
    if rtype == R_X86_64_64 || rtype == R_GLOB_DAT || rtype == R_JUMP_SLOT {
        let tab: u64 = match syms.symtab_off { Some(t) => t, None => { return UserReloc::Refused; } };
        let len: usize = bytes.len();
        let idx: u64 = entry.r_info / 0x100000000;
        let sym: Sym = read_sym(bytes, tab + 24 * idx);
        let resolved: u64 = if sym.st_shndx == SHN_UNDEF {
            let strs: u64 = match syms.strtab_off { Some(t) => t, None => { return UserReloc::Refused; } };
            let name: Vec<u8> = read_cstr(bytes, strs + sym.st_name as u64);
            match resolve_user_import(&name, deps) {
                Some(v) => v,
                None => { return UserReloc::Refused; },
            }
        } else {
            base + sym.st_value
        };
        return UserReloc::Store(
            if rtype == R_JUMP_SLOT { resolved } else { wrapping_sum(resolved, entry.r_addend) });
    }
    UserReloc::Skip
}

/// Every chunk ends inside the address space.
pub open spec fn chunks_bounded(c: Seq<ChunkView>) -> bool {
    forall|k: int| 0 <= k < c.len() ==> (#[trigger] c[k]).offset + c[k].data.len() <= u64::MAX
}

fn apply_store(chunks: &mut Vec<StagedChunk>, va: u64, o: UserReloc) -> (r: bool)
    requires
        va + 8 <= u64::MAX,
        chunks_bounded(chunk_views(old(chunks)@)),
    ensures
        (chunk_views(final(chunks)@), r) == store_reloc(chunk_views(old(chunks)@), va, o),
        chunks_bounded(chunk_views(final(chunks)@)),
{
    match o {
        UserReloc::Refused => false,
        UserReloc::Skip => true,
        UserReloc::Store(v) => {
            let ghost c = chunk_views(chunks@);
            let mut i: usize = 0;
            while i < chunks.len()
                invariant
                    i <= chunks@.len(),
                    va + 8 <= u64::MAX,
                    chunks@ == old(chunks)@,
                    c == chunk_views(chunks@),
                    o == UserReloc::Store(v),
                    chunks_bounded(c),
                    target_chunk(c, 0, va) == target_chunk(c, i as int, va),
                decreases chunks@.len() - i,
            {
                assert(c[i as int].offset + c[i as int].data.len() <= u64::MAX);
                let off: u64 = chunks[i].offset;
                let n: usize = chunks[i].data.len();
                if va >= off && va + 8 <= off + n as u64 {
                    let mut ch: StagedChunk = chunks.remove(i);
                    write_u64(&mut ch.data, va - off, v);
                    chunks.insert(i, ch);
                    assert(chunk_views(chunks@) =~= store_reloc(c, va, o).0);
                    return true;
                }
                i = i + 1;
            }
            false
        },
    }
}

/// Applies the `count` relocations at `rela_off` of the file to the staged chunks.
pub fn process_rela_entries(
    img: &ParsedImage, bytes: &Vec<u8>, base: u64, chunks: &mut Vec<StagedChunk>, deps: &Vec<DepModule>,
    rela_off: u64, count: u64, syms: SymbolFiles,
) -> (r: Result<(), KError>)
    requires
        img.bounded(),
        rela_off + 24 * count <= bytes@.len(),
        chunks_bounded(chunk_views(old(chunks)@)),
        forall|k: int| 0 <= k < deps@.len() ==> (#[trigger] deps@[k]).well_formed(),
        forall|k: int| 0 <= k < count
            ==> user_reloc_sound(bytes@, base, syms, #[trigger] elf::rela_at(bytes@, rela_off + 24 * k)),
    ensures
        ({
            let run = user_reloc_run(
                chunk_views(old(chunks)@), img.segments@, bytes@, base, deps@, syms, rela_off as int, count as nat);
            &&& chunk_views(final(chunks)@) == run.0
            &&& r == (if run.1 { Ok(()) } else { Err(KError::InvalidArgument) })
        }),
        chunks_bounded(chunk_views(final(chunks)@)),
{
    let ghost c = chunk_views(chunks@);
    let len: usize = bytes.len();
    let mut i: u64 = 0;
    while i < count
        invariant
            i <= count,
            img.bounded(),
            len == bytes@.len(),
            rela_off + 24 * count <= len,
            c == chunk_views(old(chunks)@),
            chunks_bounded(chunk_views(chunks@)),
            forall|k: int| 0 <= k < deps@.len() ==> (#[trigger] deps@[k]).well_formed(),
            forall|k: int| 0 <= k < count
                ==> user_reloc_sound(bytes@, base, syms, #[trigger] elf::rela_at(bytes@, rela_off + 24 * k)),
            user_reloc_run(c, img.segments@, bytes@, base, deps@, syms, rela_off as int, i as nat)
                == (chunk_views(chunks@), true),
        decreases count - i,
    {
        let entry: Rela = read_rela(bytes, rela_off + 24 * i);
        assert(entry == elf::rela_at(bytes@, rela_off + 24 * i));
        let o: UserReloc = reloc_value(img, bytes, base, deps, syms, entry);
        let ok: bool = apply_store(chunks, entry.r_offset, o);
        if !ok {
            proof {
                lemma_user_reloc_failed(
                    c, img.segments@, bytes@, base, deps@, syms, rela_off as int, (i + 1) as nat, count as nat);
            }
            return Err(KError::InvalidArgument);
        }
        i = i + 1;
    }
    Ok(())
}

pub open spec fn opt_file_offset(s: Seq<ParsedSegment>, va: Option<u64>) -> Option<u64> {
    match va { Some(v) => file_offset(s, 0, v), None => None }
}

impl ParsedImage {
    pub open spec fn symbol_files(self) -> SymbolFiles {
        SymbolFiles {
            symtab_off: opt_file_offset(self.segments@, self.dyn_info->0.symtab_va),
            strtab_off: opt_file_offset(self.segments@, self.dyn_info->0.strtab_va),
        }
    }

    /// One relocation table applied: refused if the file does not hold it.
    pub open spec fn table_run(
        self, c: Seq<ChunkView>, file: Seq<u8>, base: u64, deps: Seq<DepModule>, va: Option<u64>, size: u64,
    ) -> (Seq<ChunkView>, bool) {
        match va {
            None => (c, true),
            Some(v) => match file_offset(self.segments@, 0, v) {
                None => (c, false),
                Some(off) => if off + size > file.len() {
                    (c, false)
                } else {
                    user_reloc_run(
                        c, self.segments@, file, base, deps, self.symbol_files(), off as int, (size / 24) as nat)
                },
            },
        }
    }

    /// All relocations: the relocation table, and if that is accepted the linkage table.
    pub open spec fn relocated(
        self, c: Seq<ChunkView>, file: Seq<u8>, base: u64, deps: Seq<DepModule>,
    ) -> (Seq<ChunkView>, bool) {
        match self.dyn_info {
            None => (c, true),
            Some(d) => {
                let first = self.table_run(c, file, base, deps, d.rela_va, d.relasz);
                if first.1 { self.table_run(first.0, file, base, deps, d.plt_va, d.pltsz) } else { first }
            },
        }
    }

    /// The symbols that the table's relocations refer to lie in the file.
    pub open spec fn table_sound(self, file: Seq<u8>, base: u64, va: Option<u64>, size: u64) -> bool {
        va matches Some(v) ==> (file_offset(self.segments@, 0, v) matches Some(off) ==> {
            &&& off + size <= u64::MAX
            &&& off + size <= file.len() ==> forall|k: int| 0 <= k < size as int / 24 ==> user_reloc_sound(
                file, base, self.symbol_files(), #[trigger] elf::rela_at(file, off + 24 * k))
        })
    }

    fn opt_offset(&self, va: Option<u64>) -> (r: Option<u64>)
        requires
            self.bounded(),
        ensures
            r == opt_file_offset(self.segments@, va),
    {
        match va { Some(v) => self.va_to_off(v), None => None }
    }

    fn apply_table(
        &self, bytes: &Vec<u8>, base: u64, chunks: &mut Vec<StagedChunk>, deps: &Vec<DepModule>,
        syms: SymbolFiles, va: Option<u64>, size: u64,
    ) -> (r: bool)
        requires
            self.bounded(),
            syms == self.symbol_files(),
            self.table_sound(bytes@, base, va, size),
            chunks_bounded(chunk_views(old(chunks)@)),
            forall|k: int| 0 <= k < deps@.len() ==> (#[trigger] deps@[k]).well_formed(),
        ensures
            (chunk_views(final(chunks)@), r)
                == self.table_run(chunk_views(old(chunks)@), bytes@, base, deps@, va, size),
            chunks_bounded(chunk_views(final(chunks)@)),
    {
        let v: u64 = match va { Some(v) => v, None => { return true; } };
        let off: u64 = match self.va_to_off(v) { Some(o) => o, None => { return false; } };
        if off + size > bytes.len() as u64 {
            return false;
        }
        process_rela_entries(self, bytes, base, chunks, deps, off, size / 24, syms).is_ok()
    }
}

/// Applies all relocations of a user image to its staged chunks.
pub fn apply_user_relocations(
    img: &ParsedImage, bytes: &Vec<u8>, base: u64, chunks: &mut Vec<StagedChunk>, deps: &Vec<DepModule>,
) -> (r: Result<(), KError>)
    requires
        img.bounded(),
        chunks_bounded(chunk_views(old(chunks)@)),
        forall|k: int| 0 <= k < deps@.len() ==> (#[trigger] deps@[k]).well_formed(),
        img.dyn_info matches Some(d) ==> img.table_sound(bytes@, base, d.rela_va, d.relasz)
            && img.table_sound(bytes@, base, d.plt_va, d.pltsz),
    ensures
        chunk_views(final(chunks)@) == img.relocated(chunk_views(old(chunks)@), bytes@, base, deps@).0,
        r == (if img.relocated(chunk_views(old(chunks)@), bytes@, base, deps@).1 {
            Ok(())
        } else {
            Err(KError::InvalidArgument)
        }),
{
    match &img.dyn_info {
        None => Ok(()),
        Some(d) => {
            let syms: SymbolFiles = SymbolFiles {
                symtab_off: img.opt_offset(d.symtab_va),
                strtab_off: img.opt_offset(d.strtab_va),
            };
            if !img.apply_table(bytes, base, chunks, deps, syms, d.rela_va, d.relasz) {
                return Err(KError::InvalidArgument);
            }
            if !img.apply_table(bytes, base, chunks, deps, syms, d.plt_va, d.pltsz) {
                return Err(KError::InvalidArgument);
            }
            Ok(())
        },
    }
}

/// Physical pages of one segment of a module.
#[derive(Clone, Copy)]
pub struct UserModuleSegment {
    pub phys_addr: u64,
    pub offset: u64,
    pub size: u64,
    pub writable: bool,
}

/// What all processes that have a module loaded share of it.
pub struct SharedUserModule {
    pub canonical_file_path: Vec<u8>,
    pub segments: Vec<UserModuleSegment>,
    pub total_size: u64,
    pub entry_offset: u64,
    pub dyn_tab_off: Option<u64>,
    pub num_syms: u64,
    pub dyn_str_off: Option<u64>,
    pub dyn_str_size: u64,
}

/// A request to map physical pages into the process.
#[derive(Clone, Copy)]
pub struct Mapping {
    pub phys_addr: u64,
    pub virt_addr: u64,
    pub size: u64,
}

/// The mappings of the read-only segments among the first `n`.
pub open spec fn shared_maps(s: Seq<UserModuleSegment>, base: u64, n: nat) -> Seq<Mapping>
    decreases n,
{
    if n == 0 {
        Seq::empty()
    } else {
        let rest = shared_maps(s, base, (n - 1) as nat);
        let g = s[n - 1];
        if g.writable {
            rest
        } else {
            rest.push(Mapping { phys_addr: g.phys_addr, virt_addr: (base + g.offset) as u64, size: g.size })
        }
    }
}

impl SharedUserModule {
    /// What to map into a process that loads the module at `base`: the read-only segments, which all
    /// processes share.
    pub fn shared_mappings(&self, base: u64) -> (r: Vec<Mapping>)
        requires
            forall|k: int| 0 <= k < self.segments@.len()
                ==> base + (#[trigger] self.segments@[k]).offset <= u64::MAX,
        ensures
            r@ == shared_maps(self.segments@, base, self.segments@.len()),
    {
        let mut r: Vec<Mapping> = Vec::new();
        let mut i: usize = 0;
        while i < self.segments.len()
            invariant
                i <= self.segments@.len(),
                forall|k: int| 0 <= k < self.segments@.len()
                    ==> base + (#[trigger] self.segments@[k]).offset <= u64::MAX,
                r@ == shared_maps(self.segments@, base, i as nat),
            decreases self.segments@.len() - i,
        {
            let g: UserModuleSegment = self.segments[i];
            assert(base + self.segments@[i as int].offset <= u64::MAX);
            if !g.writable {
                r.push(Mapping { phys_addr: g.phys_addr, virt_addr: base + g.offset, size: g.size });
            }
            i = i + 1;
        }
        r
    }
}

/// Records where the staged chunks were committed: chunk `i` went to the pages at `phys[i]`.
pub fn segment_records(chunks: &Vec<StagedChunk>, phys: &Vec<u64>) -> (r: Vec<UserModuleSegment>)
    requires
        chunks@.len() == phys@.len(),
    ensures
        r@.len() == chunks@.len(),
        forall|i: int| 0 <= i < r@.len() ==> #[trigger] r@[i] == (UserModuleSegment {
            phys_addr: phys@[i],
            offset: chunks@[i].offset,
            size: chunks@[i].data@.len() as u64,
            writable: chunks@[i].writable,
        }),
{
    let mut r: Vec<UserModuleSegment> = Vec::new();
    let mut i: usize = 0;
    while i < chunks.len()
        invariant
            i <= chunks@.len(),
            chunks@.len() == phys@.len(),
            r@.len() == i,
            forall|j: int| 0 <= j < i ==> #[trigger] r@[j] == (UserModuleSegment {
                phys_addr: phys@[j],
                offset: chunks@[j].offset,
                size: chunks@[j].data@.len() as u64,
                writable: chunks@[j].writable,
            }),
        decreases chunks@.len() - i,
    {
        r.push(UserModuleSegment {
            phys_addr: phys[i],
            offset: chunks[i].offset,
            size: chunks[i].data.len() as u64,
            writable: chunks[i].writable,
        });
        i = i + 1;
    }
    r
}

/// A module as one process has it.
#[derive(Clone, Copy)]
pub struct UserModule {
    pub base: u64,
    pub entry: u64,
}

/// What is shared of an image that no process had loaded before.
pub fn share_image(img: &ParsedImage, path: Vec<u8>, segments: Vec<UserModuleSegment>) -> (r: SharedUserModule)
    ensures
        r.canonical_file_path == path,
        r.segments == segments,
        r.total_size == img.total_size,
        r.entry_offset == img.entry,
        match img.dyn_info {
            Some(d) => {
                &&& r.dyn_tab_off == d.symtab_va
                &&& r.num_syms == d.num_syms
                &&& r.dyn_str_off == d.strtab_va
                &&& r.dyn_str_size == d.strsz
            },
            None => r.dyn_tab_off is None && r.num_syms == 0 && r.dyn_str_off is None && r.dyn_str_size == 0,
        },
{
    match &img.dyn_info {
        Some(d) => SharedUserModule {
            canonical_file_path: path,
            segments,
            total_size: img.total_size,
            entry_offset: img.entry,
            dyn_tab_off: d.symtab_va,
            num_syms: d.num_syms,
            dyn_str_off: d.strtab_va,
            dyn_str_size: d.strsz,
        },
        None => SharedUserModule {
            canonical_file_path: path,
            segments,
            total_size: img.total_size,
            entry_offset: img.entry,
            dyn_tab_off: None,
            num_syms: 0,
            dyn_str_off: None,
            dyn_str_size: 0,
        },
    }
}

/// What one load into a process comes to: what to map of the shared image, and what to fill.
pub struct UserLoadPlan {
    pub shared: Vec<Mapping>,
    pub chunks: Vec<StagedChunk>,
}

/// Works out a load of the image at `base`. Where another process has it loaded already, its
/// read-only segments are mapped and only the writable ones are filled from the file; else all are
/// filled. The chunks come out relocated against the dependencies.
pub fn load_user_into_process(
    img: &ParsedImage, bytes: &Vec<u8>, base: u64, deps: &Vec<DepModule>, existing: Option<&SharedUserModule>,
) -> (r: Result<UserLoadPlan, KError>)
    requires
        img.bounded(),
        forall|k: int| 0 <= k < img.segments@.len() ==> {
            let s = #[trigger] img.segments@[k];
            &&& s.file_off + s.file_size <= bytes@.len()
            &&& s.vaddr - s.chunk_off + s.file_size <= s.chunk_size
            &&& s.chunk_size <= usize::MAX
        },
        forall|k: int| 0 <= k < deps@.len() ==> (#[trigger] deps@[k]).well_formed(),
        img.dyn_info matches Some(d) ==> img.table_sound(bytes@, base, d.rela_va, d.relasz)
            && img.table_sound(bytes@, base, d.plt_va, d.pltsz),
        existing matches Some(m) ==> forall|k: int| 0 <= k < m.segments@.len()
            ==> base + (#[trigger] m.segments@[k]).offset <= u64::MAX,
    ensures
        ({
            let fresh = staged(img.segments@, bytes@, existing is None, img.segments@.len());
            let done = img.relocated(fresh, bytes@, base, deps@);
            match r {
                Ok(p) => {
                    &&& done.1
                    &&& chunk_views(p.chunks@) == done.0
                    &&& p.shared@ == (match existing {
                        Some(m) => shared_maps(m.segments@, base, m.segments@.len()),
                        None => Seq::empty(),
                    })
                },
                Err(e) => !done.1 && e == KError::InvalidArgument,
            }
        }),
{
    let cold: bool = existing.is_none();
    let mut chunks: Vec<StagedChunk> = build_staging_chunks(img, bytes, cold);
    proof {
        lemma_staged_bounded(img.segments@, bytes@, cold, img.segments@.len());
    }
    if apply_user_relocations(img, bytes, base, &mut chunks, deps).is_err() {
        return Err(KError::InvalidArgument);
    }
    let shared: Vec<Mapping> = match existing {
        Some(m) => m.shared_mappings(base),
        None => Vec::new(),
    };
    Ok(UserLoadPlan { shared, chunks })
}

proof fn lemma_staged_bounded(segs: Seq<ParsedSegment>, file: Seq<u8>, cold: bool, n: nat)
    requires
        n <= segs.len(),
        forall|k: int| 0 <= k < segs.len() ==> segment_bounded(#[trigger] segs[k]),
    ensures
        chunks_bounded(staged(segs, file, cold, n)),
    decreases n,
{
    if n > 0 {
        lemma_staged_bounded(segs, file, cold, (n - 1) as nat);
        assert(segment_bounded(segs[n - 1]));
    }
}

proof fn lemma_only_writable(segs: Seq<ParsedSegment>, file: Seq<u8>, n: nat)
    requires
        n <= segs.len(),
    ensures
        forall|k: int| 0 <= k < staged(segs, file, false, n).len() ==> (#[trigger] staged(segs, file, false, n)[k]).writable,
    decreases n,
{
    if n > 0 {
        lemma_only_writable(segs, file, (n - 1) as nat);
        let rest = staged(segs, file, false, (n - 1) as nat);
        let all = staged(segs, file, false, n);
        assert forall|k: int| 0 <= k < all.len() implies (#[trigger] all[k]).writable by {
            if k < rest.len() {
                assert(rest[k].writable);
                assert(all[k] == rest[k]);
            }
        }
    }
}

proof fn lemma_store_keeps_shape(c: Seq<ChunkView>, va: u64, o: UserReloc)
    ensures
        store_reloc(c, va, o).0.len() == c.len(),
        forall|k: int| 0 <= k < c.len() ==> {
            let d = #[trigger] store_reloc(c, va, o).0[k];
            d.offset == c[k].offset && d.writable == c[k].writable && d.data.len() == c[k].data.len()
        },
{
    lemma_target_in_range(c, 0, va);
}

proof fn lemma_target_in_range(c: Seq<ChunkView>, i: int, va: u64)
    ensures
        target_chunk(c, i, va) matches Some(k) ==> i <= k < c.len() && 0 <= k,
    decreases c.len() - i,
{
    if 0 <= i < c.len() {
        lemma_target_in_range(c, i + 1, va);
    }
}

proof fn lemma_run_keeps_shape(
    c: Seq<ChunkView>, segs: Seq<ParsedSegment>, file: Seq<u8>, base: u64, deps: Seq<DepModule>,
    syms: SymbolFiles, off: int, n: nat,
)
    ensures
        ({
            let d = user_reloc_run(c, segs, file, base, deps, syms, off, n).0;
            d.len() == c.len() && forall|k: int| 0 <= k < c.len() ==> {
                (#[trigger] d[k]).offset == c[k].offset && d[k].writable == c[k].writable
                    && d[k].data.len() == c[k].data.len()
            }
        }),
    decreases n,
{
    if n > 0 {
        lemma_run_keeps_shape(c, segs, file, base, deps, syms, off, (n - 1) as nat);
        let before = user_reloc_run(c, segs, file, base, deps, syms, off, (n - 1) as nat);
        let r = elf::rela_at(file, off + 24 * (n - 1));
        if before.1 {
            lemma_store_keeps_shape(before.0, r.r_offset, user_reloc(segs, file, base, deps, syms, r));
        }
    }
}

/// No page of an accepted image belongs to two of its segments.
pub proof fn law_segments_share_no_page(b: Seq<u8>, i: int, j: int)
    requires
        !user_elf_refused(b),
        0 <= i < j < segments_of(b, elf::ehdr_of(b).e_phnum as nat).len(),
    ensures
        ({
            let s = segments_of(b, elf::ehdr_of(b).e_phnum as nat);
            s[i].chunk_off + s[i].chunk_size <= s[j].chunk_off
        }),
    decreases j - i,
{
    let s = segments_of(b, elf::ehdr_of(b).e_phnum as nat);
    assert(!shares_page(s, j - 1));
    if i < j - 1 {
        law_segments_share_no_page(b, i, j - 1);
    }
}

/// A load of an image that another process has loaded already fills writable chunks only: the pages
/// that the processes share are never written.
pub proof fn law_shared_pages_not_filled(
    img: ParsedImage, file: Seq<u8>, base: u64, deps: Seq<DepModule>, k: int,
)
    requires
        0 <= k < img.relocated(
            staged(img.segments@, file, false, img.segments@.len()), file, base, deps).0.len(),
    ensures
        img.relocated(staged(img.segments@, file, false, img.segments@.len()), file, base, deps).0[k].writable,
{
    let c = staged(img.segments@, file, false, img.segments@.len());
    lemma_only_writable(img.segments@, file, img.segments@.len());
    if let Some(d) = img.dyn_info {
        let first = img.table_run(c, file, base, deps, d.rela_va, d.relasz);
        if let Some(v) = d.rela_va {
            if let Some(off) = file_offset(img.segments@, 0, v) {
                lemma_run_keeps_shape(
                    c, img.segments@, file, base, deps, img.symbol_files(), off as int, (d.relasz / 24) as nat);
            }
        }
        if let Some(v) = d.plt_va {
            if let Some(off) = file_offset(img.segments@, 0, v) {
                lemma_run_keeps_shape(
                    first.0, img.segments@, file, base, deps, img.symbol_files(), off as int,
                    (d.pltsz / 24) as nat);
            }
        }
    }
}

/// The names of the modules that an image needs, and the extra directories to look for them in.
pub struct UserDependencies {
    pub extra_dirs: Vec<Vec<u8>>,
    pub needed: Vec<Vec<u8>>,
}

impl ParsedImage {
    /// The run path's directories: none without a run path or without a string table.
    pub open spec fn extra_dirs(self, file: Seq<u8>) -> Seq<Seq<u8>> {
        match (self.dyn_info, self.symbol_files().strtab_off) {
            (Some(d), Some(strs)) => match (d.runpath_off, d.rpath_off) {
                (Some(o), _) => util::split_nonempty_spec(util::cstr_at(file, strs + o), 0x3a),
                (None, Some(o)) => util::split_nonempty_spec(util::cstr_at(file, strs + o), 0x3a),
                (None, None) => Seq::empty(),
            },
            _ => Seq::empty(),
        }
    }

    pub open spec fn needed_offs(self) -> Seq<u64> {
        match self.dyn_info { Some(d) => d.needed@, None => Seq::empty() }
    }

    /// Lists what the image depends on. An image that needs modules but has no string table in the
    /// file is refused.
    pub fn dependencies(&self, bytes: &Vec<u8>) -> (r: Result<UserDependencies, KError>)
        requires
            self.bounded(),
            self.dyn_info matches Some(d) ==> (self.symbol_files().strtab_off matches Some(strs) ==> {
                &&& d.runpath_off matches Some(o) ==> strs + o <= u64::MAX
                &&& d.rpath_off matches Some(o) ==> strs + o <= u64::MAX
                &&& forall|k: int| 0 <= k < d.needed@.len() ==> strs + #[trigger] d.needed@[k] <= u64::MAX
            }),
        ensures
            ({
                let refused = self.needed_offs().len() > 0 && self.symbol_files().strtab_off is None;
                match r {
                    Ok(u) => {
                        &&& !refused
                        &&& util::strings(u.extra_dirs@) == self.extra_dirs(bytes@)
                        &&& util::strings(u.needed@) == loader::names_at(
                            bytes@, self.symbol_files().strtab_off->0 as int, self.needed_offs())
                    },
                    Err(e) => refused && e == KError::InvalidArgument,
                }
            }),
    {
        let mut extra_dirs: Vec<Vec<u8>> = Vec::new();
        let mut needed: Vec<Vec<u8>> = Vec::new();
        assert(util::strings(extra_dirs@) =~= Seq::empty());
        match &self.dyn_info {
            None => {},
            Some(d) => {
                match self.opt_offset(d.strtab_va) {
                    None => {
                        if d.needed.len() > 0 {
                            return Err(KError::InvalidArgument);
                        }
                    },
                    Some(strs) => {
                        let pick: Option<u64> = match d.runpath_off { Some(o) => Some(o), None => d.rpath_off };
                        if let Some(o) = pick {
                            let raw: Vec<u8> = read_cstr(bytes, strs + o);
                            extra_dirs = split_nonempty(&raw, 0x3a);
                        }
                        let mut i: usize = 0;
                        while i < d.needed.len()
                            invariant
                                i <= d.needed@.len(),
                                needed@.len() == i,
                                forall|k: int| 0 <= k < d.needed@.len()
                                    ==> strs + #[trigger] d.needed@[k] <= u64::MAX,
                                forall|k: int| 0 <= k < i ==> (#[trigger] needed@[k])@
                                    == util::cstr_at(bytes@, strs + d.needed@[k]),
                            decreases d.needed@.len() - i,
                        {
                            assert(strs + d.needed@[i as int] <= u64::MAX);
                            needed.push(read_cstr(bytes, strs + d.needed[i]));
                            i = i + 1;
                        }
                    },
                }
            },
        }
        assert(util::strings(needed@) =~= loader::names_at(
            bytes@, self.symbol_files().strtab_off->0 as int, self.needed_offs()));
        Ok(UserDependencies { extra_dirs, needed })
    }
}

} // verus!
