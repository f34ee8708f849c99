use vstd::prelude::*;
use crate::error::KError;
use crate::loader::elf;
use crate::loader::elf::write_u64;
use crate::sched::handle::{Handle, HandleKind};
use crate::sched::proc::{ProcessStatus, SignalHandler};
use crate::sched::task::MAX_SIGNALS;
use crate::util;
use crate::util::{PAGE_SIZE, align_down, align_up, is_utf8};

verus! {

pub const MAX_SYSCALLS: u64 = 39;

/// The most entries that are read of an environment.
pub const MAX_ENVP_ENTRIES: u64 = 256;

/// Why a system call fails.
#[derive(Clone, Copy, Debug, PartialEq, Eq, Structural)]
pub enum SysError {
    Invalid,
    InvalidMemoryRange,
    NoPerm,
    ProcessTerminated,
    OutOfMemory,
    WaitInterrupted,
    BufTooSmall,
    Kernel(KError),
}

/// The system calls, in the order of their numbers.
#[derive(Clone, Copy, Debug, PartialEq, Eq, Structural)]
pub enum Syscall {
    Exit,
    ThreadExit,
    Read,
    Write,
    Close,
    Open,
    Delay,
    CreateThread,
    CreateProcess,
    ResumeProcess,
    SetSessionLeader,
    GetPid,
    GetProcessInfo,
    AllocateMemory,
    DeallocateMemory,
    SetSignalHandler,
    Sigreturn,
    CreateSyncObject,
    Wait,
    Signal,
    GetTimeMs,
    Duplicate,
    CreatePgrp,
    GetTid,
    GetThreadInfo,
    DeviceControl,
    Seek,
    Fstat,
    Readdir,
    DeleteFile,
    RenameFile,
    Mkdir,
    Rmdir,
    CreateFile,
    CreateSymlink,
    Readlink,
    CreatePipe,
    Chdir,
    Getcwd,
}

impl Syscall {
    pub open spec fn number(self) -> u64 {
        match self {
            Syscall::Exit => 0,
            Syscall::ThreadExit => 1,
            Syscall::Read => 2,
            Syscall::Write => 3,
            Syscall::Close => 4,
            Syscall::Open => 5,
            Syscall::Delay => 6,
            Syscall::CreateThread => 7,
            Syscall::CreateProcess => 8,
            Syscall::ResumeProcess => 9,
            Syscall::SetSessionLeader => 10,
            Syscall::GetPid => 11,
            Syscall::GetProcessInfo => 12,
            Syscall::AllocateMemory => 13,
            Syscall::DeallocateMemory => 14,
            Syscall::SetSignalHandler => 15,
            Syscall::Sigreturn => 16,
            Syscall::CreateSyncObject => 17,
            Syscall::Wait => 18,
            Syscall::Signal => 19,
            Syscall::GetTimeMs => 20,
            Syscall::Duplicate => 21,
            Syscall::CreatePgrp => 22,
            Syscall::GetTid => 23,
            Syscall::GetThreadInfo => 24,
            Syscall::DeviceControl => 25,
            Syscall::Seek => 26,
            Syscall::Fstat => 27,
            Syscall::Readdir => 28,
            Syscall::DeleteFile => 29,
            Syscall::RenameFile => 30,
            Syscall::Mkdir => 31,
            Syscall::Rmdir => 32,
            Syscall::CreateFile => 33,
            Syscall::CreateSymlink => 34,
            Syscall::Readlink => 35,
            Syscall::CreatePipe => 36,
            Syscall::Chdir => 37,
            Syscall::Getcwd => 38,
        }
    }
}

/// The system call with a number.
pub fn syscall_dispatcher(number: u64) -> (r: Result<Syscall, SysError>)
    ensures
        match r {
            Ok(s) => s.number() == number,
            Err(e) => e == SysError::Invalid && number >= MAX_SYSCALLS,
        },
        number == 0 ==> r == Ok::<Syscall, SysError>(Syscall::Exit),
        number == 1 ==> r == Ok::<Syscall, SysError>(Syscall::ThreadExit),
        number == 2 ==> r == Ok::<Syscall, SysError>(Syscall::Read),
        number == 3 ==> r == Ok::<Syscall, SysError>(Syscall::Write),
        number == 4 ==> r == Ok::<Syscall, SysError>(Syscall::Close),
        number == 5 ==> r == Ok::<Syscall, SysError>(Syscall::Open),
        number == 6 ==> r == Ok::<Syscall, SysError>(Syscall::Delay),
        number == 7 ==> r == Ok::<Syscall, SysError>(Syscall::CreateThread),
        number == 8 ==> r == Ok::<Syscall, SysError>(Syscall::CreateProcess),
        number == 9 ==> r == Ok::<Syscall, SysError>(Syscall::ResumeProcess),
        number == 10 ==> r == Ok::<Syscall, SysError>(Syscall::SetSessionLeader),
        number == 11 ==> r == Ok::<Syscall, SysError>(Syscall::GetPid),
        number == 12 ==> r == Ok::<Syscall, SysError>(Syscall::GetProcessInfo),
        number == 13 ==> r == Ok::<Syscall, SysError>(Syscall::AllocateMemory),
        number == 14 ==> r == Ok::<Syscall, SysError>(Syscall::DeallocateMemory),
        number == 15 ==> r == Ok::<Syscall, SysError>(Syscall::SetSignalHandler),
        number == 16 ==> r == Ok::<Syscall, SysError>(Syscall::Sigreturn),
        number == 17 ==> r == Ok::<Syscall, SysError>(Syscall::CreateSyncObject),
        number == 18 ==> r == Ok::<Syscall, SysError>(Syscall::Wait),
        number == 19 ==> r == Ok::<Syscall, SysError>(Syscall::Signal),
        number == 20 ==> r == Ok::<Syscall, SysError>(Syscall::GetTimeMs),
        number == 21 ==> r == Ok::<Syscall, SysError>(Syscall::Duplicate),
        number == 22 ==> r == Ok::<Syscall, SysError>(Syscall::CreatePgrp),
        number == 23 ==> r == Ok::<Syscall, SysError>(Syscall::GetTid),
        number == 24 ==> r == Ok::<Syscall, SysError>(Syscall::GetThreadInfo),
        number == 25 ==> r == Ok::<Syscall, SysError>(Syscall::DeviceControl),
        number == 26 ==> r == Ok::<Syscall, SysError>(Syscall::Seek),
        number == 27 ==> r == Ok::<Syscall, SysError>(Syscall::Fstat),
        number == 28 ==> r == Ok::<Syscall, SysError>(Syscall::Readdir),
        number == 29 ==> r == Ok::<Syscall, SysError>(Syscall::DeleteFile),
        number == 30 ==> r == Ok::<Syscall, SysError>(Syscall::RenameFile),
        number == 31 ==> r == Ok::<Syscall, SysError>(Syscall::Mkdir),
        number == 32 ==> r == Ok::<Syscall, SysError>(Syscall::Rmdir),
        number == 33 ==> r == Ok::<Syscall, SysError>(Syscall::CreateFile),
        number == 34 ==> r == Ok::<Syscall, SysError>(Syscall::CreateSymlink),
        number == 35 ==> r == Ok::<Syscall, SysError>(Syscall::Readlink),
        number == 36 ==> r == Ok::<Syscall, SysError>(Syscall::CreatePipe),
        number == 37 ==> r == Ok::<Syscall, SysError>(Syscall::Chdir),
        number == 38 ==> r == Ok::<Syscall, SysError>(Syscall::Getcwd),
        number >= 39 ==> r == Err::<Syscall, SysError>(SysError::Invalid),
{
    match number {
        0 => Ok(Syscall::Exit),
        1 => Ok(Syscall::ThreadExit),
        2 => Ok(Syscall::Read),
        3 => Ok(Syscall::Write),
        4 => Ok(Syscall::Close),
        5 => Ok(Syscall::Open),
        6 => Ok(Syscall::Delay),
        7 => Ok(Syscall::CreateThread),
        8 => Ok(Syscall::CreateProcess),
        9 => Ok(Syscall::ResumeProcess),
        10 => Ok(Syscall::SetSessionLeader),
        11 => Ok(Syscall::GetPid),
        12 => Ok(Syscall::GetProcessInfo),
        13 => Ok(Syscall::AllocateMemory),
        14 => Ok(Syscall::DeallocateMemory),
        15 => Ok(Syscall::SetSignalHandler),
        16 => Ok(Syscall::Sigreturn),
        17 => Ok(Syscall::CreateSyncObject),
        18 => Ok(Syscall::Wait),
        19 => Ok(Syscall::Signal),
        20 => Ok(Syscall::GetTimeMs),
        21 => Ok(Syscall::Duplicate),
        22 => Ok(Syscall::CreatePgrp),
        23 => Ok(Syscall::GetTid),
        24 => Ok(Syscall::GetThreadInfo),
        25 => Ok(Syscall::DeviceControl),
        26 => Ok(Syscall::Seek),
        27 => Ok(Syscall::Fstat),
        28 => Ok(Syscall::Readdir),
        29 => Ok(Syscall::DeleteFile),
        30 => Ok(Syscall::RenameFile),
        31 => Ok(Syscall::Mkdir),
        32 => Ok(Syscall::Rmdir),
        33 => Ok(Syscall::CreateFile),
        34 => Ok(Syscall::CreateSymlink),
        35 => Ok(Syscall::Readlink),
        36 => Ok(Syscall::CreatePipe),
        37 => Ok(Syscall::Chdir),
        38 => Ok(Syscall::Getcwd),
        _ => Err(SysError::Invalid),
    }
}

/// The calls in the order of their numbers.
pub open spec fn call_table() -> Seq<Syscall> {
    seq![
        Syscall::Exit, Syscall::ThreadExit, Syscall::Read, Syscall::Write, Syscall::Close, Syscall::Open,
        Syscall::Delay, Syscall::CreateThread, Syscall::CreateProcess, Syscall::ResumeProcess,
        Syscall::SetSessionLeader, Syscall::GetPid, Syscall::GetProcessInfo, Syscall::AllocateMemory,
        Syscall::DeallocateMemory, Syscall::SetSignalHandler, Syscall::Sigreturn,
        Syscall::CreateSyncObject, Syscall::Wait, Syscall::Signal, Syscall::GetTimeMs, Syscall::Duplicate,
        Syscall::CreatePgrp, Syscall::GetTid, Syscall::GetThreadInfo, Syscall::DeviceControl,
        Syscall::Seek, Syscall::Fstat, Syscall::Readdir, Syscall::DeleteFile, Syscall::RenameFile,
        Syscall::Mkdir, Syscall::Rmdir, Syscall::CreateFile, Syscall::CreateSymlink, Syscall::Readlink,
        Syscall::CreatePipe, Syscall::Chdir, Syscall::Getcwd,
    ]
}

/// A call's number is its place in the table, and every call stands in the table.
pub proof fn law_call_numbers(s: Syscall, n: int)
    ensures
        call_table().len() == 39,
        0 <= n < 39 ==> call_table()[n].number() == n,
        s.number() < 39 && call_table()[s.number() as int] == s,
{
}

/// Where user addresses end.
pub const USER_END: u64 = 0x800000000000;

/// A stretch of memory that a user process may read and write.
pub struct UserRange {
    pub base: u64,
    pub bytes: Vec<u8>,
}

/// What a user process may read and write, in stretches that do not touch each other.
pub struct UserMemory {
    pub ranges: Vec<UserRange>,
}

/// A stretch of user memory: where it begins and what it holds.
#[verifier::ext_equal]
pub struct Stretch {
    pub base: u64,
    pub bytes: Seq<u8>,
}

impl View for UserMemory {
    type V = Seq<Stretch>;

    open spec fn view(&self) -> Seq<Stretch> {
        Seq::new(self.ranges@.len(), |i: int| Stretch { base: self.ranges@[i].base, bytes: self.ranges@[i].bytes@ })
    }
}

/// The bytes of a user range, if all of it lies in one stretch from the `i`th on. An empty range can be
/// anywhere.
pub open spec fn user_bytes(m: Seq<Stretch>, i: int, addr: int, len: int) -> Option<Seq<u8>>
    decreases m.len() - i,
{
    if len == 0 {
        Some(Seq::empty())
    } else if i < 0 || i >= m.len() {
        None
    } else if m[i].base <= addr && addr + len <= m[i].base + m[i].bytes.len() {
        Some(m[i].bytes.subrange(addr - m[i].base, addr - m[i].base + len))
    } else {
        user_bytes(m, i + 1, addr, len)
    }
}

/// User memory lies below the end of user addresses.
pub open spec fn ranges_ok(m: Seq<Stretch>) -> bool {
    forall|i: int| 0 <= i < m.len() ==> (#[trigger] m[i]).base + m[i].bytes.len() <= USER_END
}

proof fn lemma_unreadable(m: Seq<Stretch>, i: int, addr: int, len: int)
    requires
        ranges_ok(m),
        addr >= USER_END,
        len > 0,
    ensures
        user_bytes(m, i, addr, len) is None,
    decreases m.len() - i,
{
    if 0 <= i < m.len() {
        assert(m[i].base + m[i].bytes.len() <= USER_END);
        lemma_unreadable(m, i + 1, addr, len);
    }
}

/// The first place of a zero byte from `i` on.
pub open spec fn nul_at(b: Seq<u8>, i: int) -> Option<int>
    decreases b.len() - i,
{
    if i < 0 || i >= b.len() {
        None
    } else if b[i] == 0 {
        Some(i)
    } else {
        nul_at(b, i + 1)
    }
}

/// How much of a string is read at first: up to the end of its page.
pub open spec fn first_part(start: int) -> int {
    let n = util::align_up_spec(start, PAGE_SIZE as int) - start;
    if n == 0 { PAGE_SIZE as int } else { n }
}

/// The length of a user string. It ends on the page where it begins or on the next.
pub open spec fn user_strlen(m: Seq<Stretch>, start: int) -> Option<int> {
    let n = first_part(start);
    match user_bytes(m, 0, start, n) {
        None => None,
        Some(a) => match nul_at(a, 0) {
            Some(k) => Some(k),
            None => match user_bytes(m, 0, start + n, PAGE_SIZE as int) {
                None => None,
                Some(b) => match nul_at(b, 0) { Some(k) => Some(n + k), None => None },
            },
        },
    }
}

fn find_nul(b: &Vec<u8>) -> (r: Option<u64>)
    ensures
        match r {
            Some(k) => nul_at(b@, 0) == Some(k as int) && k < b@.len(),
            None => nul_at(b@, 0) is None,
        },
{
    let mut i: usize = 0;
    while i < b.len()
        invariant
            i <= b@.len(),
            nul_at(b@, 0) == nul_at(b@, i as int),
        decreases b@.len() - i,
    {
        if b[i] == 0 {
            return Some(i as u64);
        }
        i = i + 1;
    }
    None
}

impl UserMemory {
    /// Copies from user memory, if it can be read. Nothing can be copied from anywhere.
    pub fn copy_from_user(&self, addr: u64, len: u64) -> (r: Option<Vec<u8>>)
        ensures
            match user_bytes(self@, 0, addr as int, len as int) {
                Some(b) => r is Some && r->0@ == b && b.len() == len,
                None => r is None,
            },
    {
        if len == 0 {
            return Some(Vec::new());
        }
        let mut i: usize = 0;
        while i < self.ranges.len()
            invariant
                i <= self@.len(),
                len > 0,
                user_bytes(self@, 0, addr as int, len as int) == user_bytes(
                    self@, i as int, addr as int, len as int),
            decreases self@.len() - i,
        {
            let base: u64 = self.ranges[i].base;
            let size: usize = self.ranges[i].bytes.len();
            assert(self@[i as int].bytes == self.ranges@[i as int].bytes@);
            if base <= addr && addr - base <= size as u64 && len <= size as u64 - (addr - base) {
                let off: usize = (addr - base) as usize;
                let n: usize = len as usize;
                let mut out: Vec<u8> = Vec::new();
                let mut k: usize = 0;
                let ghost b = self@[i as int].bytes;
                while k < n
                    invariant
                        k <= n,
                        i < self@.len(),
                        b == self@[i as int].bytes,
                        b.len() == size,
                        off + n <= size,
                        out@ == b.subrange(off as int, off + k),
                    decreases n - k,
                {
                    out.push(self.ranges[i].bytes[off + k]);
                    assert(b.subrange(off as int, off + k + 1) =~= b.subrange(off as int, off + k).push(b[off + k]));
                    k = k + 1;
                }
                return Some(out);
            }
            i = i + 1;
        }
        None
    }

    /// The length of a string in user memory.
    pub fn read_c_strlen(&self, start: u64) -> (r: Option<u64>)
        requires
            ranges_ok(self@),
        ensures
            match r {
                Some(n) => user_strlen(self@, start as int) == Some(n as int) && n < 2 * PAGE_SIZE,
                None => user_strlen(self@, start as int) is None,
            },
    {
        if start >= USER_END {
            proof {
                lemma_unreadable(self@, 0, start as int, first_part(start as int));
            }
            return None;
        }
        let n0: u64 = align_up(start, PAGE_SIZE) - start;
        let n: u64 = if n0 == 0 { PAGE_SIZE } else { n0 };
        let a: Vec<u8> = match self.copy_from_user(start, n) { Some(a) => a, None => { return None; } };
        if let Some(k) = find_nul(&a) {
            return Some(k);
        }
        let b: Vec<u8> = match self.copy_from_user(start + n, PAGE_SIZE) { Some(b) => b, None => { return None; } };
        match find_nul(&b) {
            Some(k) => Some(n + k),
            None => None,
        }
    }

    /// A text in user memory.
    pub fn read_user_string(&self, ptr: u64) -> (r: Option<Vec<u8>>)
        requires
            ranges_ok(self@),
        ensures
            match user_string(self@, ptr as int) {
                Some(s) => r is Some && r->0@ == s,
                None => r is None,
            },
    {
        match self.read_c_strlen(ptr) {
            None => None,
            Some(len) => {
                if len == 0 {
                    return Some(Vec::new());
                }
                match self.copy_from_user(ptr, len) {
                    Some(b) => if is_utf8(&b) { Some(b) } else { None },
                    None => None,
                }
            },
        }
    }

    /// Copies to user memory, if it is there. Nothing can be copied to anywhere.
    pub fn copy_to_user(&mut self, addr: u64, bytes: &Vec<u8>) -> (r: bool)
        ensures
            match stored(old(self)@, addr as int, bytes@) {
                Some(m) => r && final(self)@ == m,
                None => !r && final(self)@ == old(self)@,
            },
    {
        let len: usize = bytes.len();
        if len == 0 {
            return true;
        }
        let mut i: usize = 0;
        while i < self.ranges.len()
            invariant
                i <= self.ranges@.len(),
                self@ == old(self)@,
                len == bytes@.len(),
                len > 0,
                holder(self@, 0, addr as int, len as int) == holder(self@, i as int, addr as int, len as int),
            decreases self.ranges@.len() - i,
        {
            let base: u64 = self.ranges[i].base;
            let size: usize = self.ranges[i].bytes.len();
            assert(self@[i as int].bytes == self.ranges@[i as int].bytes@);
            if base <= addr && addr - base <= size as u64 && len as u64 <= size as u64 - (addr - base) {
                let off: usize = (addr - base) as usize;
                overwrite(&mut self.ranges[i].bytes, off, bytes);
                assert(self@ =~= stored(old(self)@, addr as int, bytes@)->0);
                return true;
            }
            i = i + 1;
        }
        false
    }
}

fn overwrite(v: &mut Vec<u8>, off: usize, bytes: &Vec<u8>)
    requires
        off + bytes@.len() <= old(v)@.len(),
    ensures
        final(v)@ == overwritten(old(v)@, off as int, bytes@),
{
    let ghost v0 = v@;
    let n: usize = v.len();
    let mut k: usize = 0;
    while k < bytes.len()
        invariant
            k <= bytes@.len(),
            n == v0.len(),
            off + bytes@.len() <= n,
            v@ == overwritten(v0, off as int, bytes@.take(k as int)),
        decreases bytes@.len() - k,
    {
        v[off + k] = bytes[k];
        assert(v@ =~= overwritten(v0, off as int, bytes@.take(k + 1)));
        k = k + 1;
    }
    assert(bytes@.take(k as int) =~= bytes@);
}

/// The stretch that holds all of a user range, the first of them from the `i`th on.
pub open spec fn holder(m: Seq<Stretch>, i: int, addr: int, len: int) -> Option<int>
    decreases m.len() - i,
{
    if i < 0 || i >= m.len() {
        None
    } else if m[i].base <= addr && addr + len <= m[i].base + m[i].bytes.len() {
        Some(i)
    } else {
        holder(m, i + 1, addr, len)
    }
}

/// Bytes with some of them replaced.
pub open spec fn overwritten(v: Seq<u8>, off: int, b: Seq<u8>) -> Seq<u8> {
    Seq::new(v.len(), |i: int| if off <= i < off + b.len() { b[i - off] } else { v[i] })
}

/// User memory after bytes were copied to it.
pub open spec fn stored(m: Seq<Stretch>, addr: int, b: Seq<u8>) -> Option<Seq<Stretch>> {
    if b.len() == 0 {
        Some(m)
    } else {
        match holder(m, 0, addr, b.len() as int) {
            None => None,
            Some(k) => Some(m.update(k, Stretch { bytes: overwritten(m[k].bytes, addr - m[k].base, b), ..m[k] })),
        }
    }
}

proof fn lemma_holder(m: Seq<Stretch>, i: int, addr: int, len: int)
    requires
        len != 0,
    ensures
        match holder(m, i, addr, len) {
            Some(k) => i <= k < m.len() && m[k].base <= addr && addr + len <= m[k].base + m[k].bytes.len()
                && user_bytes(m, i, addr, len) == Some(m[k].bytes.subrange(addr - m[k].base, addr - m[k].base + len)),
            None => user_bytes(m, i, addr, len) is None,
        },
    decreases m.len() - i,
{
    if 0 <= i < m.len() {
        lemma_holder(m, i + 1, addr, len);
    }
}

proof fn lemma_same_holder(m: Seq<Stretch>, n: Seq<Stretch>, i: int, addr: int, len: int)
    requires
        m.len() == n.len(),
        forall|j: int| 0 <= j < m.len() ==> (#[trigger] n[j]).base == m[j].base && n[j].bytes.len() == m[j].bytes.len(),
    ensures
        holder(m, i, addr, len) == holder(n, i, addr, len),
    decreases m.len() - i,
{
    if 0 <= i < m.len() {
        assert(n[i].base == m[i].base);
        lemma_same_holder(m, n, i + 1, addr, len);
    }
}

pub proof fn lemma_stored_below(m: Seq<Stretch>, addr: int, b: Seq<u8>)
    requires
        ranges_ok(m),
        b.len() > 0,
        stored(m, addr, b) is Some,
    ensures
        addr + b.len() <= USER_END,
{
    lemma_holder(m, 0, addr, b.len() as int);
    let k = holder(m, 0, addr, b.len() as int)->0;
    assert(m[k].base + m[k].bytes.len() <= USER_END);
}

/// What was copied to user memory is read from there, and the same ranges can be read and written
/// after it as before.
pub proof fn law_copied_is_read(m: Seq<Stretch>, addr: int, b: Seq<u8>)
    requires
        stored(m, addr, b) is Some,
    ensures
        user_bytes(stored(m, addr, b)->0, 0, addr, b.len() as int) == Some(b),
        forall|a: int, n: int| #[trigger] user_bytes(stored(m, addr, b)->0, 0, a, n) is Some <==> user_bytes(m, 0, a, n) is Some,
        ranges_ok(m) ==> ranges_ok(stored(m, addr, b)->0),
{
    let w = stored(m, addr, b)->0;
    if b.len() == 0 {
        assert(b =~= Seq::empty());
    } else {
        let k = holder(m, 0, addr, b.len() as int)->0;
        lemma_holder(m, 0, addr, b.len() as int);
        lemma_same_holder(m, w, 0, addr, b.len() as int);
        lemma_holder(w, 0, addr, b.len() as int);
        assert(w[k].bytes.subrange(addr - m[k].base, addr - m[k].base + b.len()) =~= b);
    }
    assert forall|a: int, n: int| #[trigger] user_bytes(w, 0, a, n) is Some <==> user_bytes(m, 0, a, n) is Some by {
        if n != 0 {
            lemma_same_holder(m, w, 0, a, n);
            lemma_holder(m, 0, a, n);
            lemma_holder(w, 0, a, n);
        }
    }
    if ranges_ok(m) {
        assert forall|i: int| 0 <= i < w.len() implies (#[trigger] w[i]).base + w[i].bytes.len() <= USER_END by {
            assert(m[i].base + m[i].bytes.len() <= USER_END);
        }
    }
}

/// The text at a user address, without its final zero.
pub open spec fn user_string(m: Seq<Stretch>, ptr: int) -> Option<Seq<u8>> {
    match user_strlen(m, ptr) {
        None => None,
        Some(n) => if n == 0 {
            Some(Seq::empty())
        } else {
            match user_bytes(m, 0, ptr, n) {
                Some(b) => if vstd::utf8::valid_utf8(b) { Some(b) } else { None },
                None => None,
            }
        },
    }
}

/// The eight bytes of a word.
pub open spec fn word(v: u64) -> Seq<u8> {
    Seq::new(8, |i: int| elf::byte_of(v, i))
}

/// Strings one behind the other, each with a zero at its end, among the first `n`.
pub open spec fn packed(s: Seq<Seq<u8>>, n: nat) -> Seq<u8>
    decreases n,
{
    if n == 0 { Seq::empty() } else { packed(s, (n - 1) as nat) + s[n - 1].push(0) }
}

/// The addresses of packed strings that begin at `at`, among the first `n`.
pub open spec fn pointers(s: Seq<Seq<u8>>, at: int, n: nat) -> Seq<u8>
    decreases n,
{
    if n == 0 {
        Seq::empty()
    } else {
        pointers(s, at, (n - 1) as nat) + word((at + packed(s, (n - 1) as nat).len()) as u64)
    }
}

/// How long the counts and pointers before the strings are.
pub open spec fn header_len(argc: int, envc: int) -> int {
    8 + 8 * (argc + 1) + 8 * (envc + 1)
}

/// What a program finds at its stack pointer: its argument count, the addresses of its arguments and
/// of its environment, each closed by a zero, and then the strings.
pub open spec fn start_block(rsp: int, args: Seq<Seq<u8>>, envp: Seq<Seq<u8>>) -> Seq<u8> {
    let at = rsp + header_len(args.len() as int, envp.len() as int);
    let a = packed(args, args.len());
    word(args.len() as u64) + pointers(args, at, args.len()) + word(0) + pointers(envp, at + a.len(), envp.len())
        + word(0) + a + packed(envp, envp.len())
}

pub open spec fn block_len(args: Seq<Seq<u8>>, envp: Seq<Seq<u8>>) -> int {
    header_len(args.len() as int, envp.len() as int) + packed(args, args.len()).len() + packed(envp, envp.len()).len()
}

pub(crate) fn push_word(out: &mut Vec<u8>, v: u64)
    ensures
        final(out)@ == old(out)@ + word(v),
{
    let ghost b0 = out@;
    let n: usize = out.len();
    out.push(0);
    out.push(0);
    out.push(0);
    out.push(0);
    out.push(0);
    out.push(0);
    out.push(0);
    out.push(0);
    write_u64(out, n as u64, v);
    assert(out@ =~= b0 + word(v));
}

proof fn lemma_pointers_len(s: Seq<Seq<u8>>, at: int, n: nat)
    ensures
        pointers(s, at, n).len() == 8 * n,
    decreases n,
{
    if n > 0 {
        lemma_pointers_len(s, at, (n - 1) as nat);
    }
}

proof fn lemma_packed_grows(s: Seq<Seq<u8>>, n: nat, m: nat)
    requires
        n <= m,
    ensures
        packed(s, n).len() <= packed(s, m).len(),
    decreases m,
{
    if n < m {
        lemma_packed_grows(s, n, (m - 1) as nat);
    }
}

fn push_pointers(out: &mut Vec<u8>, s: &Vec<Vec<u8>>, at: u64) -> (r: u64)
    requires
        at + packed(util::strings(s@), s@.len()).len() <= u64::MAX,
    ensures
        final(out)@ == old(out)@ + pointers(util::strings(s@), at as int, s@.len()),
        r == at + packed(util::strings(s@), s@.len()).len(),
{
    let ghost v = util::strings(s@);
    let ghost b0 = out@;
    let mut cur: u64 = at;
    let mut i: usize = 0;
    assert(b0 + pointers(v, at as int, 0) =~= b0);
    while i < s.len()
        invariant
            i <= s@.len(),
            v == util::strings(s@),
            at + packed(v, s@.len()).len() <= u64::MAX,
            cur == at + packed(v, i as nat).len(),
            out@ == b0 + pointers(v, at as int, i as nat),
        decreases s@.len() - i,
    {
        push_word(out, cur);
        assert(out@ =~= b0 + pointers(v, at as int, (i + 1) as nat));
        proof {
            lemma_packed_grows(v, (i + 1) as nat, s@.len());
        }
        cur = cur + s[i].len() as u64 + 1;
        i = i + 1;
    }
    cur
}

fn push_strings(out: &mut Vec<u8>, s: &Vec<Vec<u8>>)
    ensures
        final(out)@ == old(out)@ + packed(util::strings(s@), s@.len()),
{
    let ghost v = util::strings(s@);
    let ghost b0 = out@;
    let mut i: usize = 0;
    assert(b0 + packed(v, 0) =~= b0);
    while i < s.len()
        invariant
            i <= s@.len(),
            v == util::strings(s@),
            out@ == b0 + packed(v, i as nat),
        decreases s@.len() - i,
    {
        let ghost before = out@;
        let mut k: usize = 0;
        let ghost t = s@[i as int]@;
        while k < s[i].len()
            invariant
                i < s@.len(),
                t == s@[i as int]@,
                k <= t.len(),
                out@ == before + t.take(k as int),
            decreases t.len() - k,
        {
            out.push(s[i][k]);
            assert(out@ =~= before + t.take(k + 1));
            k = k + 1;
        }
        out.push(0);
        assert(out@ =~= b0 + packed(v, (i + 1) as nat));
        i = i + 1;
    }
}

fn strings_len(s: &Vec<Vec<u8>>, limit: u64) -> (r: Option<u64>)
    ensures
        match r {
            Some(n) => n == packed(util::strings(s@), s@.len()).len() && n <= limit,
            None => packed(util::strings(s@), s@.len()).len() > limit,
        },
{
    let ghost v = util::strings(s@);
    let mut n: u64 = 0;
    let mut i: usize = 0;
    while i < s.len()
        invariant
            i <= s@.len(),
            v == util::strings(s@),
            n == packed(v, i as nat).len(),
            n <= limit,
        decreases s@.len() - i,
    {
        proof {
            lemma_packed_grows(v, (i + 1) as nat, s@.len());
        }
        let l: u64 = s[i].len() as u64;
        if l >= limit - n {
            return None;
        }
        n = n + l + 1;
        i = i + 1;
    }
    Some(n)
}

/// Where a process's arguments and environment go below the top of its stack, and the bytes from there
/// to the top. What is left at the top to align the stack is zero.
pub open spec fn laid_out(stack_top: int, rsp: int, block: Seq<u8>, args: Seq<Seq<u8>>, envp: Seq<Seq<u8>>) -> bool {
    let b = start_block(rsp, args, envp);
    &&& rsp == util::align_down_spec(stack_top - block_len(args, envp), 16)
    &&& rsp % 16 == 0
    &&& block.len() == stack_top - rsp
    &&& b.len() == block_len(args, envp)
    &&& block.take(b.len() as int) == b
    &&& forall|i: int| b.len() <= i < block.len() ==> block[i] == 0
}

/// The stack pointer that a program begins with, and what lies between it and the top of its stack.
/// The stack pointer is a multiple of sixteen.
pub fn push_args_and_envp_to_user_stack(stack_top: u64, args: &Vec<Vec<u8>>, envp: &Vec<Vec<u8>>) -> (r: (u64, Vec<u8>))
    requires
        block_len(util::strings(args@), util::strings(envp@)) <= stack_top,
    ensures
        laid_out(stack_top as int, r.0 as int, r.1@, util::strings(args@), util::strings(envp@)),
{
    let ghost a = util::strings(args@);
    let ghost e = util::strings(envp@);
    let argc: u64 = args.len() as u64;
    let envc: u64 = envp.len() as u64;
    let al: u64 = match strings_len(args, stack_top) { Some(n) => n, None => 0 };
    let el: u64 = match strings_len(envp, stack_top) { Some(n) => n, None => 0 };
    let header: u64 = 8 + 8 * (argc + 1) + 8 * (envc + 1);
    let len: u64 = header + al + el;
    let rsp: u64 = align_down(stack_top - len, 16);
    assert(rsp % 16 == 0) by (nonlinear_arith)
        requires
            rsp == (stack_top - len) - (stack_top - len) % 16,
            stack_top >= len,
    ;
    let mut out: Vec<u8> = Vec::new();
    push_word(&mut out, argc);
    let at: u64 = rsp + header;
    proof {
        lemma_pointers_len(a, at as int, a.len());
        lemma_pointers_len(e, at + packed(a, a.len()).len(), e.len());
    }
    let next: u64 = push_pointers(&mut out, args, at);
    push_word(&mut out, 0);
    let _ = push_pointers(&mut out, envp, next);
    push_word(&mut out, 0);
    push_strings(&mut out, args);
    push_strings(&mut out, envp);
    let ghost b = start_block(rsp as int, a, e);
    assert(out@ =~= b);
    let size: u64 = stack_top - rsp;
    while (out.len() as u64) < size
        invariant
            b.len() <= out@.len() <= size,
            out@.take(b.len() as int) == b,
            forall|i: int| b.len() <= i < out@.len() ==> out@[i] == 0,
        decreases size - out@.len(),
    {
        out.push(0);
        assert(out@.take(b.len() as int) =~= b);
    }
    (rsp, out)
}

/// Every argument can be read back at the address that is given for it.
pub proof fn law_packed_string(s: Seq<Seq<u8>>, i: int, n: nat)
    requires
        0 <= i < n <= s.len(),
    ensures
        packed(s, i as nat).len() + s[i].len() + 1 <= packed(s, n).len(),
        packed(s, n).subrange(packed(s, i as nat).len() as int, (packed(s, i as nat).len() + s[i].len()) as int) == s[i],
        packed(s, n)[(packed(s, i as nat).len() + s[i].len()) as int] == 0,
    decreases n,
{
    let p = packed(s, n);
    let q = packed(s, (n - 1) as nat);
    if i == n - 1 {
        assert(p.subrange(q.len() as int, (q.len() + s[i].len()) as int) =~= s[i]);
    } else {
        law_packed_string(s, i, (n - 1) as nat);
        let o = packed(s, i as nat).len() as int;
        assert(p.subrange(o, o + s[i].len()) =~= q.subrange(o, o + s[i].len()));
    }
}

proof fn lemma_word_at(b: Seq<u8>, o: int, v: u64)
    requires
        0 <= o,
        o + 8 <= b.len(),
        b.subrange(o, o + 8) == word(v),
    ensures
        elf::le64(b, o) == v,
{
    assert forall|i: int| o <= i < o + 8 implies #[trigger] b[i] == elf::byte_of(v, i - o) by {
        assert(b.subrange(o, o + 8)[i - o] == word(v)[i - o]);
    }
    assert(elf::put64(b, o, v) =~= b);
    elf::law_put64_read_back(b, o, v);
}

proof fn lemma_pointer_at(s: Seq<Seq<u8>>, at: int, i: int, n: nat)
    requires
        0 <= i < n,
    ensures
        pointers(s, at, n).len() == 8 * n,
        pointers(s, at, n).subrange(8 * i, 8 * i + 8) == word((at + packed(s, i as nat).len()) as u64),
    decreases n,
{
    let p = pointers(s, at, n);
    let q = pointers(s, at, (n - 1) as nat);
    lemma_pointers_len(s, at, n);
    lemma_pointers_len(s, at, (n - 1) as nat);
    if i == n - 1 {
        assert(p.subrange(8 * i, 8 * i + 8) =~= word((at + packed(s, i as nat).len()) as u64));
    } else {
        lemma_pointer_at(s, at, i, (n - 1) as nat);
        assert(p.subrange(8 * i, 8 * i + 8) =~= q.subrange(8 * i, 8 * i + 8));
    }
}

/// Whether a text stands at an address of a block that begins at `base`, with a zero behind it.
pub open spec fn text_in(block: Seq<u8>, base: int, addr: int, s: Seq<u8>) -> bool {
    let o = addr - base;
    &&& 0 <= o
    &&& o + s.len() < block.len()
    &&& block.subrange(o, o + s.len()) == s
    &&& block[o + s.len()] == 0
}

proof fn lemma_part(block: Seq<u8>, o: int, part: Seq<u8>, x: int, y: int)
    requires
        0 <= o,
        o + part.len() <= block.len(),
        block.subrange(o, o + part.len()) == part,
        0 <= x <= y <= part.len(),
    ensures
        block.subrange(o + x, o + y) == part.subrange(x, y),
{
    assert(block.subrange(o, o + part.len()).subrange(x, y) =~= block.subrange(o + x, o + y));
}

proof fn lemma_start_parts(rsp: int, args: Seq<Seq<u8>>, envp: Seq<Seq<u8>>)
    ensures
        ({
            let n = args.len() as int;
            let m = envp.len() as int;
            let h = header_len(n, m);
            let a = packed(args, args.len());
            let e = packed(envp, envp.len());
            let b = start_block(rsp, args, envp);
            &&& b.len() == h + a.len() + e.len()
            &&& b.subrange(0, 8) == word(args.len() as u64)
            &&& b.subrange(8, 8 + 8 * n) == pointers(args, rsp + h, args.len())
            &&& b.subrange(8 + 8 * n, 16 + 8 * n) == word(0)
            &&& b.subrange(16 + 8 * n, 16 + 8 * n + 8 * m) == pointers(envp, rsp + h + a.len(), envp.len())
            &&& b.subrange(16 + 8 * n + 8 * m, 24 + 8 * n + 8 * m) == word(0)
            &&& b.subrange(h, h + a.len()) == a
            &&& b.subrange(h + a.len(), h + a.len() + e.len()) == e
        }),
{
    let n = args.len() as int;
    let m = envp.len() as int;
    let h = header_len(n, m);
    let a = packed(args, args.len());
    let e = packed(envp, envp.len());
    let w = word(args.len() as u64);
    let z = word(0);
    let pa = pointers(args, rsp + h, args.len());
    let pe = pointers(envp, rsp + h + a.len(), envp.len());
    lemma_pointers_len(args, rsp + h, args.len());
    lemma_pointers_len(envp, rsp + h + a.len(), envp.len());
    let b1 = w + pa;
    let b2 = b1 + z;
    let b3 = b2 + pe;
    let b4 = b3 + z;
    let b5 = b4 + a;
    let b = b5 + e;
    assert(b == start_block(rsp, args, envp));
    assert(b.subrange(0, 8) =~= w);
    assert(b.subrange(8, 8 + 8 * n) =~= pa);
    assert(b.subrange(8 + 8 * n, 16 + 8 * n) =~= z);
    assert(b.subrange(16 + 8 * n, 16 + 8 * n + 8 * m) =~= pe);
    assert(b.subrange(16 + 8 * n + 8 * m, 24 + 8 * n + 8 * m) =~= z);
    assert(b.subrange(h, h + a.len()) =~= a);
    assert(b.subrange(h + a.len(), h + a.len() + e.len()) =~= e);
}

/// The `i`th of some texts is found by way of its address: the addresses stand at `po` of the block,
/// and the texts at `so`, which is `at` as an address.
proof fn lemma_text_found(block: Seq<u8>, po: int, so: int, at: int, s: Seq<Seq<u8>>, i: int)
    requires
        0 <= i < s.len(),
        0 <= po,
        po + 8 * s.len() <= block.len(),
        0 <= so,
        so + packed(s, s.len()).len() <= block.len(),
        block.subrange(po, po + 8 * s.len()) == pointers(s, at, s.len()),
        block.subrange(so, so + packed(s, s.len()).len()) == packed(s, s.len()),
        0 <= at,
        at + packed(s, s.len()).len() <= u64::MAX,
    ensures
        text_in(block, at - so, elf::le64(block, po + 8 * i), s[i]),
{
    let p = packed(s, s.len());
    let o = packed(s, i as nat).len() as int;
    law_packed_string(s, i, s.len());
    lemma_pointer_at(s, at, i, s.len());
    lemma_part(block, po, pointers(s, at, s.len()), 8 * i, 8 * i + 8);
    lemma_word_at(block, po + 8 * i, (at + o) as u64);
    lemma_part(block, so, p, o, o + s[i].len());
    assert(block.subrange(so, so + p.len())[o + s[i].len() as int] == p[o + s[i].len() as int]);
}

/// A program finds its argument count at its stack pointer, the addresses of its arguments behind it
/// and those of its environment behind these, each list closed by a zero, and at each address the
/// text that it was started with.
pub proof fn law_program_finds_its_arguments(
    stack_top: u64, rsp: u64, block: Seq<u8>, args: Seq<Seq<u8>>, envp: Seq<Seq<u8>>, i: int, k: int,
)
    requires
        laid_out(stack_top as int, rsp as int, block, args, envp),
    ensures
        elf::le64(block, 0) == args.len(),
        elf::le64(block, 8 + 8 * args.len() as int) == 0,
        elf::le64(block, 16 + 8 * args.len() as int + 8 * envp.len() as int) == 0,
        0 <= i < args.len() ==> text_in(block, rsp as int, elf::le64(block, 8 + 8 * i), args[i]),
        0 <= k < envp.len() ==> text_in(block, rsp as int, elf::le64(block, 16 + 8 * args.len() as int + 8 * k), envp[k]),
{
    let n = args.len() as int;
    let m = envp.len() as int;
    let h = header_len(n, m);
    let at = rsp + h;
    let a = packed(args, args.len());
    let e = packed(envp, envp.len());
    let pa = pointers(args, at, args.len());
    let pe = pointers(envp, at + a.len(), envp.len());
    let b = start_block(rsp as int, args, envp);
    lemma_start_parts(rsp as int, args, envp);
    lemma_part(block, 0, b, 0, 8);
    lemma_word_at(block, 0, args.len() as u64);
    lemma_part(block, 0, b, 8 + 8 * n, 16 + 8 * n);
    lemma_word_at(block, 8 + 8 * n, 0);
    lemma_part(block, 0, b, 16 + 8 * n + 8 * m, 24 + 8 * n + 8 * m);
    lemma_word_at(block, 16 + 8 * n + 8 * m, 0);
    if 0 <= i < n {
        lemma_part(block, 0, b, 8, 8 + 8 * n);
        lemma_part(block, 0, b, h, h + a.len());
        lemma_text_found(block, 8, h, at, args, i);
    }
    if 0 <= k < m {
        lemma_part(block, 0, b, 16 + 8 * n, 16 + 8 * n + 8 * m);
        lemma_part(block, 0, b, h + a.len(), h + a.len() + e.len());
        lemma_text_found(block, 16 + 8 * n, h + a.len(), at + a.len(), envp, k);
    }
}

/// An entry of an environment: nothing if it cannot be read, else its string or the end.
pub open spec fn env_entry(m: Seq<Stretch>, addr: int) -> Option<Option<Seq<u8>>> {
    match user_bytes(m, 0, addr, 8) {
        None => None,
        Some(b) => if elf::le64(b, 0) == 0 {
            Some(None)
        } else {
            match user_string(m, elf::le64(b, 0)) { None => None, Some(s) => Some(Some(s)) }
        },
    }
}

/// The strings of an environment from its `i`th entry on. It ends with a zero entry, and is cut off
/// at the largest number of entries.
pub open spec fn env_from(m: Seq<Stretch>, ptr: int, i: nat) -> Option<Seq<Seq<u8>>>
    decreases MAX_ENVP_ENTRIES - i,
{
    if i >= MAX_ENVP_ENTRIES {
        Some(Seq::empty())
    } else {
        match env_entry(m, ptr + 8 * i) {
            None => None,
            Some(None) => Some(Seq::empty()),
            Some(Some(s)) => match env_from(m, ptr, i + 1) {
                None => None,
                Some(rest) => Some(seq![s] + rest),
            },
        }
    }
}

pub open spec fn joined(head: Seq<Seq<u8>>, tail: Option<Seq<Seq<u8>>>) -> Option<Seq<Seq<u8>>> {
    match tail { Some(t) => Some(head + t), None => None }
}

impl UserMemory {
    fn read_envp_entry(&self, addr: u64) -> (r: Option<Option<Vec<u8>>>)
        requires
            ranges_ok(self@),
        ensures
            match env_entry(self@, addr as int) {
                None => r is None,
                Some(None) => r matches Some(None),
                Some(Some(s)) => r matches Some(Some(v)) && v@ == s,
            },
    {
        let b: Vec<u8> = match self.copy_from_user(addr, 8) { Some(b) => b, None => { return None; } };
        let entry: u64 = elf::read_u64(&b, 0);
        if entry == 0 {
            return Some(None);
        }
        match self.read_user_string(entry) {
            Some(s) => Some(Some(s)),
            None => None,
        }
    }

    /// An environment in user memory. Without an address it is empty.
    pub fn read_user_envp(&self, ptr: u64) -> (r: Option<Vec<Vec<u8>>>)
        requires
            ranges_ok(self@),
        ensures
            ptr == 0 ==> r is Some && r->0@.len() == 0,
            ptr != 0 ==> match env_from(self@, ptr as int, 0) {
                Some(e) => r is Some && util::strings(r->0@) == e,
                None => r is None,
            },
    {
        let mut out: Vec<Vec<u8>> = Vec::new();
        if ptr == 0 {
            return Some(out);
        }
        let ghost m = self@;
        if ptr >= USER_END {
            proof {
                lemma_unreadable(m, 0, ptr as int, 8);
            }
            return None;
        }
        let mut i: u64 = 0;
        assert(util::strings(out@) =~= Seq::empty());
        assert(joined(Seq::empty(), env_from(m, ptr as int, 0)) == env_from(m, ptr as int, 0)) by {
            if let Some(e) = env_from(m, ptr as int, 0) {
                assert(Seq::<Seq<u8>>::empty() + e =~= e);
            }
        }
        while i < MAX_ENVP_ENTRIES
            invariant
                i <= MAX_ENVP_ENTRIES,
                0 < ptr < USER_END,
                m == self@,
                ranges_ok(m),
                env_from(m, ptr as int, 0) == joined(util::strings(out@), env_from(m, ptr as int, i as nat)),
            decreases MAX_ENVP_ENTRIES - i,
        {
            let s: Vec<u8> = match self.read_envp_entry(ptr + 8 * i) {
                None => { return None; },
                Some(None) => {
                    assert(util::strings(out@) + Seq::empty() =~= util::strings(out@));
                    return Some(out);
                },
                Some(Some(s)) => s,
            };
            let ghost before = util::strings(out@);
            let ghost sv = s@;
            out.push(s);
            assert(util::strings(out@) =~= before.push(sv));
            proof {
                if let Some(rest) = env_from(m, ptr as int, (i + 1) as nat) {
                    assert(before + (seq![sv] + rest) =~= before.push(sv) + rest);
                }
            }
            i = i + 1;
        }
        assert(util::strings(out@) + Seq::empty() =~= util::strings(out@));
        Some(out)
    }
}

/// A date and time of a real-time clock. Years count from 2000.
#[derive(Clone, Copy, Debug, PartialEq, Eq, Structural)]
pub struct RtcTime {
    pub year: u8,
    pub month: u8,
    pub day: u8,
    pub hour: u8,
    pub minute: u8,
    pub second: u8,
}

pub open spec fn is_leap(y: int) -> bool {
    (y % 4 == 0 && y % 100 != 0) || y % 400 == 0
}

/// The days from 1970 to the beginning of a year.
pub open spec fn days_to_year(y: int) -> int
    decreases y - 1970,
{
    if y <= 1970 { 0 } else { days_to_year(y - 1) + (if is_leap(y - 1) { 366int } else { 365int }) }
}

pub open spec fn month_days(y: int, m: int) -> int {
    if m == 2 {
        if is_leap(y) { 29 } else { 28 }
    } else if m == 4 || m == 6 || m == 9 || m == 11 {
        30
    } else {
        31
    }
}

/// The days of a year before a month. Months are numbered from one on.
pub open spec fn days_to_month(y: int, m: int) -> int
    decreases m,
{
    if m <= 1 { 0 } else { days_to_month(y, m - 1) + month_days(y, m - 1) }
}

/// The milliseconds from the beginning of 1970 to a time.
pub open spec fn unix_ms(t: RtcTime) -> int {
    let y = 2000 + t.year;
    let days = days_to_year(y) + days_to_month(y, t.month as int) + t.day - 1;
    1000 * (86400 * days + 3600 * t.hour + 60 * t.minute + t.second)
}

/// Leap years can be counted with three divisions.
proof fn lemma_days_to_year(y: int)
    requires
        1970 <= y,
    ensures
        days_to_year(y) == (y - 1970) * 365 + ((y - 1) / 4 - (y - 1) / 100 + (y - 1) / 400 - 477),
    decreases y,
{
    if y > 1970 {
        lemma_days_to_year(y - 1);
    }
}

/// The milliseconds of a clock's time since 1970.
pub fn rtc_to_unix_ms(t: RtcTime) -> (r: u64)
    requires
        t.month <= 13,
    ensures
        r == unix_ms(t),
{
    let year: u64 = 2000 + t.year as u64;
    proof {
        lemma_days_to_year(year as int);
    }
    let leap_days: u64 = (year - 1) / 4 - (year - 1) / 100 + (year - 1) / 400 - 477;
    let to_year: u64 = (year - 1970) * 365 + leap_days;
    let leap: bool = (year % 4 == 0 && year % 100 != 0) || year % 400 == 0;
    let mut days: u64 = 0;
    let mut m: u8 = 1;
    while m < t.month
        invariant
            t.month <= 13,
            1 <= m,
            m <= t.month || m == 1,
            leap == is_leap(year as int),
            days == days_to_month(year as int, m as int),
            days <= 31 * m,
        decreases t.month - m,
    {
        let len: u64 = if m == 2 {
            if leap { 29 } else { 28 }
        } else if m == 4 || m == 6 || m == 9 || m == 11 {
            30
        } else {
            31
        };
        days = days + len;
        m = m + 1;
    }
    assert(days_to_month(year as int, t.month as int) == days);
    let total: u64 = to_year + days + t.day as u64 - 1;
    (total * 86400 + t.hour as u64 * 3600 + t.minute as u64 * 60 + t.second as u64) * 1000
}

pub const SEEK_SET: u64 = 0;
pub const SEEK_CUR: u64 = 1;
pub const SEEK_END: u64 = 2;

/// Where a seek begins to count.
pub open spec fn seek_origin(whence: u64, cur: u64, end: u64) -> Option<int> {
    if whence == SEEK_SET {
        Some(0)
    } else if whence == SEEK_CUR {
        Some(cur as int)
    } else if whence == SEEK_END {
        Some(end as int)
    } else {
        None
    }
}

/// The offset that a seek leads to. It cannot lead before the beginning.
pub fn seek_target(delta: i64, whence: u64, cur: u64, end: u64) -> (r: Result<u64, SysError>)
    requires
        cur <= i64::MAX,
        end <= i64::MAX,
        whence == SEEK_CUR ==> cur + delta <= i64::MAX,
        whence == SEEK_END ==> end + delta <= i64::MAX,
    ensures
        match seek_origin(whence, cur, end) {
            None => r == Err::<u64, SysError>(SysError::Invalid),
            Some(o) => if o + delta < 0 {
                r == Err::<u64, SysError>(SysError::Invalid)
            } else {
                r is Ok && r->Ok_0 == o + delta
            },
        },
{
    let origin: i64 = if whence == SEEK_SET {
        0
    } else if whence == SEEK_CUR {
        cur as i64
    } else if whence == SEEK_END {
        end as i64
    } else {
        return Err(SysError::Invalid);
    };
    let next: i64 = origin + delta;
    if next < 0 {
        return Err(SysError::Invalid);
    }
    Ok(next as u64)
}

/// Something to wait for that a process asks for.
#[derive(Clone, Copy, Debug, PartialEq, Eq, Structural)]
pub enum SyncRequest {
    Semaphore { init_count: i64, max_count: i64 },
    Event { is_auto_reset: bool },
}

pub const SYNC_TYPE_SEMAPHORE: u64 = 0;
pub const SYNC_TYPE_EVENT: u64 = 1;

/// Whether the numbers that a process gives make sense: a semaphore has a limit, and flags are zero
/// or one.
pub open spec fn sync_args_ok(kind: u64, max_count: u64, auto_reset: u64, inheritable: u64) -> bool {
    &&& !(kind == SYNC_TYPE_SEMAPHORE && max_count == 0)
    &&& !(kind == SYNC_TYPE_EVENT && auto_reset != 0 && auto_reset != 1)
    &&& inheritable == 0 || inheritable == 1
}

/// What a process wants to be made, and whether children inherit it. Whatever is no semaphore is an
/// event.
pub fn sync_request(kind: u64, init_count: i64, max_count: u64, auto_reset: u64, inheritable: u64)
    -> (r: Result<(SyncRequest, bool), SysError>)
    ensures
        !sync_args_ok(kind, max_count, auto_reset, inheritable) ==> r is Err && r->Err_0 == SysError::Invalid,
        sync_args_ok(kind, max_count, auto_reset, inheritable) ==> r is Ok && r->Ok_0.1 == (inheritable == 1)
            && r->Ok_0.0 == (if kind == SYNC_TYPE_SEMAPHORE {
            SyncRequest::Semaphore { init_count, max_count: max_count as i64 }
        } else {
            SyncRequest::Event { is_auto_reset: auto_reset == 1 }
        }),
{
    if kind == SYNC_TYPE_SEMAPHORE && max_count == 0 {
        return Err(SysError::Invalid);
    }
    if kind == SYNC_TYPE_EVENT && auto_reset != 0 && auto_reset != 1 {
        return Err(SysError::Invalid);
    }
    if inheritable != 0 && inheritable != 1 {
        return Err(SysError::Invalid);
    }
    if kind == SYNC_TYPE_SEMAPHORE {
        Ok((SyncRequest::Semaphore { init_count, max_count: max_count as i64 }, inheritable == 1))
    } else {
        Ok((SyncRequest::Event { is_auto_reset: auto_reset == 1 }, inheritable == 1))
    }
}

/// A timeout as a process gives it. With all bits set it means that there is none.
pub fn wait_timeout(arg: u64) -> (r: Option<u64>)
    ensures
        r == (if arg == u64::MAX { None } else { Some(arg) }),
{
    if arg == u64::MAX { None } else { Some(arg) }
}

/// The process that a call concerns: the calling one, or the one that a handle stands for and that
/// has not ended.
pub fn target_process(arg: i64, current: u64, handle: Option<Handle>, status: Option<ProcessStatus>)
    -> (r: Result<u64, SysError>)
    ensures
        r == (if arg == -1 {
            Ok(current)
        } else {
            match handle {
                Some(h) => if h.kind != HandleKind::Process {
                    Err(SysError::Invalid)
                } else if status is None || status->0 == ProcessStatus::Terminated {
                    Err(SysError::ProcessTerminated)
                } else {
                    Ok(h.object)
                },
                None => Err(SysError::Invalid),
            }
        }),
{
    if arg == -1 {
        return Ok(current);
    }
    match handle {
        None => Err(SysError::Invalid),
        Some(h) => {
            if h.kind != HandleKind::Process {
                return Err(SysError::Invalid);
            }
            match status {
                None => Err(SysError::ProcessTerminated),
                Some(s) => if s == ProcessStatus::Terminated { Err(SysError::ProcessTerminated) } else { Ok(h.object) },
            }
        },
    }
}

/// Checks a handler that a process gives for a signal.
pub fn signal_handler_args(signal: u8, handler: u64, user_ctx: u64) -> (r: Result<SignalHandler, SysError>)
    ensures
        r == (if signal >= MAX_SIGNALS || handler == 0 {
            Err(SysError::Invalid)
        } else {
            Ok(SignalHandler { user_ctx, handler })
        }),
{
    if signal >= MAX_SIGNALS || handler == 0 {
        return Err(SysError::Invalid);
    }
    Ok(SignalHandler { user_ctx, handler })
}

/// Whether memory of a size can be asked for: rounded up to pages, it stays below half the address
/// space.
pub fn layout_fits(size: u64) -> (r: bool)
    ensures
        r == (size + PAGE_SIZE - 1 <= i64::MAX),
{
    size <= 0x7fff_ffff_ffff_f000
}

} // verus!
