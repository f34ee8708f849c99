//! What the system calls read, write and answer, in terms of what a process gives and gets.

use vstd::prelude::*;
use crate::intf::process;
use crate::intf::process::ProcessSnapshot;
use crate::intf::system;
use crate::intf::system::IntfReply;
use crate::io::driver::IrpMinor;
use crate::loader::elf;
use crate::sched::file_call;
use crate::sched::file_call::{FileCall, FileRequest};
use crate::pipe::PipeType;
use crate::sched::handle::{Handle, HandleKind};
use crate::sched::pipe_call;
use crate::sched::proc::{EndedProcess, Proc, ProcessStatus, Procs};
use crate::sched::scheduler::Sched;
use crate::sched::syscall;
use crate::sched::syscall::{ControlInfo, Transfer};
use crate::sched::user;
use crate::sched::user::{RtcTime, Stretch, SysError};

verus! {

/// The stretch has all `len` bytes at the address.
pub open spec fn reaches(s: Stretch, addr: int, len: int) -> bool {
    s.base <= addr && addr + len <= s.base + s.bytes.len()
}

/// The first stretch that has all `len` bytes at the address is stretch `i`.
pub open spec fn reached_in(m: Seq<Stretch>, addr: int, len: int, i: int) -> bool {
    &&& 0 <= i < m.len() && reaches(m[i], addr, len)
    &&& forall|j: int| 0 <= j < i ==> !reaches(#[trigger] m[j], addr, len)
}

pub open spec fn out_of_reach(m: Seq<Stretch>, addr: int, len: int) -> bool {
    forall|j: int| 0 <= j < m.len() ==> !reaches(#[trigger] m[j], addr, len)
}

proof fn lemma_user_bytes(m: Seq<Stretch>, i: int, addr: int, len: int)
    requires
        0 <= i,
        0 < len,
    ensures
        match user::user_bytes(m, i, addr, len) {
            Some(b) => exists|k: int| i <= k < m.len() && #[trigger] reaches(m[k], addr, len)
                && b == m[k].bytes.subrange(addr - m[k].base, addr - m[k].base + len)
                && forall|j: int| i <= j < k ==> !reaches(#[trigger] m[j], addr, len),
            None => forall|j: int| i <= j < m.len() ==> !reaches(#[trigger] m[j], addr, len),
        },
    decreases m.len() - i,
{
    if i < m.len() {
        if reaches(m[i], addr, len) {
        } else {
            lemma_user_bytes(m, i + 1, addr, len);
            if let Some(b) = user::user_bytes(m, i + 1, addr, len) {
                let k = choose|k: int| i + 1 <= k < m.len() && #[trigger] reaches(m[k], addr, len)
                    && b == m[k].bytes.subrange(addr - m[k].base, addr - m[k].base + len)
                    && forall|j: int| i + 1 <= j < k ==> !reaches(#[trigger] m[j], addr, len);
                assert(reaches(m[k], addr, len));
            }
        }
    }
}

/// User memory gives the bytes at an address if one of its stretches has them all, and nothing else.
pub proof fn law_user_memory_read(m: Seq<Stretch>, addr: int, len: int)
    requires
        0 < len,
    ensures
        match user::user_bytes(m, 0, addr, len) {
            Some(b) => b.len() == len && exists|i: int| #[trigger] reached_in(m, addr, len, i)
                && forall|j: int| 0 <= j < len ==> #[trigger] b[j] == m[i].bytes[addr - m[i].base + j],
            None => out_of_reach(m, addr, len),
        },
{
    lemma_user_bytes(m, 0, addr, len);
    if let Some(b) = user::user_bytes(m, 0, addr, len) {
        let k = choose|k: int| 0 <= k < m.len() && #[trigger] reaches(m[k], addr, len)
            && b == m[k].bytes.subrange(addr - m[k].base, addr - m[k].base + len)
            && forall|j: int| 0 <= j < k ==> !reaches(#[trigger] m[j], addr, len);
        assert(reached_in(m, addr, len, k));
    }
}

proof fn lemma_holder(m: Seq<Stretch>, i: int, addr: int, len: int)
    requires
        0 <= i,
    ensures
        match user::holder(m, i, addr, len) {
            Some(k) => i <= k < m.len() && reaches(m[k], addr, len)
                && forall|j: int| i <= j < k ==> !reaches(#[trigger] m[j], addr, len),
            None => forall|j: int| i <= j < m.len() ==> !reaches(#[trigger] m[j], addr, len),
        },
    decreases m.len() - i,
{
    if i < m.len() {
        lemma_holder(m, i + 1, addr, len);
    }
}

/// Writing to user memory changes the bytes that are written, in the stretch that has them all, and no
/// others. It is refused exactly if no stretch has them all.
pub proof fn law_user_memory_written(m: Seq<Stretch>, addr: int, b: Seq<u8>, i: int, x: int)
    requires
        0 < b.len(),
        0 <= i < m.len(),
        m[i].base <= x < m[i].base + m[i].bytes.len(),
    ensures
        match user::stored(m, addr, b) {
            Some(r) => {
                &&& r.len() == m.len()
                &&& r[i].base == m[i].base && r[i].bytes.len() == m[i].bytes.len()
                &&& r[i].bytes[x - m[i].base] == if reached_in(m, addr, b.len() as int, i) && addr <= x < addr + b.len() {
                    b[x - addr]
                } else {
                    m[i].bytes[x - m[i].base]
                }
            },
            None => out_of_reach(m, addr, b.len() as int),
        },
{
    lemma_holder(m, 0, addr, b.len() as int);
    if let Some(k) = user::holder(m, 0, addr, b.len() as int) {
        assert(reached_in(m, addr, b.len() as int, k));
        if reached_in(m, addr, b.len() as int, i) {
            assert(reaches(m[i], addr, b.len() as int) && reaches(m[k], addr, b.len() as int));
            assert(i == k);
        }
    }
}

proof fn lemma_nul(b: Seq<u8>, i: int)
    requires
        0 <= i,
    ensures
        match user::nul_at(b, i) {
            Some(k) => i <= k < b.len() && b[k] == 0 && forall|j: int| i <= j < k ==> #[trigger] b[j] != 0,
            None => forall|j: int| i <= j < b.len() ==> #[trigger] b[j] != 0,
        },
    decreases b.len() - i,
{
    if i < b.len() {
        lemma_nul(b, i + 1);
    }
}

/// The first zero of the bytes is at `k`.
pub open spec fn first_zero(b: Seq<u8>, k: int) -> bool {
    0 <= k < b.len() && b[k] == 0 && forall|j: int| 0 <= j < k ==> #[trigger] b[j] != 0
}

pub open spec fn no_zero(b: Seq<u8>) -> bool {
    forall|j: int| 0 <= j < b.len() ==> #[trigger] b[j] != 0
}

/// How long a text of a process is: up to its first zero, which is looked for to the end of the page that
/// the text begins in, and then in the page behind it. Both are read only as a whole.
pub proof fn law_user_text_length(m: Seq<Stretch>, start: int)
    requires
        0 <= start,
    ensures
        ({
            let n = 4096 - start % 4096;
            let a = user::user_bytes(m, 0, start, n);
            let b = user::user_bytes(m, 0, start + n, 4096);
            match user::user_strlen(m, start) {
                Some(k) => a is Some && (first_zero(a->0, k)
                    || no_zero(a->0) && b is Some && first_zero(b->0, k - n)),
                None => a is None || no_zero(a->0) && (b is None || no_zero(b->0)),
            }
        }),
{
    let n = 4096 - start % 4096;
    assert(user::first_part(start) == n);
    if let Some(a) = user::user_bytes(m, 0, start, n) {
        lemma_nul(a, 0);
    }
    if let Some(b) = user::user_bytes(m, 0, start + n, 4096) {
        lemma_nul(b, 0);
    }
}

/// The number of days in each month of a year, from January on.
pub open spec fn month_lengths(leap: bool) -> Seq<int> {
    seq![31, if leap { 29 } else { 28 }, 31, 30, 31, 30, 31, 31, 30, 31, 30, 31]
}

/// Within a day the clock counts seconds.
pub proof fn law_time_of_day(t: RtcTime)
    ensures
        user::unix_ms(t) == user::unix_ms(RtcTime { hour: 0, minute: 0, second: 0, ..t })
            + 1000 * (t.second + 60 * (t.minute + 60 * t.hour)),
{
}

/// A day has 86400 seconds.
pub proof fn law_next_day(t: RtcTime)
    requires
        t.day < 255,
    ensures
        user::unix_ms(RtcTime { day: (t.day + 1) as u8, ..t }) == user::unix_ms(t) + 86400000,
{
}

/// A month is as long as the calendar has it.
pub proof fn law_next_month(t: RtcTime)
    requires
        1 <= t.month <= 12,
    ensures
        ({
            let y = 2000 + t.year;
            let leap = y % 400 == 0 || y % 4 == 0 && y % 100 != 0;
            user::unix_ms(RtcTime { month: (t.month + 1) as u8, ..t })
                == user::unix_ms(t) + 86400000 * month_lengths(leap)[t.month - 1]
        }),
{
    let y = 2000 + t.year;
    assert(user::days_to_month(y, t.month + 1) == user::days_to_month(y, t.month as int)
        + user::month_days(y, t.month as int));
    let leap = y % 400 == 0 || y % 4 == 0 && y % 100 != 0;
    assert(month_lengths(leap)[t.month - 1] == user::month_days(y, t.month as int));
}

/// The year after December begins with January.
pub proof fn law_next_year(t: RtcTime)
    requires
        t.year < 255,
        t.month == 1,
    ensures
        user::unix_ms(RtcTime { year: (t.year + 1) as u8, ..t }) == user::unix_ms(RtcTime { month: 13, ..t }),
{
    let y = 2000 + t.year;
    reveal_with_fuel(user::days_to_month, 14);
}

/// The clock's first moment is the beginning of the year 2000, counted from the beginning of 1970.
pub proof fn law_clock_begins(t: RtcTime)
    requires
        t.year == 0,
        t.month == 1,
        t.day == 1,
    ensures
        user::unix_ms(t) == 946684800000 + 1000 * (t.second + 60 * (t.minute + 60 * t.hour)),
{
    reveal_with_fuel(user::days_to_year, 31);
}

/// Where a seek counts from: the beginning for 0, the place of the file for 1, its end for 2, and from
/// nowhere for any other number.
pub proof fn law_seek_origin(whence: u64, cur: u64, end: u64)
    ensures
        user::seek_origin(0, cur, end) == Some(0int),
        user::seek_origin(1, cur, end) == Some(cur as int),
        user::seek_origin(2, cur, end) == Some(end as int),
        whence > 2 ==> user::seek_origin(whence, cur, end) is None,
{
}

/// What may be asked to be made: a semaphore, number 0, with a limit; an event, number 1, whose flag is 0
/// or 1; to be inherited or not as 1 or 0 says.
pub proof fn law_sync_arguments(kind: u64, max_count: u64, auto_reset: u64, inheritable: u64)
    ensures
        user::sync_args_ok(0, max_count, auto_reset, inheritable) <==> max_count > 0 && inheritable < 2,
        user::sync_args_ok(1, max_count, auto_reset, inheritable) <==> auto_reset < 2 && inheritable < 2,
        kind > 1 ==> (user::sync_args_ok(kind, max_count, auto_reset, inheritable) <==> inheritable < 2),
{
}

/// Reading and writing: nothing is to be done for no bytes, else the handle must be for a file, a device,
/// or the right end of a pipe.
pub proof fn law_transfer(h: Handle, len: u64)
    requires
        0 < len,
    ensures
        syscall::transfer(Some(h), 0, true) == Ok::<Transfer, SysError>(Transfer::Nothing),
        syscall::transfer(None, 0, false) == Ok::<Transfer, SysError>(Transfer::Nothing),
        syscall::transfer(None, len, false) == Err::<Transfer, SysError>(SysError::Invalid),
        syscall::transfer(None, len, true) == Err::<Transfer, SysError>(SysError::Invalid),
        forall|w: bool| h.kind == HandleKind::File
            ==> #[trigger] syscall::transfer(Some(h), len, w) == Ok::<Transfer, SysError>(Transfer::File(h.object)),
        forall|w: bool| h.kind == HandleKind::Device
            ==> #[trigger] syscall::transfer(Some(h), len, w) == Ok::<Transfer, SysError>(Transfer::Device(h.object)),
        forall|w: bool| #[trigger] syscall::transfer(Some(h), len, w) is Ok ==> h.kind != HandleKind::Process
            && h.kind != HandleKind::Thread && h.kind != HandleKind::Sync && h.kind != HandleKind::Image,
        syscall::transfer(Some(h), len, false) == Ok::<Transfer, SysError>(Transfer::Pipe(h.object))
            <==> h.kind == HandleKind::PipeRead,
        syscall::transfer(Some(h), len, true) == Ok::<Transfer, SysError>(Transfer::Pipe(h.object))
            <==> h.kind == HandleKind::PipeWrite,
        forall|w: bool| #[trigger] syscall::transfer(Some(h), len, w) is Err
            ==> syscall::transfer(Some(h), len, w)->Err_0 == SysError::Invalid,
{
}

/// Only devices are controlled, and only by four requests: two hand a process over, one a mode, and one
/// asks for the mode.
pub proof fn law_control(h: Handle, minor: IrpMinor, arg: u64)
    ensures
        h.kind != HandleKind::Device ==> syscall::control(Some(h), Some(minor), arg) is Err,
        h.kind == HandleKind::Device ==> {
            &&& syscall::control(Some(h), Some(IrpMinor::SetForegroundPgrp), arg)
                == Ok::<(u64, ControlInfo), SysError>((h.object, ControlInfo::Process(arg)))
            &&& syscall::control(Some(h), Some(IrpMinor::SetControllingTty), arg)
                == Ok::<(u64, ControlInfo), SysError>((h.object, ControlInfo::Process(arg)))
            &&& arg < 256 ==> syscall::control(Some(h), Some(IrpMinor::SetTtyMode), arg)
                == Ok::<(u64, ControlInfo), SysError>((h.object, ControlInfo::Mode(arg as u8)))
            &&& syscall::control(Some(h), Some(IrpMinor::GetTtyMode), arg)
                == Ok::<(u64, ControlInfo), SysError>((h.object, ControlInfo::Mode(0)))
            &&& syscall::control(Some(h), Some(minor), arg) is Ok ==> minor == IrpMinor::SetForegroundPgrp
                || minor == IrpMinor::SetControllingTty || minor == IrpMinor::SetTtyMode
                || minor == IrpMinor::GetTtyMode
        },
        syscall::control(None, Some(minor), arg) is Err,
        syscall::control(Some(h), None, arg) is Err,
        forall|o: Option<Handle>, i: Option<IrpMinor>| #[trigger] syscall::control(o, i, arg) is Err
            ==> syscall::control(o, i, arg)->Err_0 == SysError::Invalid,
{
}

/// What is waited for through a handle: the end of a process or a thread, which is still known after it
/// has come, or the object itself. Other handles cannot be waited for.
pub proof fn law_waited_for(p: Procs, s: Sched, cur: u64, number: int, h: Handle)
    requires
        syscall::handle_of(p, cur, number) == Some(h),
    ensures
        ({
            let r = syscall::semaphore_of(p, s, cur, number);
            &&& h.kind == HandleKind::Process && p.proc(h.object) is Some
                ==> r == Ok::<usize, SysError>(p.proc(h.object)->0.term_notify)
            &&& h.kind == HandleKind::Thread && s.task(h.object) is Some
                ==> r == Ok::<usize, SysError>(s.task(h.object)->0.term_notify)
            &&& h.kind == HandleKind::Sync && h.object <= usize::MAX ==> r is Ok && r->Ok_0 == h.object
            &&& r is Ok ==> h.kind == HandleKind::Process || h.kind == HandleKind::Thread || h.kind == HandleKind::Sync
        }),
{
}

/// The process that a call is about: the calling one for -1, else the one that a handle stands for, if it
/// is a handle of a process that has not ended.
pub proof fn law_process_meant(p: Procs, cur: u64, arg: i64)
    ensures
        arg == -1 ==> syscall::process_target(p, cur, arg) == Ok::<u64, SysError>(cur),
        arg != -1 ==> match syscall::handle_of(p, cur, arg as int) {
            None => syscall::process_target(p, cur, arg) == Err::<u64, SysError>(SysError::Invalid),
            Some(h) => {
                &&& h.kind != HandleKind::Process
                    ==> syscall::process_target(p, cur, arg) == Err::<u64, SysError>(SysError::Invalid)
                &&& h.kind == HandleKind::Process && (p.proc(h.object) is None
                    || p.proc(h.object)->0.status == ProcessStatus::Terminated)
                    ==> syscall::process_target(p, cur, arg) == Err::<u64, SysError>(SysError::ProcessTerminated)
                &&& h.kind == HandleKind::Process && p.proc(h.object) is Some
                    && p.proc(h.object)->0.status != ProcessStatus::Terminated
                    ==> syscall::process_target(p, cur, arg) == Ok::<u64, SysError>(h.object)
            },
        },
{
}

/// A handle is copied to the calling process for -1, else only to a process that has not begun to run.
pub proof fn law_process_copied_to(p: Procs, cur: u64, target: i64)
    ensures
        target == -1 ==> syscall::duplicate_target(p, cur, target) == Ok::<u64, SysError>(cur),
        target != -1 ==> match syscall::handle_of(p, cur, target as int) {
            None => syscall::duplicate_target(p, cur, target) == Err::<u64, SysError>(SysError::Invalid),
            Some(h) => {
                &&& h.kind != HandleKind::Process
                    ==> syscall::duplicate_target(p, cur, target) == Err::<u64, SysError>(SysError::Invalid)
                &&& h.kind == HandleKind::Process && p.proc(h.object) is Some
                    && p.proc(h.object)->0.status == ProcessStatus::Suspended
                    ==> syscall::duplicate_target(p, cur, target) == Ok::<u64, SysError>(h.object)
                &&& h.kind == HandleKind::Process && (p.proc(h.object) is None
                    || p.proc(h.object)->0.status != ProcessStatus::Suspended)
                    ==> syscall::duplicate_target(p, cur, target) == Err::<u64, SysError>(SysError::NoPerm)
            },
        },
{
}

proof fn lemma_ended(s: Seq<EndedProcess>, n: nat, id: u64)
    requires
        n <= s.len(),
    ensures
        match syscall::ended_process(s, n, id) {
            Some(e) => exists|i: int| 0 <= i < n && #[trigger] s[i] == e && e.info.id == id
                && forall|j: int| i < j < n ==> (#[trigger] s[j]).info.id != id,
            None => forall|j: int| 0 <= j < n ==> (#[trigger] s[j]).info.id != id,
        },
    decreases n,
{
    if n > 0 {
        lemma_ended(s, (n - 1) as nat, id);
        if s[n - 1].info.id == id {
            assert(s[n - 1] == syscall::ended_process(s, n, id)->0);
        } else if let Some(e) = syscall::ended_process(s, (n - 1) as nat, id) {
            let i = choose|i: int| 0 <= i < n - 1 && #[trigger] s[i] == e && e.info.id == id
                && forall|j: int| i < j < n - 1 ==> (#[trigger] s[j]).info.id != id;
            assert(s[i] == e);
        }
    }
}

/// What is told of a process: its number, its parent, its session and its exit code while it is known, and
/// what was written down of it when it has ended.
pub proof fn law_process_told(p: Procs, id: u64)
    ensures
        match syscall::process_info(p, id) {
            Some(i) => {
                ||| p.proc(id) is Some && i.id == p.proc(id)->0.id && i.pid == p.proc(id)->0.pid
                    && i.sid == p.proc(id)->0.session && i.exit_code == p.proc(id)->0.exit_code
                ||| p.proc(id) is None && i.id == id
                    && exists|k: int| 0 <= k < p.ended.len() && (#[trigger] p.ended[k]).info == i
            },
            None => p.proc(id) is None && forall|k: int| 0 <= k < p.ended.len() ==> (#[trigger] p.ended[k]).info.id != id,
        },
{
    lemma_ended(p.ended, p.ended.len(), id);
}

proof fn lemma_text_len(m: Seq<Stretch>, ptr: int)
    requires
        0 <= ptr,
    ensures
        user::user_strlen(m, ptr) matches Some(k) ==> 0 <= k && (user::user_bytes(m, 0, ptr, k) matches Some(b)
            ==> b.len() == k),
{
    law_user_text_length(m, ptr);
    if let Some(k) = user::user_strlen(m, ptr) {
        if k > 0 {
            law_user_memory_read(m, ptr, k);
        }
    }
}

proof fn lemma_texts(m: Seq<Stretch>, list: Seq<u8>, n: nat)
    ensures
        match syscall::texts_behind(m, list, n) {
            Ok(v) => v.len() == n && forall|i: int| 0 <= i < n ==> #[trigger] text_of(m, elf::le64(list, 8 * i), v[i]),
            Err(_) => exists|i: int| 0 <= i < n && #[trigger] no_text(m, elf::le64(list, 8 * i)),
        },
    decreases n,
{
    if n > 0 {
        lemma_texts(m, list, (n - 1) as nat);
        lemma_text_len(m, elf::le64(list, 8 * (n - 1)));
        match syscall::texts_behind(m, list, (n - 1) as nat) {
            Ok(rest) => {
                if let Ok(v) = syscall::texts_behind(m, list, n) {
                    assert forall|i: int| 0 <= i < n implies #[trigger] text_of(m, elf::le64(list, 8 * i), v[i]) by {
                        if i < n - 1 {
                            assert(text_of(m, elf::le64(list, 8 * i), rest[i]));
                        }
                    }
                } else {
                    assert(no_text(m, elf::le64(list, 8 * (n - 1))));
                }
            },
            Err(_) => {
                let i = choose|i: int| 0 <= i < n - 1 && #[trigger] no_text(m, elf::le64(list, 8 * i));
                assert(no_text(m, elf::le64(list, 8 * i)));
            },
        }
    }
}

/// The text at an address of a process: as many bytes as it is long, which are UTF-8.
pub open spec fn text_of(m: Seq<Stretch>, ptr: int, t: Seq<u8>) -> bool {
    &&& user::user_strlen(m, ptr) == Some(t.len() as int)
    &&& user::user_bytes(m, 0, ptr, t.len() as int) == Some(t)
    &&& vstd::utf8::valid_utf8(t)
}

/// There is no text at an address of a process.
pub open spec fn no_text(m: Seq<Stretch>, ptr: int) -> bool {
    forall|t: Seq<u8>| !#[trigger] text_of(m, ptr, t)
}

/// A command line has as many words as its list, each the text that the list points to in its place. It is
/// refused if there is no list, no word, or something in the list that is no text.
pub proof fn law_command_line(m: Seq<Stretch>, list: u64, len: u64)
    ensures
        match syscall::command_line(m, list, len) {
            Ok(v) => list != 0 && v.len() == len && len > 0 && {
                let b = user::user_bytes(m, 0, list as int, 8 * len);
                b is Some && forall|i: int| 0 <= i < len ==> #[trigger] text_of(m, elf::le64(b->0, 8 * i), v[i])
            },
            Err(_) => list == 0 || len == 0 || user::user_bytes(m, 0, list as int, 8 * len) is None
                || exists|i: int| 0 <= i < len && #[trigger] no_text(
                m, elf::le64(user::user_bytes(m, 0, list as int, 8 * len)->0, 8 * i)),
        },
{
    if list != 0 && len != 0 {
        if let Some(b) = user::user_bytes(m, 0, list as int, 8 * len) {
            lemma_texts(m, b, len as nat);
        }
    }
}

/// A path that a process names is a text that is not empty.
pub proof fn law_name_given(m: Seq<Stretch>, ptr: u64, t: Seq<u8>)
    ensures
        syscall::name_at(m, ptr) == Ok::<Seq<u8>, SysError>(t) ==> t.len() > 0 && text_of(m, ptr as int, t),
        t.len() > 0 && text_of(m, ptr as int, t) ==> syscall::name_at(m, ptr) == Ok::<Seq<u8>, SysError>(t),
        text_of(m, ptr as int, Seq::empty()) ==> syscall::name_at(m, ptr) == Err::<Seq<u8>, SysError>(SysError::Invalid),
{
    if let Some(n) = user::user_strlen(m, ptr as int) {
        if n != 0 {
            law_user_text_length(m, ptr as int);
            if n > 0 {
                lemma_user_bytes(m, 0, ptr as int, n);
            }
        }
    }
}

/// The clocks: number 0 counts from the start of the system, number 1 from 1970, and there is no other.
pub proof fn law_clocks(clock: u64, since_start: u64, now: RtcTime)
    ensures
        file_call::clock_ms(0, since_start, now) == Some(since_start as int),
        file_call::clock_ms(1, since_start, now) == Some(user::unix_ms(now)),
        clock > 1 ==> file_call::clock_ms(clock, since_start, now) is None,
{
}

/// A name is handed to a process with a zero behind it, if its buffer has room for both.
pub proof fn law_name_handed_over(m: Seq<Stretch>, name: Seq<u8>, buf: int, buf_len: int, count_at: int)
    ensures
        ({
            let (r, done) = file_call::name_stored(m, name, buf, buf_len, count_at);
            &&& name.len() + 1 > buf_len ==> r == m && done == Err::<(), SysError>(SysError::BufTooSmall)
            &&& done is Ok ==> name.len() < buf_len
                && user::user_bytes(r, 0, count_at, 8) == Some(user::word((name.len() + 1) as u64))
        }),
{
    if name.len() + 1 <= buf_len {
        if let Some(m1) = user::stored(m, buf, name) {
            if let Some(m2) = user::stored(m1, buf + name.len(), seq![0u8]) {
                if user::stored(m2, count_at, user::word((name.len() + 1) as u64)) is Some {
                    user::law_copied_is_read(m2, count_at, user::word((name.len() + 1) as u64));
                }
            }
        }
    }
}

/// What the calls on files ask for. Files and directories are removed alike; a file is opened as the
/// two low bits of the flags say: bit 0 that it is inherited, bit 1 that it must be there already.
pub proof fn law_file_requests(r: FileRequest, first: Seq<u8>, second: Seq<u8>, flags: u64)
    ensures
        FileCall::DeleteFile.means(r, first, second, flags) <==> FileCall::RemoveDirectory.means(r, first, second, flags),
        FileCall::DeleteFile.means(r, first, second, flags) ==> r is Delete,
        FileCall::MakeDirectory.means(r, first, second, flags) ==> r is MakeDirectory,
        FileCall::ChangeDirectory.means(r, first, second, flags) ==> r is ChangeDirectory,
        FileCall::ReadLink.means(r, first, second, flags) ==> r is LinkTarget,
        FileCall::RenameFile.means(r, first, second, flags) ==> (r matches FileRequest::Rename { from, to } && from@
            == first && to@ == second),
        FileCall::CreateSymlink.means(r, first, second, flags) ==> (r matches FileRequest::Link { path, target } && path@
            == first && target@ == second),
        FileCall::CreateFile.means(r, first, second, flags) ==> (r matches FileRequest::Open {
            path,
            must_exist,
            is_inheritable,
        } && path@ == first && is_inheritable == (flags % 2 == 1) && must_exist == ((flags / 2) % 2 == 1)),
{
    assert((flags & 1 != 0) == (flags % 2 == 1)) by (bit_vector);
    assert((flags & 2 != 0) == ((flags / 2) % 2 == 1)) by (bit_vector);
}

proof fn lemma_word_read(v: u64, b: Seq<u8>, o: int)
    requires
        0 <= o,
        o + 8 <= b.len(),
        b.subrange(o, o + 8) == user::word(v),
    ensures
        elf::le64(b, o) == v,
{
    elf::law_put64_read_back(b, o, v);
    assert forall|i: int| o <= i < o + 8 implies elf::put64(b, o, v)[i] == b[i] by {
        assert(b.subrange(o, o + 8)[i - o] == user::word(v)[i - o]);
    }
}

proof fn lemma_all_info_len(s: Seq<ProcessSnapshot>, n: nat)
    ensures
        process::all_info(s, n).len() == 48 * n,
    decreases n,
{
    if n > 0 {
        lemma_all_info_len(s, (n - 1) as nat);
    }
}

/// What is told of all processes is a record of six numbers for each, in order: its number, its parent,
/// its group, its session, how many threads it has, and 0, 1 or 2 for one that is ready, suspended or
/// ended.
pub proof fn law_process_records(s: Seq<ProcessSnapshot>, n: nat, i: int)
    requires
        0 <= i < n <= s.len(),
    ensures
        ({
            let b = process::all_info(s, n);
            &&& b.len() == 48 * n
            &&& elf::le64(b, 48 * i) == s[i].id
            &&& elf::le64(b, 48 * i + 8) == s[i].ppid
            &&& elf::le64(b, 48 * i + 16) == s[i].pgid
            &&& elf::le64(b, 48 * i + 24) == s[i].sid
            &&& elf::le64(b, 48 * i + 32) == s[i].num_threads
            &&& s[i].status == ProcessStatus::Ready ==> elf::le64(b, 48 * i + 40) == 0
            &&& s[i].status == ProcessStatus::Suspended ==> elf::le64(b, 48 * i + 40) == 1
            &&& s[i].status == ProcessStatus::Terminated ==> elf::le64(b, 48 * i + 40) == 2
        }),
    decreases n,
{
    lemma_all_info_len(s, n);
    lemma_all_info_len(s, (n - 1) as nat);
    let b = process::all_info(s, n);
    let rest = process::all_info(s, (n - 1) as nat);
    if i < n - 1 {
        law_process_records(s, (n - 1) as nat, i);
        assert(forall|k: int| 0 <= k < rest.len() ==> #[trigger] b[k] == rest[k]);
    } else {
        let p = s[i];
        let o = 48 * i;
        let w = process::info_bytes(p);
        assert(w.len() == 48);
        assert(forall|k: int| 0 <= k < 48 ==> b[o + k] == #[trigger] w[k]);
        assert(b.subrange(o, o + 8) =~= user::word(p.id));
        assert(b.subrange(o + 8, o + 16) =~= user::word(p.ppid));
        assert(b.subrange(o + 16, o + 24) =~= user::word(p.pgid));
        assert(b.subrange(o + 24, o + 32) =~= user::word(p.sid));
        assert(b.subrange(o + 32, o + 40) =~= user::word(p.num_threads));
        assert(b.subrange(o + 40, o + 48) =~= user::word(process::status_code(p.status)));
        lemma_word_read(p.id, b, o);
        lemma_word_read(p.ppid, b, o + 8);
        lemma_word_read(p.pgid, b, o + 16);
        lemma_word_read(p.sid, b, o + 24);
        lemma_word_read(p.num_threads, b, o + 32);
        lemma_word_read(process::status_code(p.status), b, o + 40);
    }
}

proof fn lemma_env(m: Seq<Stretch>, ptr: int, i: nat)
    requires
        i <= 256,
        0 <= ptr,
    ensures
        user::env_from(m, ptr, i) matches Some(v) ==> {
            &&& i + v.len() <= 256
            &&& forall|k: int| 0 <= k < v.len() ==> #[trigger] entry_text(m, ptr + 8 * (i + k), v[k])
            &&& i + v.len() < 256 ==> user::user_bytes(m, 0, ptr + 8 * (i + v.len()), 8) is Some
                && elf::le64(user::user_bytes(m, 0, ptr + 8 * (i + v.len()), 8)->0, 0) == 0
        },
    decreases 256 - i,
{
    if i < 256 {
        lemma_env(m, ptr, i + 1);
        if let Some(v) = user::env_from(m, ptr, i) {
            if let Some(Some(s)) = user::env_entry(m, ptr + 8 * i) {
                let rest = user::env_from(m, ptr, i + 1)->0;
                assert(v == seq![s] + rest);
                assert forall|k: int| 0 <= k < v.len() implies #[trigger] entry_text(m, ptr + 8 * (i + k), v[k]) by {
                    if k > 0 {
                        assert(v[k] == rest[k - 1]);
                        assert(entry_text(m, ptr + 8 * (i + 1 + (k - 1)), rest[k - 1]));
                    }
                }
            }
        }
    }
}

/// The word at an address of a process points to a text.
pub open spec fn entry_text(m: Seq<Stretch>, at: int, t: Seq<u8>) -> bool {
    let b = user::user_bytes(m, 0, at, 8);
    b is Some && elf::le64(b->0, 0) != 0 && user::user_string(m, elf::le64(b->0, 0)) == Some(t)
}

/// An environment is the list of texts that a process points to, in its order, up to the pointer that is zero, and
/// of no more than 256.
pub proof fn law_environment(m: Seq<Stretch>, ptr: int)
    requires
        0 <= ptr,
    ensures
        user::env_from(m, ptr, 0) matches Some(v) ==> {
            &&& v.len() <= 256
            &&& forall|k: int| 0 <= k < v.len() ==> #[trigger] entry_text(m, ptr + 8 * (0 + k), v[k])
            &&& v.len() < 256 ==> user::user_bytes(m, 0, ptr + 8 * v.len(), 8) is Some
                && elf::le64(user::user_bytes(m, 0, ptr + 8 * v.len(), 8)->0, 0) == 0
        },
{
    lemma_env(m, ptr, 0);
}

/// Where word `i` begins in a command line that is put together.
pub open spec fn word_at(s: Seq<Seq<u8>>, i: nat) -> int
    decreases i,
{
    if i == 0 { 0 } else { word_at(s, (i - 1) as nat) + s[i - 1].len() + 1 }
}

/// A command line that is put together has its words one behind the other, with a space before each but the first.
pub proof fn law_words_joined(s: Seq<Seq<u8>>, n: nat, i: int)
    requires
        0 <= i < n <= s.len(),
    ensures
        ({
            let r = process::joined(s, n);
            let a = word_at(s, i as nat);
            &&& r.len() == word_at(s, n) - 1
            &&& 0 <= a && a + s[i].len() <= r.len()
            &&& r.subrange(a, a + s[i].len()) == s[i]
            &&& i > 0 ==> r[a - 1] == 32
        }),
    decreases n,
{
    let r = process::joined(s, n);
    if n == 1 {
        assert(r.subrange(0, s[0].len() as int) =~= s[0]);
        assert(word_at(s, 0) == 0);
        assert(word_at(s, 1) == s[0].len() + 1);
    } else {
        let q = process::joined(s, (n - 1) as nat);
        law_words_joined(s, (n - 1) as nat, if i < n - 1 { i } else { 0 });
        let a = word_at(s, i as nat);
        if i < n - 1 {
            assert(r.subrange(a, a + s[i].len()) =~= q.subrange(a, a + s[i].len()));
            if i > 0 {
                assert(a >= 1) by {
                    lemma_word_at(s, i as nat);
                }
                assert(r[a - 1] == q[a - 1]);
            }
        } else {
            assert(r.subrange(a, a + s[i].len()) =~= s[i]);
        }
    }
}

proof fn lemma_word_at(s: Seq<Seq<u8>>, i: nat)
    ensures
        word_at(s, i) >= i,
    decreases i,
{
    if i > 0 {
        lemma_word_at(s, (i - 1) as nat);
    }
}

/// An interface that is asked how much there is says so; else it gives as much as is asked for, from the beginning.
pub proof fn law_interface_answers(r: IntfReply, all: Seq<u8>, needed: u64)
    requires
        system::answers(r, all, needed),
    ensures
        needed == 0 ==> (r matches IntfReply::Size(n) && n == all.len()),
        needed > 0 ==> (r matches IntfReply::Bytes(b) && b@.len() <= needed && b@.len() <= all.len()
            && (b@.len() == needed || b@.len() == all.len()) && forall|i: int| 0 <= i < b@.len() ==> #[trigger] b@[i] == all[i]),
{
}

/// A process that asks for a pipe is told the number of its reading end where it wants that, and the number of its
/// writing end where it wants that.
pub proof fn law_pipe_numbers_told(m: Seq<Stretch>, read_at: u64, write_at: u64, reader: u64, writer: u64)
    requires
        read_at + 8 <= write_at || write_at + 8 <= read_at,
        pipe_call::both_stored(m, read_at, write_at, reader, writer).1 is Ok,
    ensures
        ({
            let r = pipe_call::both_stored(m, read_at, write_at, reader, writer).0;
            &&& user::user_bytes(r, 0, read_at as int, 8) == Some(user::word(reader))
            &&& user::user_bytes(r, 0, write_at as int, 8) == Some(user::word(writer))
        }),
{
    let a = user::word(reader);
    let b = user::word(writer);
    let m1 = user::stored(m, read_at as int, a)->0;
    let m2 = user::stored(m1, write_at as int, b)->0;
    user::law_copied_is_read(m, read_at as int, a);
    user::law_copied_is_read(m1, write_at as int, b);
    law_user_memory_read(m1, read_at as int, 8);
    law_user_memory_read(m2, read_at as int, 8);
    let x = user::user_bytes(m1, 0, read_at as int, 8)->0;
    let y = user::user_bytes(m2, 0, read_at as int, 8)->0;
    let i = choose|i: int| #[trigger] reached_in(m1, read_at as int, 8, i)
        && forall|j: int| 0 <= j < 8 ==> #[trigger] x[j] == m1[i].bytes[read_at - m1[i].base + j];
    let k = choose|k: int| #[trigger] reached_in(m2, read_at as int, 8, k)
        && forall|j: int| 0 <= j < 8 ==> #[trigger] y[j] == m2[k].bytes[read_at - m2[k].base + j];
    lemma_stored_shape(m1, write_at as int, b);
    assert(reaches(m1[i], read_at as int, 8) && reaches(m2[i], read_at as int, 8));
    assert(reaches(m2[k], read_at as int, 8) && reaches(m1[k], read_at as int, 8));
    assert(i == k);
    assert forall|j: int| 0 <= j < 8 implies #[trigger] y[j] == x[j] by {
        law_user_memory_written(m1, write_at as int, b, i, read_at + j);
    }
    assert(y =~= x);
}

proof fn lemma_stored_shape(m: Seq<Stretch>, addr: int, b: Seq<u8>)
    requires
        user::stored(m, addr, b) is Some,
    ensures
        user::stored(m, addr, b)->0.len() == m.len(),
        forall|i: int| 0 <= i < m.len() ==> (#[trigger] user::stored(m, addr, b)->0[i]).base == m[i].base
            && user::stored(m, addr, b)->0[i].bytes.len() == m[i].bytes.len(),
{
    lemma_holder(m, 0, addr, b.len() as int);
}

/// Who may move a process to a group or session of its own: the process itself, or its parent while both are in
/// the same one.
pub proof fn law_who_may_move(p: Procs, c: Proc, by: u64, parent: Proc, same: spec_fn(Proc) -> bool)
    ensures
        p.may_move(c, c.id, same),
        by != c.id && by != c.pid ==> !p.may_move(c, by, same),
        c.pid != c.id && p.proc(c.pid) == Some(parent) ==> (p.may_move(c, c.pid, same) <==> same(parent)),
        c.pid != c.id && p.proc(c.pid) is None ==> !p.may_move(c, c.pid, same),
{
}

/// A handle for an end of a pipe stands for that end, and no other handle for any.
pub proof fn law_ends_of_pipes(h: Handle, e: PipeType)
    ensures
        pipe_call::end_of(pipe_call::handle_for(e)) == Some(e),
        pipe_call::end_of(h) is Some <==> h.kind == HandleKind::PipeRead || h.kind == HandleKind::PipeWrite,
        h.kind == HandleKind::PipeRead ==> pipe_call::end_of(h)->0.is_reader && pipe_call::end_of(h)->0.pipe == h.object,
        h.kind == HandleKind::PipeWrite ==> !pipe_call::end_of(h)->0.is_reader && pipe_call::end_of(h)->0.pipe == h.object,
{
}

/// A pipe has a name if the process points to a text that is not empty.
pub proof fn law_pipe_named(m: Seq<Stretch>, ptr: u64, s: Seq<u8>)
    ensures
        ptr == 0 ==> pipe_call::pipe_name(m, ptr) == Ok::<Option<Seq<u8>>, SysError>(None),
        ptr != 0 && user::user_string(m, ptr as int) is None
            ==> pipe_call::pipe_name(m, ptr) == Err::<Option<Seq<u8>>, SysError>(SysError::InvalidMemoryRange),
        ptr != 0 && user::user_string(m, ptr as int) == Some(s) && s.len() > 0
            ==> pipe_call::pipe_name(m, ptr) == Ok::<Option<Seq<u8>>, SysError>(Some(s)),
        ptr != 0 && user::user_string(m, ptr as int) == Some(s) && s.len() == 0
            ==> pipe_call::pipe_name(m, ptr) == Ok::<Option<Seq<u8>>, SysError>(None),
{
}

} // verus!
