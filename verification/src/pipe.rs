use vstd::prelude::*;
use crate::error::KError;
use crate::object::{ObjectTypes, Opener};
use crate::registry;
use crate::util::bytes_eq;

verus! {

/// How much a pipe holds.
pub const MAX_STREAM_CAPACITY: usize = 512;

/// Opens a pipe for writing.
pub const OPEN_WRITE_FLAG: u64 = 4;

/// A stream of bytes from writers to readers.
pub struct Pipe {
    pub id: u64,
    pub name: Option<Vec<u8>>,
    pub stream: Vec<u8>,
    /// How many handles stand for the end that is read, and for the one that is written to.
    pub reader_count: u64,
    pub writer_count: u64,
}

/// How a read of a pipe goes on.
pub enum ReadStep {
    /// These bytes are given to the reader.
    Give(Vec<u8>),
    /// Nothing more will come.
    Eof,
    /// The reader waits for a writer.
    Block,
}

/// How a write to a pipe goes on.
#[derive(Clone, Copy, Debug, PartialEq, Eq, Structural)]
pub enum WriteStep {
    /// So many bytes have been taken.
    Took(usize),
    /// The writer waits for a reader.
    Block,
}

/// Who is told that a pipe has changed.
#[derive(Clone, Copy, Debug, PartialEq, Eq, Structural)]
pub struct PipeWake {
    pub readers: bool,
    pub writers: bool,
}

pub open spec fn least(a: int, b: int) -> int {
    if a < b { a } else { b }
}

impl Pipe {
    pub open spec fn well_formed(self) -> bool {
        self.stream@.len() <= MAX_STREAM_CAPACITY
    }

    pub fn new(id: u64, name: Option<Vec<u8>>) -> (r: Pipe)
        ensures
            r.id == id,
            r.name == name,
            r.stream@.len() == 0,
            r.reader_count == 0,
            r.writer_count == 0,
            r.well_formed(),
    {
        Pipe { id, name, stream: Vec::new(), reader_count: 0, writer_count: 0 }
    }

    /// What a reader with room for so many bytes gets now. An empty pipe without writers has ended.
    pub fn read(&self, room: usize) -> (r: ReadStep)
        ensures
            match r {
                ReadStep::Give(b) => (room == 0 && b@.len() == 0) || (room > 0 && self.stream@.len() > 0 && b@
                    == self.stream@.take(least(room as int, self.stream@.len() as int))),
                ReadStep::Eof => room > 0 && self.stream@.len() == 0 && self.writer_count == 0,
                ReadStep::Block => room > 0 && self.stream@.len() == 0 && self.writer_count > 0,
            },
    {
        if room == 0 {
            return ReadStep::Give(Vec::new());
        }
        let len: usize = self.stream.len();
        if len == 0 {
            return if self.writer_count == 0 { ReadStep::Eof } else { ReadStep::Block };
        }
        let give: usize = if room < len { room } else { len };
        let mut out: Vec<u8> = Vec::new();
        let mut i: usize = 0;
        while i < give
            invariant
                i <= give <= self.stream@.len(),
                out@ == self.stream@.take(i as int),
            decreases give - i,
        {
            out.push(self.stream[i]);
            assert(self.stream@.take(i + 1) =~= self.stream@.take(i as int).push(self.stream@[i as int]));
            i = i + 1;
        }
        ReadStep::Give(out)
    }

    /// Takes bytes that a reader has got out of the pipe. If the reader's memory could not be written
    /// to, they stay.
    pub fn finish_read(&mut self, give: usize, copied: bool) -> (r: PipeWake)
        requires
            old(self).well_formed(),
            0 < give <= old(self).stream@.len(),
        ensures
            final(self).stream@ == (if copied { old(self).stream@.skip(give as int) } else { old(self).stream@ }),
            final(self).id == old(self).id,
            final(self).name == old(self).name,
            final(self).reader_count == old(self).reader_count,
            final(self).writer_count == old(self).writer_count,
            final(self).well_formed(),
            r == (PipeWake { readers: final(self).stream@.len() > 0, writers: true }),
    {
        if copied {
            let ghost s0 = self.stream@;
            let mut rest: Vec<u8> = Vec::new();
            let mut i: usize = give;
            assert(s0.subrange(give as int, give as int) =~= Seq::empty());
            while i < self.stream.len()
                invariant
                    give <= i <= self.stream@.len(),
                    s0 == self.stream@,
                    rest@ == s0.subrange(give as int, i as int),
                    self.id == old(self).id,
                    self.name == old(self).name,
                    self.reader_count == old(self).reader_count,
                    self.writer_count == old(self).writer_count,
                decreases self.stream@.len() - i,
            {
                rest.push(self.stream[i]);
                assert(s0.subrange(give as int, i + 1) =~= s0.subrange(give as int, i as int).push(s0[i as int]));
                i = i + 1;
            }
            assert(rest@ =~= s0.skip(give as int));
            self.stream = rest;
        }
        PipeWake { readers: self.stream.len() > 0, writers: true }
    }

    /// Takes as much of a writer's bytes as there is room for.
    pub fn write(&mut self, bytes: &Vec<u8>) -> (r: (WriteStep, PipeWake))
        requires
            old(self).well_formed(),
        ensures
            final(self).id == old(self).id,
            final(self).name == old(self).name,
            final(self).reader_count == old(self).reader_count,
            final(self).writer_count == old(self).writer_count,
            final(self).well_formed(),
            bytes@.len() == 0 ==> r.0 == WriteStep::Took(0) && final(self).stream@ == old(self).stream@ && r.1 == (PipeWake {
                readers: false,
                writers: false,
            }),
            bytes@.len() > 0 && old(self).stream@.len() == MAX_STREAM_CAPACITY ==> r.0 == WriteStep::Block
                && final(self).stream@ == old(self).stream@ && r.1 == (PipeWake { readers: false, writers: false }),
            bytes@.len() > 0 && old(self).stream@.len() < MAX_STREAM_CAPACITY ==> {
                let n = least(bytes@.len() as int, MAX_STREAM_CAPACITY - old(self).stream@.len());
                &&& r.0 == WriteStep::Took(n as usize)
                &&& final(self).stream@ == old(self).stream@ + bytes@.take(n)
                &&& r.1 == (PipeWake {
                    readers: true,
                    writers: final(self).stream@.len() < MAX_STREAM_CAPACITY,
                })
            },
    {
        let none: PipeWake = PipeWake { readers: false, writers: false };
        if bytes.len() == 0 {
            return (WriteStep::Took(0), none);
        }
        let len: usize = self.stream.len();
        if len == MAX_STREAM_CAPACITY {
            return (WriteStep::Block, none);
        }
        let room: usize = MAX_STREAM_CAPACITY - len;
        let n: usize = if bytes.len() < room { bytes.len() } else { room };
        let ghost s0 = self.stream@;
        let mut i: usize = 0;
        assert(s0 + bytes@.take(0) =~= s0);
        while i < n
            invariant
                i <= n <= bytes@.len(),
                s0.len() + n <= MAX_STREAM_CAPACITY,
                self.stream@ == s0 + bytes@.take(i as int),
                self.id == old(self).id,
                self.name == old(self).name,
                self.reader_count == old(self).reader_count,
                self.writer_count == old(self).writer_count,
            decreases n - i,
        {
            self.stream.push(bytes[i]);
            assert(self.stream@ =~= s0 + bytes@.take(i + 1));
            i = i + 1;
        }
        (WriteStep::Took(n), PipeWake { readers: true, writers: self.stream.len() < MAX_STREAM_CAPACITY })
    }

    /// Another handle stands for an end of the pipe.
    pub fn add_end(&mut self, is_reader: bool)
        requires
            if is_reader { old(self).reader_count < u64::MAX } else { old(self).writer_count < u64::MAX },
        ensures
            *final(self) == (if is_reader {
                Pipe { reader_count: (old(self).reader_count + 1) as u64, ..*old(self) }
            } else {
                Pipe { writer_count: (old(self).writer_count + 1) as u64, ..*old(self) }
            }),
    {
        if is_reader {
            self.reader_count = self.reader_count + 1;
        } else {
            self.writer_count = self.writer_count + 1;
        }
    }

    /// A handle for an end has been given up. With the last writer, readers are told that nothing more
    /// will come.
    pub fn drop_end(&mut self, is_reader: bool) -> (r: bool)
        requires
            if is_reader { old(self).reader_count > 0 } else { old(self).writer_count > 0 },
        ensures
            *final(self) == (if is_reader {
                Pipe { reader_count: (old(self).reader_count - 1) as u64, ..*old(self) }
            } else {
                Pipe { writer_count: (old(self).writer_count - 1) as u64, ..*old(self) }
            }),
            r == (!is_reader && old(self).writer_count == 1),
    {
        if is_reader {
            self.reader_count = self.reader_count - 1;
            false
        } else {
            self.writer_count = self.writer_count - 1;
            self.writer_count == 0
        }
    }
}

/// What was written last is read last, and bytes come out as they went in: once everything before
/// them has been read, the next read gives a write's bytes.
pub proof fn law_read_back(before: Seq<u8>, written: Seq<u8>, room: int)
    requires
        room >= written.len(),
        written.len() > 0,
    ensures
        (before + written).skip(before.len() as int).take(least(room, written.len() as int)) == written,
        (before + written).take(before.len() as int) == before,
{
    let s = before + written;
    assert(s.skip(before.len() as int) =~= written);
    assert(s.skip(before.len() as int).take(least(room, written.len() as int)) =~= written);
    assert(s.take(before.len() as int) =~= before);
}

/// A pipe that has been opened, for reading or for writing.
#[derive(Clone, Copy, Debug, PartialEq, Eq, Structural)]
pub struct PipeType {
    pub pipe: u64,
    pub is_reader: bool,
}

/// All pipes.
pub struct PipeTable {
    pub pipes: Vec<Pipe>,
    pub next_id: u64,
}

pub open spec fn has_name(p: Pipe, name: Seq<u8>) -> bool {
    p.name matches Some(n) && n@ == name
}

/// The first pipe with a name, from `i` on.
pub open spec fn find_named(s: Seq<Pipe>, i: int, name: Seq<u8>) -> Option<int>
    decreases s.len() - i,
{
    if i < 0 || i >= s.len() {
        None
    } else if has_name(s[i], name) {
        Some(i)
    } else {
        find_named(s, i + 1, name)
    }
}

/// The first pipe with an id, from `i` on.
pub open spec fn find_pipe(s: Seq<Pipe>, i: int, id: u64) -> Option<int>
    decreases s.len() - i,
{
    if i < 0 || i >= s.len() {
        None
    } else if s[i].id == id {
        Some(i)
    } else {
        find_pipe(s, i + 1, id)
    }
}

/// How many handles stand for an end of a pipe.
pub open spec fn ends(s: Seq<Pipe>, e: PipeType) -> nat {
    match find_pipe(s, 0, e.pipe) {
        None => 0,
        Some(k) => if e.is_reader { s[k].reader_count as nat } else { s[k].writer_count as nat },
    }
}

/// Another handle stands for an end.
pub open spec fn with_end(s: Seq<Pipe>, e: PipeType) -> Seq<Pipe> {
    match find_pipe(s, 0, e.pipe) {
        None => s,
        Some(k) => s.update(k, if e.is_reader {
            Pipe { reader_count: (s[k].reader_count + 1) as u64, ..s[k] }
        } else {
            Pipe { writer_count: (s[k].writer_count + 1) as u64, ..s[k] }
        }),
    }
}

/// A handle for an end has been given up. With the last handle for either end the pipe is gone, and so
/// is its name.
pub open spec fn without_end(s: Seq<Pipe>, e: PipeType) -> Seq<Pipe> {
    match find_pipe(s, 0, e.pipe) {
        None => s,
        Some(k) => if s[k].reader_count + s[k].writer_count == 1 {
            s.remove(k)
        } else {
            s.update(k, if e.is_reader {
                Pipe { reader_count: (s[k].reader_count - 1) as u64, ..s[k] }
            } else {
                Pipe { writer_count: (s[k].writer_count - 1) as u64, ..s[k] }
            })
        },
    }
}

/// Whether nobody writes to a pipe any more once this handle has been given up, so that its readers
/// are told.
pub open spec fn last_writer(s: Seq<Pipe>, e: PipeType) -> bool {
    !e.is_reader && ends(s, e) == 1
}

/// No two pipes have the same id or the same name.
pub open spec fn pipes_ok(s: Seq<Pipe>, next_id: u64) -> bool {
    &&& forall|i: int| 0 <= i < s.len() ==> (#[trigger] s[i]).id < next_id && s[i].well_formed()
    &&& forall|i: int, j: int| 0 <= i < j < s.len() ==> (#[trigger] s[i]).id != (#[trigger] s[j]).id
    &&& forall|i: int, j: int|
        0 <= i < j < s.len() && (#[trigger] s[i]).name is Some && (#[trigger] s[j]).name is Some ==> s[i].name->0@
            != s[j].name->0@
}

/// There is room for so many more handles.
pub open spec fn room_for(s: Seq<Pipe>, n: nat) -> bool {
    forall|i: int| 0 <= i < s.len() ==> (#[trigger] s[i]).reader_count + n <= u64::MAX && s[i].writer_count + n <= u64::MAX
}

pub proof fn lemma_find_pipe(s: Seq<Pipe>, i: int, id: u64)
    requires
        0 <= i,
    ensures
        match find_pipe(s, i, id) {
            Some(k) => i <= k < s.len() && s[k].id == id,
            None => forall|k: int| i <= k < s.len() ==> (#[trigger] s[k]).id != id,
        },
    decreases s.len() - i,
{
    if i < s.len() {
        lemma_find_pipe(s, i + 1, id);
    }
}

pub proof fn lemma_find_named(s: Seq<Pipe>, i: int, name: Seq<u8>)
    requires
        0 <= i,
    ensures
        match find_named(s, i, name) {
            Some(k) => i <= k < s.len() && has_name(s[k], name),
            None => forall|k: int| i <= k < s.len() ==> !has_name(#[trigger] s[k], name),
        },
    decreases s.len() - i,
{
    if i < s.len() {
        lemma_find_named(s, i + 1, name);
    }
}

/// A pipe that is there is found.
proof fn lemma_pipe_at(s: Seq<Pipe>, next_id: u64, k: int)
    requires
        pipes_ok(s, next_id),
        0 <= k < s.len(),
    ensures
        find_pipe(s, 0, s[k].id) == Some(k),
{
    lemma_find_pipe(s, 0, s[k].id);
    let j = find_pipe(s, 0, s[k].id)->0;
    if j < k {
        assert(s[j].id != s[k].id);
    } else if k < j {
        assert(s[k].id != s[j].id);
    }
}

/// A pipe that is found by its name is found by its id.
pub proof fn lemma_named_pipe(s: Seq<Pipe>, next_id: u64, name: Seq<u8>)
    requires
        pipes_ok(s, next_id),
        find_named(s, 0, name) is Some,
    ensures
        find_pipe(s, 0, s[find_named(s, 0, name)->0].id) == find_named(s, 0, name),
{
    lemma_find_named(s, 0, name);
    lemma_pipe_at(s, next_id, find_named(s, 0, name)->0);
}

/// Another handle counts for the end that it stands for, and for no other.
pub proof fn lemma_with_end(s: Seq<Pipe>, next_id: u64, e: PipeType, x: PipeType)
    requires
        pipes_ok(s, next_id),
        find_pipe(s, 0, e.pipe) is Some,
        room_for(s, 1),
    ensures
        ends(with_end(s, e), x) == ends(s, x) + (if x == e { 1nat } else { 0 }),
        pipes_ok(with_end(s, e), next_id),
        find_pipe(with_end(s, e), 0, x.pipe) is Some == find_pipe(s, 0, x.pipe) is Some,
        with_end(s, e).len() == s.len(),
{
    lemma_find_pipe(s, 0, e.pipe);
    lemma_find_pipe(s, 0, x.pipe);
    let k = find_pipe(s, 0, e.pipe)->0;
    let r = with_end(s, e);
    assert(forall|i: int| 0 <= i < s.len() ==> (#[trigger] r[i]).id == s[i].id && r[i].name == s[i].name && r[i].stream
        == s[i].stream);
    lemma_find_pipe(r, 0, x.pipe);
    assert(pipes_ok(r, next_id)) by {
        assert forall|i: int, j: int| 0 <= i < j < r.len() implies (#[trigger] r[i]).id != (#[trigger] r[j]).id by {
            assert(s[i].id != s[j].id);
        }
        assert forall|i: int, j: int|
            0 <= i < j < r.len() && (#[trigger] r[i]).name is Some && (#[trigger] r[j]).name is Some implies r[i].name->0@
                != r[j].name->0@ by {
            assert(s[i].name is Some && s[j].name is Some);
        }
        assert forall|i: int| 0 <= i < r.len() implies (#[trigger] r[i]).id < next_id && r[i].well_formed() by {
            assert(s[i].well_formed());
        }
    }
    if let Some(a) = find_pipe(s, 0, x.pipe) {
        lemma_pipe_at(r, next_id, a);
    }
}

/// A handle that has been given up counts no more.
pub proof fn lemma_without_end(s: Seq<Pipe>, next_id: u64, e: PipeType, x: PipeType)
    requires
        pipes_ok(s, next_id),
        ends(s, e) > 0,
    ensures
        ends(without_end(s, e), x) == ends(s, x) - (if x == e { 1int } else { 0 }),
        pipes_ok(without_end(s, e), next_id),
{
    lemma_find_pipe(s, 0, e.pipe);
    lemma_find_pipe(s, 0, x.pipe);
    let k = find_pipe(s, 0, e.pipe)->0;
    let r = without_end(s, e);
    if s[k].reader_count + s[k].writer_count == 1 {
        assert forall|i: int| 0 <= i < r.len() implies (#[trigger] r[i]) == s[if i < k { i } else { i + 1 }] by {}
        assert(pipes_ok(r, next_id)) by {
            assert forall|i: int, j: int| 0 <= i < j < r.len() implies (#[trigger] r[i]).id != (#[trigger] r[j]).id by {
                assert(s[if i < k { i } else { i + 1 }].id != s[if j < k { j } else { j + 1 }].id);
            }
            assert forall|i: int, j: int|
                0 <= i < j < r.len() && (#[trigger] r[i]).name is Some && (#[trigger] r[j]).name is Some implies
                r[i].name->0@ != r[j].name->0@ by {
                assert(s[if i < k { i } else { i + 1 }].name is Some && s[if j < k { j } else { j + 1 }].name is Some);
            }
        }
        lemma_find_pipe(r, 0, x.pipe);
        if let Some(a) = find_pipe(s, 0, x.pipe) {
            if a == k {
                if let Some(b) = find_pipe(r, 0, x.pipe) {
                    lemma_pipe_at(s, next_id, if b < k { b } else { b + 1 });
                }
                assert(x.pipe == e.pipe);
                assert(x.is_reader == e.is_reader ==> x == e);
            } else {
                lemma_pipe_at(r, next_id, if a < k { a } else { a - 1 });
            }
        } else if let Some(b) = find_pipe(r, 0, x.pipe) {
            assert(s[if b < k { b } else { b + 1 }].id == x.pipe);
        }
    } else {
        assert(forall|i: int| 0 <= i < s.len() ==> (#[trigger] r[i]).id == s[i].id && r[i].name == s[i].name
            && r[i].stream == s[i].stream);
        lemma_find_pipe(r, 0, x.pipe);
        assert(pipes_ok(r, next_id)) by {
            assert forall|i: int, j: int| 0 <= i < j < r.len() implies (#[trigger] r[i]).id != (#[trigger] r[j]).id by {
                assert(s[i].id != s[j].id);
            }
            assert forall|i: int, j: int|
                0 <= i < j < r.len() && (#[trigger] r[i]).name is Some && (#[trigger] r[j]).name is Some implies
                r[i].name->0@ != r[j].name->0@ by {
                assert(s[i].name is Some && s[j].name is Some);
            }
            assert forall|i: int| 0 <= i < r.len() implies (#[trigger] r[i]).id < next_id && r[i].well_formed() by {
                assert(s[i].well_formed());
            }
        }
        if let Some(a) = find_pipe(s, 0, x.pipe) {
            lemma_pipe_at(r, next_id, a);
        }
    }
}

/// A pipe is there exactly as long as a handle stands for one of its ends. With the last one its name is
/// free again.
pub proof fn law_last_handle(s: Seq<Pipe>, next_id: u64, e: PipeType, name: Seq<u8>)
    requires
        pipes_ok(s, next_id),
        ends(s, e) > 0,
        has_name(s[find_pipe(s, 0, e.pipe)->0], name),
    ensures
        ({
            let other = PipeType { is_reader: !e.is_reader, ..e };
            let last = ends(s, e) == 1 && ends(s, other) == 0;
            &&& find_pipe(without_end(s, e), 0, e.pipe) is None <==> last
            &&& find_named(without_end(s, e), 0, name) is None <==> last
        }),
{
    lemma_find_pipe(s, 0, e.pipe);
    let k = find_pipe(s, 0, e.pipe)->0;
    let r = without_end(s, e);
    lemma_find_pipe(r, 0, e.pipe);
    lemma_find_named(r, 0, name);
    if s[k].reader_count + s[k].writer_count == 1 {
        if let Some(b) = find_pipe(r, 0, e.pipe) {
            lemma_pipe_at(s, next_id, if b < k { b } else { b + 1 });
        }
        if let Some(b) = find_named(r, 0, name) {
            let a = if b < k { b } else { b + 1 };
            assert(s[a].name is Some && s[k].name is Some);
            if a < k {
                assert(s[a].name->0@ != s[k].name->0@);
            } else {
                assert(s[k].name->0@ != s[a].name->0@);
            }
        }
    } else {
        assert(r[k].id == e.pipe);
        assert(has_name(r[k], name));
    }
}

impl PipeTable {
    pub open spec fn well_formed(self) -> bool {
        pipes_ok(self.pipes@, self.next_id)
    }

    pub fn new() -> (r: PipeTable)
        ensures
            r.pipes@.len() == 0,
            r.next_id == 0,
            r.well_formed(),
    {
        PipeTable { pipes: Vec::new(), next_id: 0 }
    }

    /// Makes pipes known as a type of object.
    pub fn init(types: &mut ObjectTypes, kind: Vec<u8>) -> (r: Result<(), KError>)
        ensures
            r is Ok <==> registry::value_of(old(types).types@, 0, kind@) is None,
            r is Err ==> r->Err_0 == KError::InvalidArgument && final(types).types@ == old(types).types@,
            r is Ok ==> final(types).types@ == old(types).types@.push((kind@, Opener::Pipe)),
    {
        types.register_object_type(kind, Opener::Pipe)
    }

    fn index_named(&self, name: &Vec<u8>) -> (r: Option<usize>)
        ensures
            match r {
                Some(i) => find_named(self.pipes@, 0, name@) == Some(i as int) && i < self.pipes@.len(),
                None => find_named(self.pipes@, 0, name@) is None,
            },
    {
        let mut i: usize = 0;
        while i < self.pipes.len()
            invariant
                i <= self.pipes@.len(),
                find_named(self.pipes@, 0, name@) == find_named(self.pipes@, i as int, name@),
            decreases self.pipes@.len() - i,
        {
            if let Some(n) = &self.pipes[i].name {
                if bytes_eq(n, name) {
                    return Some(i);
                }
            }
            i = i + 1;
        }
        None
    }

    fn index_of(&self, id: u64) -> (r: Option<usize>)
        ensures
            match r {
                Some(i) => find_pipe(self.pipes@, 0, id) == Some(i as int) && i < self.pipes@.len(),
                None => find_pipe(self.pipes@, 0, id) is None,
            },
    {
        let mut i: usize = 0;
        while i < self.pipes.len()
            invariant
                i <= self.pipes@.len(),
                find_pipe(self.pipes@, 0, id) == find_pipe(self.pipes@, i as int, id),
            decreases self.pipes@.len() - i,
        {
            if self.pipes[i].id == id {
                return Some(i);
            }
            i = i + 1;
        }
        None
    }

    /// Counts a new handle for an end of a pipe.
    pub fn add_end(&mut self, e: PipeType)
        requires
            room_for(old(self).pipes@, 1),
        ensures
            final(self).pipes@ == with_end(old(self).pipes@, e),
            final(self).next_id == old(self).next_id,
    {
        if let Some(i) = self.index_of(e.pipe) {
            let ghost s0 = self.pipes@;
            self.pipes[i].add_end(e.is_reader);
            assert(self.pipes@ =~= with_end(s0, e));
        }
    }

    /// Counts a handle for an end of a pipe no more. The pipe is gone with the last one. Whether the
    /// readers are to be told that nothing more will come.
    pub fn drop_end(&mut self, e: PipeType) -> (r: bool)
        requires
            old(self).well_formed(),
            ends(old(self).pipes@, e) > 0,
        ensures
            final(self).pipes@ == without_end(old(self).pipes@, e),
            final(self).next_id == old(self).next_id,
            final(self).well_formed(),
            r == last_writer(old(self).pipes@, e),
    {
        let ghost s0 = self.pipes@;
        proof {
            lemma_without_end(s0, self.next_id, e, e);
        }
        match self.index_of(e.pipe) {
            None => false,
            Some(i) => {
                let told: bool = self.pipes[i].drop_end(e.is_reader);
                if self.pipes[i].reader_count == 0 && self.pipes[i].writer_count == 0 {
                    let ghost s1 = self.pipes@;
                    let _ = self.pipes.remove(i);
                    assert(self.pipes@ =~= s0.remove(i as int)) by {
                        assert(s1 =~= s0.update(i as int, s1[i as int]));
                    }
                } else {
                    assert(self.pipes@ =~= without_end(s0, e));
                }
                told
            },
        }
    }

    /// Makes a pipe, under a name that no other has or under none.
    pub fn create_named_pipe(&mut self, name: Option<Vec<u8>>) -> (r: Result<u64, KError>)
        requires
            old(self).well_formed(),
            old(self).next_id < u64::MAX,
        ensures
            final(self).well_formed(),
            (name matches Some(n) && find_named(old(self).pipes@, 0, n@) is Some) ==> r == Err::<u64, KError>(
                KError::InvalidArgument) && *final(self) == *old(self),
            !(name matches Some(n) && find_named(old(self).pipes@, 0, n@) is Some) ==> {
                &&& r == Ok::<u64, KError>(old(self).next_id)
                &&& final(self).next_id == old(self).next_id + 1
                &&& final(self).pipes@.len() == old(self).pipes@.len() + 1
                &&& final(self).pipes@.take(old(self).pipes@.len() as int) == old(self).pipes@
                &&& final(self).pipes@.last().id == old(self).next_id
                &&& final(self).pipes@.last().name == name
                &&& final(self).pipes@.last().stream@.len() == 0
                &&& final(self).pipes@.last().reader_count == 0
                &&& final(self).pipes@.last().writer_count == 0
            },
    {
        if let Some(n) = &name {
            if self.index_named(n).is_some() {
                return Err(KError::InvalidArgument);
            }
        }
        let id: u64 = self.next_id;
        let ghost p0 = self.pipes@;
        self.next_id = id + 1;
        self.pipes.push(Pipe::new(id, name));
        assert(self.pipes@.take(p0.len() as int) =~= p0);
        proof {
            let r = self.pipes@;
            if let Some(n) = r.last().name {
                lemma_find_named(p0, 0, n@);
            }
            assert(pipes_ok(r, self.next_id)) by {
                assert forall|i: int, j: int|
                    0 <= i < j < r.len() && (#[trigger] r[i]).name is Some && (#[trigger] r[j]).name is Some implies
                    r[i].name->0@ != r[j].name->0@ by {
                    if j == p0.len() {
                        assert(!has_name(p0[i], r[j].name->0@));
                    }
                }
            }
        }
        Ok(id)
    }

    /// Opens a pipe by its name. The handle is counted from now on.
    pub fn open_pipe(&mut self, name: &Vec<u8>, flags: u64) -> (r: Result<PipeType, KError>)
        requires
            old(self).well_formed(),
            room_for(old(self).pipes@, 1),
        ensures
            match find_named(old(self).pipes@, 0, name@) {
                None => r == Err::<PipeType, KError>(KError::InvalidArgument) && *final(self) == *old(self),
                Some(k) => {
                    let e = PipeType { pipe: old(self).pipes@[k].id, is_reader: flags & OPEN_WRITE_FLAG == 0 };
                    &&& r == Ok::<PipeType, KError>(e)
                    &&& final(self).next_id == old(self).next_id
                    &&& final(self).pipes@ == with_end(old(self).pipes@, e)
                },
            },
            final(self).well_formed(),
    {
        let i: usize = match self.index_named(name) {
            Some(i) => i,
            None => { return Err(KError::InvalidArgument); },
        };
        let e: PipeType = PipeType { pipe: self.pipes[i].id, is_reader: flags & OPEN_WRITE_FLAG == 0 };
        proof {
            lemma_pipe_at(self.pipes@, self.next_id, i as int);
            lemma_with_end(self.pipes@, self.next_id, e, e);
        }
        self.add_end(e);
        Ok(e)
    }
}

/// The lesser of two numbers is one of them, and no more than the other.
pub proof fn law_least(a: int, b: int)
    ensures
        least(a, b) <= a && least(a, b) <= b,
        least(a, b) == a || least(a, b) == b,
{
}

} // verus!
