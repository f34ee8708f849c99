use vstd::prelude::*;

verus! {

/// What a handle stands for.
#[derive(Clone, Copy, Debug, PartialEq, Eq, Structural)]
pub enum HandleKind {
    File,
    Image,
    Device,
    Thread,
    Process,
    Sync,
    PipeRead,
    PipeWrite,
}

/// A kernel object that a process has a number for.
#[derive(Clone, Copy, Debug, PartialEq, Eq, Structural)]
pub struct Handle {
    pub kind: HandleKind,
    pub object: u64,
}

#[derive(Clone, Copy, Debug, PartialEq, Eq, Structural)]
pub struct HandleType {
    pub handle_info: Handle,
    pub is_inheritable: bool,
}

/// The first free place from `i` on.
pub open spec fn free_from(s: Seq<Option<HandleType>>, i: int) -> Option<int>
    decreases s.len() - i,
{
    if i < 0 || i >= s.len() {
        None
    } else if s[i] is None {
        Some(i)
    } else {
        free_from(s, i + 1)
    }
}

/// The number that the next handle gets: the lowest one that is free.
pub open spec fn next_number(s: Seq<Option<HandleType>>) -> int {
    match free_from(s, 0) { Some(i) => i, None => s.len() as int }
}

pub open spec fn handle_added(s: Seq<Option<HandleType>>, h: HandleType) -> Seq<Option<HandleType>> {
    match free_from(s, 0) { Some(i) => s.update(i, Some(h)), None => s.push(Some(h)) }
}

pub open spec fn handle_at(s: Seq<Option<HandleType>>, i: int) -> Option<Handle> {
    if 0 <= i < s.len() {
        match s[i] { Some(h) => Some(h.handle_info), None => None }
    } else {
        None
    }
}

pub open spec fn handle_removed(s: Seq<Option<HandleType>>, i: int) -> Seq<Option<HandleType>> {
    if 0 <= i < s.len() { s.update(i, None) } else { s }
}

/// The table with a handle at a place, and free places up to it where there were none.
pub open spec fn handle_placed(s: Seq<Option<HandleType>>, i: int, h: HandleType) -> Seq<Option<HandleType>> {
    let n = if s.len() <= i { i + 1 } else { s.len() as int };
    Seq::new(n as nat, |k: int| if k == i { Some(h) } else if k < s.len() { s[k] } else { None })
}

/// What a child process gets of its parent's table: inheritable handles under the same numbers.
pub open spec fn inherited(s: Seq<Option<HandleType>>) -> Seq<Option<HandleType>> {
    Seq::new(s.len(), |k: int| match s[k] {
        Some(h) => if h.is_inheritable { Some(h) } else { None },
        None => None,
    })
}

pub fn get_handle(table: &Vec<Option<HandleType>>, handle: usize) -> (r: Option<Handle>)
    ensures
        r == handle_at(table@, handle as int),
{
    if table.len() > handle {
        match table[handle] {
            Some(h) => Some(h.handle_info),
            None => None,
        }
    } else {
        None
    }
}

/// Frees a number. Whether there was a handle.
pub fn remove_handle(table: &mut Vec<Option<HandleType>>, handle: usize) -> (r: bool)
    ensures
        r == (handle_at(old(table)@, handle as int) is Some),
        final(table)@ == handle_removed(old(table)@, handle as int),
{
    if table.len() > handle {
        let there: bool = table[handle].is_some();
        table.set(handle, None);
        return there;
    }
    false
}

/// Gives a handle the lowest free number.
pub fn add_handle(table: &mut Vec<Option<HandleType>>, handle: Handle, is_inheritable: bool) -> (r: usize)
    ensures
        r == next_number(old(table)@),
        final(table)@ == handle_added(old(table)@, (HandleType { handle_info: handle, is_inheritable })),
{
    let h: HandleType = HandleType { handle_info: handle, is_inheritable };
    let mut i: usize = 0;
    while i < table.len()
        invariant
            i <= table@.len(),
            *table == *old(table),
            h == (HandleType { handle_info: handle, is_inheritable }),
            free_from(table@, 0) == free_from(table@, i as int),
        decreases table@.len() - i,
    {
        if table[i].is_none() {
            table.set(i, Some(h));
            return i;
        }
        i = i + 1;
    }
    let n: usize = table.len();
    table.push(Some(h));
    n
}

/// Gives a handle a number of the caller's choice.
pub fn place_handle(table: &mut Vec<Option<HandleType>>, index: usize, handle: Handle, is_inheritable: bool)
    requires
        index < usize::MAX,
    ensures
        final(table)@ == handle_placed(old(table)@, index as int, (HandleType { handle_info: handle, is_inheritable })),
{
    let ghost s0 = table@;
    while table.len() <= index
        invariant
            s0.len() <= table@.len(),
            table@.len() <= (if s0.len() <= index { index + 1 } else { s0.len() as int }),
            forall|k: int| 0 <= k < s0.len() ==> table@[k] == s0[k],
            forall|k: int| s0.len() <= k < table@.len() ==> table@[k] is None,
            index < usize::MAX,
        decreases index + 1 - table@.len(),
    {
        table.push(None);
    }
    table.set(index, Some(HandleType { handle_info: handle, is_inheritable }));
}

/// The table that a child process begins with.
pub fn inherit_handles(table: &Vec<Option<HandleType>>) -> (r: Vec<Option<HandleType>>)
    ensures
        r@ == inherited(table@),
{
    let mut out: Vec<Option<HandleType>> = Vec::new();
    let mut i: usize = 0;
    while i < table.len()
        invariant
            i <= table@.len(),
            out@ == inherited(table@).take(i as int),
        decreases table@.len() - i,
    {
        let h: Option<HandleType> = match table[i] {
            Some(h) => if h.is_inheritable { Some(h) } else { None },
            None => None,
        };
        out.push(h);
        assert(inherited(table@).take(i + 1) =~= inherited(table@).take(i as int).push(inherited(table@)[i as int]));
        i = i + 1;
    }
    assert(inherited(table@).take(i as int) =~= inherited(table@));
    out
}

pub proof fn lemma_free_from(s: Seq<Option<HandleType>>, i: int)
    requires
        0 <= i,
    ensures
        match free_from(s, i) {
            Some(k) => i <= k < s.len() && s[k] is None && forall|j: int| i <= j < k ==> (#[trigger] s[j]) is Some,
            None => forall|j: int| i <= j < s.len() ==> (#[trigger] s[j]) is Some,
        },
    decreases s.len() - i,
{
    if i < s.len() && s[i] is Some {
        lemma_free_from(s, i + 1);
    }
}

/// A handle can be read back under the number it was given, and no other handle has changed.
pub proof fn law_added_handle(s: Seq<Option<HandleType>>, h: HandleType, i: int)
    ensures
        handle_at(handle_added(s, h), i) == (if i == next_number(s) { Some(h.handle_info) } else { handle_at(s, i) }),
{
    lemma_free_from(s, 0);
}

/// A number that has been freed is free: nothing is read back, and what was below it decides whether
/// it is given out next.
pub proof fn law_removed_handle(s: Seq<Option<HandleType>>, i: int)
    requires
        0 <= i < s.len(),
    ensures
        handle_at(handle_removed(s, i), i) is None,
        next_number(handle_removed(s, i)) <= i,
        (forall|k: int| 0 <= k < i ==> (#[trigger] s[k]) is Some) ==> next_number(handle_removed(s, i)) == i,
{
    let t = handle_removed(s, i);
    lemma_free_from(t, 0);
    assert(t[i] is None);
    if forall|k: int| 0 <= k < i ==> (#[trigger] s[k]) is Some {
        if let Some(k) = free_from(t, 0) {
            if k < i {
                assert(s[k] is Some);
            }
        }
    }
}

/// A child has the handles of its parent that are inheritable, under the same numbers, and no others.
pub proof fn law_inherited_handle(s: Seq<Option<HandleType>>, i: int)
    requires
        0 <= i < s.len(),
    ensures
        handle_at(inherited(s), i) == (if s[i] is Some && s[i]->0.is_inheritable { handle_at(s, i) } else { None }),
{
}

} // verus!
