use vstd::prelude::*;
use crate::error::KError;
use crate::util::bytes_eq;

verus! {

pub struct RegistryEntry<T> {
    pub name: Vec<u8>,
    pub value: T,
}

/// Values by name.
pub struct Registry<T> {
    pub entries: Vec<RegistryEntry<T>>,
}

impl<T> View for Registry<T> {
    type V = Seq<(Seq<u8>, T)>;

    open spec fn view(&self) -> Seq<(Seq<u8>, T)> {
        Seq::new(self.entries@.len(), |i: int| (self.entries@[i].name@, self.entries@[i].value))
    }
}

/// The value of a name, in the entries from `i` on.
pub open spec fn value_of<T>(s: Seq<(Seq<u8>, T)>, i: int, name: Seq<u8>) -> Option<T>
    decreases s.len() - i,
{
    if i < 0 || i >= s.len() {
        None
    } else if s[i].0 == name {
        Some(s[i].1)
    } else {
        value_of(s, i + 1, name)
    }
}

impl<T: Copy> Registry<T> {
    pub fn new() -> (r: Registry<T>)
        ensures
            r@.len() == 0,
    {
        Registry { entries: Vec::new() }
    }

    pub fn lookup(&self, name: &Vec<u8>) -> (r: Option<T>)
        ensures
            r == value_of(self@, 0, name@),
    {
        let mut i: usize = 0;
        while i < self.entries.len()
            invariant
                i <= self.entries@.len(),
                value_of(self@, 0, name@) == value_of(self@, i as int, name@),
            decreases self.entries@.len() - i,
        {
            if bytes_eq(&self.entries[i].name, name) {
                return Some(self.entries[i].value);
            }
            i = i + 1;
        }
        None
    }

    /// Gives a value a name that has none yet.
    pub fn register(&mut self, name: Vec<u8>, value: T) -> (r: Result<(), KError>)
        ensures
            r == (if value_of(old(self)@, 0, name@) is Some { Err(KError::InvalidArgument) } else { Ok(()) }),
            final(self)@ == (if r is Ok { old(self)@.push((name@, value)) } else { old(self)@ }),
    {
        if self.lookup(&name).is_some() {
            return Err(KError::InvalidArgument);
        }
        let ghost v0 = self@;
        let ghost n = name@;
        self.entries.push(RegistryEntry { name, value });
        assert(self@ =~= v0.push((n, value)));
        Ok(())
    }
}

proof fn lemma_value_pushed<T>(s: Seq<(Seq<u8>, T)>, i: int, name: Seq<u8>, v: T, other: Seq<u8>)
    requires
        0 <= i <= s.len(),
    ensures
        value_of(s.push((name, v)), i, other) == (match value_of(s, i, other) {
            Some(x) => Some(x),
            None => if name == other { Some(v) } else { None },
        }),
    decreases s.len() - i,
{
    let u = s.push((name, v));
    if i < s.len() {
        assert(u[i] == s[i]);
        lemma_value_pushed(s, i + 1, name, v, other);
    } else {
        assert(u[i] == (name, v));
        assert(value_of(u, i + 1, other) is None);
    }
}

/// What has been registered is found under its name, and nothing else has changed.
pub proof fn law_registered<T>(s: Seq<(Seq<u8>, T)>, name: Seq<u8>, v: T, other: Seq<u8>)
    requires
        value_of(s, 0, name) is None,
    ensures
        value_of(s.push((name, v)), 0, other) == (if other == name { Some(v) } else { value_of(s, 0, other) }),
{
    lemma_value_pushed(s, 0, name, v, other);
}

} // verus!
