use vstd::prelude::*;

verus! {

/// A value that is set at most once.
pub struct Once<T> {
    pub value: Option<T>,
}

impl<T> Once<T> {
    pub fn new() -> (r: Once<T>)
        ensures
            r.value is None,
    {
        Once { value: None }
    }

    /// Sets the value, unless it has been set.
    pub fn call_once<F: FnOnce() -> T>(&mut self, init: F)
        requires
            init.requires(()),
        ensures
            old(self).value is Some ==> final(self).value == old(self).value,
            old(self).value is None ==> final(self).value is Some && init.ensures((), final(self).value->0),
    {
        if self.value.is_none() {
            self.value = Some(init());
        }
    }

    pub fn get(&self) -> (r: Option<&T>)
        ensures
            match r { Some(v) => self.value == Some(*v), None => self.value is None },
    {
        match &self.value {
            Some(v) => Some(v),
            None => None,
        }
    }
}

} // verus!
