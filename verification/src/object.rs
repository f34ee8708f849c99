use vstd::prelude::*;
use crate::error::KError;
use crate::registry;
use crate::registry::Registry;

verus! {

/// What opens the objects of a type.
#[derive(Clone, Copy, Debug, PartialEq, Eq, Structural)]
pub enum Opener {
    Device,
    Pipe,
    File,
    Sync,
    Interface,
    /// Something that was registered later.
    Other(u64),
}

/// The types of objects that can be opened by name.
pub struct ObjectTypes {
    pub types: Registry<Opener>,
}

impl ObjectTypes {
    pub fn new() -> (r: ObjectTypes)
        ensures
            r.types@.len() == 0,
    {
        ObjectTypes { types: Registry::new() }
    }

    /// Makes a type known. A type is registered once.
    pub fn register_object_type(&mut self, kind: Vec<u8>, opener: Opener) -> (r: Result<(), KError>)
        ensures
            r == (if registry::value_of(old(self).types@, 0, kind@) is Some {
                Err(KError::InvalidArgument)
            } else {
                Ok(())
            }),
            final(self).types@ == (if r is Ok {
                old(self).types@.push((kind@, opener))
            } else {
                old(self).types@
            }),
    {
        self.types.register(kind, opener)
    }

    /// What is to open an object of a type.
    pub fn open_object(&self, kind: &Vec<u8>) -> (r: Result<Opener, KError>)
        ensures
            r == (match registry::value_of(self.types@, 0, kind@) {
                Some(o) => Ok(o),
                None => Err(KError::InvalidArgument),
            }),
    {
        match self.types.lookup(kind) {
            Some(o) => Ok(o),
            None => Err(KError::InvalidArgument),
        }
    }
}

} // verus!
