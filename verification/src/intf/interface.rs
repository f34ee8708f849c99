use vstd::prelude::*;
use crate::error::KError;
use crate::intf::process;
use crate::intf::system;
use crate::registry;
use crate::registry::Registry;

verus! {

/// Who answers requests to an interface.
#[derive(Clone, Copy, Debug, PartialEq, Eq, Structural)]
pub enum IntfHandler {
    System,
    Process,
    /// Something that was registered later.
    Other(u64),
}

/// An interface: who answers, and how long a request is.
#[derive(Clone, Copy, Debug, PartialEq, Eq, Structural)]
pub struct IntfEntry {
    pub handler: IntfHandler,
    pub len: u64,
}

/// The interfaces that processes can ask by name.
pub struct Interfaces {
    pub entries: Registry<IntfEntry>,
}

impl Interfaces {
    pub fn new() -> (r: Interfaces)
        ensures
            r.entries@.len() == 0,
    {
        Interfaces { entries: Registry::new() }
    }

    /// Makes an interface known. A name is registered once.
    pub fn register_intf(&mut self, name: Vec<u8>, handler: IntfHandler, len: u64) -> (r: Result<(), KError>)
        ensures
            r == (if registry::value_of(old(self).entries@, 0, name@) is Some {
                Err(KError::InvalidArgument)
            } else {
                Ok(())
            }),
            final(self).entries@ == (if r is Ok {
                old(self).entries@.push((name@, IntfEntry { handler, len }))
            } else {
                old(self).entries@
            }),
    {
        self.entries.register(name, IntfEntry { handler, len })
    }

    pub fn lookup_intf(&self, name: &Vec<u8>) -> (r: Option<IntfEntry>)
        ensures
            r == registry::value_of(self.entries@, 0, name@),
    {
        self.entries.lookup(name)
    }

    /// Makes the kernel's own interfaces known.
    pub fn init() -> (r: Interfaces)
        ensures
            r.entries@ == seq![
                (system::name_spec(), IntfEntry { handler: IntfHandler::System, len: system::REQUEST_SIZE }),
                (process::name_spec(), IntfEntry { handler: IntfHandler::Process, len: process::REQUEST_SIZE }),
            ],
    {
        let mut r: Interfaces = Interfaces::new();
        system::init(&mut r);
        assert(r.entries@ =~= seq![
            (system::name_spec(), IntfEntry { handler: IntfHandler::System, len: system::REQUEST_SIZE }),
        ]);
        assert(system::name_spec()[0] != process::name_spec()[0]);
        assert(registry::value_of(r.entries@, 1, process::name_spec()) is None);
        process::init(&mut r);
        assert(r.entries@ =~= seq![
            (system::name_spec(), IntfEntry { handler: IntfHandler::System, len: system::REQUEST_SIZE }),
            (process::name_spec(), IntfEntry { handler: IntfHandler::Process, len: process::REQUEST_SIZE }),
        ]);
        r
    }
}

} // verus!
