//! What is known of a loaded module.

use vstd::prelude::*;
use crate::loader::image::{MemoryRegion, ModuleInfo};
use crate::loader::loader::{LoadRegistry, RegistryEntry};
use crate::loader::user_loader::{SharedUserModule, UserModule, UserModuleSegment};

verus! {

/// A module of the kernel.
pub struct KernelModule {
    pub name: Vec<u8>,
    pub driver_init_address: Option<u64>,
    pub driver_unload_address: Option<u64>,
    pub canonical_file_path: Option<Vec<u8>>,
    pub info: ModuleInfo,
    /// The modules that are held as long as this one is.
    pub deps: Vec<u64>,
}

pub enum ModuleType {
    Kernel(KernelModule),
    User(UserModule),
}

pub struct ModuleDescriptor {
    pub mod_type: ModuleType,
}

impl ModuleDescriptor {
    pub fn kernel(&self) -> (r: &KernelModule)
        requires
            self.mod_type is Kernel,
        ensures
            self.mod_type == ModuleType::Kernel(*r),
    {
        match &self.mod_type {
            ModuleType::Kernel(k) => k,
            ModuleType::User(_) => vstd::pervasive::unreached(),
        }
    }

    pub fn kernel_opt(&self) -> (r: Option<&KernelModule>)
        ensures
            match r {
                Some(k) => self.mod_type == ModuleType::Kernel(*k),
                None => self.mod_type is User,
            },
    {
        match &self.mod_type {
            ModuleType::Kernel(k) => Some(k),
            ModuleType::User(_) => None,
        }
    }

    pub fn user(&self) -> (r: &UserModule)
        requires
            self.mod_type is User,
        ensures
            self.mod_type == ModuleType::User(*r),
    {
        match &self.mod_type {
            ModuleType::User(u) => u,
            ModuleType::Kernel(_) => vstd::pervasive::unreached(),
        }
    }

    /// What becomes of a module that nobody holds any more: the registry forgets the modules that are
    /// gone, and the memory of a kernel module is to be freed. That of a user module goes with its
    /// process.
    pub fn release(&self, registry: &mut LoadRegistry) -> (r: Option<MemoryRegion>)
        ensures
            final(registry).in_progress@ == old(registry).in_progress@,
            match self.mod_type {
                ModuleType::Kernel(k) => {
                    &&& r == Some(MemoryRegion { base_address: k.info.base, size: k.info.total_size })
                    &&& final(registry).modules@ == old(registry).modules@.filter(|e: RegistryEntry| e.alive)
                },
                ModuleType::User(_) => r is None && final(registry).modules@ == old(registry).modules@,
            },
    {
        match &self.mod_type {
            ModuleType::Kernel(k) => {
                registry.purge();
                Some(MemoryRegion { base_address: k.info.base, size: k.info.total_size })
            },
            ModuleType::User(_) => None,
        }
    }
}

/// The physical regions of the segments.
pub open spec fn backing(s: Seq<UserModuleSegment>) -> Seq<MemoryRegion> {
    s.map_values(|g: UserModuleSegment| MemoryRegion { base_address: g.phys_addr, size: g.size })
}

impl SharedUserModule {
    /// What becomes of an image that no process has loaded any more: the registry forgets the images
    /// that are gone, and the physical memory of every segment is to be freed.
    pub fn release(&self, registry: &mut LoadRegistry) -> (r: Vec<MemoryRegion>)
        ensures
            final(registry).in_progress@ == old(registry).in_progress@,
            final(registry).modules@ == old(registry).modules@.filter(|e: RegistryEntry| e.alive),
            r@ == backing(self.segments@),
    {
        registry.purge();
        let mut out: Vec<MemoryRegion> = Vec::new();
        let mut i: usize = 0;
        assert(backing(self.segments@).take(0) =~= Seq::empty());
        while i < self.segments.len()
            invariant
                i <= self.segments@.len(),
                out@ == backing(self.segments@).take(i as int),
            decreases self.segments@.len() - i,
        {
            out.push(MemoryRegion { base_address: self.segments[i].phys_addr, size: self.segments[i].size });
            assert(backing(self.segments@).take(i + 1) =~= backing(self.segments@).take(i as int).push(
                backing(self.segments@)[i as int]));
            i = i + 1;
        }
        assert(backing(self.segments@).take(i as int) =~= backing(self.segments@));
        out
    }
}

} // verus!
