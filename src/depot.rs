//! Store of shared assets that things refer to by link.
use vstd::prelude::*;
use crate::registry::Registry;

verus! {

/// Reference to a shared asset by the hash of its contents.
#[derive(Clone, Copy, Debug)]
pub struct Link {
    pub hash: u128,
}

/// Asset store over the part types of a registry.
pub struct Depot<'registry> {
    registry: &'registry Registry,
}

impl<'registry> Depot<'registry> {
    pub closed spec fn registry(&self) -> &'registry Registry {
        self.registry
    }

    pub fn new(registry: &'registry Registry) -> (r: Self)
        ensures
            r.registry() == registry,
    {
        Depot { registry }
    }
}

} // verus!
