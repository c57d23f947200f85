//! Table of the part types that worlds are built over.
//!
//! Each registered type gets the next slot, which is its bit in a part bitmap, and its size and
//! alignment are recorded. A registry is filled once and then only read.
use vstd::prelude::*;
use crate::world::MAX_PART_TYPES;

verus! {

/// Size and alignment of a registered type.
#[derive(Clone, Copy, Debug)]
pub struct PartInfo {
    pub width: usize,
    pub align: usize,
}

pub struct Registry {
    parts: Vec<PartInfo>,
    blobs: Vec<PartInfo>,
}

impl Registry {
    /// Layouts of the plain parts, by slot.
    pub closed spec fn parts(&self) -> Seq<PartInfo> {
        self.parts@
    }

    /// Layouts of the shared (vector) part types, by slot.
    pub closed spec fn blobs(&self) -> Seq<PartInfo> {
        self.blobs@
    }

    pub open spec fn wf(&self) -> bool {
        self.parts().len() <= MAX_PART_TYPES && self.blobs().len() <= MAX_PART_TYPES
    }

    pub fn new() -> (r: Self)
        ensures
            r.wf(),
            r.parts() == Seq::<PartInfo>::empty(),
            r.blobs() == Seq::<PartInfo>::empty(),
    {
        Registry { parts: Vec::new(), blobs: Vec::new() }
    }

    /// Registers `T` as a plain part in the next slot; at most `MAX_PART_TYPES` can be.
    pub fn register_part<T>(&mut self)
        requires
            old(self).wf(),
            old(self).parts().len() < MAX_PART_TYPES,
        ensures
            final(self).wf(),
            final(self).blobs() == old(self).blobs(),
            final(self).parts() == old(self).parts().push(
                PartInfo {
                    width: vstd::layout::size_of::<T>() as usize,
                    align: vstd::layout::align_of::<T>() as usize,
                },
            ),
    {
        vstd::layout::layout_for_type_is_valid::<T>();
        self.parts.push(PartInfo { width: std::mem::size_of::<T>(), align: std::mem::align_of::<T>() });
    }

    /// Registers `T` as a shared (vector) part in the next slot; at most `MAX_PART_TYPES` can be.
    pub fn register_type<T>(&mut self)
        requires
            old(self).wf(),
            old(self).blobs().len() < MAX_PART_TYPES,
        ensures
            final(self).wf(),
            final(self).parts() == old(self).parts(),
            final(self).blobs() == old(self).blobs().push(
                PartInfo {
                    width: vstd::layout::size_of::<T>() as usize,
                    align: vstd::layout::align_of::<T>() as usize,
                },
            ),
    {
        vstd::layout::layout_for_type_is_valid::<T>();
        self.blobs.push(PartInfo { width: std::mem::size_of::<T>(), align: std::mem::align_of::<T>() });
    }

    /// Number of plain part types registered.
    pub fn part_count(&self) -> (r: usize)
        ensures
            r == self.parts().len(),
    {
        self.parts.len()
    }

    /// Layout of the plain part in slot `index`.
    pub fn part(&self, index: usize) -> (r: PartInfo)
        requires
            index < self.parts().len(),
        ensures
            r == self.parts()[index as int],
    {
        self.parts[index]
    }
}

} // verus!
