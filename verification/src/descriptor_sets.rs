//! Descriptor set collections: a purely structural dispatch facility that lets
//! a group of descriptor sets be walked set by set and binding by binding.

use vstd::prelude::*;

verus! {

/// A bound, ready-to-use descriptor set as the native layer sees it, carried
/// here as its raw identifier.
pub struct UnsafeDescriptorSet {
    raw: u64,
}

impl UnsafeDescriptorSet {
    /// The raw identifier of a descriptor set.
    pub closed spec fn id(self) -> u64 {
        self.raw
    }

    pub fn from_raw(raw: u64) -> (r: UnsafeDescriptorSet)
        ensures
            r.id() == raw,
    {
        UnsafeDescriptorSet { raw }
    }

    pub fn raw(&self) -> (r: u64)
        ensures
            r == self.id(),
    {
        self.raw
    }
}

/// Description of one descriptor binding: how many array elements it holds.
#[derive(Clone, Copy, PartialEq, Eq, Structural, Debug)]
pub struct DescriptorDesc {
    pub array_count: u32,
}

/// A collection of descriptor set objects, addressed by set number and by
/// binding number within a set.
pub trait DescriptorSetsCollection {
    /// Returns the number of sets in the collection, that is the highest set
    /// number plus one, counting possibly empty sets.
    fn num_sets(&self) -> usize;

    /// Returns the descriptor set with the given number, or `None` if that set
    /// is empty.
    fn descriptor_set(&self, set: usize) -> Option<&UnsafeDescriptorSet>;

    /// Returns the number of bindings in the given set, counting possibly
    /// empty bindings, or `None` if the set is out of range.
    fn num_bindings_in_set(&self, set: usize) -> Option<usize>;

    /// Returns the descriptor for the given binding of the given set, or
    /// `None` if either is out of range.
    fn descriptor(&self, set: usize, binding: usize) -> Option<DescriptorDesc>;
}

/// One descriptor set together with its per-binding descriptions.
pub trait DescriptorSet {
    /// Returns the inner descriptor set object.
    fn inner(&self) -> &UnsafeDescriptorSet;

    /// Returns the number of bindings in the set.
    fn num_bindings(&self) -> usize;

    /// Returns the description of one binding, or `None` if out of range.
    fn descriptor(&self, binding: usize) -> Option<DescriptorDesc>;
}

impl DescriptorSetsCollection for () {
    fn num_sets(&self) -> (r: usize)
        ensures
            r == 0,
    {
        0
    }

    fn descriptor_set(&self, set: usize) -> (r: Option<&UnsafeDescriptorSet>)
        ensures
            r is None,
    {
        None
    }

    fn num_bindings_in_set(&self, set: usize) -> (r: Option<usize>)
        ensures
            r is None,
    {
        None
    }

    fn descriptor(&self, set: usize, binding: usize) -> (r: Option<DescriptorDesc>)
        ensures
            r is None,
    {
        None
    }
}

impl<T: DescriptorSet> DescriptorSetsCollection for T {
    fn num_sets(&self) -> (r: usize)
        ensures
            r == 1,
    {
        1
    }

    fn descriptor_set(&self, set: usize) -> (r: Option<&UnsafeDescriptorSet>)
        ensures
            (r is Some) == (set == 0),
    {
        match set {
            0 => Some(self.inner()),
            _ => None,
        }
    }

    fn num_bindings_in_set(&self, set: usize) -> (r: Option<usize>)
        ensures
            (r is Some) == (set == 0),
    {
        match set {
            0 => Some(self.num_bindings()),
            _ => None,
        }
    }

    fn descriptor(&self, set: usize, binding: usize) -> Option<DescriptorDesc> {
        match set {
            0 => DescriptorSet::descriptor(self, binding),
            _ => None,
        }
    }
}

} // verus!
