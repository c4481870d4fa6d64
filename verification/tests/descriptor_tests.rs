use cmd_buffer_pool::descriptor_sets::DescriptorDesc;
use cmd_buffer_pool::descriptor_sets::DescriptorSet;
use cmd_buffer_pool::descriptor_sets::DescriptorSetsCollection;
use cmd_buffer_pool::descriptor_sets::UnsafeDescriptorSet;

struct OneSet {
    inner: UnsafeDescriptorSet,
    descs: Vec<DescriptorDesc>,
}

impl DescriptorSet for OneSet {
    fn inner(&self) -> &UnsafeDescriptorSet {
        &self.inner
    }

    fn num_bindings(&self) -> usize {
        self.descs.len()
    }

    fn descriptor(&self, binding: usize) -> Option<DescriptorDesc> {
        self.descs.get(binding).copied()
    }
}

#[test]
fn unit_collection_is_empty() {
    let c = ();
    assert_eq!(c.num_sets(), 0);
    assert!(c.descriptor_set(0).is_none());
    assert!(c.num_bindings_in_set(0).is_none());
    assert!(c.descriptor(0, 0).is_none());
}

#[test]
fn single_set_collection() {
    let set = OneSet {
        inner: UnsafeDescriptorSet::from_raw(42),
        descs: vec![DescriptorDesc { array_count: 2 }, DescriptorDesc { array_count: 7 }],
    };
    assert_eq!(set.num_sets(), 1);
    assert_eq!(DescriptorSetsCollection::descriptor_set(&set, 0).unwrap().raw(), 42);
    assert!(DescriptorSetsCollection::descriptor_set(&set, 1).is_none());
    assert_eq!(set.num_bindings_in_set(0), Some(2));
    assert_eq!(set.num_bindings_in_set(1), None);
    assert_eq!(
        DescriptorSetsCollection::descriptor(&set, 0, 1),
        Some(DescriptorDesc { array_count: 7 })
    );
    assert_eq!(DescriptorSetsCollection::descriptor(&set, 1, 0), None);
    assert_eq!(DescriptorSetsCollection::descriptor(&set, 0, 5), None);
}
