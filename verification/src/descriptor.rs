//! Task descriptors: what a task is called and how much work it does.

use vstd::prelude::*;

verus! {

/// The mathematical content of a [`TaskDescriptor`].
pub struct DescriptorView {
    pub id: Seq<char>,
    pub units: nat,
}

/// An immutable record describing one simulated unit of work.
#[derive(Debug, PartialEq, Eq)]
pub struct TaskDescriptor {
    id: String,
    units: u64,
}

/// Why a descriptor could not be built.
#[derive(Debug, Clone, Copy, PartialEq, Eq)]
pub enum DescriptorError {
    /// The sampled value has no representation as a unit count.
    UnitsOutOfRange,
}

impl View for TaskDescriptor {
    type V = DescriptorView;

    closed spec fn view(&self) -> DescriptorView {
        DescriptorView { id: self.id@, units: self.units as nat }
    }
}

impl TaskDescriptor {
    /// Describes a task called `id` that works for `units` units.
    pub fn new(id: String, units: u64) -> (descriptor: TaskDescriptor)
        ensures
            descriptor@ == (DescriptorView { id: id@, units: units as nat }),
    {
        TaskDescriptor { id, units }
    }

    /// Builds a descriptor from a sampled value that was already converted to
    /// a unit count, or that failed to convert.
    ///
    /// A sample without a unit count is rejected; every other sample gives the
    /// descriptor that [`TaskDescriptor::new`] gives.
    pub fn from_sample(id: String, units: Option<u64>) -> (built: Result<
        TaskDescriptor,
        DescriptorError,
    >)
        ensures
            match units {
                Some(n) => built matches Ok(descriptor) && descriptor@ == (DescriptorView {
                    id: id@,
                    units: n as nat,
                }),
                None => built == Err::<TaskDescriptor, DescriptorError>(
                    DescriptorError::UnitsOutOfRange,
                ),
            },
    {
        match units {
            Some(n) => Ok(TaskDescriptor::new(id, n)),
            None => Err(DescriptorError::UnitsOutOfRange),
        }
    }

    /// The task's id.
    pub fn id(&self) -> (id: &String)
        ensures
            id@ == self@.id,
    {
        &self.id
    }

    /// The number of work units.
    pub fn units(&self) -> (units: u64)
        ensures
            units as nat == self@.units,
    {
        self.units
    }
}

} // verus!
