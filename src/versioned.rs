use vstd::prelude::*;

verus! {

/// A value paired with a version counter, for optimistic concurrency: a
/// writer that read version `v` may commit only while the version is still
/// `v`, and each commit moves the version to `v + 1`.
#[derive(Debug)]
pub struct Versioned<T> {
    value: T,
    version: usize,
}

impl<T> Versioned<T> {
    pub closed spec fn value(&self) -> T {
        self.value
    }

    pub closed spec fn version(&self) -> nat {
        self.version as nat
    }

    pub fn new(value: T) -> (r: Self)
        ensures
            r.value() == value,
            r.version() == 0,
    {
        Versioned { value, version: 0 }
    }

    pub fn get(&self) -> (r: &T)
        ensures
            *r == self.value(),
    {
        &self.value
    }

    pub fn get_version(&self) -> (r: usize)
        ensures
            r == self.version(),
    {
        self.version
    }

    pub fn extract(self) -> (r: T)
        ensures
            r == self.value(),
    {
        self.value
    }

    /// The same value, one version later.
    pub fn inc(self) -> (r: Self)
        requires
            self.version() < usize::MAX,
        ensures
            r.value() == self.value(),
            r.version() == self.version() + 1,
    {
        Versioned { value: self.value, version: self.version + 1 }
    }

    /// A new value, one version later than `self`.
    pub fn modify(&self, value: T) -> (r: Self)
        requires
            self.version() < usize::MAX,
        ensures
            r.value() == value,
            r.version() == self.version() + 1,
    {
        Versioned { value, version: self.version + 1 }
    }

    /// `other` is exactly one version later than `self`.
    pub fn old_version(&self, other: &Versioned<T>) -> (r: bool)
        ensures
            r == (self.version() + 1 == other.version()),
    {
        self.version < usize::MAX && self.version + 1 == other.version
    }

    pub fn same_version(&self, other: &Versioned<T>) -> (r: bool)
        ensures
            r == (self.version() == other.version()),
    {
        self.version == other.version
    }
}

} // verus!
