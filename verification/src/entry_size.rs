//! Sizes of entries.
use vstd::prelude::*;

verus! {

/// Byte counts of one entry: its logical length and the storage it occupies.
#[derive(Clone, Copy, Debug, PartialEq, Eq, Structural)]
pub struct EntrySize {
    pub apparent_size: u64,
    pub disk_size: u64,
}

impl EntrySize {
    /// The size of nothing.
    pub open spec fn zero() -> EntrySize {
        EntrySize { apparent_size: 0, disk_size: 0 }
    }

    /// Both counts of `self` and `other` can be added without leaving `u64`.
    pub open spec fn fits_with(self, other: EntrySize) -> bool {
        &&& self.apparent_size + other.apparent_size <= u64::MAX
        &&& self.disk_size + other.disk_size <= u64::MAX
    }

    /// Both counts of `self` are at least those of `other`.
    pub open spec fn covers(self, other: EntrySize) -> bool {
        &&& self.apparent_size >= other.apparent_size
        &&& self.disk_size >= other.disk_size
    }

    /// The sum, count by count.
    pub open spec fn plus(self, other: EntrySize) -> EntrySize {
        EntrySize {
            apparent_size: (self.apparent_size + other.apparent_size) as u64,
            disk_size: (self.disk_size + other.disk_size) as u64,
        }
    }

    /// The difference, count by count.
    pub open spec fn minus(self, other: EntrySize) -> EntrySize {
        EntrySize {
            apparent_size: (self.apparent_size - other.apparent_size) as u64,
            disk_size: (self.disk_size - other.disk_size) as u64,
        }
    }

    /// Builds a size from the two byte counts read for an entry.
    pub fn new(apparent_size: u64, disk_size: u64) -> (size: EntrySize)
        ensures
            size == (EntrySize { apparent_size, disk_size }),
    {
        EntrySize { apparent_size, disk_size }
    }

    /// The sum, or `None` when one of the counts would leave `u64`.
    pub fn checked_add(self, other: EntrySize) -> (sum: Option<EntrySize>)
        ensures
            sum == if self.fits_with(other) {
                Some(self.plus(other))
            } else {
                None
            },
    {
        match (
            self.apparent_size.checked_add(other.apparent_size),
            self.disk_size.checked_add(other.disk_size),
        ) {
            (Some(apparent_size), Some(disk_size)) => Some(EntrySize { apparent_size, disk_size }),
            _ => None,
        }
    }

    /// Adds `rhs` to `self` in place.
    pub fn add_assign(&mut self, rhs: EntrySize)
        requires
            old(self).fits_with(rhs),
        ensures
            *final(self) == old(self).plus(rhs),
    {
        *self = EntrySize {
            apparent_size: self.apparent_size + rhs.apparent_size,
            disk_size: self.disk_size + rhs.disk_size,
        };
    }

    /// Subtracts `rhs` from `self` in place.
    pub fn sub_assign(&mut self, rhs: EntrySize)
        requires
            old(self).covers(rhs),
        ensures
            *final(self) == old(self).minus(rhs),
    {
        *self = EntrySize {
            apparent_size: self.apparent_size - rhs.apparent_size,
            disk_size: self.disk_size - rhs.disk_size,
        };
    }
}

impl Default for EntrySize {
    fn default() -> (size: EntrySize)
        ensures
            size == EntrySize::zero(),
    {
        EntrySize { apparent_size: 0, disk_size: 0 }
    }
}

impl core::ops::Add for EntrySize {
    type Output = EntrySize;

    fn add(self, other: EntrySize) -> (sum: EntrySize) {
        EntrySize {
            apparent_size: self.apparent_size + other.apparent_size,
            disk_size: self.disk_size + other.disk_size,
        }
    }
}

impl vstd::std_specs::ops::AddSpecImpl for EntrySize {
    open spec fn obeys_add_spec() -> bool {
        true
    }

    open spec fn add_req(self, other: EntrySize) -> bool {
        self.fits_with(other)
    }

    open spec fn add_spec(self, other: EntrySize) -> EntrySize {
        self.plus(other)
    }
}

impl core::ops::Sub for EntrySize {
    type Output = EntrySize;

    fn sub(self, other: EntrySize) -> (difference: EntrySize) {
        EntrySize {
            apparent_size: self.apparent_size - other.apparent_size,
            disk_size: self.disk_size - other.disk_size,
        }
    }
}

impl vstd::std_specs::ops::SubSpecImpl for EntrySize {
    open spec fn obeys_sub_spec() -> bool {
        true
    }

    open spec fn sub_req(self, other: EntrySize) -> bool {
        self.covers(other)
    }

    open spec fn sub_spec(self, other: EntrySize) -> EntrySize {
        self.minus(other)
    }
}

} // verus!
