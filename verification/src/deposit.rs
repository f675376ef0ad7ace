//! Storage-deposit accounting helpers.
//!
//! A [`Diff`] records how a call changed a contract's storage; diffs from
//! nested calls are folded together with saturating addition before the
//! resulting charge is applied. The `Root`/`Nested` markers form the meter's
//! type-state; the `State` trait that names them is sealed.

use vstd::prelude::*;

verus! {

/// The storage changes one contract call recorded.
#[derive(Copy, Clone, Debug, PartialEq, Eq, Structural, Default)]
pub struct Diff {
    /// How many bytes were added to storage.
    pub bytes_added: u32,
    /// How many bytes were removed from storage.
    pub bytes_removed: u32,
    /// How many storage items were added to storage.
    pub items_added: u32,
    /// How many storage items were removed from storage.
    pub items_removed: u32,
}

/// `a + b`, capped at the top of the range.
pub open spec fn sat_add(a: u32, b: u32) -> u32 {
    if a + b <= u32::MAX {
        (a + b) as u32
    } else {
        u32::MAX
    }
}

impl Diff {
    /// Folds another call's changes into this one, field by field,
    /// saturating.
    pub fn saturating_add(&self, rhs: &Self) -> (r: Self)
        ensures
            r.bytes_added == sat_add(self.bytes_added, rhs.bytes_added),
            r.bytes_removed == sat_add(self.bytes_removed, rhs.bytes_removed),
            r.items_added == sat_add(self.items_added, rhs.items_added),
            r.items_removed == sat_add(self.items_removed, rhs.items_removed),
    {
        Diff {
            bytes_added: self.bytes_added.saturating_add(rhs.bytes_added),
            bytes_removed: self.bytes_removed.saturating_add(rhs.bytes_removed),
            items_added: self.items_added.saturating_add(rhs.items_added),
            items_removed: self.items_removed.saturating_add(rhs.items_removed),
        }
    }
}

/// Keeps [`State`] from being implemented outside this module.
pub trait Sealed {

}

/// The type-state of a storage meter: at the root of a call stack, or
/// nested inside one.
pub trait State: Sealed {

}

/// The meter state at the root of a contract call stack.
#[derive(Copy, Clone, Debug, PartialEq, Eq, Structural, Default)]
pub struct Root;

/// The meter state inside a nested contract call.
#[derive(Copy, Clone, Debug, PartialEq, Eq, Structural, Default)]
pub struct Nested;

impl Sealed for Root {

}

impl Sealed for Nested {

}

impl State for Root {

}

impl State for Nested {

}

} // verus!
