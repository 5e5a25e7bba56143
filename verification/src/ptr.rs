//! Raw handles: the addresses by which the runtime names its objects.
use vstd::prelude::*;

verus! {

/// The address of an object of the runtime, or the null address.
///
/// The runtime hands out `At(k)` for the `k`-th object it has allocated and
/// `Null` where it has no object to give.
#[derive(Clone, Copy, Debug, PartialEq, Eq, Structural)]
pub enum Ptr {
    Null,
    At(usize),
}

impl Ptr {
    /// The index of the slot that this address names, where it names one.
    pub open spec fn index(self) -> int
        recommends
            self is At,
    {
        self->0 as int
    }

    /// Whether this is the null address.
    pub fn is_null(&self) -> (null: bool)
        ensures
            null == (*self is Null),
    {
        match self {
            Ptr::Null => true,
            Ptr::At(_) => false,
        }
    }
}

} // verus!
