use vstd::prelude::*;

verus! {

/// Error returned by allocator and pool operations that cannot satisfy a
/// request.
#[derive(Debug, Clone, Copy, PartialEq, Eq, Structural)]
pub enum AllocError {
    OutOfMemory,
}

impl AllocError {
    /// A human-readable description of the error.
    pub fn message(&self) -> (r: &'static str)
        ensures
            r@ =~= "Out of Memory"@,
    {
        "Out of Memory"
    }
}

/// Error returned by fixed-capacity containers that cannot take another
/// element.
#[derive(Debug, Clone, Copy, PartialEq, Eq, Structural)]
pub enum CollectionError {
    CapacityFull,
}

impl CollectionError {
    /// A human-readable description of the error.
    pub fn message(&self) -> (r: &'static str)
        ensures
            r@ =~= "Not enough capacity to insert elements"@,
    {
        "Not enough capacity to insert elements"
    }
}

} // verus!
