use vstd::prelude::*;

verus! {

/// The number of components of every reference vector.
pub const VECTOR_DIM: usize = 14;

/// The label of a reference vector.
#[derive(Debug, Clone, Copy, PartialEq, Eq, Structural)]
pub enum Label {
    Legit,
    Fraud,
}

} // verus!
