use vstd::prelude::*;

verus! {

/// Global traversal order: oldest-to-newest, or newest-to-oldest.
#[derive(Clone, Copy, Debug, PartialEq, Eq, Structural)]
pub enum Direction {
    Forward,
    Reverse,
}

} // verus!
