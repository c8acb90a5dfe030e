//! The node color of a red-black search tree.

use vstd::prelude::*;

verus! {

/// The two colors a red-black node can take.
#[derive(Clone, Copy, Debug, PartialEq, Eq)]
pub enum Color {
    Red,
    Black,
}

} // verus!
