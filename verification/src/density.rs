//! How densely an outer cell is populated, as an exact fraction.

use crate::model::{population, Board};
use vstd::prelude::*;

verus! {

/// The weight that a living inner cell carries in a density. It is greater
/// than one, so that a sparse board still shows; a density may therefore
/// exceed one.
pub const DENSITY_WEIGHT: u128 = 5;

/// The density of one outer cell: the fraction `numerator / denominator`.
#[derive(Debug, Clone, Copy, PartialEq, Eq, Structural)]
pub struct Density {
    /// The weighted number of living inner cells.
    pub numerator: u128,
    /// The number of inner cells, or 1 for a board without cells.
    pub denominator: usize,
}

/// The weighted number of living inner cells of an outer cell; zero for an
/// empty one.
pub open spec fn weighted_population(cell: Option<Board>) -> nat {
    match cell {
        None => 0,
        Some(board) => DENSITY_WEIGHT as nat * population(board),
    }
}

/// The number of cells of an inner board of `side` rows, or 1 when it has
/// none, so that every density is a fraction with a value.
pub open spec fn density_base(side: nat) -> nat {
    if side == 0 {
        1
    } else {
        side * side
    }
}

impl Density {
    /// Whether this is the density of `cell` among boards of `side` rows.
    pub open spec fn describes(self, cell: Option<Board>, side: nat) -> bool {
        &&& self.numerator == weighted_population(cell)
        &&& self.denominator == density_base(side)
    }
}

} // verus!
