use vstd::prelude::*;

verus! {

/// A price in the market's quote unit. Prices of one market are totally
/// ordered by their number.
#[derive(Clone, Copy, Debug, PartialEq, Eq, Structural, Hash)]
pub struct Price(pub u64);

} // verus!
