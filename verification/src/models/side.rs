use vstd::prelude::*;

verus! {

/// The side of the book an order belongs to.
#[derive(Clone, Copy, Debug, PartialEq, Eq, Structural, Hash)]
pub enum Side {
    Buy,
    Sell,
}

impl Side {
    /// The side that an order of this side trades against.
    pub open spec fn spec_opposite(self) -> Side {
        match self {
            Side::Buy => Side::Sell,
            Side::Sell => Side::Buy,
        }
    }

    /// The side that an order of this side trades against.
    #[verifier::when_used_as_spec(spec_opposite)]
    pub fn opposite(self) -> (r: Side)
        ensures
            r == self.spec_opposite(),
    {
        match self {
            Side::Buy => Side::Sell,
            Side::Sell => Side::Buy,
        }
    }
}

/// Whether an order of `side` with limit `limit` may trade against a resting
/// order priced `resting`: a buy at or above it, a sell at or below it.
pub open spec fn spec_crosses(side: Side, limit: u64, resting: u64) -> bool {
    match side {
        Side::Buy => limit >= resting,
        Side::Sell => limit <= resting,
    }
}

/// Whether an order of `side` with limit `limit` may trade against a resting
/// order priced `resting`.
#[verifier::when_used_as_spec(spec_crosses)]
pub fn crosses(side: Side, limit: u64, resting: u64) -> (r: bool)
    ensures
        r == spec_crosses(side, limit, resting),
{
    match side {
        Side::Buy => limit >= resting,
        Side::Sell => limit <= resting,
    }
}

} // verus!
