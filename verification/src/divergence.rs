//! Trade direction of a divergence signal: edge = fair - venue; a positive
//! edge means the venue underprices the outcome (Buy), a negative one that
//! it overprices it (Sell).

use vstd::prelude::*;

verus! {

#[derive(Debug, Clone, Copy, PartialEq, Eq, Structural)]
pub enum Side {
    Buy,
    Sell,
}

/// The name a side is written with in signal keys and reports.
pub open spec fn side_name(side: Side) -> Seq<char> {
    match side {
        Side::Buy => seq!['B', 'u', 'y'],
        Side::Sell => seq!['S', 'e', 'l', 'l'],
    }
}

impl Side {
    /// "Buy" or "Sell".
    pub fn name(&self) -> (r: &'static str)
        ensures
            r@ == side_name(*self),
    {
        proof {
            reveal_strlit("Buy");
            reveal_strlit("Sell");
        }
        match self {
            Side::Buy => "Buy",
            Side::Sell => "Sell",
        }
    }
}

} // verus!
