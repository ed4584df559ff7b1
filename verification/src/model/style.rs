use vstd::prelude::*;

verus! {

/// Whole-row fill: yellow marks duplicates, pink marks anomalies, returns and rows moved to the
/// bottom.
#[derive(Clone, Copy, Debug, PartialEq, Eq)]
pub enum Fill {
    /// `#FFEB9C`
    Yellow,
    /// `#FFC7CE`
    Pink,
}

} // verus!
