use vstd::prelude::*;

verus! {

/// Precision of an amount column: the original precision, or fixed to two fractional digits.
#[derive(Clone, Copy, Debug, PartialEq, Eq)]
pub enum DecimalScale {
    Original,
    Two,
}

#[derive(Clone, Copy, Debug, PartialEq, Eq)]
pub enum ColumnType {
    Text,
    Decimal(DecimalScale),
    Integer,
    /// A percentage shown as `0.00%`, stored as the decimal ratio (such as 0.15).
    Ratio,
    Date,
    Time,
    DateTime,
}

#[derive(Clone, Copy, Debug)]
pub struct Column {
    pub name: &'static str,
    pub ty: ColumnType,
}

/// Columns as (name, type) pairs.
pub open spec fn columns_view(cs: Seq<Column>) -> Seq<(Seq<char>, ColumnType)> {
    cs.map_values(|c: Column| (c.name@, c.ty))
}

} // verus!
