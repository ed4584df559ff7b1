use vstd::prelude::*;

use crate::model::error::ProcessError;
use crate::model::schema::Column;
use crate::model::style::Fill;
use crate::model::value::{Value, ValueView};
use crate::utils::numerals::{int_text, nat_to_text};

verus! {

#[derive(Debug, Clone)]
pub struct Row {
    pub values: Vec<Value>,
    pub fill: Option<Fill>,
}

#[derive(Debug, Clone)]
pub struct Table {
    pub columns: Vec<Column>,
    pub rows: Vec<Row>,
}

pub struct RowView {
    pub values: Seq<ValueView>,
    pub fill: Option<Fill>,
}

impl View for Row {
    type V = RowView;

    open spec fn view(&self) -> RowView {
        RowView { values: self.values@.map_values(|v: Value| v@), fill: self.fill }
    }
}

pub struct TableView {
    pub columns: Seq<Column>,
    pub rows: Seq<RowView>,
}

impl View for Table {
    type V = TableView;

    open spec fn view(&self) -> TableView {
        TableView { columns: self.columns@, rows: self.rows@.map_values(|r: Row| r@) }
    }
}

/// The message for a row whose number of values differs from the number of columns.
pub open spec fn row_width_message(row_number: int, values: int, columns: int) -> Seq<char> {
    "第"@ + int_text(row_number) + "行的值数量（"@ + int_text(values) + "）与列数（"@ + int_text(
        columns,
    ) + "）不一致"@
}

/// Every row has as many values as there are columns.
pub open spec fn rows_match_columns(t: Table) -> bool {
    forall|i: int| 0 <= i < t.rows@.len() ==> #[trigger] t.rows@[i].values@.len() == t.columns@.len()
}

/// Row `i` is the first whose number of values differs from the number of columns.
pub open spec fn first_width_mismatch(t: Table, i: int) -> bool {
    &&& 0 <= i < t.rows@.len()
    &&& t.rows@[i].values@.len() != t.columns@.len()
    &&& forall|j: int| 0 <= j < i ==> #[trigger] t.rows@[j].values@.len() == t.columns@.len()
}

/// The structure error that reports row `i` of `t`, counted from 1.
pub open spec fn is_width_error(e: ProcessError, t: Table, i: int) -> bool {
    match e {
        ProcessError::Structure { file, sheet, detail } => {
            &&& file@.len() == 0
            &&& sheet@.len() == 0
            &&& detail@ == row_width_message(
                i + 1,
                t.rows@[i].values@.len() as int,
                t.columns@.len() as int,
            )
        },
        _ => false,
    }
}

impl Table {
    /// The last safeguard before writing: every row must have one value per column. The first
    /// row that does not is reported, counted from 1.
    pub fn validate(&self) -> (res: Result<(), ProcessError>)
        ensures
            res is Ok <==> rows_match_columns(*self),
            res matches Err(e) ==> exists|i: int|
                #[trigger] first_width_mismatch(*self, i) && is_width_error(e, *self, i),
    {
        let mut index: usize = 0;
        while index < self.rows.len()
            invariant
                index <= self.rows@.len(),
                forall|j: int| 0 <= j < index ==> #[trigger] self.rows@[j].values@.len() == self.columns@.len(),
            decreases self.rows@.len() - index,
        {
            let row = &self.rows[index];
            if row.values.len() != self.columns.len() {
                let mut detail = "第".to_owned();
                detail.append(nat_to_text((index + 1) as u64).as_str());
                detail.append("行的值数量（");
                detail.append(nat_to_text(row.values.len() as u64).as_str());
                detail.append("）与列数（");
                detail.append(nat_to_text(self.columns.len() as u64).as_str());
                detail.append("）不一致");
                assert(first_width_mismatch(*self, index as int));
                return Err(
                    ProcessError::Structure { file: String::new(), sheet: String::new(), detail },
                );
            }
            index = index + 1;
        }
        Ok(())
    }
}

} // verus!
