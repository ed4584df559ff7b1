use data_cleaning::model::error::ProcessError;
use data_cleaning::model::schema::{Column, ColumnType};
use data_cleaning::model::table::{Row, Table};
use data_cleaning::model::value::Value;

fn columns(n: usize) -> Vec<Column> {
    (0..n)
        .map(|_| Column {
            name: "列",
            ty: ColumnType::Text,
        })
        .collect()
}

fn row(n: usize) -> Row {
    Row {
        values: vec![Value::Empty; n],
        fill: None,
    }
}

#[test]
fn a_table_whose_rows_fit_its_columns_is_valid() {
    let table = Table {
        columns: columns(3),
        rows: vec![row(3), row(3)],
    };
    assert!(table.validate().is_ok());
}

#[test]
fn the_first_row_of_the_wrong_width_is_reported() {
    let table = Table {
        columns: columns(3),
        rows: vec![row(3), row(2), row(4)],
    };
    match table.validate() {
        Err(ProcessError::Structure { file, sheet, detail }) => {
            assert_eq!(file, "");
            assert_eq!(sheet, "");
            assert_eq!(detail, "第2行的值数量（2）与列数（3）不一致");
        }
        other => panic!("unexpected: {other:?}"),
    }
}

#[test]
fn an_empty_table_is_valid() {
    let table = Table {
        columns: columns(2),
        rows: Vec::new(),
    };
    assert!(table.validate().is_ok());
}
