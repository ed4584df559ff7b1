use data_cleaning::io::sheet::{RawCell, SheetGrid};
use data_cleaning::jobs::receipts::{
    source_headers, ReceiptsJob, COL_DATE, COL_DOC_NO, COL_ORIGINAL_TICKET_NO, COL_PRODUCT_NAME,
    COL_SALE_CATEGORY,
};
use data_cleaning::model::calendar::Date;
use data_cleaning::model::error::ProcessError;
use data_cleaning::model::table::Row;
use data_cleaning::model::value::Value;

/// One data row: date, document number, sale category, product name, original ticket number.
struct RowSpec {
    date: &'static str,
    doc_no: &'static str,
    sale_category: &'static str,
    product_name: &'static str,
    original_ticket_no: &'static str,
}

fn text(value: &str) -> RawCell {
    if value.is_empty() {
        RawCell::Empty
    } else {
        RawCell::Text(value.to_string())
    }
}

fn grid(rows: Vec<Vec<(u32, RawCell)>>) -> SheetGrid {
    let width = rows
        .iter()
        .flat_map(|r| r.iter().map(|(c, _)| *c as usize))
        .max()
        .unwrap_or(0);
    let cells: Vec<Vec<RawCell>> = rows
        .into_iter()
        .map(|r| {
            let mut line = vec![RawCell::Empty; width];
            for (c, cell) in r {
                line[c as usize - 1] = cell;
            }
            line
        })
        .collect();
    SheetGrid::new("Sheet1".to_string(), Some((0, 0)), cells).unwrap()
}

fn header_row() -> Vec<(u32, RawCell)> {
    source_headers()
        .iter()
        .enumerate()
        .map(|(i, h)| (i as u32 + 1, text(h)))
        .collect()
}

fn workbook(rows: &[RowSpec]) -> Vec<SheetGrid> {
    let mut all = vec![vec![(1, text("标题"))], header_row()];
    for spec in rows {
        all.push(vec![
            (COL_DATE, text(spec.date)),
            (COL_DOC_NO, text(spec.doc_no)),
            (COL_SALE_CATEGORY, text(spec.sale_category)),
            (COL_PRODUCT_NAME, text(spec.product_name)),
            (COL_ORIGINAL_TICKET_NO, text(spec.original_ticket_no)),
        ]);
    }
    all.push(vec![(1, text("合计"))]);
    vec![grid(all)]
}

fn text_at(row: &Row, index: usize) -> &str {
    match &row.values[index] {
        Value::Text(text) => text.as_str(),
        Value::Empty => "",
        _ => panic!("expected text"),
    }
}

#[test]
fn rejects_header_mismatch() {
    let sheets = vec![grid(vec![
        vec![(1, text("标题"))],
        vec![(1, text("错误表头"))],
        vec![(1, text("合计"))],
    ])];
    let error = ReceiptsJob.process(&sheets).unwrap_err();
    assert!(matches!(error, ProcessError::Structure { .. }));
}

#[test]
fn rejects_missing_total_row_marker() {
    let sheets = vec![grid(vec![
        vec![(1, text("标题"))],
        header_row(),
        vec![(1, text("不是合计"))],
    ])];
    let error = ReceiptsJob.process(&sheets).unwrap_err();
    assert!(matches!(error, ProcessError::Structure { .. }));
}

#[test]
fn generates_match_doc_no_per_example_and_handles_blank_fields() {
    let sheets = workbook(&[
        RowSpec {
            date: "2026-01-01",
            doc_no: "收款ZFFX000003",
            sale_category: "正常销售",
            product_name: "商品A",
            original_ticket_no: "",
        },
        RowSpec {
            date: "",
            doc_no: "ZE001",
            sale_category: "正常销售",
            product_name: "商品B",
            original_ticket_no: "",
        },
        RowSpec {
            date: "2026-01-01",
            doc_no: "",
            sale_category: "正常销售",
            product_name: "商品C",
            original_ticket_no: "",
        },
    ]);

    let table = ReceiptsJob.process(&sheets).unwrap();
    assert_eq!(table.columns.len(), 6);
    assert_eq!(table.rows.len(), 3);
    assert_eq!(text_at(&table.rows[0], 4), "260101ZFFX000003");
    assert_eq!(text_at(&table.rows[1], 4), "");
    assert_eq!(text_at(&table.rows[2], 4), "");
    assert_eq!(text_at(&table.rows[0], 1), "收款ZFFX000003");
}

#[test]
fn remark_cross_matching_across_three_passes_and_preserves_order() {
    let sheets = workbook(&[
        RowSpec {
            date: "2026-01-10",
            doc_no: "ZT001",
            sale_category: "正常销售",
            product_name: "商品甲",
            original_ticket_no: "",
        },
        RowSpec {
            date: "2026-01-11",
            doc_no: "ZR001",
            sale_category: "零售补差",
            product_name: "商品乙",
            original_ticket_no: "260110ZT001",
        },
        RowSpec {
            date: "2026-01-12",
            doc_no: "ZR002",
            sale_category: "零售补差",
            product_name: "商品丙",
            original_ticket_no: "NOMATCH001",
        },
        RowSpec {
            date: "2026-01-13",
            doc_no: "ZD001",
            sale_category: "退货",
            product_name: "商品丁",
            original_ticket_no: "260114ZN001",
        },
        RowSpec {
            date: "2026-01-14",
            doc_no: "ZN001",
            sale_category: "正常销售",
            product_name: "商品戊",
            original_ticket_no: "",
        },
        RowSpec {
            date: "2026-01-15",
            doc_no: "ZN002",
            sale_category: "正常销售",
            product_name: "商品己",
            original_ticket_no: "",
        },
    ]);

    let table = ReceiptsJob.process(&sheets).unwrap();
    assert_eq!(table.rows.len(), 6);

    let doc_nos: Vec<&str> = table.rows.iter().map(|r| text_at(r, 1)).collect();
    assert_eq!(
        doc_nos,
        vec!["ZT001", "ZR001", "ZR002", "ZD001", "ZN001", "ZN002"]
    );

    let remarks: Vec<&str> = table.rows.iter().map(|r| text_at(r, 5)).collect();
    assert_eq!(
        remarks,
        vec![
            "退货-原单",
            "补差/同型号换货",
            "零售补差",
            "退货-退单",
            "退货-原单",
            "",
        ]
    );
}

#[test]
fn total_marker_error_quotes_what_was_found() {
    let sheets = vec![grid(vec![
        vec![(1, text("标题"))],
        header_row(),
        vec![(1, text("小计"))],
    ])];
    match ReceiptsJob.process(&sheets) {
        Err(ProcessError::Structure { file, sheet, detail }) => {
            assert_eq!(file, "收款单统计.xlsx");
            assert_eq!(sheet, "Sheet1");
            assert_eq!(detail, "最后一个实际有值行第1列应为“合计”，实际为“小计”");
        }
        other => panic!("unexpected: {other:?}"),
    }
}

#[test]
fn a_workbook_without_sheets_is_refused() {
    match ReceiptsJob.process(&Vec::new()) {
        Err(ProcessError::Structure { detail, .. }) => {
            assert_eq!(detail, "工作表数量异常：应为 1 个，实际为 0 个")
        }
        other => panic!("unexpected: {other:?}"),
    }
}

#[test]
fn an_unreadable_date_is_a_data_error() {
    let sheets = workbook(&[RowSpec {
        date: "2026年1月1日",
        doc_no: "Z1",
        sale_category: "正常销售",
        product_name: "商品",
        original_ticket_no: "",
    }]);
    match ReceiptsJob.process(&sheets) {
        Err(ProcessError::Data {
            row,
            field,
            value,
            detail,
            ..
        }) => {
            assert_eq!(row, 3);
            assert_eq!(field, "日期");
            assert_eq!(value, "2026年1月1日");
            assert_eq!(detail, "无法解析为日期");
        }
        other => panic!("unexpected: {other:?}"),
    }
}

#[test]
fn exchange_matching_a_sale_marks_both() {
    let sheets = workbook(&[
        RowSpec {
            date: "2026-02-01",
            doc_no: "收款A1",
            sale_category: "正常销售",
            product_name: "甲",
            original_ticket_no: "",
        },
        RowSpec {
            date: "2026-02-02",
            doc_no: "B1",
            sale_category: "同型号换货",
            product_name: "甲",
            original_ticket_no: "260201A1",
        },
    ]);
    let table = ReceiptsJob.process(&sheets).unwrap();
    let remarks: Vec<&str> = table.rows.iter().map(|r| text_at(r, 5)).collect();
    assert_eq!(remarks, vec!["退货-原单", "补差/同型号换货"]);
    assert_eq!(
        table.rows[0].values[0],
        Value::Date(Date {
            year: 2026,
            month: 2,
            day: 1
        })
    );
}

#[test]
fn receipts_table_passes_its_own_check() {
    let sheets = workbook(&[
        RowSpec {
            date: "2026-03-01",
            doc_no: "A1",
            sale_category: "退货",
            product_name: "甲",
            original_ticket_no: "X",
        },
        RowSpec {
            date: "",
            doc_no: "",
            sale_category: "",
            product_name: "",
            original_ticket_no: "",
        },
    ]);
    let table = ReceiptsJob.process(&sheets).unwrap();
    assert_eq!(table.rows.len(), 2);
    assert!(table.validate().is_ok());
    assert_eq!(text_at(&table.rows[0], 5), "退货-退单");
}
