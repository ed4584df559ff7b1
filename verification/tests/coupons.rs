use std::str::FromStr;

use rust_decimal::prelude::FromPrimitive;

use data_cleaning::io::sheet::{FloatCell, RawCell, SheetGrid};
use data_cleaning::jobs::coupons::{
    as_is_hits, build_authority, digit_candidates, extract_reference, is_valid_ref_no,
    parse_subsidy, quantity_of, single_edit_hits, single_edit_variants, source_headers, CouponsJob,
    COL_BRAND,
    COL_DOC_DATE, COL_DOC_NO, COL_FINANCE_CATEGORY, COL_PRODUCT_NAME, COL_SUMMARY, COL_TOTAL,
    TITLE,
};
use data_cleaning::model::decimal::Decimal;
use data_cleaning::model::error::ProcessError;
use data_cleaning::model::value::Value;

fn dec(text: &str) -> Decimal {
    let d = rust_decimal::Decimal::from_str(text).unwrap();
    Decimal {
        mantissa: d.mantissa(),
        scale: d.scale(),
    }
}

fn texts(values: &[&str]) -> Vec<String> {
    values.iter().map(|v| v.to_string()).collect()
}

/// A number cell as the workbook reader makes it.
fn number_cell(value: f64) -> RawCell {
    let identifier = if value.fract() == 0.0 {
        Some(format!("{value:.0}"))
    } else {
        None
    };
    let amount = rust_decimal::Decimal::from_f64(value).map(|d| Decimal {
        mantissa: d.mantissa(),
        scale: d.scale(),
    });
    RawCell::Float(FloatCell {
        display: value.to_string(),
        identifier,
        amount,
    })
}

/// A sheet from rows of (column from 1, cell), padded to one width.
fn grid(rows: Vec<Vec<(u32, RawCell)>>) -> SheetGrid {
    let width = rows
        .iter()
        .flat_map(|r| r.iter().map(|(c, _)| *c as usize))
        .max()
        .unwrap_or(0);
    let cells: Vec<Vec<RawCell>> = rows
        .into_iter()
        .map(|r| {
            let mut line = vec![RawCell::Empty; width];
            for (c, cell) in r {
                line[c as usize - 1] = cell;
            }
            line
        })
        .collect();
    SheetGrid::new("Sheet1".to_string(), Some((0, 0)), cells).unwrap()
}

fn text(value: &str) -> RawCell {
    if value.is_empty() {
        RawCell::Empty
    } else {
        RawCell::Text(value.to_string())
    }
}

fn header_row() -> Vec<(u32, RawCell)> {
    source_headers()
        .iter()
        .enumerate()
        .map(|(i, h)| (i as u32 + 1, text(h)))
        .collect()
}

/// The coupon workbook: title, header, one row per entry, then the total row.
fn coupons_sheet(rows: &[(&str, &str, &str, &str, &str, &str, f64)]) -> SheetGrid {
    let mut all = vec![vec![(1, text(TITLE))], header_row()];
    for (doc_no, doc_date, product_name, brand, finance_category, summary, total) in rows {
        all.push(vec![
            (COL_DOC_NO, text(doc_no)),
            (COL_DOC_DATE, text(doc_date)),
            (COL_PRODUCT_NAME, text(product_name)),
            (COL_BRAND, text(brand)),
            (COL_FINANCE_CATEGORY, text(finance_category)),
            (COL_SUMMARY, text(summary)),
            (COL_TOTAL, number_cell(*total)),
        ]);
    }
    all.push(vec![(1, text("合计"))]);
    grid(all)
}

#[test]
fn validates_reference_number_shape() {
    assert!(is_valid_ref_no("16867252734N"));
    assert!(!is_valid_ref_no("16867252734W"));
    assert!(!is_valid_ref_no("1686725273N"));
    assert!(!is_valid_ref_no("16867252734n"));
}

#[test]
fn quantity_sign_matches_subsidy() {
    assert_eq!(quantity_of(dec("10.00")), 1);
    assert_eq!(quantity_of(dec("0.00")), 0);
    assert_eq!(quantity_of(dec("-10.00")), -1);
}

#[test]
fn as_is_hits_requires_isolated_match_in_authority() {
    let authority = build_authority(&texts(&["16867252734N"]));
    assert_eq!(
        as_is_hits("摘要16867252734N末尾", &authority),
        vec!["16867252734N".to_string()]
    );
    assert!(as_is_hits("摘要16867252734N9末尾", &authority).is_empty());
    assert!(as_is_hits("摘要99999999999N末尾", &authority).is_empty());
}

#[test]
fn extracts_reference_via_as_is_match() {
    let authority = build_authority(&texts(&["16867252734N"]));
    assert_eq!(
        extract_reference("参考号：16867252734N。", &authority),
        Some("16867252734N".to_string())
    );
}

#[test]
fn falls_back_to_zero_edit_when_n_suffix_missing() {
    let authority = build_authority(&texts(&["16867252734N"]));
    assert_eq!(
        extract_reference("单号16867252734完成", &authority),
        Some("16867252734N".to_string())
    );
}

#[test]
fn trigger_letter_allows_digit_concatenation_across_gaps() {
    let authority = build_authority(&texts(&["16867252734N"]));
    assert_eq!(
        extract_reference("订单168672 52734N附言", &authority),
        Some("16867252734N".to_string())
    );
}

#[test]
fn single_digit_insertion_recovers_reference() {
    let authority = build_authority(&texts(&["16867252734N"]));
    assert_eq!(
        extract_reference("单号1686725273结清", &authority),
        Some("16867252734N".to_string())
    );
}

#[test]
fn single_digit_substitution_recovers_reference() {
    let authority = build_authority(&texts(&["16867252734N"]));
    assert_eq!(
        extract_reference("单号16867252739结清", &authority),
        Some("16867252734N".to_string())
    );
}

#[test]
fn single_digit_deletion_recovers_reference() {
    let authority = build_authority(&texts(&["16867252734N"]));
    assert_eq!(
        extract_reference("单号168672527340结清", &authority),
        Some("16867252734N".to_string())
    );
}

#[test]
fn two_edits_are_not_attempted() {
    let authority = build_authority(&texts(&["16867252734N"]));
    assert_eq!(extract_reference("单号16867252799结清", &authority), None);
}

#[test]
fn ambiguous_hits_at_same_priority_leave_reference_blank() {
    let authority = build_authority(&texts(&["11111111111N", "22222222222N"]));
    assert_eq!(
        extract_reference("含11111111111N及22222222222N两个编号", &authority),
        None
    );
}

#[test]
fn blank_or_unrelated_summary_yields_none() {
    let authority = build_authority(&texts(&["16867252734N"]));
    assert_eq!(extract_reference("", &authority), None);
    assert_eq!(extract_reference("预售", &authority), None);
}

#[test]
fn end_to_end_extracts_reference_and_generates_match_doc_no() {
    let authority = build_authority(&texts(&["16867252734N"]));
    let sheet = coupons_sheet(&[
        (
            "收款ZFFX000003",
            "2026-08-29",
            "商品甲",
            "品牌甲",
            "家电",
            "参考号：16867252734N",
            299.85,
        ),
        (
            "ZFFX000004",
            "2026-08-30",
            "商品乙",
            "品牌乙",
            "数码",
            "无编号信息",
            -50.00,
        ),
    ]);

    let table = CouponsJob.process(&vec![sheet], &authority).unwrap();
    assert_eq!(table.columns.len(), 9);
    assert_eq!(table.rows.len(), 2);

    assert_eq!(
        table.rows[0].values[0],
        Value::Text("收款ZFFX000003".to_string())
    );
    assert_eq!(table.rows[0].values[5], Value::Decimal(dec("299.85")));
    assert_eq!(table.rows[0].values[6], Value::Integer(1));
    assert_eq!(
        table.rows[0].values[7],
        Value::Text("16867252734N".to_string())
    );
    assert_eq!(
        table.rows[0].values[8],
        Value::Text("260829ZFFX000003".to_string())
    );

    assert_eq!(table.rows[1].values[6], Value::Integer(-1));
    assert_eq!(table.rows[1].values[7], Value::Empty);
    assert_eq!(
        table.rows[1].values[8],
        Value::Text("260830ZFFX000004".to_string())
    );
}

#[test]
fn rejects_title_mismatch() {
    let sheet = grid(vec![
        vec![(1, text("错误标题"))],
        header_row(),
        vec![(1, text("合计"))],
    ]);
    let authority = build_authority(&texts(&["16867252734N"]));
    let error = CouponsJob.process(&vec![sheet], &authority).unwrap_err();
    assert!(matches!(error, ProcessError::Structure { .. }));
}

#[test]
fn rejects_empty_subsidy_amount() {
    let sheet = grid(vec![
        vec![(1, text(TITLE))],
        header_row(),
        vec![(COL_DOC_NO, text("Z1"))],
        vec![(1, text("合计"))],
    ]);
    let authority = build_authority(&texts(&["16867252734N"]));
    let error = CouponsJob.process(&vec![sheet], &authority).unwrap_err();
    assert!(matches!(error, ProcessError::Data { .. }));
}

#[test]
fn title_error_quotes_the_title_found() {
    let sheet = grid(vec![
        vec![(1, text("错误标题"))],
        header_row(),
        vec![(1, text("合计"))],
    ]);
    let authority = build_authority(&Vec::new());
    match CouponsJob.process(&vec![sheet], &authority) {
        Err(ProcessError::Structure { file, detail, .. }) => {
            assert_eq!(file, "销售用券情况统计.xlsx");
            assert_eq!(
                detail,
                "第1行第1列应为“销售用券情况统计”，实际为“错误标题”"
            );
        }
        other => panic!("unexpected: {other:?}"),
    }
}

#[test]
fn header_mismatch_is_a_structure_error() {
    let sheet = grid(vec![
        vec![(1, text(TITLE))],
        vec![(1, text("供应商"))],
        vec![(1, text("合计"))],
    ]);
    let authority = build_authority(&Vec::new());
    match CouponsJob.process(&vec![sheet], &authority) {
        Err(ProcessError::Structure { detail, .. }) => {
            assert_eq!(detail, "第2行表头与规定的28个字段不一致")
        }
        other => panic!("unexpected: {other:?}"),
    }
}

#[test]
fn two_sheets_are_refused() {
    let authority = build_authority(&Vec::new());
    let a = coupons_sheet(&[]);
    let b = coupons_sheet(&[]);
    match CouponsJob.process(&vec![a, b], &authority) {
        Err(ProcessError::Structure { sheet, detail, .. }) => {
            assert_eq!(sheet, "");
            assert_eq!(detail, "工作表数量异常：应为 1 个，实际为 2 个");
        }
        other => panic!("unexpected: {other:?}"),
    }
}

#[test]
fn subsidy_far_from_whole_cents_is_refused() {
    let cell = RawCell::Text("10.005".to_string());
    match parse_subsidy(&cell, "f.xlsx", "Sheet1", 3) {
        Err(ProcessError::Data {
            row,
            field,
            value,
            detail,
            ..
        }) => {
            assert_eq!(row, 3);
            assert_eq!(field, "合计");
            assert_eq!(value, "10.005");
            assert_eq!(detail, "金额与最接近的两位小数之差超出0.000001元容差");
        }
        other => panic!("unexpected: {other:?}"),
    }
    assert_eq!(parse_subsidy(&RawCell::Int(5), "f", "s", 3).unwrap(), dec("5"));
}

#[test]
fn authority_keeps_only_reference_shaped_numbers() {
    let authority = build_authority(&texts(&["16867252734N", "1234", "16867252734n"]));
    assert_eq!(
        extract_reference("号16867252734N", &authority),
        Some("16867252734N".to_string())
    );
    assert!(as_is_hits("号16867252734n", &authority).is_empty());
}

#[test]
fn the_reference_found_is_one_the_authority_knows() {
    let known = ["16867252734N", "20000000001N"];
    let authority = build_authority(&texts(&known));
    for summary in [
        "参考号：16867252734N。",
        "单号2000000000结清",
        "单号16867252734完成",
        "无关内容123",
    ] {
        if let Some(found) = extract_reference(summary, &authority) {
            assert!(known.contains(&found.as_str()));
        }
    }
}

#[test]
fn digit_candidates_take_runs_of_ten_to_twelve_digits() {
    assert_eq!(
        digit_candidates("a123456789b1234567890c"),
        vec!["1234567890".to_string()]
    );
    assert_eq!(
        digit_candidates("订单168672 52734N附言"),
        vec!["16867252734".to_string()]
    );
}

#[test]
fn single_edit_variants_change_exactly_one_digit() {
    let variants = single_edit_variants(&"1234567890".to_string());
    assert_eq!(variants.len(), 110);
    assert!(variants.contains(&"12345678901".to_string()));
    let replaced = single_edit_variants(&"12345678901".to_string());
    assert_eq!(replaced.len(), 99);
    assert!(!replaced.contains(&"12345678901".to_string()));
    let removed = single_edit_variants(&"123456789012".to_string());
    assert_eq!(removed.len(), 12);
}

#[test]
fn coupons_table_passes_its_own_check() {
    let authority = build_authority(&texts(&["16867252734N"]));
    let sheet = coupons_sheet(&[("Z1", "", "甲", "乙", "丙", "16867252734N", 0.0)]);
    let table = CouponsJob.process(&vec![sheet], &authority).unwrap();
    assert!(table.validate().is_ok());
    assert_eq!(table.rows[0].values[1], Value::Empty);
    assert_eq!(table.rows[0].values[6], Value::Integer(0));
    assert_eq!(table.rows[0].values[8], Value::Empty);
}

#[test]
fn single_edit_variants_come_place_by_place_and_digit_by_digit() {
    let inserted = single_edit_variants(&"1234567890".to_string());
    assert_eq!(inserted[0], "01234567890");
    assert_eq!(inserted[9], "91234567890");
    assert_eq!(inserted[10 * 3 + 7], "12374567890");
    assert_eq!(inserted[109], "12345678909");
    let removed = single_edit_variants(&"123456789012".to_string());
    assert_eq!(removed[0], "23456789012");
    assert_eq!(removed[11], "12345678901");
    let replaced = single_edit_variants(&"00000000000".to_string());
    assert_eq!(replaced[0], "10000000000");
    assert_eq!(replaced[8], "90000000000");
    assert_eq!(replaced[9], "01000000000");
    assert!(single_edit_variants(&"123".to_string()).is_empty());
}

#[test]
fn single_edit_hits_follow_candidate_order() {
    let authority = build_authority(&texts(&["12345678901N", "22345678901N"]));
    let candidates = vec!["2345678901".to_string(), "12345678901".to_string()];
    assert_eq!(
        single_edit_hits(&candidates, &authority),
        vec![
            "12345678901N".to_string(),
            "22345678901N".to_string(),
            "22345678901N".to_string(),
            "22345678901N".to_string(),
        ]
    );
}
