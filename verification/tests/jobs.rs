use std::str::FromStr;

use data_cleaning::io::sheet::{FloatCell, RawCell};
use data_cleaning::jobs::{
    amount_value, cell_amount, cell_date_or_text, cell_text, menu_choice, text_value, Category,
    MenuChoice,
};
use data_cleaning::model::calendar::Date;
use data_cleaning::model::decimal::Decimal;
use data_cleaning::model::value::Value;
use data_cleaning::session::{run_all, run_one};

fn dec(text: &str) -> Decimal {
    let d = rust_decimal::Decimal::from_str(text).unwrap();
    Decimal {
        mantissa: d.mantissa(),
        scale: d.scale(),
    }
}

#[test]
fn registry_is_ordered_by_menu_number_one_through_nine() {
    let numbers: Vec<u32> = run_all().iter().map(|c| c.number()).collect();
    assert_eq!(numbers, (1..=9).collect::<Vec<_>>());
}

#[test]
fn cell_amount_parses_numeric_text() {
    assert_eq!(
        cell_amount(&RawCell::Text("1000.00".to_string())),
        Ok(Some(dec("1000.00")))
    );
}

#[test]
fn cell_amount_blank_text_is_none() {
    assert_eq!(cell_amount(&RawCell::Text("   ".to_string())), Ok(None));
    assert_eq!(cell_amount(&RawCell::Empty), Ok(None));
}

#[test]
fn cell_amount_rejects_non_numeric_text() {
    assert!(cell_amount(&RawCell::Text("不是数字".to_string())).is_err());
}

#[test]
fn cell_text_preserves_whitespace_only_text() {
    assert_eq!(
        cell_text(&RawCell::Text("  ".to_string())),
        Ok("  ".to_string())
    );
}

#[test]
fn text_value_and_amount_value_map_empty_to_value_empty() {
    assert_eq!(text_value(String::new()), Value::Empty);
    assert_eq!(text_value("x".to_string()), Value::Text("x".to_string()));
    assert_eq!(amount_value(None), Value::Empty);
}

#[test]
fn cell_amount_trims_text_and_takes_whole_numbers() {
    assert_eq!(
        cell_amount(&RawCell::Text(" -12.5 ".to_string())),
        Ok(Some(dec("-12.5")))
    );
    assert_eq!(cell_amount(&RawCell::Int(42)), Ok(Some(dec("42"))));
}

#[test]
fn cell_amount_refuses_a_boolean_with_its_text() {
    assert_eq!(
        cell_amount(&RawCell::Bool(true)),
        Err("金额字段出现非数值内容：true".to_string())
    );
}

#[test]
fn cell_text_restores_numbers_stored_as_floats() {
    let whole = RawCell::Float(FloatCell {
        display: "20260914123456".to_string(),
        identifier: Some("20260914123456".to_string()),
        amount: Some(dec("20260914123456")),
    });
    assert_eq!(cell_text(&whole), Ok("20260914123456".to_string()));
    let fraction = RawCell::Float(FloatCell {
        display: "20260914.5".to_string(),
        identifier: None,
        amount: Some(dec("20260914.5")),
    });
    assert_eq!(
        cell_text(&fraction),
        Err("数值 20260914.5 带小数或超出精度范围，无法还原为完整文本".to_string())
    );
    assert_eq!(cell_text(&RawCell::Int(-7)), Ok("-7".to_string()));
}

#[test]
fn unreadable_dates_are_kept_as_text() {
    assert_eq!(
        cell_date_or_text(&RawCell::Text("20260914".to_string())),
        Value::Date(Date {
            year: 2026,
            month: 9,
            day: 14
        })
    );
    assert_eq!(
        cell_date_or_text(&RawCell::Text("不是日期".to_string())),
        Value::Text("不是日期".to_string())
    );
    assert_eq!(
        cell_date_or_text(&RawCell::Text("  ".to_string())),
        Value::Empty
    );
}

#[test]
fn menu_choice_reads_enter_numbers_and_rubbish() {
    assert!(matches!(menu_choice(""), MenuChoice::RunAll));
    assert!(matches!(
        menu_choice("8"),
        MenuChoice::RunOne(Category::Receipts)
    ));
    assert!(matches!(
        menu_choice("+9"),
        MenuChoice::RunOne(Category::Coupons)
    ));
    assert!(matches!(menu_choice("0"), MenuChoice::Invalid));
    assert!(matches!(menu_choice("10"), MenuChoice::Invalid));
    assert!(matches!(menu_choice("99999999999"), MenuChoice::Invalid));
    assert!(matches!(menu_choice("3a"), MenuChoice::Invalid));
}

#[test]
fn run_one_finds_the_category_with_that_number() {
    for n in 1..=9u32 {
        assert_eq!(run_one(n).number(), n);
    }
    assert_eq!(run_one(4), Category::UploadedAppliance);
}

#[test]
fn category_numbers_round_trip() {
    for category in run_all() {
        assert_eq!(Category::from_number(category.number()), Some(category));
    }
    assert_eq!(Category::from_number(0), None);
    assert_eq!(Category::from_number(10), None);
}
