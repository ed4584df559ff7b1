use data_cleaning::model::calendar::Date;
use data_cleaning::utils::doc_no::{build_match_doc_no, strip_receipt_prefix};

#[test]
fn strips_receipt_prefix_when_present() {
    assert_eq!(strip_receipt_prefix("收款ZFFX000003"), "ZFFX000003");
}

#[test]
fn keeps_value_without_prefix() {
    assert_eq!(strip_receipt_prefix("ZFFX000003"), "ZFFX000003");
}

#[test]
fn builds_match_doc_no() {
    let date = Date {
        year: 2026,
        month: 1,
        day: 1,
    };
    assert_eq!(
        build_match_doc_no(date, "收款ZFFX000003"),
        "260101ZFFX000003"
    );
}

#[test]
fn strips_the_prefix_only_once() {
    assert_eq!(strip_receipt_prefix("收款收款Z1"), "收款Z1");
}

#[test]
fn match_doc_no_pads_month_and_day() {
    let date = Date {
        year: 2009,
        month: 3,
        day: 7,
    };
    assert_eq!(build_match_doc_no(date, "Z9"), "090307Z9");
}
