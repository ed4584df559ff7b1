use data_cleaning::io::paths::{check_input_path, folder_check, is_listed_workbook, normalize_raw_path};
use data_cleaning::model::error::ProcessError;

#[test]
fn normalize_trims_whitespace() {
    assert_eq!(normalize_raw_path("  /a/b  "), "/a/b");
}

#[test]
fn normalize_strips_matching_single_quotes() {
    assert_eq!(normalize_raw_path("'/a/b'"), "/a/b");
}

#[test]
fn normalize_strips_matching_double_quotes() {
    assert_eq!(normalize_raw_path("  \"/a/b\"  "), "/a/b");
}

#[test]
fn normalize_keeps_unmatched_quote() {
    assert_eq!(normalize_raw_path("'/a/b"), "'/a/b");
}

#[test]
fn resolve_input_dir_rejects_empty_input() {
    let error = check_input_path("   ").unwrap_err();
    assert!(matches!(error, ProcessError::InvalidPath { .. }));
}

#[test]
fn empty_path_error_says_path_is_empty() {
    match check_input_path("  ''  ") {
        Err(ProcessError::InvalidPath { path, reason }) => {
            assert_eq!(path, "");
            assert_eq!(reason, "路径为空");
        }
        other => panic!("unexpected: {other:?}"),
    }
}

#[test]
fn input_path_is_normalised_before_the_folder_check() {
    assert_eq!(check_input_path("  \" /data/源数据 \"  ").unwrap(), "/data/源数据");
}

#[test]
fn normalize_strips_only_one_pair_of_quotes() {
    assert_eq!(normalize_raw_path("\"'/a/b'\""), "'/a/b'");
}

#[test]
fn listing_takes_xlsx_files_but_not_lock_files() {
    assert!(is_listed_workbook("发票_20260914.xlsx"));
    assert!(!is_listed_workbook("~$发票_20260914.xlsx"));
    assert!(!is_listed_workbook("说明.txt"));
    assert!(!is_listed_workbook(".xlsx"));
    assert!(!is_listed_workbook("a.XLSX"));
    assert!(is_listed_workbook("..xlsx"));
}

fn invalid_reason(result: Result<(), ProcessError>) -> (String, String) {
    match result {
        Err(ProcessError::InvalidPath { path, reason }) => (path, reason),
        other => panic!("expected an invalid path, got {:?}", other),
    }
}

#[test]
fn folder_check_refuses_a_missing_path_first() {
    let (path, reason) = invalid_reason(folder_check("/no/such", false, false, Some("denied".to_string())));
    assert_eq!(path, "/no/such");
    assert_eq!(reason, "路径不存在");
}

#[test]
fn folder_check_refuses_a_file() {
    let (_, reason) = invalid_reason(folder_check("/tmp/a.txt", true, false, None));
    assert_eq!(reason, "不是文件夹");
}

#[test]
fn folder_check_reports_an_unreadable_folder_with_the_system_message() {
    let (path, reason) = invalid_reason(folder_check("/root/x", true, true, Some("Permission denied".to_string())));
    assert_eq!(path, "/root/x");
    assert_eq!(reason, "不可读取：Permission denied");
}

#[test]
fn folder_check_accepts_a_readable_folder() {
    assert!(folder_check("/tmp", true, true, None).is_ok());
}
