use data_cleaning::io::sheet::{RawCell, SheetGrid};
use data_cleaning::jobs::uploaded::{matches_filename, resolve_columns, SourceFile, UploadedJob};
use data_cleaning::model::error::ProcessError;
use data_cleaning::model::value::Value;

const COMMON_FIELDS: [&str; 14] = [
    "实时清分UUID",
    "商户号",
    "订单号",
    "交易日期",
    "交易金额",
    "检索参考号",
    "状态",
    "描述",
    "提交时间",
    "更新时间",
    "终端号",
    "发票号码",
    "购买方名称",
    "S/N码",
];

fn all_fields(with_imei: bool) -> Vec<&'static str> {
    let mut fields = COMMON_FIELDS.to_vec();
    if with_imei {
        fields.push("IMEI1");
        fields.push("IMEI2");
    }
    fields
}

fn sample_row<'a>(uuid: &'a str, merchant_no: &'a str, order_no: &'a str, with_imei: bool) -> Vec<&'a str> {
    let mut row = vec![
        uuid,
        merchant_no,
        order_no,
        "20260914",
        "100.00",
        "REF001",
        "已上传",
        "描述文本",
        "2026-09-14 10:18:09",
        "2026-09-14 10:20:00",
        "T001",
        "INV001",
        "购买方甲",
        "SN0001",
    ];
    if with_imei {
        row.push("IMEI0001");
        row.push("IMEI0002");
    }
    row
}

fn text(value: &str) -> RawCell {
    if value.is_empty() {
        RawCell::Empty
    } else {
        RawCell::Text(value.to_string())
    }
}

/// The sheet of an export: title in A1, the fields in row 2, the rows from row 3.
fn sheet(title: &str, fields: &[&str], rows: &[Vec<&str>]) -> SheetGrid {
    let width = fields
        .len()
        .max(rows.iter().map(|r| r.len()).max().unwrap_or(0))
        .max(1);
    let mut cells = Vec::new();
    let mut first = vec![RawCell::Empty; width];
    first[0] = text(title);
    cells.push(first);
    let mut header = vec![RawCell::Empty; width];
    for (i, f) in fields.iter().enumerate() {
        header[i] = text(f);
    }
    cells.push(header);
    for r in rows {
        let mut line = vec![RawCell::Empty; width];
        for (i, v) in r.iter().enumerate() {
            line[i] = text(v);
        }
        cells.push(line);
    }
    SheetGrid::new("Sheet1".to_string(), Some((0, 0)), cells).unwrap()
}

fn file(name: &str, sheets: Vec<SheetGrid>) -> SourceFile {
    SourceFile {
        name: name.to_string(),
        sheets: Ok(sheets),
    }
}

/// The files of the folder that the job takes, read in the order it processes them.
fn selected(job: &UploadedJob, folder: Vec<(&str, SheetGrid)>) -> Vec<SourceFile> {
    let names: Vec<String> = folder.iter().map(|(n, _)| n.to_string()).collect();
    let chosen = job.select_files(&names);
    let mut folder = folder;
    chosen
        .iter()
        .map(|name| {
            let index = folder.iter().position(|(n, _)| n == name).unwrap();
            let (n, s) = folder.remove(index);
            file(n, vec![s])
        })
        .collect()
}

#[test]
fn matches_filename_checks_merchant_timestamp_and_suffix() {
    assert!(matches_filename(
        "MER_89813014812B06R_20260914101809_yjhx.xlsx",
        "89813014812B06R"
    ));
    assert!(!matches_filename(
        "MER_89813015722APT1_20260914101809_yjhx.xlsx",
        "89813014812B06R"
    ));
    assert!(!matches_filename(
        "MER_89813014812B06R_2026_yjhx.xlsx",
        "89813014812B06R"
    ));
    assert!(!matches_filename(
        "MER_89813014812B06R_20260914101809_other.xlsx",
        "89813014812B06R"
    ));
}

#[test]
fn digital_job_reads_16_columns_and_parses_date_time() {
    let job = UploadedJob::digital();
    let files = selected(
        &job,
        vec![(
            "MER_89813014812B06R_20260914101809_yjhx.xlsx",
            sheet(
                "以旧换新数据[手机/其他3C]",
                &all_fields(true),
                &[sample_row("UUID-1", "89813014812B06R", "ORDER-1", true)],
            ),
        )],
    );

    let table = job.process(&files).unwrap();

    assert_eq!(table.columns.len(), 16);
    assert_eq!(table.rows.len(), 1);
    assert_eq!(table.rows[0].values[0], Value::Text("UUID-1".to_string()));
    assert!(matches!(table.rows[0].values[3], Value::Date(_)));
    assert!(matches!(table.rows[0].values[8], Value::DateTime(_)));
    assert_eq!(table.rows[0].values[14], Value::Text("IMEI0001".to_string()));
    assert_eq!(table.rows[0].values[15], Value::Text("IMEI0002".to_string()));
}

#[test]
fn appliance_job_has_14_columns_and_ignores_digital_files() {
    let job = UploadedJob::appliance();
    let files = selected(
        &job,
        vec![
            (
                "MER_89813015722APT1_20260914101809_yjhx.xlsx",
                sheet(
                    "家电",
                    &all_fields(false),
                    &[sample_row("UUID-2", "89813015722APT1", "ORDER-2", false)],
                ),
            ),
            (
                "MER_89813014812B06R_20260914101809_yjhx.xlsx",
                sheet(
                    "数码",
                    &all_fields(true),
                    &[sample_row("UUID-3", "89813014812B06R", "ORDER-3", true)],
                ),
            ),
        ],
    );

    let table = job.process(&files).unwrap();

    assert_eq!(table.columns.len(), 14);
    assert_eq!(table.rows.len(), 1);
    assert_eq!(table.rows[0].values[0], Value::Text("UUID-2".to_string()));
}

#[test]
fn resolves_fields_by_name_regardless_of_column_order() {
    let job = UploadedJob::appliance();
    let mut fields = all_fields(false);
    fields.swap(0, 13);
    let mut row = sample_row("UUID-4", "89813015722APT1", "ORDER-4", false);
    row.swap(0, 13);
    let files = vec![file(
        "MER_89813015722APT1_20260914101809_yjhx.xlsx",
        vec![sheet("家电", &fields, &[row])],
    )];

    let table = job.process(&files).unwrap();
    assert_eq!(table.rows[0].values[0], Value::Text("UUID-4".to_string()));
    assert_eq!(table.rows[0].values[13], Value::Text("SN0001".to_string()));
}

#[test]
fn rejects_merchant_mismatch_between_filename_and_row() {
    let job = UploadedJob::appliance();
    let files = vec![file(
        "MER_89813015722APT1_20260914101809_yjhx.xlsx",
        vec![sheet(
            "家电",
            &all_fields(false),
            &[sample_row("UUID-5", "89813014812B06R", "ORDER-5", false)],
        )],
    )];

    let error = job.process(&files).unwrap_err();
    assert!(matches!(error, ProcessError::Data { .. }));
}

#[test]
fn rejects_missing_required_field() {
    let job = UploadedJob::appliance();
    let mut fields = all_fields(false);
    fields.remove(13);
    let mut row = sample_row("UUID-6", "89813015722APT1", "ORDER-6", false);
    row.remove(13);
    let files = vec![file(
        "MER_89813015722APT1_20260914101809_yjhx.xlsx",
        vec![sheet("家电", &fields, &[row])],
    )];

    let error = job.process(&files).unwrap_err();
    assert!(matches!(error, ProcessError::Structure { .. }));
}

#[test]
fn rejects_ambiguous_duplicate_field_name() {
    let job = UploadedJob::appliance();
    let mut fields = all_fields(false);
    fields[0] = "订单号";
    let files = vec![file(
        "MER_89813015722APT1_20260914101809_yjhx.xlsx",
        vec![sheet(
            "家电",
            &fields,
            &[sample_row("UUID-7", "89813015722APT1", "ORDER-7", false)],
        )],
    )];

    let error = job.process(&files).unwrap_err();
    assert!(matches!(error, ProcessError::Structure { .. }));
}

#[test]
fn rejects_duplicate_uuid_across_files() {
    let job = UploadedJob::appliance();
    let files = selected(
        &job,
        vec![
            (
                "MER_89813015722APT1_20260914101809_yjhx.xlsx",
                sheet(
                    "家电",
                    &all_fields(false),
                    &[sample_row("UUID-SAME", "89813015722APT1", "ORDER-8", false)],
                ),
            ),
            (
                "MER_89813015722APT1_20260914101900_yjhx.xlsx",
                sheet(
                    "家电",
                    &all_fields(false),
                    &[sample_row("UUID-SAME", "89813015722APT1", "ORDER-9", false)],
                ),
            ),
        ],
    );

    let error = job.process(&files).unwrap_err();
    assert!(matches!(error, ProcessError::Duplicate { .. }));
}

#[test]
fn rejects_whole_sheet_duplicate_export_across_files() {
    let job = UploadedJob::appliance();
    let rows = [sample_row("UUID-DUP", "89813015722APT1", "ORDER-10", false)];
    let files = selected(
        &job,
        vec![
            (
                "MER_89813015722APT1_20260914101809_yjhx.xlsx",
                sheet("家电", &all_fields(false), &rows),
            ),
            (
                "MER_89813015722APT1_20260914101900_yjhx.xlsx",
                sheet("家电", &all_fields(false), &rows),
            ),
        ],
    );

    let error = job.process(&files).unwrap_err();
    assert!(matches!(error, ProcessError::Duplicate { .. }));
}

#[test]
fn unparseable_date_falls_back_to_original_text() {
    let job = UploadedJob::appliance();
    let mut row = sample_row("UUID-11", "89813015722APT1", "ORDER-11", false);
    row[3] = "不是日期";
    let files = vec![file(
        "MER_89813015722APT1_20260914101809_yjhx.xlsx",
        vec![sheet("家电", &all_fields(false), &[row])],
    )];

    let table = job.process(&files).unwrap();
    assert_eq!(table.rows[0].values[3], Value::Text("不是日期".to_string()));
}

#[test]
fn reports_no_input_when_nothing_matches() {
    let job = UploadedJob::appliance();
    let files = selected(&job, Vec::new());
    let error = job.process(&files).unwrap_err();
    assert!(matches!(error, ProcessError::NoInput { .. }));
}

#[test]
fn no_input_names_the_expected_file_pattern() {
    match UploadedJob::digital().process(&Vec::new()) {
        Err(ProcessError::NoInput { pattern }) => {
            assert_eq!(pattern, "MER_89813014812B06R_yyyymmddhhmmss_yjhx.xlsx")
        }
        other => panic!("unexpected: {other:?}"),
    }
}

#[test]
fn files_are_taken_in_name_order() {
    let job = UploadedJob::appliance();
    let names = vec![
        "MER_89813015722APT1_20260914101900_yjhx.xlsx".to_string(),
        "说明.xlsx".to_string(),
        "MER_89813015722APT1_20260101000000_yjhx.xlsx".to_string(),
        "MER_89813014812B06R_20250101000000_yjhx.xlsx".to_string(),
        "MER_89813015722APT1_20260914101809_yjhx.xlsx".to_string(),
    ];
    assert_eq!(
        job.select_files(&names),
        vec![
            "MER_89813015722APT1_20260101000000_yjhx.xlsx".to_string(),
            "MER_89813015722APT1_20260914101809_yjhx.xlsx".to_string(),
            "MER_89813015722APT1_20260914101900_yjhx.xlsx".to_string(),
        ]
    );
}

#[test]
fn duplicate_uuid_error_names_the_uuid() {
    let job = UploadedJob::appliance();
    let rows = [
        sample_row("U-1", "89813015722APT1", "O-1", false),
        sample_row("U-1", "89813015722APT1", "O-2", false),
    ];
    let files = vec![file(
        "MER_89813015722APT1_20260914101809_yjhx.xlsx",
        vec![sheet("家电", &all_fields(false), &rows)],
    )];
    match job.process(&files) {
        Err(ProcessError::Duplicate { detail }) => assert_eq!(detail, "实时清分UUID重复：U-1"),
        other => panic!("unexpected: {other:?}"),
    }
}

#[test]
fn a_file_that_could_not_be_read_stops_processing() {
    let job = UploadedJob::appliance();
    let files = vec![SourceFile {
        name: "MER_89813015722APT1_20260914101809_yjhx.xlsx".to_string(),
        sheets: Err(ProcessError::Read("坏文件".to_string())),
    }];
    match job.process(&files) {
        Err(ProcessError::Read(message)) => assert_eq!(message, "坏文件"),
        other => panic!("unexpected: {other:?}"),
    }
}

#[test]
fn the_same_sheet_twice_in_one_file_is_not_a_duplicate_export() {
    let job = UploadedJob::appliance();
    let a = sheet(
        "家电",
        &all_fields(false),
        &[sample_row("U-9", "89813015722APT1", "O-9", false)],
    );
    let b = sheet("家电", &all_fields(false), &[]);
    let c = sheet("家电", &all_fields(false), &[]);
    let files = vec![file("MER_89813015722APT1_20260914101809_yjhx.xlsx", vec![a, b, c])];
    let table = job.process(&files).unwrap();
    assert_eq!(table.rows.len(), 1);
}

#[test]
fn every_row_carries_the_merchant_number_and_fills_every_column() {
    let job = UploadedJob::digital();
    let rows = [
        sample_row("U-1", "89813014812B06R", "O-1", true),
        sample_row("U-2", "89813014812B06R", "O-2", true),
    ];
    let files = vec![file(
        "MER_89813014812B06R_20260914101809_yjhx.xlsx",
        vec![sheet("数码", &all_fields(true), &rows)],
    )];
    let table = job.process(&files).unwrap();
    assert!(table.validate().is_ok());
    for row in &table.rows {
        assert_eq!(row.values.len(), table.columns.len());
        assert_eq!(row.values[1], Value::Text("89813014812B06R".to_string()));
    }
    assert_ne!(table.rows[0].values[0], table.rows[1].values[0]);
}

#[test]
fn fields_are_read_from_absolute_columns_when_the_range_starts_later() {
    let job = UploadedJob::appliance();
    let fields = all_fields(false);
    let row = sample_row("UUID-B", "89813015722APT1", "ORDER-B", false);
    let width = fields.len();
    let mut cells = vec![vec![RawCell::Empty; width]; 3];
    cells[0][0] = text("家电");
    for (i, f) in fields.iter().enumerate() {
        cells[1][i] = text(f);
        cells[2][i] = text(row[i]);
    }
    // The data range starts at B1: column A is empty.
    let grid = SheetGrid::new("Sheet1".to_string(), Some((0, 1)), cells).unwrap();
    let cols = resolve_columns(&grid, &job.fields()).unwrap();
    assert_eq!(cols[0], 2);
    assert_eq!(cols[13], 15);
    let files = vec![file(
        "MER_89813015722APT1_20260914101809_yjhx.xlsx",
        vec![grid],
    )];
    let table = job.process(&files).unwrap();
    assert_eq!(table.rows[0].values[0], Value::Text("UUID-B".to_string()));
    assert_eq!(table.rows[0].values[13], Value::Text("SN0001".to_string()));
}

/// The same sheet with its columns in a new order: column `i` (from 0) of the result is column
/// `order[i]` of the sheet, in every row, the title of A1 included.
fn reordered_sheet(title: &str, fields: &[&str], rows: &[Vec<&str>], order: &[usize]) -> SheetGrid {
    let original = sheet(title, fields, rows);
    let width = fields.len().max(1) as u32;
    let height = 2 + rows.len() as u32;
    let mut cells = Vec::new();
    for row in 1..=height {
        let mut line = Vec::new();
        for col in 1..=width {
            let from = order.get((col - 1) as usize).map(|c| *c as u32 + 1).unwrap_or(col);
            line.push(original.cell(row, from));
        }
        cells.push(line);
    }
    SheetGrid::new("Sheet1".to_string(), Some((0, 0)), cells).unwrap()
}

/// The order that exchanges columns `a` and `b` (from 0) of a range `width` wide.
fn exchange(width: usize, a: usize, b: usize) -> Vec<usize> {
    let mut order: Vec<usize> = (0..width).collect();
    order.swap(a, b);
    order
}

#[test]
fn exchanging_two_columns_in_every_sheet_keeps_the_rows() {
    let job = UploadedJob::digital();
    let fields = all_fields(true);
    let rows1 = [
        sample_row("UUID-X1", "89813014812B06R", "ORDER-X1", true),
        sample_row("UUID-X2", "89813014812B06R", "ORDER-X2", true),
    ];
    let rows2 = [sample_row("UUID-X3", "89813014812B06R", "ORDER-X3", true)];
    let name1 = "MER_89813014812B06R_20260914101809_yjhx.xlsx";
    let name2 = "MER_89813014812B06R_20260915101809_yjhx.xlsx";
    let original = vec![
        file(name1, vec![sheet("数码", &fields, &rows1)]),
        file(name2, vec![sheet("数码", &fields, &rows2)]),
    ];
    let exchanged = vec![
        file(name1, vec![reordered_sheet("数码", &fields, &rows1, &exchange(16, 2, 15))]),
        file(name2, vec![reordered_sheet("数码", &fields, &rows2, &exchange(16, 2, 15))]),
    ];

    let t1 = job.process(&original).unwrap();
    let t2 = job.process(&exchanged).unwrap();
    assert_eq!(t1.rows.len(), 3);
    assert_eq!(t2.rows.len(), 3);
    for (r1, r2) in t1.rows.iter().zip(t2.rows.iter()) {
        assert_eq!(r1.values, r2.values);
    }
    assert_eq!(t2.rows[1].values[2], Value::Text("ORDER-X2".to_string()));
    assert_eq!(t2.rows[1].values[15], Value::Text("IMEI0002".to_string()));
}

#[test]
fn exchanging_the_first_column_keeps_the_duplicate_export_error() {
    let job = UploadedJob::appliance();
    let fields = all_fields(false);
    let rows = [sample_row("UUID-Y1", "89813015722APT1", "ORDER-Y1", false)];
    let name1 = "MER_89813015722APT1_20260914101809_yjhx.xlsx";
    let name2 = "MER_89813015722APT1_20260914101900_yjhx.xlsx";
    let original = vec![
        file(name1, vec![sheet("家电", &fields, &rows)]),
        file(name2, vec![sheet("家电", &fields, &rows)]),
    ];
    let exchanged = vec![
        file(name1, vec![reordered_sheet("家电", &fields, &rows, &exchange(14, 0, 4))]),
        file(name2, vec![reordered_sheet("家电", &fields, &rows, &exchange(14, 0, 4))]),
    ];

    let e1 = job.process(&original).unwrap_err();
    let e2 = job.process(&exchanged).unwrap_err();
    assert!(matches!(e1, ProcessError::Duplicate { .. }));
    assert_eq!(format!("{:?}", e1), format!("{:?}", e2));
}

#[test]
fn rotating_columns_keeps_the_rows() {
    let job = UploadedJob::appliance();
    let fields = all_fields(false);
    let rows = [
        sample_row("UUID-Z1", "89813015722APT1", "ORDER-Z1", false),
        sample_row("UUID-Z2", "89813015722APT1", "ORDER-Z2", false),
    ];
    let name = "MER_89813015722APT1_20260914101809_yjhx.xlsx";
    // Every column moves one place to the right; the last comes first.
    let order: Vec<usize> = (0..14).map(|i| (i + 13) % 14).collect();
    let original = vec![file(name, vec![sheet("家电", &fields, &rows)])];
    let rotated = vec![file(name, vec![reordered_sheet("家电", &fields, &rows, &order)])];

    let t1 = job.process(&original).unwrap();
    let t2 = job.process(&rotated).unwrap();
    assert_eq!(t2.rows.len(), 2);
    for (r1, r2) in t1.rows.iter().zip(t2.rows.iter()) {
        assert_eq!(r1.values, r2.values);
    }
    assert_eq!(t2.rows[0].values[0], Value::Text("UUID-Z1".to_string()));
    assert_eq!(t2.rows[1].values[13], Value::Text("SN0001".to_string()));
}
