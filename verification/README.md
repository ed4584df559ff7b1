# data_cleaning

Cleans the spreadsheets that a retail store exports (uploaded trade-in records, receipt
statistics, coupon statistics) into one output workbook per data category.

The library under `src/` is verified with Verus:

- `model/` — decimals, calendar values, cell values, tables and the error type.
- `io/` — the sheet model (`SheetGrid`, `RawCell`), folder-path normalisation and the
  folder check's decision.
- `utils/` — text helpers, dates, the cent rule, document numbers, natural and
  lexicographic ordering.
- `jobs/` — the three data categories: `uploaded` (trade-in exports per merchant),
  `receipts` (receipt statistics with cross-matched remarks) and `coupons` (coupon
  statistics with reference-number extraction); `column_order` proves that the
  uploaded-data result does not depend on the order of a sheet's columns.
- `session.rs` — the console session as a state machine, and the running order of the
  categories.
- `bindings/` — the trusted wrappers around `regex`, `rust_decimal`, `chrono` and `std`.

`app/` is the program around it: console input and output, reading workbooks with
`calamine`, writing them with `rust_xlsxwriter`, and publishing the result file.
