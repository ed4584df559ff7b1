use vstd::prelude::*;

use crate::bindings::decimal_ops::{decimal_from_str, parse_decimal};
use crate::io::sheet::{bool_text, bool_to_text, RawCell, SheetGrid};
use crate::model::decimal::Decimal;
use crate::model::error::{result_view, ErrorView, ProcessError};
use crate::model::value::{text_value_view, Value, ValueView};
use crate::utils::doc_no::{self, strip_receipt_prefix_seq, yymmdd};
use crate::utils::dates::{parse_date_text, parse_date_text_seq, parse_yyyymmdd, parse_yyyymmdd_seq};
use crate::utils::numerals::{int_text, int_to_text, nat_to_text};
use crate::utils::natural_sort::{digits_value, lemma_digits_value_monotone};
use crate::utils::strings::{
    chars_of, is_ascii_digit, is_ascii_digit_char, is_blank, lemma_trim_blank, str_eq, trim,
    trim_seq,
};

pub mod column_order;
pub mod coupons;
pub mod receipts;
pub mod uploaded;

verus! {

/// The result of a text-producing step, as texts.
pub open spec fn result_text(r: Result<String, String>) -> Result<Seq<char>, Seq<char>> {
    match r {
        Ok(s) => Ok(s@),
        Err(e) => Err(e@),
    }
}

/// A cell's plain text, used only for error reports and export fingerprints.
pub open spec fn cell_display_seq(c: RawCell) -> Seq<char> {
    match c {
        RawCell::Empty => Seq::empty(),
        RawCell::Text(t) => t@,
        RawCell::Int(n) => int_text(n as int),
        RawCell::Float(f) => f.display@,
        RawCell::Bool(b) => bool_text(b),
        RawCell::DateTime(s) => s.display@,
        RawCell::Error(m) => m@,
    }
}

/// A cell's plain text, for error reports and export fingerprints only.
pub fn cell_display(cell: &RawCell) -> (res: String)
    ensures
        res@ == cell_display_seq(*cell),
{
    match cell {
        RawCell::Empty => String::new(),
        RawCell::Text(text) => text.clone(),
        RawCell::Int(n) => int_to_text(*n),
        RawCell::Float(f) => f.display.clone(),
        RawCell::Bool(b) => bool_to_text(*b),
        RawCell::DateTime(serial) => serial.display.clone(),
        RawCell::Error(message) => message.clone(),
    }
}

/// A text field: text stays as it is (white space too); a number stored by mistake becomes its
/// full integer text; dates and error cells are refused.
pub open spec fn cell_text_seq(c: RawCell) -> Result<Seq<char>, Seq<char>> {
    match c {
        RawCell::Empty => Ok(Seq::empty()),
        RawCell::Text(t) => Ok(t@),
        RawCell::Int(n) => Ok(int_text(n as int)),
        RawCell::Bool(b) => Ok(bool_text(b)),
        RawCell::Float(f) => match f.identifier {
            Some(id) => Ok(id@),
            None => Err("数值 "@ + f.display@ + " 带小数或超出精度范围，无法还原为完整文本"@),
        },
        RawCell::DateTime(_) => Err("此字段不应为日期类型"@),
        RawCell::Error(m) => Err("单元格为错误值："@ + m@),
    }
}

/// Reads a text field.
pub fn cell_text(cell: &RawCell) -> (res: Result<String, String>)
    ensures
        result_text(res) == cell_text_seq(*cell),
{
    match cell {
        RawCell::Empty => Ok(String::new()),
        RawCell::Text(text) => Ok(text.clone()),
        RawCell::Int(n) => Ok(int_to_text(*n)),
        RawCell::Bool(b) => Ok(bool_to_text(*b)),
        RawCell::Float(f) => match &f.identifier {
            Some(id) => Ok(id.clone()),
            None => {
                let mut m = "数值 ".to_owned();
                m.append(f.display.as_str());
                m.append(" 带小数或超出精度范围，无法还原为完整文本");
                Err(m)
            },
        },
        RawCell::DateTime(_) => Err("此字段不应为日期类型".to_owned()),
        RawCell::Error(message) => {
            let mut m = "单元格为错误值：".to_owned();
            m.append(message.as_str());
            Err(m)
        },
    }
}

/// An empty text becomes `Value::Empty`, any other `Value::Text`.
pub fn text_value(value: String) -> (res: Value)
    ensures
        res@ == text_value_view(value@),
{
    if value.as_str().is_empty() {
        Value::Empty
    } else {
        Value::Text(value)
    }
}

/// `None` becomes `Value::Empty`, an amount `Value::Decimal`.
pub fn amount_value(value: Option<Decimal>) -> (res: Value)
    ensures
        res@ == (match value {
            Some(d) => ValueView::Decimal(d),
            None => ValueView::Empty,
        }),
{
    match value {
        Some(d) => Value::Decimal(d),
        None => Value::Empty,
    }
}

/// An amount field: empty stays empty (no rounding); text holding an amount is read as decimal
/// text; whole numbers and floating-point numbers are taken by value; anything else is refused.
pub open spec fn cell_amount_seq(c: RawCell) -> Result<Option<Decimal>, Seq<char>> {
    match c {
        RawCell::Empty => Ok(None),
        RawCell::Text(t) => if is_blank(t@) {
            Ok(None)
        } else {
            match decimal_from_str(trim_seq(t@)) {
                Some(p) => Ok(Some(Decimal { mantissa: p.0 as i128, scale: p.1 as u32 })),
                None => Err("文本“"@ + t@ + "”无法解析为十进制金额"@),
            }
        },
        RawCell::Int(n) => Ok(Some(Decimal { mantissa: n as i128, scale: 0 })),
        RawCell::Float(f) => match f.amount {
            Some(d) => if d.wf() {
                Ok(Some(d))
            } else {
                Err("数值 "@ + f.display@ + " 无法转换为十进制金额"@)
            },
            None => Err("数值 "@ + f.display@ + " 无法转换为十进制金额"@),
        },
        _ => Err("金额字段出现非数值内容："@ + cell_display_seq(c)),
    }
}

/// Reads an amount field.
pub fn cell_amount(cell: &RawCell) -> (res: Result<Option<Decimal>, String>)
    ensures
        match res {
            Ok(v) => cell_amount_seq(*cell) == Ok::<Option<Decimal>, Seq<char>>(v),
            Err(e) => cell_amount_seq(*cell) == Err::<Option<Decimal>, Seq<char>>(e@),
        },
        res matches Ok(Some(d)) ==> d.wf(),
{
    match cell {
        RawCell::Empty => Ok(None),
        RawCell::Text(t) => {
            proof {
                lemma_trim_blank(t@);
            }
            let trimmed = trim(t.as_str());
            if trimmed.is_empty() {
                return Ok(None);
            }
            match parse_decimal(trimmed) {
                Some(d) => Ok(Some(d)),
                None => {
                    let mut m = "文本“".to_owned();
                    m.append(t.as_str());
                    m.append("”无法解析为十进制金额");
                    Err(m)
                },
            }
        },
        RawCell::Int(n) => Ok(Some(Decimal::from_i64(*n))),
        RawCell::Float(f) => {
            let converted = match f.amount {
                Some(d) => if d.is_wf() {
                    Some(d)
                } else {
                    None
                },
                None => None,
            };
            match converted {
                Some(d) => Ok(Some(d)),
                None => {
                    let mut m = "数值 ".to_owned();
                    m.append(f.display.as_str());
                    m.append(" 无法转换为十进制金额");
                    Err(m)
                },
            }
        },
        other => {
            let mut m = "金额字段出现非数值内容：".to_owned();
            m.append(cell_display(other).as_str());
            Err(m)
        },
    }
}

/// A date field: a serial converts to its date, `yyyymmdd` text to that day; anything that
/// cannot be read is kept as its text rather than guessed at, and blank text is empty.
pub open spec fn date_or_text_view(c: RawCell) -> ValueView {
    match c {
        RawCell::DateTime(s) => match s.date {
            Some(d) => ValueView::Date(d),
            None => ValueView::Text(s.display@),
        },
        _ => {
            let text = cell_display_seq(c);
            if is_blank(text) {
                ValueView::Empty
            } else {
                match parse_yyyymmdd_seq(text) {
                    Some(d) => ValueView::Date(d),
                    None => ValueView::Text(text),
                }
            }
        },
    }
}

/// Reads a date field, keeping what cannot be read as text.
pub fn cell_date_or_text(cell: &RawCell) -> (res: Value)
    ensures
        res@ == date_or_text_view(*cell),
{
    if let RawCell::DateTime(serial) = cell {
        return match serial.date {
            Some(d) => Value::Date(d),
            None => Value::Text(cell_display(cell)),
        };
    }
    let text = cell_display(cell);
    proof {
        lemma_trim_blank(text@);
    }
    if trim(text.as_str()).is_empty() {
        return Value::Empty;
    }
    match parse_yyyymmdd(text.as_str()) {
        Some(d) => Value::Date(d),
        None => Value::Text(text),
    }
}

/// A date-and-time field, to the second: a serial converts to its date and time, date text
/// (with or without time) is read; anything else is kept as its text, blank text is empty.
pub open spec fn datetime_or_text_view(c: RawCell) -> ValueView {
    match c {
        RawCell::DateTime(s) => match s.datetime {
            Some(d) => ValueView::DateTime(d),
            None => ValueView::Text(s.display@),
        },
        _ => {
            let text = cell_display_seq(c);
            if is_blank(text) {
                ValueView::Empty
            } else {
                match parse_date_text_seq(text) {
                    Some(d) => ValueView::DateTime(d),
                    None => ValueView::Text(text),
                }
            }
        },
    }
}

/// Reads a date-and-time field, keeping what cannot be read as text.
pub fn cell_datetime_or_text(cell: &RawCell) -> (res: Value)
    ensures
        res@ == datetime_or_text_view(*cell),
{
    if let RawCell::DateTime(serial) = cell {
        return match serial.datetime {
            Some(d) => Value::DateTime(d),
            None => Value::Text(cell_display(cell)),
        };
    }
    let text = cell_display(cell);
    proof {
        lemma_trim_blank(text@);
    }
    if trim(text.as_str()).is_empty() {
        return Value::Empty;
    }
    match parse_date_text(text.as_str()) {
        Some(d) => Value::DateTime(d),
        None => Value::Text(text),
    }
}

/// The data error for `field` at `row` of `file` / `sheet`, quoting `value`.
pub open spec fn data_error_view(
    file: Seq<char>,
    sheet: Seq<char>,
    row: u32,
    field: Seq<char>,
    value: Seq<char>,
    detail: Seq<char>,
) -> ErrorView {
    ErrorView::Data { file, sheet, row, field, value, detail }
}

pub fn data_error(
    file: &str,
    sheet: &str,
    row: u32,
    field: &str,
    value: String,
    detail: String,
) -> (e: ProcessError)
    ensures
        e@ == data_error_view(file@, sheet@, row, field@, value@, detail@),
{
    ProcessError::Data {
        file: file.to_owned(),
        sheet: sheet.to_owned(),
        row,
        field: field.to_owned(),
        value,
        detail,
    }
}

/// A text field of `sheet` at `row`, `col`, or the data error naming `field`.
pub open spec fn text_field_spec(
    sheet: SheetGrid,
    row: u32,
    col: u32,
    field: Seq<char>,
    file: Seq<char>,
    sheet_name: Seq<char>,
) -> Result<Seq<char>, ErrorView> {
    let c = sheet.cell_spec(row as int, col as int);
    match cell_text_seq(c) {
        Ok(t) => Ok(t),
        Err(d) => Err(data_error_view(file, sheet_name, row, field, cell_display_seq(c), d)),
    }
}

/// Reads the text field at `row`, `col`; a failure is reported as a data error for `field`.
pub fn text_at(sheet: &SheetGrid, row: u32, col: u32, field: &str, file: &str, sheet_name: &str) -> (res:
    Result<String, ProcessError>)
    ensures
        result_view(res) == text_field_spec(*sheet, row, col, field@, file@, sheet_name@),
{
    let cell = sheet.cell(row, col);
    match cell_text(&cell) {
        Ok(t) => Ok(t),
        Err(detail) => Err(data_error(file, sheet_name, row, field, cell_display(&cell), detail)),
    }
}

/// `e` is the structure error for `file` / `sheet` with `detail`.
pub open spec fn structure_error_view(file: Seq<char>, sheet: Seq<char>, detail: Seq<char>) -> ErrorView {
    ErrorView::Structure { file, sheet, detail }
}

/// The texts of `actual` are those of `expected`, one for one.
pub fn texts_equal(actual: &Vec<String>, expected: &Vec<&'static str>) -> (res: bool)
    ensures
        res == (actual@.map_values(|s: String| s@) == expected@.map_values(|s: &str| s@)),
{
    let ghost a = actual@.map_values(|s: String| s@);
    let ghost e = expected@.map_values(|s: &str| s@);
    if actual.len() != expected.len() {
        assert(a.len() != e.len());
        return false;
    }
    let mut i: usize = 0;
    while i < actual.len()
        invariant
            a == actual@.map_values(|s: String| s@),
            e == expected@.map_values(|s: &str| s@),
            actual@.len() == expected@.len(),
            i <= actual@.len(),
            forall|j: int| 0 <= j < i ==> a[j] == e[j],
        decreases actual@.len() - i,
    {
        if !str_eq(actual[i].as_str(), expected[i]) {
            assert(a[i as int] != e[i as int]);
            return false;
        }
        i = i + 1;
    }
    assert(a =~= e);
    true
}

/// A date field that must be readable: empty stays empty; a serial or date text becomes its
/// day; anything else is a data error for `field`.
pub open spec fn date_field_spec(
    c: RawCell,
    field: Seq<char>,
    file: Seq<char>,
    sheet: Seq<char>,
    row: u32,
) -> Result<ValueView, ErrorView> {
    match c {
        RawCell::Empty => Ok(ValueView::Empty),
        RawCell::DateTime(s) => match s.date {
            Some(d) => Ok(ValueView::Date(d)),
            None => Err(data_error_view(file, sheet, row, field, s.display@, "无法解析为日期"@)),
        },
        _ => {
            let text = cell_display_seq(c);
            if is_blank(text) {
                Ok(ValueView::Empty)
            } else {
                match parse_date_text_seq(text) {
                    Some(dt) => Ok(ValueView::Date(dt.date)),
                    None => Err(data_error_view(file, sheet, row, field, text, "无法解析为日期"@)),
                }
            }
        },
    }
}

/// Reads a date field that must be readable when it is not empty.
pub fn parse_date_field(cell: &RawCell, field: &str, file: &str, sheet: &str, row: u32) -> (res: Result<
    Value,
    ProcessError,
>)
    ensures
        result_view(res) == date_field_spec(*cell, field@, file@, sheet@, row),
{
    match cell {
        RawCell::Empty => Ok(Value::Empty),
        RawCell::DateTime(serial) => match serial.date {
            Some(d) => Ok(Value::Date(d)),
            None => Err(
                data_error(
                    file,
                    sheet,
                    row,
                    field,
                    serial.display.clone(),
                    "无法解析为日期".to_owned(),
                ),
            ),
        },
        other => {
            let text = cell_display(other);
            proof {
                lemma_trim_blank(text@);
            }
            if trim(text.as_str()).is_empty() {
                return Ok(Value::Empty);
            }
            match parse_date_text(text.as_str()) {
                Some(dt) => Ok(Value::Date(dt.date)),
                None => Err(data_error(file, sheet, row, field, text, "无法解析为日期".to_owned())),
            }
        },
    }
}

/// The matching document number of a record: empty when the date or the document number is
/// missing, otherwise the date as `yymmdd` followed by the document number without "收款".
pub open spec fn match_doc_no_seq(date: ValueView, doc_no: Seq<char>) -> Seq<char> {
    if doc_no.len() == 0 {
        Seq::empty()
    } else {
        match date {
            ValueView::Date(d) => yymmdd(d) + strip_receipt_prefix_seq(doc_no),
            _ => Seq::empty(),
        }
    }
}

pub fn build_match_doc_no(date: &Value, doc_no_value: &str) -> (res: String)
    ensures
        res@ == match_doc_no_seq(date@, doc_no_value@),
{
    if doc_no_value.is_empty() {
        return String::new();
    }
    match date {
        Value::Date(d) => doc_no::build_match_doc_no(*d, doc_no_value),
        _ => String::new(),
    }
}

/// The detail of a workbook that does not hold exactly one sheet.
pub open spec fn sheet_count_message(n: int) -> Seq<char> {
    "工作表数量异常：应为 1 个，实际为 "@ + int_text(n) + " 个"@
}

/// The detail when the last row with a value does not start with "合计".
pub open spec fn total_marker_message(marker: Seq<char>) -> Seq<char> {
    "最后一个实际有值行第1列应为“合计”，实际为“"@ + marker + "”"@
}

/// The row that closes the data: the last row holding a value, or row 2 when none does.
pub open spec fn total_row_spec(sheet: SheetGrid) -> u32 {
    match sheet.last_value_row_spec() {
        Some(r) => r,
        None => 2,
    }
}

/// The number of data rows, from row 3 up to the closing row.
pub open spec fn data_row_count(last: u32) -> nat {
    if last > 3 {
        (last - 3) as nat
    } else {
        0
    }
}

/// The structure error of `file` for a workbook with `n` sheets.
pub fn sheet_count_error(file: &str, n: usize) -> (e: ProcessError)
    ensures
        e@ == structure_error_view(file@, Seq::empty(), sheet_count_message(n as int)),
{
    let mut detail = "工作表数量异常：应为 1 个，实际为 ".to_owned();
    detail.append(nat_to_text(n as u64).as_str());
    detail.append(" 个");
    ProcessError::Structure { file: file.to_owned(), sheet: String::new(), detail }
}

/// The row that closes the data of `sheet` in `file`: the last row with a value (row 2 when
/// there is none), which must start with "合计".
pub open spec fn closing_row_spec(sheet: SheetGrid, file: Seq<char>) -> Result<u32, ErrorView> {
    let last = total_row_spec(sheet);
    let marker = cell_display_seq(sheet.cell_spec(last as int, 1));
    if marker == "合计"@ {
        Ok(last)
    } else {
        Err(structure_error_view(file, sheet.name_spec(), total_marker_message(marker)))
    }
}

/// Finds the row that closes the data, or reports that it does not start with "合计".
pub fn closing_row(sheet: &SheetGrid, file: &str) -> (res: Result<u32, ProcessError>)
    ensures
        match res {
            Ok(r) => closing_row_spec(*sheet, file@) == Ok::<u32, ErrorView>(r),
            Err(e) => closing_row_spec(*sheet, file@) == Err::<u32, ErrorView>(e@),
        },
{
    let last_row = match sheet.last_value_row() {
        Some(r) => r,
        None => 2,
    };
    let marker = cell_display(&sheet.cell(last_row, 1));
    if str_eq(marker.as_str(), "合计") {
        Ok(last_row)
    } else {
        let mut detail = "最后一个实际有值行第1列应为“合计”，实际为“".to_owned();
        detail.append(marker.as_str());
        detail.append("”");
        Err(ProcessError::Structure { file: file.to_owned(), sheet: sheet.name().to_owned(), detail })
    }
}

/// The nine data categories, in menu order.
#[derive(Debug, Clone, Copy, PartialEq, Eq)]
pub enum Category {
    Invoice,
    UnionSubsidy,
    UploadedDigital,
    UploadedAppliance,
    UnionPay,
    RefundAppliance,
    RefundDigital,
    Receipts,
    Coupons,
}

/// A category's number in the menu, 1 to 9.
pub open spec fn category_number(c: Category) -> u32 {
    match c {
        Category::Invoice => 1,
        Category::UnionSubsidy => 2,
        Category::UploadedDigital => 3,
        Category::UploadedAppliance => 4,
        Category::UnionPay => 5,
        Category::RefundAppliance => 6,
        Category::RefundDigital => 7,
        Category::Receipts => 8,
        Category::Coupons => 9,
    }
}

impl Category {
    /// The category's menu number.
    pub fn number(self) -> (n: u32)
        ensures
            n == category_number(self),
    {
        match self {
            Category::Invoice => 1,
            Category::UnionSubsidy => 2,
            Category::UploadedDigital => 3,
            Category::UploadedAppliance => 4,
            Category::UnionPay => 5,
            Category::RefundAppliance => 6,
            Category::RefundDigital => 7,
            Category::Receipts => 8,
            Category::Coupons => 9,
        }
    }

    /// The category with menu number `n`, if there is one.
    pub fn from_number(n: u32) -> (res: Option<Category>)
        ensures
            res matches Some(c) ==> category_number(c) == n,
            res is None <==> !(1 <= n <= 9),
    {
        if n == 1 {
            Some(Category::Invoice)
        } else if n == 2 {
            Some(Category::UnionSubsidy)
        } else if n == 3 {
            Some(Category::UploadedDigital)
        } else if n == 4 {
            Some(Category::UploadedAppliance)
        } else if n == 5 {
            Some(Category::UnionPay)
        } else if n == 6 {
            Some(Category::RefundAppliance)
        } else if n == 7 {
            Some(Category::RefundDigital)
        } else if n == 8 {
            Some(Category::Receipts)
        } else if n == 9 {
            Some(Category::Coupons)
        } else {
            None
        }
    }

    /// All nine categories, in menu order.
    pub fn all() -> (res: Vec<Category>)
        ensures
            res@.len() == 9,
            forall|i: int| 0 <= i < 9 ==> category_number(#[trigger] res@[i]) == i + 1,
    {
        vec![
            Category::Invoice,
            Category::UnionSubsidy,
            Category::UploadedDigital,
            Category::UploadedAppliance,
            Category::UnionPay,
            Category::RefundAppliance,
            Category::RefundDigital,
            Category::Receipts,
            Category::Coupons,
        ]
    }
}

/// Every category has its own menu number.
pub proof fn lemma_category_numbers_distinct(a: Category, b: Category)
    ensures
        category_number(a) == category_number(b) ==> a == b,
        1 <= category_number(a) <= 9,
{
}

/// The value `u32::from_str` reads from a text: an optional `+`, then one or more ASCII
/// digits whose value fits in a `u32`.
pub open spec fn parse_u32_seq(s: Seq<char>) -> Option<nat> {
    let digits = u32_digits(s);
    if digits.len() > 0 && (forall|i: int| 0 <= i < digits.len() ==> is_ascii_digit(#[trigger] digits[i]))
        && digits_value(digits) <= u32::MAX {
        Some(digits_value(digits) as nat)
    } else {
        None
    }
}

fn digit_value_of(c: char) -> (d: u64)
    requires
        is_ascii_digit(c),
    ensures
        d == c as int - '0' as int,
        d < 10,
{
    (c as u32 - '0' as u32) as u64
}

/// The digits part of an unsigned number's text: without a leading `+`.
pub open spec fn u32_digits(s: Seq<char>) -> Seq<char> {
    if s.len() > 0 && s[0] == '+' {
        s.drop_first()
    } else {
        s
    }
}

/// What the user's menu input asks for: Enter alone runs every category, a number from 1 to 9
/// runs that one, anything else is invalid and asked again.
pub enum MenuChoice {
    RunAll,
    RunOne(Category),
    Invalid,
}

/// Reads the (trimmed) menu input.
pub fn menu_choice(input: &str) -> (res: MenuChoice)
    ensures
        input@.len() == 0 ==> res is RunAll,
        input@.len() > 0 ==> match parse_u32_seq(input@) {
            Some(n) => if 1 <= n <= 9 {
                res matches MenuChoice::RunOne(c) && category_number(c) == n
            } else {
                res is Invalid
            },
            None => res is Invalid,
        },
{
    let v = chars_of(input);
    let n = v.len();
    if n == 0 {
        return MenuChoice::RunAll;
    }
    let start: usize = if v[0] == '+' {
        1
    } else {
        0
    };
    let ghost digits = u32_digits(input@);
    assert(digits =~= v@.skip(start as int));
    if start == n {
        return MenuChoice::Invalid;
    }
    let mut value: u64 = 0;
    let mut i: usize = start;
    while i < n
        invariant
            v@ == input@,
            n == v@.len(),
            start <= i <= n,
            start < n,
            digits == v@.skip(start as int),
            digits == u32_digits(input@),
            value == digits_value(v@.subrange(start as int, i as int)),
            value <= u32::MAX,
            forall|j: int| start <= j < i ==> is_ascii_digit(#[trigger] v@[j]),
        decreases n - i,
    {
        let c = v[i];
        if !is_ascii_digit_char(c) {
            proof {
                assert(digits[i - start] == c);
                assert(!is_ascii_digit(digits[i - start]));
                assert(parse_u32_seq(input@) is None);
            }
            return MenuChoice::Invalid;
        }
        let d = digit_value_of(c);
        let next: u64 = value * 10 + d;
        proof {
            assert(v@.subrange(start as int, i + 1).drop_last() =~= v@.subrange(start as int, i as int));
        }
        if next > u32::MAX as u64 {
            proof {
                let k = (i + 1 - start) as int;
                assert(digits.take(k) =~= v@.subrange(start as int, i + 1));
                let pre = v@.subrange(start as int, i + 1);
                assert(pre.drop_last() =~= v@.subrange(start as int, i as int));
                assert(pre.last() == c);
                assert(digits_value(pre) == value * 10 + d);
                if forall|j: int| 0 <= j < digits.len() ==> is_ascii_digit(#[trigger] digits[j]) {
                    lemma_digits_value_monotone(digits, k);
                    assert(digits_value(digits) > u32::MAX);
                }
                assert(parse_u32_seq(input@) is None);
            }
            return MenuChoice::Invalid;
        }
        value = next;
        i = i + 1;
    }
    proof {
        assert(v@.subrange(start as int, n as int) =~= digits);
    }
    match Category::from_number(value as u32) {
        Some(c) => MenuChoice::RunOne(c),
        None => MenuChoice::Invalid,
    }
}

} // verus!
