use vstd::prelude::*;
use vstd::hash_map::StringHashMap;
use vstd::hash_set::StringHashSet;

use crate::io::sheet::{header_text, RawCell, SheetGrid};
use crate::model::decimal::Decimal;
use crate::jobs::{
    amount_value, cell_amount, cell_amount_seq, cell_date_or_text, cell_datetime_or_text,
    cell_display, cell_display_seq, cell_text_seq, data_error, data_error_view, date_or_text_view,
    datetime_or_text_view, structure_error_view, text_at, text_field_spec, text_value,
    total_row_spec, Category,
};
use crate::model::error::{result_view, ErrorView, ProcessError};
use crate::model::schema::{columns_view, Column, ColumnType, DecimalScale};
use crate::model::table::{Row, RowView, Table};
use crate::model::value::{text_value_view, Value, ValueView};
use crate::bindings::std_text::string_from_chars;
use crate::utils::numerals::{int_text, nat_to_text};
use crate::utils::strings::{chars_of, is_ascii_digit, is_ascii_digit_char, str_eq, views};
use crate::utils::text_order::{lex_sorted, sort_texts};

verus! {

/// The two groups of uploaded trade-in data, told apart by merchant number.
#[derive(Clone, Copy, Debug, PartialEq, Eq)]
pub enum UploadedGroup {
    /// Phones and other digital products; their rows carry two IMEI fields more.
    Digital,
    /// Household appliances and computers.
    Appliance,
}

/// The fourteen output fields common to both groups.
pub open spec fn common_fields() -> Seq<Seq<char>> {
    seq![
        "实时清分UUID"@,
        "商户号"@,
        "订单号"@,
        "交易日期"@,
        "交易金额"@,
        "检索参考号"@,
        "状态"@,
        "描述"@,
        "提交时间"@,
        "更新时间"@,
        "终端号"@,
        "发票号码"@,
        "购买方名称"@,
        "S/N码"@
    ]
}

/// The fields that row 2 of a group's sheets must name, in output order.
pub open spec fn fields_of(group: UploadedGroup) -> Seq<Seq<char>> {
    match group {
        UploadedGroup::Digital => common_fields() + seq!["IMEI1"@, "IMEI2"@],
        UploadedGroup::Appliance => common_fields(),
    }
}

pub open spec fn merchant_no_of(group: UploadedGroup) -> Seq<char> {
    match group {
        UploadedGroup::Digital => "89813014812B06R"@,
        UploadedGroup::Appliance => "89813015722APT1"@,
    }
}

/// Fourteen ASCII digits: `yyyymmddhhmmss`.
pub open spec fn is_timestamp(ts: Seq<char>) -> bool {
    ts.len() == 14 && forall|i: int| 0 <= i < 14 ==> is_ascii_digit(#[trigger] ts[i])
}

/// The file name of an export of merchant `merchant_no` made at `ts`.
pub open spec fn export_file_name(merchant_no: Seq<char>, ts: Seq<char>) -> Seq<char> {
    "MER_"@ + merchant_no + "_"@ + ts + "_yjhx.xlsx"@
}

/// `name` is `MER_<merchant_no>_<yyyymmddhhmmss>_yjhx.xlsx`, in full.
pub open spec fn matches_filename_spec(name: Seq<char>, merchant_no: Seq<char>) -> bool {
    exists|ts: Seq<char>| is_timestamp(ts) && name == #[trigger] export_file_name(merchant_no, ts)
}

/// `pat` stands in `v` at `pos`.
fn chars_at(v: &Vec<char>, pos: usize, pat: &Vec<char>) -> (res: bool)
    ensures
        res == (pos + pat@.len() <= v@.len() && v@.subrange(pos as int, pos + pat@.len()) == pat@),
{
    if pos > v.len() || pat.len() > v.len() - pos {
        return false;
    }
    let mut i: usize = 0;
    while i < pat.len()
        invariant
            pos + pat@.len() <= v@.len(),
            v@.len() <= usize::MAX,
            i <= pat@.len(),
            forall|j: int| 0 <= j < i ==> v@[pos + j] == pat@[j],
        decreases pat@.len() - i,
    {
        if v[pos + i] != pat[i] {
            assert(v@.subrange(pos as int, pos + pat@.len())[i as int] != pat@[i as int]);
            return false;
        }
        i = i + 1;
    }
    assert(v@.subrange(pos as int, pos + pat@.len()) =~= pat@);
    true
}

/// Whether `name` follows the naming rule `MER_<merchant_no>_yyyymmddhhmmss_yjhx.xlsx` in full.
pub fn matches_filename(name: &str, merchant_no: &str) -> (res: bool)
    ensures
        res == matches_filename_spec(name@, merchant_no@),
{
    let v = chars_of(name);
    let m = chars_of(merchant_no);
    let head = chars_of("MER_");
    let sep = chars_of("_");
    let tail = chars_of("_yjhx.xlsx");
    proof {
        reveal_strlit("MER_");
        reveal_strlit("_");
        reveal_strlit("_yjhx.xlsx");
    }
    let ml = m.len();
    let ghost n = v@;
    let ghost mm = m@;
    if ml > v.len() || v.len() - ml != 29 {
        proof {
            if matches_filename_spec(name@, merchant_no@) {
                let ts = choose|ts: Seq<char>| is_timestamp(ts) && name@ == #[trigger] export_file_name(merchant_no@, ts);
                assert(export_file_name(merchant_no@, ts).len() == mm.len() + 29);
            }
        }
        return false;
    }
    let ok_head = chars_at(&v, 0, &head);
    let ok_merchant = chars_at(&v, 4, &m);
    let ok_sep = chars_at(&v, 4 + ml, &sep);
    let ok_tail = chars_at(&v, 19 + ml, &tail);
    let mut ok_digits = true;
    let mut i: usize = 0;
    while i < 14
        invariant
            v@ == n,
            n.len() == ml + 29,
            n.len() <= usize::MAX,
            i <= 14,
            ok_digits == forall|j: int| 0 <= j < i ==> is_ascii_digit(#[trigger] n[5 + ml + j]),
        decreases 14 - i,
    {
        if !is_ascii_digit_char(v[5 + ml + i]) {
            ok_digits = false;
        }
        i = i + 1;
    }
    let ghost ts = n.subrange(5 + ml, 19 + ml);
    let res = ok_head && ok_merchant && ok_sep && ok_tail && ok_digits;
    proof {
        let e = export_file_name(mm, ts);
        if res {
            assert forall|j: int| 0 <= j < 14 implies is_ascii_digit(#[trigger] ts[j]) by {
                assert(ts[j] == n[5 + ml + j]);
            }
            assert(n =~= e) by {
                assert forall|j: int| 0 <= j < n.len() implies n[j] == e[j] by {
                    if j < 4 {
                        assert(n.subrange(0, 4)[j] == head@[j]);
                    } else if j < 4 + ml {
                        assert(n.subrange(4, 4 + ml)[j - 4] == mm[j - 4]);
                    } else if j == 4 + ml {
                        assert(n.subrange(4 + ml, 5 + ml)[0] == sep@[0]);
                    } else if j < 19 + ml {
                    } else {
                        assert(n.subrange(19 + ml, 29 + ml)[j - 19 - ml] == tail@[j - 19 - ml]);
                    }
                }
            }
            assert(is_timestamp(ts));
        }
        if matches_filename_spec(name@, merchant_no@) {
            let t = choose|t: Seq<char>| is_timestamp(t) && name@ == #[trigger] export_file_name(merchant_no@, t);
            let f = export_file_name(mm, t);
            assert(n.subrange(0, 4) =~= head@);
            assert(n.subrange(4, 4 + ml) =~= mm);
            assert(n.subrange(4 + ml, 5 + ml) =~= sep@);
            assert(n.subrange(19 + ml, 29 + ml) =~= tail@);
            assert forall|j: int| 0 <= j < 14 implies is_ascii_digit(#[trigger] n[5 + ml + j]) by {
                assert(f[5 + ml + j] == t[j]);
            }
        }
    }
    res
}


/// The names among `names` that follow the naming rule of `merchant_no`, in their order.
pub open spec fn matching_names(names: Seq<Seq<char>>, merchant_no: Seq<char>) -> Seq<Seq<char>>
    decreases names.len(),
{
    if names.len() == 0 {
        Seq::empty()
    } else {
        let rest = matching_names(names.drop_last(), merchant_no);
        if matches_filename_spec(names.last(), merchant_no) {
            rest.push(names.last())
        } else {
            rest
        }
    }
}

/// The one configuration each group has.
pub struct UploadedJob {
    pub group: UploadedGroup,
}

impl UploadedJob {
    /// The job for digital products.
    pub fn digital() -> (job: UploadedJob)
        ensures
            job.group == UploadedGroup::Digital,
    {
        UploadedJob { group: UploadedGroup::Digital }
    }

    /// The job for household appliances and computers.
    pub fn appliance() -> (job: UploadedJob)
        ensures
            job.group == UploadedGroup::Appliance,
    {
        UploadedJob { group: UploadedGroup::Appliance }
    }

    pub fn category(&self) -> (c: Category)
        ensures
            c == (match self.group {
                UploadedGroup::Digital => Category::UploadedDigital,
                UploadedGroup::Appliance => Category::UploadedAppliance,
            }),
    {
        match self.group {
            UploadedGroup::Digital => Category::UploadedDigital,
            UploadedGroup::Appliance => Category::UploadedAppliance,
        }
    }

    pub fn title(&self) -> (t: &'static str)
        ensures
            t@ == (match self.group {
                UploadedGroup::Digital => "数码已上传数据"@,
                UploadedGroup::Appliance => "家电、电脑已上传数据"@,
            }),
    {
        match self.group {
            UploadedGroup::Digital => "数码已上传数据",
            UploadedGroup::Appliance => "家电、电脑已上传数据",
        }
    }

    pub fn output_stem(&self) -> (t: &'static str)
        ensures
            t@ == (match self.group {
                UploadedGroup::Digital => "已上传数码"@,
                UploadedGroup::Appliance => "已上传家电电脑"@,
            }),
    {
        match self.group {
            UploadedGroup::Digital => "已上传数码",
            UploadedGroup::Appliance => "已上传家电电脑",
        }
    }

    /// The merchant number in the group's file names and rows.
    pub fn merchant_no(&self) -> (m: &'static str)
        ensures
            m@ == merchant_no_of(self.group),
    {
        match self.group {
            UploadedGroup::Digital => "89813014812B06R",
            UploadedGroup::Appliance => "89813015722APT1",
        }
    }

    /// Whether the group's rows carry the two IMEI fields.
    pub fn include_imei(&self) -> (b: bool)
        ensures
            b == (self.group == UploadedGroup::Digital),
    {
        match self.group {
            UploadedGroup::Digital => true,
            UploadedGroup::Appliance => false,
        }
    }

    /// The fields that row 2 must name, in output order.
    pub fn fields(&self) -> (res: Vec<&'static str>)
        ensures
            res@.map_values(|f: &str| f@) == fields_of(self.group),
    {
        let mut v = vec![
            "实时清分UUID",
            "商户号",
            "订单号",
            "交易日期",
            "交易金额",
            "检索参考号",
            "状态",
            "描述",
            "提交时间",
            "更新时间",
            "终端号",
            "发票号码",
            "购买方名称",
            "S/N码"
        ];
        assert(v@.map_values(|f: &str| f@) =~= common_fields());
        if self.include_imei() {
            let ghost before = v@;
            v.push("IMEI1");
            v.push("IMEI2");
            assert(v@.map_values(|f: &str| f@) =~= common_fields() + seq!["IMEI1"@, "IMEI2"@]);
        }
        v
    }

    /// The group's files among the file names of the input folder, in the order they are
    /// processed: those that follow the naming rule, sorted by name.
    pub fn select_files(&self, names: &Vec<String>) -> (res: Vec<String>)
        ensures
            views(res@).to_multiset() == matching_names(views(names@), merchant_no_of(self.group)).to_multiset(),
            lex_sorted(views(res@)),
    {
        let merchant = self.merchant_no();
        let mut chosen: Vec<String> = Vec::new();
        let mut i: usize = 0;
        assert(views(chosen@) =~= matching_names(views(names@).take(0), merchant@));
        while i < names.len()
            invariant
                merchant@ == merchant_no_of(self.group),
                i <= names@.len(),
                views(chosen@) == matching_names(views(names@).take(i as int), merchant@),
            decreases names@.len() - i,
        {
            let ghost before = views(chosen@);
            if matches_filename(names[i].as_str(), merchant) {
                chosen.push(names[i].clone());
            }
            proof {
                let pre = views(names@).take(i + 1);
                assert(pre.drop_last() =~= views(names@).take(i as int));
                assert(pre.last() == names@[i as int]@);
                assert(views(chosen@) =~= matching_names(pre, merchant@));
            }
            i = i + 1;
        }
        assert(views(names@).take(i as int) =~= views(names@));
        sort_texts(&chosen)
    }
}

/// The positions (from 0) at which `f` stands in `header`, in order.
pub open spec fn positions_of(header: Seq<Seq<char>>, f: Seq<char>) -> Seq<int>
    decreases header.len(),
{
    if header.len() == 0 {
        Seq::empty()
    } else {
        let rest = positions_of(header.drop_last(), f);
        if header.last() == f {
            rest.push(header.len() - 1)
        } else {
            rest
        }
    }
}

pub open spec fn missing_field_message(f: Seq<char>) -> Seq<char> {
    "缺少必需字段："@ + f
}

pub open spec fn ambiguous_field_message(f: Seq<char>, n: int) -> Seq<char> {
    "字段“"@ + f + "”无法唯一识别（第2行出现"@ + int_text(n) + "次）"@
}

/// The absolute column (from 1) of each field, found by its name in the header texts of a data
/// range whose first column is `first_col` (from 0); or the detail of the first field that the
/// header does not name, or names more than once.
pub open spec fn resolve_spec(header: Seq<Seq<char>>, first_col: int, fields: Seq<Seq<char>>) -> Result<
    Seq<u32>,
    Seq<char>,
>
    decreases fields.len(),
{
    if fields.len() == 0 {
        Ok(Seq::empty())
    } else {
        match resolve_spec(header, first_col, fields.drop_last()) {
            Err(d) => Err(d),
            Ok(cols) => {
                let f = fields.last();
                let ps = positions_of(header, f);
                if ps.len() == 0 {
                    Err(missing_field_message(f))
                } else if ps.len() == 1 {
                    Ok(cols.push((first_col + ps[0] + 1) as u32))
                } else {
                    Err(ambiguous_field_message(f, ps.len() as int))
                }
            },
        }
    }
}

pub(crate) proof fn lemma_positions_bounded(header: Seq<Seq<char>>, f: Seq<char>)
    ensures
        positions_of(header, f).len() <= header.len(),
        forall|k: int| 0 <= k < positions_of(header, f).len() ==> 0 <= #[trigger] positions_of(header, f)[k] < header.len()
            && header[positions_of(header, f)[k]] == f,
    decreases header.len(),
{
    if header.len() > 0 {
        lemma_positions_bounded(header.drop_last(), f);
    }
}

/// Maps each required field to its absolute column by the header's names in row 2: the cell in
/// row 2 of each column found reads as its field.
pub fn resolve_columns(sheet: &SheetGrid, fields: &Vec<&'static str>) -> (res: Result<Vec<u32>, String>)
    ensures
        match res {
            Ok(cols) => resolve_spec(
                sheet.row_texts_spec(2),
                sheet.first_col_spec(),
                fields@.map_values(|f: &str| f@),
            ) == Ok::<Seq<u32>, Seq<char>>(cols@),
            Err(d) => resolve_spec(
                sheet.row_texts_spec(2),
                sheet.first_col_spec(),
                fields@.map_values(|f: &str| f@),
            ) == Err::<Seq<u32>, Seq<char>>(d@),
        },
        res matches Ok(cols) ==> cols@.len() == fields@.len() && forall|k: int|
            0 <= k < cols@.len() ==> header_text(sheet.cell_spec(2, #[trigger] cols@[k] as int))
                == fields@[k]@,
{
    let first = sheet.first_col();
    let header = sheet.row_texts(2);
    let ghost h = views(header@);
    let ghost fs = fields@.map_values(|f: &str| f@);
    assert(h == sheet.row_texts_spec(2));
    let mut cols: Vec<u32> = Vec::new();
    let mut i: usize = 0;
    assert(fs.take(0) =~= Seq::<Seq<char>>::empty());
    while i < fields.len()
        invariant
            h == views(header@),
            h == sheet.row_texts_spec(2),
            h.len() + first < u32::MAX,
            first == sheet.first_col_spec(),
            forall|off: int| 0 <= off < h.len() ==> #[trigger] h[off] == header_text(sheet.cell_spec(2, first + off + 1)),
            fs == fields@.map_values(|f: &str| f@),
            i <= fields@.len(),
            cols@.len() == i,
            forall|k: int| 0 <= k < i ==> header_text(sheet.cell_spec(2, #[trigger] cols@[k] as int)) == fs[k],
            resolve_spec(h, first as int, fs.take(i as int)) == Ok::<Seq<u32>, Seq<char>>(cols@),
        decreases fields@.len() - i,
    {
        let field = fields[i];
        let ghost f = field@;
        let mut count: usize = 0;
        let mut found: usize = 0;
        let mut j: usize = 0;
        while j < header.len()
            invariant
                h == views(header@),
                f == field@,
                j <= header@.len(),
                count <= j,
                count == positions_of(h.take(j as int), f).len(),
                count > 0 ==> found == positions_of(h.take(j as int), f).last(),
            decreases header@.len() - j,
        {
            proof {
                assert(h.take(j + 1).drop_last() =~= h.take(j as int));
                assert(h.take(j + 1).last() == header@[j as int]@);
            }
            if str_eq(header[j].as_str(), field) {
                count = count + 1;
                found = j;
            }
            j = j + 1;
        }
        proof {
            assert(h.take(j as int) =~= h);
            lemma_positions_bounded(h, f);
            assert(fs.take(i + 1).drop_last() =~= fs.take(i as int));
            assert(fs.take(i + 1).last() == f);
        }
        if count == 0 {
            let mut detail = "缺少必需字段：".to_owned();
            detail.append(field);
            proof {
                assert(detail@ == missing_field_message(f));
                assert(resolve_spec(h, first as int, fs.take(i + 1)) == Err::<Seq<u32>, Seq<char>>(detail@));
                lemma_resolve_err_extends(h, first as int, fs, i + 1);
            }
            return Err(detail);
        }
        if count > 1 {
            let mut detail = "字段“".to_owned();
            detail.append(field);
            detail.append("”无法唯一识别（第2行出现");
            detail.append(nat_to_text(count as u64).as_str());
            detail.append("次）");
            proof {
                assert(detail@ == ambiguous_field_message(f, count as int));
                assert(resolve_spec(h, first as int, fs.take(i + 1)) == Err::<Seq<u32>, Seq<char>>(detail@));
                lemma_resolve_err_extends(h, first as int, fs, i + 1);
            }
            return Err(detail);
        }
        let col = first + found as u32 + 1;
        proof {
            assert(h[found as int] == f);
            assert(fields@[i as int]@ == fs[i as int]);
        }
        cols.push(col);
        i = i + 1;
    }
    assert(fs.take(i as int) =~= fs);
    Ok(cols)
}

/// Once a field fails, resolving more fields fails with the same detail.
proof fn lemma_resolve_err_extends(header: Seq<Seq<char>>, first_col: int, fields: Seq<Seq<char>>, k: int)
    requires
        0 <= k <= fields.len(),
        resolve_spec(header, first_col, fields.take(k)) is Err,
    ensures
        resolve_spec(header, first_col, fields) == resolve_spec(header, first_col, fields.take(k)),
    decreases fields.len() - k,
{
    if k < fields.len() {
        assert(fields.take(k + 1).drop_last() =~= fields.take(k));
        lemma_resolve_err_extends(header, first_col, fields, k + 1);
    } else {
        assert(fields.take(k) =~= fields);
    }
}


/// How a field's cell is read.
#[derive(Clone, Copy, Debug, PartialEq, Eq)]
pub enum FieldKind {
    /// Text, kept as it is.
    Text,
    /// A trade date; what cannot be read as a date is kept as text.
    Date,
    /// A time stamp to the second; what cannot be read is kept as text.
    DateTime,
    /// A decimal amount.
    Amount,
}

/// The kind of the field at position `i` of the output: the trade date, the amount, the submit
/// and update times; every other field is text.
pub open spec fn field_kind(i: int) -> FieldKind {
    if i == 3 {
        FieldKind::Date
    } else if i == 4 {
        FieldKind::Amount
    } else if i == 8 || i == 9 {
        FieldKind::DateTime
    } else {
        FieldKind::Text
    }
}

fn field_kind_at(i: usize) -> (k: FieldKind)
    ensures
        k == field_kind(i as int),
{
    if i == 3 {
        FieldKind::Date
    } else if i == 4 {
        FieldKind::Amount
    } else if i == 8 || i == 9 {
        FieldKind::DateTime
    } else {
        FieldKind::Text
    }
}

/// The value of one field of a row, or the data error for it.
pub open spec fn field_value_spec(
    sheet: SheetGrid,
    row: u32,
    col: u32,
    kind: FieldKind,
    field: Seq<char>,
    file: Seq<char>,
    sheet_name: Seq<char>,
) -> Result<ValueView, ErrorView> {
    let c = sheet.cell_spec(row as int, col as int);
    match kind {
        FieldKind::Text => match cell_text_seq(c) {
            Ok(t) => Ok(text_value_view(t)),
            Err(d) => Err(data_error_view(file, sheet_name, row, field, cell_display_seq(c), d)),
        },
        FieldKind::Date => Ok(date_or_text_view(c)),
        FieldKind::DateTime => Ok(datetime_or_text_view(c)),
        FieldKind::Amount => match cell_amount_seq(c) {
            Ok(v) => Ok(
                match v {
                    Some(d) => ValueView::Decimal(d),
                    None => ValueView::Empty,
                },
            ),
            Err(d) => Err(data_error_view(file, sheet_name, row, field, cell_display_seq(c), d)),
        },
    }
}

/// Reads one field of a row.
pub fn read_field(
    sheet: &SheetGrid,
    row: u32,
    col: u32,
    kind: FieldKind,
    field: &str,
    file: &str,
    sheet_name: &str,
) -> (res: Result<Value, ProcessError>)
    ensures
        result_view(res) == field_value_spec(*sheet, row, col, kind, field@, file@, sheet_name@),
{
    match kind {
        FieldKind::Text => match text_at(sheet, row, col, field, file, sheet_name) {
            Ok(t) => Ok(text_value(t)),
            Err(e) => Err(e),
        },
        FieldKind::Date => Ok(cell_date_or_text(&sheet.cell(row, col))),
        FieldKind::DateTime => Ok(cell_datetime_or_text(&sheet.cell(row, col))),
        FieldKind::Amount => {
            let cell = sheet.cell(row, col);
            match cell_amount(&cell) {
                Ok(v) => Ok(amount_value(v)),
                Err(detail) => Err(data_error(file, sheet_name, row, field, cell_display(&cell), detail)),
            }
        },
    }
}

/// The values of the first `n` fields of a row, in order, or the error of the first field
/// that cannot be read.
pub open spec fn values_spec(
    sheet: SheetGrid,
    row: u32,
    cols: Seq<u32>,
    fields: Seq<Seq<char>>,
    file: Seq<char>,
    sheet_name: Seq<char>,
    n: nat,
) -> Result<Seq<ValueView>, ErrorView>
    decreases n,
{
    if n == 0 {
        Ok(Seq::empty())
    } else {
        match values_spec(sheet, row, cols, fields, file, sheet_name, (n - 1) as nat) {
            Err(e) => Err(e),
            Ok(vs) => match field_value_spec(
                sheet,
                row,
                cols[n - 1],
                field_kind(n - 1),
                fields[n - 1],
                file,
                sheet_name,
            ) {
                Err(e) => Err(e),
                Ok(v) => Ok(vs.push(v)),
            },
        }
    }
}

proof fn lemma_values_err_extends(
    sheet: SheetGrid,
    row: u32,
    cols: Seq<u32>,
    fields: Seq<Seq<char>>,
    file: Seq<char>,
    sheet_name: Seq<char>,
    n: nat,
    more: nat,
)
    requires
        values_spec(sheet, row, cols, fields, file, sheet_name, n) is Err,
        n <= more,
    ensures
        values_spec(sheet, row, cols, fields, file, sheet_name, more) == values_spec(
            sheet,
            row,
            cols,
            fields,
            file,
            sheet_name,
            n,
        ),
    decreases more - n,
{
    if n < more {
        lemma_values_err_extends(sheet, row, cols, fields, file, sheet_name, n, (more - 1) as nat);
    }
}

pub open spec fn merchant_mismatch_message(merchant_no: Seq<char>) -> Seq<char> {
    "与文件名商户号“"@ + merchant_no + "”不一致"@
}

/// One row of a sheet: its merchant number must be the group's; then each field is read in
/// order, the first that fails giving the error.
pub open spec fn row_spec(
    group: UploadedGroup,
    sheet: SheetGrid,
    row: u32,
    cols: Seq<u32>,
    file: Seq<char>,
    sheet_name: Seq<char>,
) -> Result<RowView, ErrorView> {
    match text_field_spec(sheet, row, cols[1], "商户号"@, file, sheet_name) {
        Err(e) => Err(e),
        Ok(m) => if m != merchant_no_of(group) {
            Err(
                data_error_view(
                    file,
                    sheet_name,
                    row,
                    "商户号"@,
                    m,
                    merchant_mismatch_message(merchant_no_of(group)),
                ),
            )
        } else {
            match values_spec(sheet, row, cols, fields_of(group), file, sheet_name, fields_of(group).len()) {
                Err(e) => Err(e),
                Ok(vs) => Ok(RowView { values: vs, fill: None }),
            }
        },
    }
}

pub proof fn lemma_fields_len(group: UploadedGroup)
    ensures
        fields_of(group).len() == (match group {
            UploadedGroup::Digital => 16int,
            UploadedGroup::Appliance => 14int,
        }),
        fields_of(group)[1] == "商户号"@,
{
}

impl UploadedJob {
    /// Reads one row of a sheet whose fields stand in the columns `cols`.
    pub fn read_row(
        &self,
        sheet: &SheetGrid,
        row: u32,
        cols: &Vec<u32>,
        file: &str,
        sheet_name: &str,
    ) -> (res: Result<Row, ProcessError>)
        requires
            cols@.len() == fields_of(self.group).len(),
        ensures
            result_view(res) == row_spec(self.group, *sheet, row, cols@, file@, sheet_name@),
    {
        proof {
            lemma_fields_len(self.group);
        }
        let merchant = match text_at(sheet, row, cols[1], "商户号", file, sheet_name) {
            Ok(m) => m,
            Err(e) => return Err(e),
        };
        let expected = self.merchant_no();
        if !str_eq(merchant.as_str(), expected) {
            let mut detail = "与文件名商户号“".to_owned();
            detail.append(expected);
            detail.append("”不一致");
            return Err(data_error(file, sheet_name, row, "商户号", merchant, detail));
        }
        let fields = self.fields();
        let ghost fs = fields_of(self.group);
        let mut values: Vec<Value> = Vec::new();
        let mut i: usize = 0;
        assert(values@.map_values(|v: Value| v@) =~= Seq::<ValueView>::empty());
        while i < fields.len()
            invariant
                fs == fields_of(self.group),
                fields@.map_values(|f: &str| f@) == fs,
                cols@.len() == fs.len(),
                text_field_spec(*sheet, row, cols@[1], "商户号"@, file@, sheet_name@) == Ok::<
                    Seq<char>,
                    ErrorView,
                >(merchant_no_of(self.group)),
                i <= fs.len(),
                values_spec(*sheet, row, cols@, fs, file@, sheet_name@, i as nat) == Ok::<
                    Seq<ValueView>,
                    ErrorView,
                >(values@.map_values(|v: Value| v@)),
            decreases fs.len() - i,
        {
            assert(fields@[i as int]@ == fs[i as int]);
            match read_field(sheet, row, cols[i], field_kind_at(i), fields[i], file, sheet_name) {
                Ok(v) => {
                    let ghost before = values@;
                    values.push(v);
                    assert(values@.map_values(|v: Value| v@) =~= before.map_values(|v: Value| v@).push(v@));
                },
                Err(e) => {
                    proof {
                        lemma_values_err_extends(*sheet, row, cols@, fs, file@, sheet_name@, (i + 1) as nat, fs.len());
                    }
                    return Err(e);
                },
            }
            i = i + 1;
        }
        Ok(Row { values, fill: None })
    }

    /// The output columns of the group.
    pub fn output_columns(&self) -> (res: Vec<Column>)
        ensures
            columns_view(res@) == uploaded_columns(self.group),
    {
        let mut v = vec![
            Column { name: "实时清分UUID", ty: ColumnType::Text },
            Column { name: "商户号", ty: ColumnType::Text },
            Column { name: "订单号", ty: ColumnType::Text },
            Column { name: "交易日期", ty: ColumnType::Date },
            Column { name: "交易金额", ty: ColumnType::Decimal(DecimalScale::Original) },
            Column { name: "检索参考号", ty: ColumnType::Text },
            Column { name: "状态", ty: ColumnType::Text },
            Column { name: "描述", ty: ColumnType::Text },
            Column { name: "提交时间", ty: ColumnType::DateTime },
            Column { name: "更新时间", ty: ColumnType::DateTime },
            Column { name: "终端号", ty: ColumnType::Text },
            Column { name: "发票号码", ty: ColumnType::Text },
            Column { name: "购买方名称", ty: ColumnType::Text },
            Column { name: "S/N码", ty: ColumnType::Text },
        ];
        assert(columns_view(v@) =~= common_columns());
        if self.include_imei() {
            v.push(Column { name: "IMEI1", ty: ColumnType::Text });
            v.push(Column { name: "IMEI2", ty: ColumnType::Text });
            assert(columns_view(v@) =~= uploaded_columns(self.group));
        }
        v
    }
}

/// The fourteen common output columns.
pub open spec fn common_columns() -> Seq<(Seq<char>, ColumnType)> {
    seq![
        ("实时清分UUID"@, ColumnType::Text),
        ("商户号"@, ColumnType::Text),
        ("订单号"@, ColumnType::Text),
        ("交易日期"@, ColumnType::Date),
        ("交易金额"@, ColumnType::Decimal(DecimalScale::Original)),
        ("检索参考号"@, ColumnType::Text),
        ("状态"@, ColumnType::Text),
        ("描述"@, ColumnType::Text),
        ("提交时间"@, ColumnType::DateTime),
        ("更新时间"@, ColumnType::DateTime),
        ("终端号"@, ColumnType::Text),
        ("发票号码"@, ColumnType::Text),
        ("购买方名称"@, ColumnType::Text),
        ("S/N码"@, ColumnType::Text),
    ]
}

/// The output columns of a group: the common ones, and for digital products the two IMEIs.
pub open spec fn uploaded_columns(group: UploadedGroup) -> Seq<(Seq<char>, ColumnType)> {
    match group {
        UploadedGroup::Digital => common_columns() + seq![("IMEI1"@, ColumnType::Text), ("IMEI2"@, ColumnType::Text)],
        UploadedGroup::Appliance => common_columns(),
    }
}


/// The parts joined into one text, `sep` between each two.
pub open spec fn join(parts: Seq<Seq<char>>, sep: char) -> Seq<char>
    decreases parts.len(),
{
    if parts.len() == 0 {
        Seq::empty()
    } else if parts.len() == 1 {
        parts[0]
    } else {
        join(parts.drop_last(), sep).push(sep) + parts.last()
    }
}

/// Appends the texts of `parts`, joined by `sep`, to `out`.
fn push_joined(parts: &Vec<String>, sep: char, out: &mut Vec<char>)
    ensures
        final(out)@ == old(out)@ + join(views(parts@), sep),
{
    let ghost start = out@;
    let ghost ps = views(parts@);
    let mut i: usize = 0;
    assert(start + join(ps.take(0), sep) =~= start);
    while i < parts.len()
        invariant
            ps == views(parts@),
            i <= parts@.len(),
            out@ == start + join(ps.take(i as int), sep),
        decreases parts@.len() - i,
    {
        let ghost joined = join(ps.take(i as int), sep);
        assert(ps.take(i + 1).drop_last() =~= ps.take(i as int));
        assert(ps.take(i + 1).last() == parts@[i as int]@);
        if i > 0 {
            out.push(sep);
        }
        let chars = chars_of(parts[i].as_str());
        let mut k: usize = 0;
        let ghost mid = out@;
        while k < chars.len()
            invariant
                k <= chars@.len(),
                out@ == mid + chars@.take(k as int),
            decreases chars@.len() - k,
        {
            out.push(chars[k]);
            k = k + 1;
            assert(out@ =~= mid + chars@.take(k as int));
        }
        proof {
            assert(chars@.take(k as int) =~= chars@);
            if i == 0 {
                assert(ps.take(1).len() == 1);
                assert(out@ =~= start + join(ps.take(1), sep));
            } else {
                assert(out@ =~= start + join(ps.take(i + 1), sep));
            }
        }
        i = i + 1;
    }
    assert(ps.take(i as int) =~= ps);
}

/// The number of data rows of a sheet: rows 3 up to the last row with a value.
pub open spec fn upload_row_count(last: u32) -> nat {
    if last >= 3 {
        (last - 2) as nat
    } else {
        0
    }
}

/// A sheet's content fingerprint: the texts of row 1 (the title), row 2 (the header) and
/// every data row, each row joined by U+0001 and the rows by U+0002. Two exports with the same
/// fingerprint hold the same sheet.
pub open spec fn fingerprint_spec(sheet: SheetGrid, last: u32) -> Seq<char> {
    join(
        Seq::new(2 + upload_row_count(last), |k: int| join(sheet.row_texts_spec(k + 1), '\u{1}')),
        '\u{2}',
    )
}

/// Computes the content fingerprint of a sheet whose last row with a value is `last_row`.
pub fn sheet_fingerprint(sheet: &SheetGrid, last_row: u32) -> (res: String)
    ensures
        res@ == fingerprint_spec(*sheet, last_row),
{
    let total: u64 = if last_row >= 3 {
        last_row as u64
    } else {
        2
    };
    let ghost rows = Seq::new(
        2 + upload_row_count(last_row),
        |k: int| join(sheet.row_texts_spec(k + 1), '\u{1}'),
    );
    let mut out: Vec<char> = Vec::new();
    let mut k: u64 = 0;
    assert(out@ =~= join(rows.take(0), '\u{2}'));
    while k < total
        invariant
            total == 2 + upload_row_count(last_row),
            total <= u32::MAX,
            rows == Seq::new(
                2 + upload_row_count(last_row),
                |k: int| join(sheet.row_texts_spec(k + 1), '\u{1}'),
            ),
            k <= total,
            out@ == join(rows.take(k as int), '\u{2}'),
        decreases total - k,
    {
        let ghost before = out@;
        assert(rows.take(k + 1).drop_last() =~= rows.take(k as int));
        if k > 0 {
            out.push('\u{2}');
        }
        let texts = sheet.row_texts((k + 1) as u32);
        push_joined(&texts, '\u{1}', &mut out);
        proof {
            assert(rows.take(k + 1).last() == join(views(texts@), '\u{1}'));
            if k == 0 {
                assert(out@ =~= join(rows.take(k + 1), '\u{2}'));
            } else {
                assert(out@ =~= join(rows.take(k + 1), '\u{2}'));
            }
        }
        k = k + 1;
    }
    assert(rows.take(k as int) =~= rows);
    string_from_chars(out)
}


/// A value read from every row has as many values as the group has fields.
proof fn lemma_values_len(
    sheet: SheetGrid,
    row: u32,
    cols: Seq<u32>,
    fields: Seq<Seq<char>>,
    file: Seq<char>,
    sheet_name: Seq<char>,
    n: nat,
)
    requires
        values_spec(sheet, row, cols, fields, file, sheet_name, n) is Ok,
    ensures
        values_spec(sheet, row, cols, fields, file, sheet_name, n)->Ok_0.len() == n,
    decreases n,
{
    if n > 0 {
        lemma_values_len(sheet, row, cols, fields, file, sheet_name, (n - 1) as nat);
    }
}

/// Resolved columns stand one for each field.
pub(crate) proof fn lemma_resolve_len(header: Seq<Seq<char>>, first_col: int, fields: Seq<Seq<char>>)
    requires
        resolve_spec(header, first_col, fields) is Ok,
    ensures
        resolve_spec(header, first_col, fields)->Ok_0.len() == fields.len(),
    decreases fields.len(),
{
    if fields.len() > 0 {
        lemma_resolve_len(header, first_col, fields.drop_last());
    }
}

/// A source file of the group: its name and its sheets, or the error met reading it.
pub struct SourceFile {
    pub name: String,
    pub sheets: Result<Vec<SheetGrid>, ProcessError>,
}

/// What processing has gathered so far: the output rows, the fingerprint of each sheet seen
/// with the file it first came from, and the UUIDs seen.
pub struct UploadState {
    pub rows: Seq<RowView>,
    pub prints: Map<Seq<char>, Seq<char>>,
    pub seen: Set<Seq<char>>,
}

pub open spec fn initial_state() -> UploadState {
    UploadState { rows: Seq::empty(), prints: Map::empty(), seen: Set::empty() }
}

pub open spec fn uuid_duplicate_message(uuid: Seq<char>) -> Seq<char> {
    "实时清分UUID重复："@ + uuid
}

pub open spec fn sheet_duplicate_message(file: Seq<char>, previous: Seq<char>) -> Seq<char> {
    file + " 与 "@ + previous + " 的工作表内容完全相同，疑似重复导出"@
}

/// One data row: it is read, and a UUID seen before stops the processing.
pub open spec fn row_step(
    st: UploadState,
    group: UploadedGroup,
    sheet: SheetGrid,
    row: u32,
    cols: Seq<u32>,
    file: Seq<char>,
    sheet_name: Seq<char>,
) -> Result<UploadState, ErrorView> {
    match row_spec(group, sheet, row, cols, file, sheet_name) {
        Err(e) => Err(e),
        Ok(r) => match r.values[0] {
            ValueView::Text(uuid) => if st.seen.contains(uuid) {
                Err(ErrorView::Duplicate { detail: uuid_duplicate_message(uuid) })
            } else {
                Ok(UploadState { rows: st.rows.push(r), prints: st.prints, seen: st.seen.insert(uuid) })
            },
            _ => Ok(UploadState { rows: st.rows.push(r), prints: st.prints, seen: st.seen }),
        },
    }
}

/// The first `count` data rows of a sheet, from row 3 on.
pub open spec fn rows_step(
    st: UploadState,
    group: UploadedGroup,
    sheet: SheetGrid,
    cols: Seq<u32>,
    file: Seq<char>,
    sheet_name: Seq<char>,
    count: nat,
) -> Result<UploadState, ErrorView>
    decreases count,
{
    if count == 0 {
        Ok(st)
    } else {
        match rows_step(st, group, sheet, cols, file, sheet_name, (count - 1) as nat) {
            Err(e) => Err(e),
            Ok(s) => row_step(s, group, sheet, (3 + count - 1) as u32, cols, file, sheet_name),
        }
    }
}

/// One sheet of `file`: its fields are found by name, a sheet that another file already held
/// in full is a duplicate export, and then its data rows are read.
pub open spec fn sheet_step(st: UploadState, group: UploadedGroup, sheet: SheetGrid, file: Seq<char>) -> Result<
    UploadState,
    ErrorView,
> {
    let name = sheet.name_spec();
    match resolve_spec(sheet.row_texts_spec(2), sheet.first_col_spec(), fields_of(group)) {
        Err(d) => Err(structure_error_view(file, name, d)),
        Ok(cols) => {
            let last = total_row_spec(sheet);
            let fp = fingerprint_spec(sheet, last);
            if st.prints.contains_key(fp) && st.prints[fp] != file {
                Err(ErrorView::Duplicate { detail: sheet_duplicate_message(file, st.prints[fp]) })
            } else {
                let next = if st.prints.contains_key(fp) {
                    st
                } else {
                    UploadState { rows: st.rows, prints: st.prints.insert(fp, file), seen: st.seen }
                };
                rows_step(next, group, sheet, cols, file, name, upload_row_count(last))
            }
        },
    }
}

/// The first `n` sheets of `file`.
pub open spec fn sheets_step(
    st: UploadState,
    group: UploadedGroup,
    sheets: Seq<SheetGrid>,
    file: Seq<char>,
    n: nat,
) -> Result<UploadState, ErrorView>
    decreases n,
{
    if n == 0 {
        Ok(st)
    } else {
        match sheets_step(st, group, sheets, file, (n - 1) as nat) {
            Err(e) => Err(e),
            Ok(s) => sheet_step(s, group, sheets[n - 1], file),
        }
    }
}

/// The first `n` source files, in order.
pub open spec fn files_step(st: UploadState, group: UploadedGroup, files: Seq<SourceFile>, n: nat) -> Result<
    UploadState,
    ErrorView,
>
    decreases n,
{
    if n == 0 {
        Ok(st)
    } else {
        match files_step(st, group, files, (n - 1) as nat) {
            Err(e) => Err(e),
            Ok(s) => match files[n - 1].sheets {
                Err(e) => Err(e@),
                Ok(v) => sheets_step(s, group, v@, files[n - 1].name@, v@.len()),
            },
        }
    }
}

pub open spec fn no_input_pattern(group: UploadedGroup) -> Seq<char> {
    "MER_"@ + merchant_no_of(group) + "_yyyymmddhhmmss_yjhx.xlsx"@
}

/// What processing the group's source files gives: with no file, that no input was found;
/// otherwise every sheet of every file in turn, and the rows gathered.
pub open spec fn uploaded_rows_spec(group: UploadedGroup, files: Seq<SourceFile>) -> Result<
    Seq<RowView>,
    ErrorView,
> {
    if files.len() == 0 {
        Err(ErrorView::NoInput { pattern: no_input_pattern(group) })
    } else {
        match files_step(initial_state(), group, files, files.len()) {
            Err(e) => Err(e),
            Ok(s) => Ok(s.rows),
        }
    }
}

proof fn lemma_rows_err_extends(
    st: UploadState,
    group: UploadedGroup,
    sheet: SheetGrid,
    cols: Seq<u32>,
    file: Seq<char>,
    sheet_name: Seq<char>,
    count: nat,
    more: nat,
)
    requires
        rows_step(st, group, sheet, cols, file, sheet_name, count) is Err,
        count <= more,
    ensures
        rows_step(st, group, sheet, cols, file, sheet_name, more) == rows_step(
            st,
            group,
            sheet,
            cols,
            file,
            sheet_name,
            count,
        ),
    decreases more - count,
{
    if count < more {
        lemma_rows_err_extends(st, group, sheet, cols, file, sheet_name, count, (more - 1) as nat);
    }
}

proof fn lemma_sheets_err_extends(
    st: UploadState,
    group: UploadedGroup,
    sheets: Seq<SheetGrid>,
    file: Seq<char>,
    n: nat,
    more: nat,
)
    requires
        sheets_step(st, group, sheets, file, n) is Err,
        n <= more,
    ensures
        sheets_step(st, group, sheets, file, more) == sheets_step(st, group, sheets, file, n),
    decreases more - n,
{
    if n < more {
        lemma_sheets_err_extends(st, group, sheets, file, n, (more - 1) as nat);
    }
}

proof fn lemma_files_err_extends(
    st: UploadState,
    group: UploadedGroup,
    files: Seq<SourceFile>,
    n: nat,
    more: nat,
)
    requires
        files_step(st, group, files, n) is Err,
        n <= more,
    ensures
        files_step(st, group, files, more) == files_step(st, group, files, n),
    decreases more - n,
{
    if n < more {
        lemma_files_err_extends(st, group, files, n, (more - 1) as nat);
    }
}

/// The state of a run over the source files.
struct UploadRun {
    rows: Vec<Row>,
    prints: StringHashMap<String>,
    seen: StringHashSet,
}

impl View for UploadRun {
    type V = UploadState;

    closed spec fn view(&self) -> UploadState {
        UploadState {
            rows: self.rows@.map_values(|r: Row| r@),
            prints: self.prints@.map_values(|f: String| f@),
            seen: self.seen@,
        }
    }
}

impl UploadedJob {
    /// One data row: reads it, refuses a UUID seen before, and adds the row.
    fn process_row(
        &self,
        run: &mut UploadRun,
        sheet: &SheetGrid,
        row: u32,
        cols: &Vec<u32>,
        file: &str,
        sheet_name: &str,
    ) -> (res: Result<(), ProcessError>)
        requires
            cols@.len() == fields_of(self.group).len(),
        ensures
            match res {
                Ok(_) => row_step(old(run)@, self.group, *sheet, row, cols@, file@, sheet_name@)
                    == Ok::<UploadState, ErrorView>(final(run)@),
                Err(e) => row_step(old(run)@, self.group, *sheet, row, cols@, file@, sheet_name@)
                    == Err::<UploadState, ErrorView>(e@),
            },
    {
        let r = match self.read_row(sheet, row, cols, file, sheet_name) {
            Ok(r) => r,
            Err(e) => return Err(e),
        };
        proof {
            let fs = fields_of(self.group);
            lemma_fields_len(self.group);
            lemma_values_len(*sheet, row, cols@, fs, file@, sheet_name@, fs.len());
        }
        let ghost rows_before = run.rows@;
        match &r.values[0] {
            Value::Text(uuid) => {
                if run.seen.contains(uuid.as_str()) {
                    let mut detail = "实时清分UUID重复：".to_owned();
                    detail.append(uuid.as_str());
                    return Err(ProcessError::Duplicate { detail });
                }
                run.seen.insert(uuid.clone());
            },
            _ => {},
        }
        run.rows.push(r);
        assert(run.rows@.map_values(|x: Row| x@) =~= rows_before.map_values(|x: Row| x@).push(r@));
        Ok(())
    }

    /// One sheet of `file`.
    fn process_sheet(
        &self,
        run: &mut UploadRun,
        sheet: &SheetGrid,
        file: &str,
        fields: &Vec<&'static str>,
    ) -> (res: Result<(), ProcessError>)
        requires
            fields@.map_values(|f: &str| f@) == fields_of(self.group),
        ensures
            match res {
                Ok(_) => sheet_step(old(run)@, self.group, *sheet, file@) == Ok::<UploadState, ErrorView>(
                    final(run)@,
                ),
                Err(e) => sheet_step(old(run)@, self.group, *sheet, file@) == Err::<UploadState, ErrorView>(
                    e@,
                ),
            },
    {
        let sheet_name = sheet.name();
        let cols = match resolve_columns(sheet, fields) {
            Ok(c) => c,
            Err(detail) => {
                return Err(
                    ProcessError::Structure {
                        file: file.to_owned(),
                        sheet: sheet_name.to_owned(),
                        detail,
                    },
                );
            },
        };
        proof {
            lemma_resolve_len(sheet.row_texts_spec(2), sheet.first_col_spec(), fields_of(self.group));
        }
        let last_row = match sheet.last_value_row() {
            Some(r) => r,
            None => 2,
        };
        let fingerprint = sheet_fingerprint(sheet, last_row);
        let ghost start = run@;
        match run.prints.get(fingerprint.as_str()) {
            Some(previous) => {
                if !str_eq(previous.as_str(), file) {
                    let mut detail = file.to_owned();
                    detail.append(" 与 ");
                    detail.append(previous.as_str());
                    detail.append(" 的工作表内容完全相同，疑似重复导出");
                    return Err(ProcessError::Duplicate { detail });
                }
            },
            None => {
                run.prints.insert(fingerprint, file.to_owned());
                assert(run@.prints =~= start.prints.insert(fingerprint_spec(*sheet, last_row), file@));
            },
        }
        let ghost next = run@;
        let ghost count = upload_row_count(last_row);
        let mut row: u64 = 3;
        assert(rows_step(next, self.group, *sheet, cols@, file@, sheet_name@, 0) == Ok::<UploadState, ErrorView>(run@));
        assert(sheet_step(start, self.group, *sheet, file@) == rows_step(
            next,
            self.group,
            *sheet,
            cols@,
            file@,
            sheet_name@,
            count,
        ));
        while row <= last_row as u64
            invariant
                start == old(run)@,
                sheet_step(start, self.group, *sheet, file@) == rows_step(
                    next,
                    self.group,
                    *sheet,
                    cols@,
                    file@,
                    sheet_name@,
                    count,
                ),
                3 <= row,
                row <= last_row + 1 || row == 3,
                count == upload_row_count(last_row),
                cols@.len() == fields_of(self.group).len(),
                rows_step(next, self.group, *sheet, cols@, file@, sheet_name@, (row - 3) as nat) == Ok::<
                    UploadState,
                    ErrorView,
                >(run@),
            decreases last_row + 1 - row,
        {
            match self.process_row(run, sheet, row as u32, &cols, file, sheet_name) {
                Ok(_) => {},
                Err(e) => {
                    proof {
                        lemma_rows_err_extends(
                            next,
                            self.group,
                            *sheet,
                            cols@,
                            file@,
                            sheet_name@,
                            (row - 2) as nat,
                            count,
                        );
                    }
                    return Err(e);
                },
            }
            row = row + 1;
        }
        Ok(())
    }

    /// Processes the group's source files, in the order given, into the output table.
    pub fn process(&self, files: &Vec<SourceFile>) -> (res: Result<Table, ProcessError>)
        ensures
            match res {
                Ok(t) => uploaded_rows_spec(self.group, files@) == Ok::<Seq<RowView>, ErrorView>(t@.rows)
                    && columns_view(t.columns@) == uploaded_columns(self.group),
                Err(e) => uploaded_rows_spec(self.group, files@) == Err::<Seq<RowView>, ErrorView>(e@),
            },
    {
        if files.len() == 0 {
            let mut pattern = "MER_".to_owned();
            pattern.append(self.merchant_no());
            pattern.append("_yyyymmddhhmmss_yjhx.xlsx");
            return Err(ProcessError::NoInput { pattern });
        }
        let fields = self.fields();
        let mut run = UploadRun { rows: Vec::new(), prints: StringHashMap::new(), seen: StringHashSet::new() };
        assert(run@.rows =~= Seq::<RowView>::empty());
        assert(run@.prints =~= Map::<Seq<char>, Seq<char>>::empty());
        let n = files.len();
        let mut i: usize = 0;
        while i < n
            invariant
                n == files@.len(),
                i <= n,
                fields@.map_values(|f: &str| f@) == fields_of(self.group),
                files_step(initial_state(), self.group, files@, i as nat) == Ok::<UploadState, ErrorView>(run@),
            decreases n - i,
        {
            let file = &files[i];
            match &file.sheets {
                Err(e) => {
                    proof {
                        lemma_files_err_extends(initial_state(), self.group, files@, (i + 1) as nat, n as nat);
                    }
                    return Err(e.copied());
                },
                Ok(sheets) => {
                    let ghost at_file = run@;
                    let mut j: usize = 0;
                    while j < sheets.len()
                        invariant
                            n == files@.len(),
                            i < n,
                            *file == files@[i as int],
                            file.sheets == Ok::<Vec<SheetGrid>, ProcessError>(*sheets),
                            fields@.map_values(|f: &str| f@) == fields_of(self.group),
                            files_step(initial_state(), self.group, files@, i as nat) == Ok::<UploadState, ErrorView>(at_file),
                            j <= sheets@.len(),
                            sheets_step(at_file, self.group, sheets@, file.name@, j as nat) == Ok::<UploadState, ErrorView>(run@),
                        decreases sheets@.len() - j,
                    {
                        match self.process_sheet(&mut run, &sheets[j], file.name.as_str(), &fields) {
                            Ok(_) => {},
                            Err(e) => {
                                proof {
                                    lemma_sheets_err_extends(
                                        at_file,
                                        self.group,
                                        sheets@,
                                        file.name@,
                                        (j + 1) as nat,
                                        sheets@.len(),
                                    );
                                    lemma_files_err_extends(
                                        initial_state(),
                                        self.group,
                                        files@,
                                        (i + 1) as nat,
                                        n as nat,
                                    );
                                }
                                return Err(e);
                            },
                        }
                        j = j + 1;
                    }
                },
            }
            i = i + 1;
        }
        Ok(Table { columns: self.output_columns(), rows: run.rows })
    }
}


/// Each value read from a row is the reading of its own field.
proof fn lemma_values_index(
    sheet: SheetGrid,
    row: u32,
    cols: Seq<u32>,
    fields: Seq<Seq<char>>,
    file: Seq<char>,
    sheet_name: Seq<char>,
    n: nat,
    k: int,
)
    requires
        values_spec(sheet, row, cols, fields, file, sheet_name, n) is Ok,
        0 <= k < n,
    ensures
        field_value_spec(sheet, row, cols[k], field_kind(k), fields[k], file, sheet_name) == Ok::<
            ValueView,
            ErrorView,
        >(values_spec(sheet, row, cols, fields, file, sheet_name, n)->Ok_0[k]),
    decreases n,
{
    lemma_values_len(sheet, row, cols, fields, file, sheet_name, n);
    if k < n - 1 {
        lemma_values_index(sheet, row, cols, fields, file, sheet_name, (n - 1) as nat, k);
    }
}

/// An output row of the group: one value per field, and the group's merchant number.
pub open spec fn row_ok(group: UploadedGroup, r: RowView) -> bool {
    &&& r.values.len() == fields_of(group).len()
    &&& r.values[1] == ValueView::Text(merchant_no_of(group))
}

/// The rows gathered so far are well formed, each UUID among them has been seen, and no UUID
/// stands in two of them.
pub open spec fn state_ok(group: UploadedGroup, st: UploadState) -> bool {
    &&& forall|i: int| 0 <= i < st.rows.len() ==> row_ok(group, #[trigger] st.rows[i])
    &&& forall|i: int|
        0 <= i < st.rows.len() ==> (#[trigger] st.rows[i].values[0] matches ValueView::Text(u) ==> st.seen.contains(u))
    &&& forall|i: int, j: int|
        #![trigger st.rows[i], st.rows[j]]
        0 <= i < j < st.rows.len() && st.rows[i].values[0] is Text ==> st.rows[i].values[0]
            != st.rows[j].values[0]
}

proof fn lemma_row_spec_ok(
    group: UploadedGroup,
    sheet: SheetGrid,
    row: u32,
    cols: Seq<u32>,
    file: Seq<char>,
    sheet_name: Seq<char>,
)
    requires
        row_spec(group, sheet, row, cols, file, sheet_name) is Ok,
    ensures
        row_ok(group, row_spec(group, sheet, row, cols, file, sheet_name)->Ok_0),
{
    let fs = fields_of(group);
    lemma_fields_len(group);
    lemma_values_len(sheet, row, cols, fs, file, sheet_name, fs.len());
    lemma_values_index(sheet, row, cols, fs, file, sheet_name, fs.len(), 1);
    reveal_strlit("89813014812B06R");
    reveal_strlit("89813015722APT1");
}

proof fn lemma_row_step_ok(
    st: UploadState,
    group: UploadedGroup,
    sheet: SheetGrid,
    row: u32,
    cols: Seq<u32>,
    file: Seq<char>,
    sheet_name: Seq<char>,
)
    requires
        state_ok(group, st),
        row_step(st, group, sheet, row, cols, file, sheet_name) is Ok,
    ensures
        state_ok(group, row_step(st, group, sheet, row, cols, file, sheet_name)->Ok_0),
{
    lemma_row_spec_ok(group, sheet, row, cols, file, sheet_name);
    let r = row_spec(group, sheet, row, cols, file, sheet_name)->Ok_0;
    let next = row_step(st, group, sheet, row, cols, file, sheet_name)->Ok_0;
    assert(next.rows == st.rows.push(r));
    assert forall|i: int, j: int|
        #![trigger next.rows[i], next.rows[j]]
        0 <= i < j < next.rows.len() && next.rows[i].values[0] is Text implies next.rows[i].values[0]
            != next.rows[j].values[0] by {
        if j == st.rows.len() {
            assert(next.rows[i] == st.rows[i]);
        } else {
            assert(next.rows[i] == st.rows[i] && next.rows[j] == st.rows[j]);
        }
    }
    assert forall|i: int| 0 <= i < next.rows.len() implies (#[trigger] next.rows[i].values[0] matches ValueView::Text(
        u,
    ) ==> next.seen.contains(u)) by {
        if i < st.rows.len() {
            assert(next.rows[i] == st.rows[i]);
        }
    }
    assert forall|i: int| 0 <= i < next.rows.len() implies row_ok(group, #[trigger] next.rows[i]) by {
        if i < st.rows.len() {
            assert(next.rows[i] == st.rows[i]);
        }
    }
}

proof fn lemma_rows_step_ok(
    st: UploadState,
    group: UploadedGroup,
    sheet: SheetGrid,
    cols: Seq<u32>,
    file: Seq<char>,
    sheet_name: Seq<char>,
    count: nat,
)
    requires
        state_ok(group, st),
        rows_step(st, group, sheet, cols, file, sheet_name, count) is Ok,
    ensures
        state_ok(group, rows_step(st, group, sheet, cols, file, sheet_name, count)->Ok_0),
    decreases count,
{
    if count > 0 {
        lemma_rows_step_ok(st, group, sheet, cols, file, sheet_name, (count - 1) as nat);
        let s = rows_step(st, group, sheet, cols, file, sheet_name, (count - 1) as nat)->Ok_0;
        lemma_row_step_ok(s, group, sheet, (3 + count - 1) as u32, cols, file, sheet_name);
    }
}

proof fn lemma_sheets_step_ok(
    st: UploadState,
    group: UploadedGroup,
    sheets: Seq<SheetGrid>,
    file: Seq<char>,
    n: nat,
)
    requires
        state_ok(group, st),
        sheets_step(st, group, sheets, file, n) is Ok,
    ensures
        state_ok(group, sheets_step(st, group, sheets, file, n)->Ok_0),
    decreases n,
{
    if n > 0 {
        lemma_sheets_step_ok(st, group, sheets, file, (n - 1) as nat);
        let s = sheets_step(st, group, sheets, file, (n - 1) as nat)->Ok_0;
        let sheet = sheets[n - 1];
        let cols = resolve_spec(sheet.row_texts_spec(2), sheet.first_col_spec(), fields_of(group))->Ok_0;
        let fp = fingerprint_spec(sheet, total_row_spec(sheet));
        let next = if s.prints.contains_key(fp) {
            s
        } else {
            UploadState { rows: s.rows, prints: s.prints.insert(fp, file), seen: s.seen }
        };
        lemma_rows_step_ok(
            next,
            group,
            sheet,
            cols,
            file,
            sheet.name_spec(),
            upload_row_count(total_row_spec(sheet)),
        );
    }
}

proof fn lemma_files_step_ok(st: UploadState, group: UploadedGroup, files: Seq<SourceFile>, n: nat)
    requires
        state_ok(group, st),
        files_step(st, group, files, n) is Ok,
    ensures
        state_ok(group, files_step(st, group, files, n)->Ok_0),
    decreases n,
{
    if n > 0 {
        lemma_files_step_ok(st, group, files, (n - 1) as nat);
        let s = files_step(st, group, files, (n - 1) as nat)->Ok_0;
        if let Ok(v) = files[n - 1].sheets {
            lemma_sheets_step_ok(s, group, v@, files[n - 1].name@, v@.len());
        }
    }
}

/// What the group's processing outputs: every row has one value per output column and carries
/// the group's merchant number, and no UUID occurs in two rows.
pub proof fn lemma_uploaded_rows_well_formed(group: UploadedGroup, files: Seq<SourceFile>)
    requires
        uploaded_rows_spec(group, files) is Ok,
    ensures
        ({
            let rows = uploaded_rows_spec(group, files)->Ok_0;
            &&& forall|i: int|
                0 <= i < rows.len() ==> (#[trigger] rows[i]).values.len() == uploaded_columns(group).len()
                    && rows[i].values[1] == ValueView::Text(merchant_no_of(group))
            &&& forall|i: int, j: int|
                #![trigger rows[i], rows[j]]
                0 <= i < j < rows.len() && rows[i].values[0] is Text ==> rows[i].values[0]
                    != rows[j].values[0]
        }),
{
    assert(state_ok(group, initial_state()));
    lemma_files_step_ok(initial_state(), group, files, files.len());
    lemma_fields_len(group);
    let rows = uploaded_rows_spec(group, files)->Ok_0;
    assert forall|i: int| 0 <= i < rows.len() implies (#[trigger] rows[i]).values.len() == uploaded_columns(group).len()
        && rows[i].values[1] == ValueView::Text(merchant_no_of(group)) by {
        assert(row_ok(group, rows[i]));
    }
}


/// A file name follows the naming rule of one merchant number at most, so the two groups never
/// take the same file.
pub proof fn lemma_file_name_has_one_merchant(name: Seq<char>, m1: Seq<char>, m2: Seq<char>)
    requires
        matches_filename_spec(name, m1),
        matches_filename_spec(name, m2),
    ensures
        m1 == m2,
{
    let t1 = choose|ts: Seq<char>| is_timestamp(ts) && name == #[trigger] export_file_name(m1, ts);
    let t2 = choose|ts: Seq<char>| is_timestamp(ts) && name == #[trigger] export_file_name(m2, ts);
    reveal_strlit("MER_");
    reveal_strlit("_");
    reveal_strlit("_yjhx.xlsx");
    let e1 = export_file_name(m1, t1);
    let e2 = export_file_name(m2, t2);
    assert(is_timestamp(t1) && name == e1);
    assert(is_timestamp(t2) && name == e2);
    assert(e1.len() == m1.len() + 29);
    assert(e2.len() == m2.len() + 29);
    assert(m1.len() == m2.len());
    assert forall|i: int| 0 <= i < m1.len() implies m1[i] == m2[i] by {
        assert(e1[4 + i] == m1[i]);
        assert(e2[4 + i] == m2[i]);
    }
    assert(m1 =~= m2);
}


proof fn lemma_values_read_only_their_columns(
    s1: SheetGrid,
    s2: SheetGrid,
    row: u32,
    cols1: Seq<u32>,
    cols2: Seq<u32>,
    fields: Seq<Seq<char>>,
    file: Seq<char>,
    sheet_name: Seq<char>,
    n: nat,
)
    requires
        n <= cols1.len(),
        cols2.len() == cols1.len(),
        forall|k: int|
            0 <= k < cols1.len() ==> s1.cell_spec(row as int, #[trigger] cols1[k] as int) == s2.cell_spec(
                row as int,
                cols2[k] as int,
            ),
    ensures
        values_spec(s1, row, cols1, fields, file, sheet_name, n) == values_spec(
            s2,
            row,
            cols2,
            fields,
            file,
            sheet_name,
            n,
        ),
    decreases n,
{
    if n > 0 {
        lemma_values_read_only_their_columns(s1, s2, row, cols1, cols2, fields, file, sheet_name, (n - 1) as nat);
        assert(s1.cell_spec(row as int, cols1[n - 1] as int) == s2.cell_spec(row as int, cols2[n - 1] as int));
    }
}

/// Fields are read from the columns found for them and from nowhere else: two sheets whose
/// cells in those columns of a row agree, wherever the columns stand, read that row alike.
/// With `resolve_columns`, which finds each field's column by its name in row 2, a row reads
/// the same whatever the order of the columns.
pub proof fn lemma_row_reads_only_its_columns(
    group: UploadedGroup,
    s1: SheetGrid,
    s2: SheetGrid,
    row: u32,
    cols1: Seq<u32>,
    cols2: Seq<u32>,
    file: Seq<char>,
    sheet_name: Seq<char>,
)
    requires
        cols1.len() == fields_of(group).len(),
        cols2.len() == cols1.len(),
        forall|k: int|
            0 <= k < cols1.len() ==> s1.cell_spec(row as int, #[trigger] cols1[k] as int) == s2.cell_spec(
                row as int,
                cols2[k] as int,
            ),
    ensures
        row_spec(group, s1, row, cols1, file, sheet_name) == row_spec(
            group,
            s2,
            row,
            cols2,
            file,
            sheet_name,
        ),
{
    lemma_fields_len(group);
    assert(s1.cell_spec(row as int, cols1[1] as int) == s2.cell_spec(row as int, cols2[1] as int));
    lemma_values_read_only_their_columns(
        s1,
        s2,
        row,
        cols1,
        cols2,
        fields_of(group),
        file,
        sheet_name,
        fields_of(group).len(),
    );
}


/// An error of the values of a row is the error of one of its fields.
proof fn lemma_values_err_source(
    sheet: SheetGrid,
    row: u32,
    cols: Seq<u32>,
    fields: Seq<Seq<char>>,
    file: Seq<char>,
    sheet_name: Seq<char>,
    n: nat,
)
    requires
        values_spec(sheet, row, cols, fields, file, sheet_name, n) is Err,
    ensures
        exists|i: int|
            0 <= i < n && #[trigger] field_value_spec(sheet, row, cols[i], field_kind(i), fields[i], file, sheet_name)
                == Err::<ValueView, ErrorView>(values_spec(sheet, row, cols, fields, file, sheet_name, n)->Err_0),
    decreases n,
{
    if n > 0 {
        if values_spec(sheet, row, cols, fields, file, sheet_name, (n - 1) as nat) is Err {
            lemma_values_err_source(sheet, row, cols, fields, file, sheet_name, (n - 1) as nat);
        } else {
            let i = n - 1;
            assert(field_value_spec(sheet, row, cols[i], field_kind(i), fields[i], file, sheet_name) is Err);
        }
    }
}

/// Only the fifth field is named "交易金额".
proof fn lemma_amount_field_position(group: UploadedGroup, i: int)
    requires
        0 <= i < fields_of(group).len(),
    ensures
        fields_of(group)[i] == "交易金额"@ <==> i == 4,
{
    reveal_strlit("实时清分UUID");
    reveal_strlit("商户号");
    reveal_strlit("订单号");
    reveal_strlit("交易日期");
    reveal_strlit("交易金额");
    reveal_strlit("检索参考号");
    reveal_strlit("状态");
    reveal_strlit("描述");
    reveal_strlit("提交时间");
    reveal_strlit("更新时间");
    reveal_strlit("终端号");
    reveal_strlit("发票号码");
    reveal_strlit("购买方名称");
    reveal_strlit("S/N码");
    reveal_strlit("IMEI1");
    reveal_strlit("IMEI2");
    lemma_fields_len(group);
    let f = fields_of(group)[i];
    let a = "交易金额"@;
    assert(a.len() == 4);
    if i != 4 {
        assert(f.len() != 4 || f[0] != a[0] || f[1] != a[1] || f[2] != a[2] || f[3] != a[3]);
    }
}

/// The amount column of an uploaded row holds the decimal amount of the source cell: a decimal,
/// or nothing for an empty cell, as the amount reading of that cell gives it; and an amount cell
/// that holds a number (a whole number, or a floating-point number with a decimal value) never
/// makes the row fail on that field.
pub proof fn lemma_amount_column(
    group: UploadedGroup,
    sheet: SheetGrid,
    row: u32,
    cols: Seq<u32>,
    file: Seq<char>,
    sheet_name: Seq<char>,
)
    requires
        cols.len() == fields_of(group).len(),
    ensures
        row_spec(group, sheet, row, cols, file, sheet_name) matches Ok(r) ==> {
            &&& (r.values[4] is Decimal || r.values[4] is Empty)
            &&& cell_amount_seq(sheet.cell_spec(row as int, cols[4] as int)) == Ok::<
                Option<Decimal>,
                Seq<char>,
            >(
                match r.values[4] {
                    ValueView::Decimal(d) => Some(d),
                    _ => None,
                },
            )
        },
        ({
            let c = sheet.cell_spec(row as int, cols[4] as int);
            c is Int || (c matches RawCell::Float(f) && f.amount matches Some(d) && d.wf())
        }) ==> !(row_spec(group, sheet, row, cols, file, sheet_name) matches Err(
            ErrorView::Data { field, .. },
        ) && field == "交易金额"@),
{
    let fs = fields_of(group);
    lemma_fields_len(group);
    lemma_amount_field_position(group, 4);
    lemma_amount_field_position(group, 1);
    match row_spec(group, sheet, row, cols, file, sheet_name) {
        Ok(r) => {
            lemma_values_index(sheet, row, cols, fs, file, sheet_name, fs.len(), 4);
        },
        Err(e) => {
            let c = sheet.cell_spec(row as int, cols[4] as int);
            if (c is Int || (c matches RawCell::Float(f) && f.amount matches Some(d) && d.wf())) && (
            e matches ErrorView::Data { field, .. } && field == "交易金额"@) {
                if let Ok(m) = text_field_spec(sheet, row, cols[1], "商户号"@, file, sheet_name) {
                    if m == merchant_no_of(group) {
                        lemma_values_err_source(sheet, row, cols, fs, file, sheet_name, fs.len());
                        let i = choose|i: int|
                            0 <= i < fs.len() && #[trigger] field_value_spec(
                                sheet,
                                row,
                                cols[i],
                                field_kind(i),
                                fs[i],
                                file,
                                sheet_name,
                            ) == Err::<ValueView, ErrorView>(e);
                        lemma_amount_field_position(group, i);
                        assert(i == 4);
                    }
                }
            }
        },
    }
}

} // verus!
