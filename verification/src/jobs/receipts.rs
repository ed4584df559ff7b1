use vstd::prelude::*;
use vstd::hash_map::StringHashMap;

use crate::io::sheet::SheetGrid;
use crate::jobs::{
    build_match_doc_no, closing_row, closing_row_spec, data_row_count, date_field_spec,
    match_doc_no_seq, parse_date_field, sheet_count_error, sheet_count_message,
    structure_error_view, text_at, text_field_spec, text_value, texts_equal, Category,
};
use crate::model::error::{result_view, ErrorView, ProcessError};
use crate::model::schema::{columns_view, Column, ColumnType};
use crate::model::table::{Row, RowView, Table};
use crate::model::value::{text_value_view, Value, ValueView};
use crate::utils::strings::str_eq;

verus! {

/// The one source workbook of this category.
pub const FILE_NAME: &'static str = "收款单统计.xlsx";

// Source columns (from 1).
pub const COL_DATE: u32 = 1;

pub const COL_DOC_NO: u32 = 3;

pub const COL_SALE_CATEGORY: u32 = 9;

pub const COL_PRODUCT_NAME: u32 = 21;

pub const COL_ORIGINAL_TICKET_NO: u32 = 41;

/// The sixty fields that row 2 of the source must hold, in order.
pub open spec fn source_headers_seq() -> Seq<Seq<char>> {
    seq![
        "日期"@,
        "销售部门"@,
        "单据号"@,
        "联系人"@,
        "联系电话"@,
        "销售金额"@,
        "客户名称"@,
        "收款日期"@,
        "销售类别"@,
        "编号"@,
        "销售员"@,
        "预定"@,
        "服务方式"@,
        "制单机器"@,
        "收款机器"@,
        "制单员"@,
        "收款员"@,
        "手工票号"@,
        "摘要"@,
        "联营商"@,
        "商品名称"@,
        "商品简码"@,
        "计量单位"@,
        "库存类型"@,
        "价格类型"@,
        "是否负卖"@,
        "数量"@,
        "尾款金额"@,
        "定金金额"@,
        "实收手续费"@,
        "实收包装及配件款"@,
        "其它费用"@,
        "费用承担供应商"@,
        "商家贴卡金额"@,
        "厂家贴卡金额"@,
        "销售折让金额"@,
        "已记账"@,
        "会员卡号"@,
        "预定单号"@,
        "预定单日期"@,
        "原票号"@,
        "是否作废"@,
        "作废人"@,
        "作废日期"@,
        "兑现使用积分"@,
        "积分"@,
        "积分兑现金额"@,
        "认筹码"@,
        "手机号"@,
        "接口同步成功"@,
        "是否已出库"@,
        "交易流水号"@,
        "退货赠品销售金额"@,
        "认证类型"@,
        "认证码"@,
        "已上传"@,
        "线上支付"@,
        "记账错误信息"@,
        "新券码"@,
        "Crm会员账号"@
    ]
}

pub fn source_headers() -> (res: Vec<&'static str>)
    ensures
        res@.map_values(|s: &str| s@) == source_headers_seq(),
{
    let v = vec![
        "日期",
        "销售部门",
        "单据号",
        "联系人",
        "联系电话",
        "销售金额",
        "客户名称",
        "收款日期",
        "销售类别",
        "编号",
        "销售员",
        "预定",
        "服务方式",
        "制单机器",
        "收款机器",
        "制单员",
        "收款员",
        "手工票号",
        "摘要",
        "联营商",
        "商品名称",
        "商品简码",
        "计量单位",
        "库存类型",
        "价格类型",
        "是否负卖",
        "数量",
        "尾款金额",
        "定金金额",
        "实收手续费",
        "实收包装及配件款",
        "其它费用",
        "费用承担供应商",
        "商家贴卡金额",
        "厂家贴卡金额",
        "销售折让金额",
        "已记账",
        "会员卡号",
        "预定单号",
        "预定单日期",
        "原票号",
        "是否作废",
        "作废人",
        "作废日期",
        "兑现使用积分",
        "积分",
        "积分兑现金额",
        "认筹码",
        "手机号",
        "接口同步成功",
        "是否已出库",
        "交易流水号",
        "退货赠品销售金额",
        "认证类型",
        "认证码",
        "已上传",
        "线上支付",
        "记账错误信息",
        "新券码",
        "Crm会员账号"
    ];
    assert(v@.map_values(|s: &str| s@) =~= source_headers_seq());
    v
}

/// One receipt line as read from the source.
pub struct ReceiptRecord {
    pub date: Value,
    pub doc_no: String,
    pub product_name: String,
    pub original_ticket_no: String,
    /// Empty when it could not be formed (no date or no document number).
    pub match_doc_no: String,
    /// Only used to work out the remark; not part of the output.
    pub sale_category: String,
    pub remark: String,
}

pub struct ReceiptRecordView {
    pub date: ValueView,
    pub doc_no: Seq<char>,
    pub product_name: Seq<char>,
    pub original_ticket_no: Seq<char>,
    pub match_doc_no: Seq<char>,
    pub sale_category: Seq<char>,
    pub remark: Seq<char>,
}

impl View for ReceiptRecord {
    type V = ReceiptRecordView;

    open spec fn view(&self) -> ReceiptRecordView {
        ReceiptRecordView {
            date: self.date@,
            doc_no: self.doc_no@,
            product_name: self.product_name@,
            original_ticket_no: self.original_ticket_no@,
            match_doc_no: self.match_doc_no@,
            sale_category: self.sale_category@,
            remark: self.remark@,
        }
    }
}

pub open spec fn record_views(rs: Seq<ReceiptRecord>) -> Seq<ReceiptRecordView> {
    rs.map_values(|r: ReceiptRecord| r@)
}

/// One source row read as a record (remark still empty), or the first field that fails.
pub open spec fn read_row_spec(sheet: SheetGrid, file: Seq<char>, sheet_name: Seq<char>, row: u32) -> Result<
    ReceiptRecordView,
    ErrorView,
> {
    match date_field_spec(sheet.cell_spec(row as int, COL_DATE as int), "日期"@, file, sheet_name, row) {
        Err(e) => Err(e),
        Ok(date) => match text_field_spec(sheet, row, COL_DOC_NO, "单据号"@, file, sheet_name) {
            Err(e) => Err(e),
            Ok(doc_no) => match text_field_spec(sheet, row, COL_SALE_CATEGORY, "销售类别"@, file, sheet_name) {
                Err(e) => Err(e),
                Ok(sale_category) => match text_field_spec(sheet, row, COL_PRODUCT_NAME, "商品名称"@, file, sheet_name) {
                    Err(e) => Err(e),
                    Ok(product_name) => match text_field_spec(
                        sheet,
                        row,
                        COL_ORIGINAL_TICKET_NO,
                        "原票号"@,
                        file,
                        sheet_name,
                    ) {
                        Err(e) => Err(e),
                        Ok(original_ticket_no) => Ok(
                            ReceiptRecordView {
                                date,
                                doc_no,
                                product_name,
                                original_ticket_no,
                                match_doc_no: match_doc_no_seq(date, doc_no),
                                sale_category,
                                remark: Seq::empty(),
                            },
                        ),
                    },
                },
            },
        },
    }
}

pub fn read_row(sheet: &SheetGrid, row: u32, file: &str, sheet_name: &str) -> (res: Result<
    ReceiptRecord,
    ProcessError,
>)
    ensures
        result_view(res) == read_row_spec(*sheet, file@, sheet_name@, row),
{
    let date = parse_date_field(&sheet.cell(row, COL_DATE), "日期", file, sheet_name, row)?;
    let doc_no_value = text_at(sheet, row, COL_DOC_NO, "单据号", file, sheet_name)?;
    let sale_category = text_at(sheet, row, COL_SALE_CATEGORY, "销售类别", file, sheet_name)?;
    let product_name = text_at(sheet, row, COL_PRODUCT_NAME, "商品名称", file, sheet_name)?;
    let original_ticket_no = text_at(sheet, row, COL_ORIGINAL_TICKET_NO, "原票号", file, sheet_name)?;
    let match_doc_no = build_match_doc_no(&date, doc_no_value.as_str());
    Ok(
        ReceiptRecord {
            date,
            doc_no: doc_no_value,
            product_name,
            original_ticket_no,
            match_doc_no,
            sale_category,
            remark: String::new(),
        },
    )
}

/// The remark that the sale category alone gives.
pub open spec fn initial_remark_seq(cat: Seq<char>) -> Seq<char> {
    if cat == "退货"@ {
        "退货-退单"@
    } else if cat == "零售补差"@ {
        "零售补差"@
    } else if cat == "同型号换货"@ {
        "同型号换货"@
    } else {
        Seq::empty()
    }
}

pub fn initial_remark(sale_category: &str) -> (res: String)
    ensures
        res@ == initial_remark_seq(sale_category@),
{
    if str_eq(sale_category, "退货") {
        "退货-退单".to_owned()
    } else if str_eq(sale_category, "零售补差") {
        "零售补差".to_owned()
    } else if str_eq(sale_category, "同型号换货") {
        "同型号换货".to_owned()
    } else {
        String::new()
    }
}

pub open spec fn is_rebate_category(cat: Seq<char>) -> bool {
    cat == "零售补差"@ || cat == "同型号换货"@
}

/// A retail price adjustment or same-model exchange whose original ticket number is the
/// matching document number of some record.
pub open spec fn rebate_matched(rs: Seq<ReceiptRecordView>, k: int) -> bool {
    &&& is_rebate_category(rs[k].sale_category)
    &&& rs[k].original_ticket_no.len() > 0
    &&& exists|j: int| 0 <= j < rs.len() && #[trigger] rs[j].match_doc_no == rs[k].original_ticket_no
}

/// The remark after the first two passes: initial remark, then adjustments and exchanges that
/// match a sale.
pub open spec fn remark_after_matching(rs: Seq<ReceiptRecordView>, k: int) -> Seq<char> {
    if rebate_matched(rs, k) {
        "补差/同型号换货"@
    } else {
        initial_remark_seq(rs[k].sale_category)
    }
}

pub open spec fn is_return_remark(r: Seq<char>) -> bool {
    r == "退货-退单"@ || r == "补差/同型号换货"@
}

/// A normal sale whose matching document number is the original ticket number of a return or
/// of a matched adjustment or exchange.
pub open spec fn original_hit(rs: Seq<ReceiptRecordView>, k: int) -> bool {
    &&& rs[k].sale_category == "正常销售"@
    &&& rs[k].match_doc_no.len() > 0
    &&& exists|j: int|
        0 <= j < rs.len() && #[trigger] rs[j].original_ticket_no == rs[k].match_doc_no
            && is_return_remark(remark_after_matching(rs, j))
}

/// The final remark of record `k`.
pub open spec fn final_remark(rs: Seq<ReceiptRecordView>, k: int) -> Seq<char> {
    if original_hit(rs, k) {
        "退货-原单"@
    } else {
        remark_after_matching(rs, k)
    }
}

pub open spec fn with_remark(r: ReceiptRecordView, remark: Seq<char>) -> ReceiptRecordView {
    ReceiptRecordView { remark, ..r }
}

/// Which field an index is built on.
pub enum RecordKey {
    MatchDocNo,
    OriginalTicketNo,
}

pub open spec fn key_of(r: ReceiptRecordView, key: RecordKey) -> Seq<char> {
    match key {
        RecordKey::MatchDocNo => r.match_doc_no,
        RecordKey::OriginalTicketNo => r.original_ticket_no,
    }
}

fn copy_indices(v: &Vec<usize>) -> (res: Vec<usize>)
    ensures
        res@ == v@,
{
    let mut out: Vec<usize> = Vec::new();
    let mut i: usize = 0;
    while i < v.len()
        invariant
            i <= v@.len(),
            out@ == v@.take(i as int),
        decreases v@.len() - i,
    {
        out.push(v[i]);
        i = i + 1;
        assert(out@ =~= v@.take(i as int));
    }
    assert(v@.take(i as int) =~= v@);
    out
}

/// Index of the records by a non-empty field value: the value maps to the positions of all
/// records that carry it.
pub fn index_by(records: &Vec<ReceiptRecord>, key: RecordKey) -> (map: StringHashMap<Vec<usize>>)
    ensures
        forall|s: Seq<char>| #[trigger] map@.contains_key(s) ==> s.len() > 0 && map@[s]@.len() > 0 && forall|t: int|
            0 <= t < map@[s]@.len() ==> map@[s]@[t] < records@.len() && key_of(
                records@[map@[s]@[t] as int]@,
                key,
            ) == s,
        forall|j: int|
            0 <= j < records@.len() && key_of(#[trigger] records@[j]@, key).len() > 0
                ==> map@.contains_key(key_of(records@[j]@, key)) && map@[key_of(
                records@[j]@,
                key,
            )]@.contains(j as usize),
{
    let mut map: StringHashMap<Vec<usize>> = StringHashMap::new();
    let mut index: usize = 0;
    while index < records.len()
        invariant
            index <= records@.len(),
            forall|s: Seq<char>| #[trigger] map@.contains_key(s) ==> s.len() > 0 && map@[s]@.len() > 0 && forall|t: int|
                0 <= t < map@[s]@.len() ==> map@[s]@[t] < records@.len() && key_of(
                    records@[map@[s]@[t] as int]@,
                    key,
                ) == s,
            forall|j: int|
                0 <= j < index && key_of(#[trigger] records@[j]@, key).len() > 0
                    ==> map@.contains_key(key_of(records@[j]@, key)) && map@[key_of(
                    records@[j]@,
                    key,
                )]@.contains(j as usize),
        decreases records@.len() - index,
    {
        let record = &records[index];
        let value: &String = match key {
            RecordKey::MatchDocNo => &record.match_doc_no,
            RecordKey::OriginalTicketNo => &record.original_ticket_no,
        };
        assert(value@ == key_of(records@[index as int]@, key));
        if !value.as_str().is_empty() {
            let ghost old_map = map@;
            let mut list: Vec<usize> = match map.get(value.as_str()) {
                Some(existing) => copy_indices(existing),
                None => Vec::new(),
            };
            let ghost old_list = list@;
            list.push(index);
            map.insert(value.clone(), list);
            proof {
                assert forall|s: Seq<char>| #[trigger] map@.contains_key(s) implies s.len() > 0 && map@[s]@.len() > 0 && forall|t: int|
                    0 <= t < map@[s]@.len() ==> map@[s]@[t] < records@.len() && key_of(
                        records@[map@[s]@[t] as int]@,
                        key,
                    ) == s by {
                    if s == value@ {
                        assert forall|t: int| 0 <= t < map@[s]@.len() implies map@[s]@[t] < records@.len() && key_of(
                            records@[map@[s]@[t] as int]@,
                            key,
                        ) == s by {
                            if t < old_list.len() {
                                assert(old_map.contains_key(s));
                                assert(map@[s]@[t] == old_map[s]@[t]);
                            }
                        }
                    } else {
                        assert(old_map.contains_key(s));
                    }
                }
                assert forall|j: int|
                    0 <= j < index + 1 && key_of(#[trigger] records@[j]@, key).len() > 0
                        implies map@.contains_key(key_of(records@[j]@, key)) && map@[key_of(
                        records@[j]@,
                        key,
                    )]@.contains(j as usize) by {
                    let kj = key_of(records@[j]@, key);
                    if j == index {
                        assert(map@[kj]@[old_list.len() as int] == index);
                    } else if kj == value@ {
                        assert(old_map.contains_key(kj));
                        let t = choose|t: int| 0 <= t < old_map[kj]@.len() && old_map[kj]@[t] == j as usize;
                        assert(map@[kj]@[t] == j as usize);
                    } else {
                        assert(old_map.contains_key(kj));
                    }
                }
            }
        }
        index = index + 1;
    }
    map
}

/// Sets the remark of the records at `positions` to `remark`.
fn apply_remark(records: &mut Vec<ReceiptRecord>, positions: &Vec<usize>, remark: &str)
    requires
        forall|t: int| 0 <= t < positions@.len() ==> #[trigger] positions@[t] < old(records)@.len(),
    ensures
        final(records)@.len() == old(records)@.len(),
        forall|k: int|
            0 <= k < old(records)@.len() ==> #[trigger] final(records)@[k]@ == (if positions@.contains(
                k as usize,
            ) {
                with_remark(old(records)@[k]@, remark@)
            } else {
                old(records)@[k]@
            }),
{
    let ghost orig = records@;
    let n = records.len();
    let mut t: usize = 0;
    while t < positions.len()
        invariant
            n == records@.len(),
            orig.len() == n,
            t <= positions@.len(),
            forall|x: int| 0 <= x < positions@.len() ==> #[trigger] positions@[x] < n,
            forall|k: int|
                0 <= k < n ==> #[trigger] records@[k]@ == (if positions@.take(t as int).contains(
                    k as usize,
                ) {
                    with_remark(orig[k]@, remark@)
                } else {
                    orig[k]@
                }),
        decreases positions@.len() - t,
    {
        let p = positions[t];
        let ghost before = records@;
        records[p].remark = remark.to_owned();
        proof {
            let done = positions@.take(t as int);
            let next = positions@.take(t + 1);
            assert(next =~= done.push(p));
            assert forall|k: int| 0 <= k < n implies #[trigger] records@[k]@ == (if next.contains(
                k as usize,
            ) {
                with_remark(orig[k]@, remark@)
            } else {
                orig[k]@
            }) by {
                if k == p {
                    assert(next[t as int] == p);
                    assert(before[k]@ == orig[k]@ || before[k]@ == with_remark(orig[k]@, remark@));
                    assert(records@[k]@ =~~= with_remark(orig[k]@, remark@));
                } else {
                    assert(records@[k] == before[k]);
                    if next.contains(k as usize) {
                        let x = choose|x: int| 0 <= x < next.len() && next[x] == k as usize;
                        assert(done[x] == k as usize);
                    }
                    if done.contains(k as usize) {
                        let x = choose|x: int| 0 <= x < done.len() && done[x] == k as usize;
                        assert(next[x] == k as usize);
                    }
                }
            }
        }
        t = t + 1;
    }
    assert(positions@.take(t as int) =~= positions@);
}

/// Works out every record's remark in three passes: the remark its sale category gives; then
/// adjustments and exchanges whose original ticket is some record's matching document number;
/// then normal sales whose matching document number is the original ticket of a return or of
/// such an adjustment. Nothing else about the records changes, nor their order.
pub fn compute_remarks(records: &mut Vec<ReceiptRecord>)
    ensures
        final(records)@.len() == old(records)@.len(),
        forall|k: int|
            0 <= k < old(records)@.len() ==> #[trigger] final(records)@[k]@ == with_remark(
                old(records)@[k]@,
                final_remark(record_views(old(records)@), k),
            ),
{
    let ghost orig = record_views(records@);
    let n = records.len();
    let mut i: usize = 0;
    while i < n
        invariant
            n == records@.len(),
            orig.len() == n,
            i <= n,
            forall|k: int|
                0 <= k < i ==> #[trigger] records@[k]@ == with_remark(
                    orig[k],
                    initial_remark_seq(orig[k].sale_category),
                ),
            forall|k: int| i <= k < n ==> #[trigger] records@[k]@ == orig[k],
        decreases n - i,
    {
        let remark = initial_remark(records[i].sale_category.as_str());
        assert(records@[i as int]@ == orig[i as int]);
        let ghost before = records@;
        records[i].remark = remark;
        proof {
            assert(records@[i as int].remark == remark);
            assert(records@[i as int].date == before[i as int].date);
            assert(records@[i as int]@ =~~= with_remark(orig[i as int], initial_remark_seq(orig[i as int].sale_category)));
            assert forall|k: int| 0 <= k < n && k != i implies #[trigger] records@[k] == before[k] by {}
        }
        i = i + 1;
    }
    let by_match_doc_no = index_by(records, RecordKey::MatchDocNo);
    let mut rebate_overrides: Vec<usize> = Vec::new();
    let mut i: usize = 0;
    while i < n
        invariant
            n == records@.len(),
            orig.len() == n,
            i <= n,
            forall|k: int|
                0 <= k < n ==> #[trigger] records@[k]@ == with_remark(
                    orig[k],
                    initial_remark_seq(orig[k].sale_category),
                ),
            forall|s: Seq<char>| #[trigger] by_match_doc_no@.contains_key(s) ==> s.len() > 0 && by_match_doc_no@[s]@.len() > 0 && forall|t: int|
                0 <= t < by_match_doc_no@[s]@.len() ==> by_match_doc_no@[s]@[t] < records@.len() && key_of(
                    records@[by_match_doc_no@[s]@[t] as int]@,
                    RecordKey::MatchDocNo,
                ) == s,
            forall|j: int|
                0 <= j < n && key_of(#[trigger] records@[j]@, RecordKey::MatchDocNo).len() > 0
                    ==> by_match_doc_no@.contains_key(key_of(records@[j]@, RecordKey::MatchDocNo)),
            forall|t: int| 0 <= t < rebate_overrides@.len() ==> #[trigger] rebate_overrides@[t] < i,
            forall|k: int|
                0 <= k < i ==> (rebate_matched(orig, k) <==> rebate_overrides@.contains(k as usize)),
        decreases n - i,
    {
        let record = &records[i];
        assert(records@[i as int]@ == with_remark(orig[i as int], initial_remark_seq(orig[i as int].sale_category)));
        let is_rebate = str_eq(record.sale_category.as_str(), "零售补差") || str_eq(
            record.sale_category.as_str(),
            "同型号换货",
        );
        let hit = is_rebate && !record.original_ticket_no.as_str().is_empty()
            && by_match_doc_no.contains_key(record.original_ticket_no.as_str());
        proof {
            let ot = orig[i as int].original_ticket_no;
            if hit {
                assert(by_match_doc_no@.contains_key(ot));
                let j = by_match_doc_no@[ot]@[0] as int;
                assert(key_of(records@[j]@, RecordKey::MatchDocNo) == ot);
                assert(records@[j]@ == with_remark(orig[j], initial_remark_seq(orig[j].sale_category)));
                assert(orig[j].match_doc_no == ot);
                assert(rebate_matched(orig, i as int));
            }
            if is_rebate_category(orig[i as int].sale_category) && ot.len() > 0 && (exists|j: int|
                0 <= j < orig.len() && #[trigger] orig[j].match_doc_no == ot) {
                let j = choose|j: int| 0 <= j < orig.len() && #[trigger] orig[j].match_doc_no == ot;
                assert(records@[j]@.match_doc_no == ot);
                assert(key_of(records@[j]@, RecordKey::MatchDocNo).len() > 0);
            }
        }
        let ghost old_overrides = rebate_overrides@;
        if hit {
            rebate_overrides.push(i);
        }
        proof {
            assert forall|k: int| 0 <= k < i + 1 implies (rebate_matched(orig, k) <==> rebate_overrides@.contains(k as usize)) by {
                if k < i {
                    if old_overrides.contains(k as usize) {
                        let t = choose|t: int| 0 <= t < old_overrides.len() && old_overrides[t] == k as usize;
                        assert(rebate_overrides@[t] == k as usize);
                    }
                    if rebate_overrides@.contains(k as usize) {
                        let t = choose|t: int| 0 <= t < rebate_overrides@.len() && rebate_overrides@[t] == k as usize;
                        if t < old_overrides.len() {
                            assert(old_overrides[t] == k as usize);
                        }
                    }
                } else {
                    if hit {
                        assert(rebate_overrides@[old_overrides.len() as int] == i);
                    } else {
                        if rebate_overrides@.contains(k as usize) {
                            let t = choose|t: int| 0 <= t < rebate_overrides@.len() && rebate_overrides@[t] == k as usize;
                            assert(old_overrides[t] < i);
                        }
                    }
                }
            }
        }
        i = i + 1;
    }
    proof {
        assert forall|k: int| 0 <= k < n implies #[trigger] records@[k]@ == with_remark(
            orig[k],
            initial_remark_seq(orig[k].sale_category),
        ) by {}
    }
    apply_remark(records, &rebate_overrides, "补差/同型号换货");
    proof {
        assert forall|k: int| 0 <= k < n implies #[trigger] records@[k]@ == with_remark(
            orig[k],
            remark_after_matching(orig, k),
        ) by {
            assert(rebate_matched(orig, k) <==> rebate_overrides@.contains(k as usize));
        }
    }
    let by_original_ticket_no = index_by(records, RecordKey::OriginalTicketNo);
    let mut normal_overrides: Vec<usize> = Vec::new();
    let mut i: usize = 0;
    while i < n
        invariant
            n == records@.len(),
            orig.len() == n,
            i <= n,
            forall|k: int|
                0 <= k < n ==> #[trigger] records@[k]@ == with_remark(
                    orig[k],
                    remark_after_matching(orig, k),
                ),
            forall|s: Seq<char>| #[trigger] by_original_ticket_no@.contains_key(s) ==> s.len() > 0
                && by_original_ticket_no@[s]@.len() > 0 && forall|t: int|
                0 <= t < by_original_ticket_no@[s]@.len() ==> by_original_ticket_no@[s]@[t]
                    < records@.len() && key_of(
                    records@[by_original_ticket_no@[s]@[t] as int]@,
                    RecordKey::OriginalTicketNo,
                ) == s,
            forall|j: int|
                0 <= j < n && key_of(#[trigger] records@[j]@, RecordKey::OriginalTicketNo).len() > 0
                    ==> by_original_ticket_no@.contains_key(
                    key_of(records@[j]@, RecordKey::OriginalTicketNo),
                ) && by_original_ticket_no@[key_of(
                    records@[j]@,
                    RecordKey::OriginalTicketNo,
                )]@.contains(j as usize),
            forall|t: int| 0 <= t < normal_overrides@.len() ==> #[trigger] normal_overrides@[t] < i,
            forall|k: int|
                0 <= k < i ==> (original_hit(orig, k) <==> normal_overrides@.contains(k as usize)),
        decreases n - i,
    {
        let record = &records[i];
        assert(records@[i as int]@ == with_remark(orig[i as int], remark_after_matching(orig, i as int)));
        let ghost md = orig[i as int].match_doc_no;
        let mut hit = false;
        if str_eq(record.sale_category.as_str(), "正常销售") && !record.match_doc_no.as_str().is_empty() {
            match by_original_ticket_no.get(record.match_doc_no.as_str()) {
                Some(indices) => {
                    let mut t: usize = 0;
                    while t < indices.len()
                        invariant
                            n == records@.len(),
                            orig.len() == n,
                            by_original_ticket_no@.contains_key(md),
                            indices@ == by_original_ticket_no@[md]@,
                            forall|x: int| 0 <= x < indices@.len() ==> #[trigger] indices@[x] < n && key_of(
                                records@[indices@[x] as int]@,
                                RecordKey::OriginalTicketNo,
                            ) == md,
                            forall|k: int|
                                0 <= k < n ==> #[trigger] records@[k]@ == with_remark(
                                    orig[k],
                                    remark_after_matching(orig, k),
                                ),
                            t <= indices@.len(),
                            hit == exists|x: int|
                                0 <= x < t && is_return_remark(
                                    remark_after_matching(orig, #[trigger] indices@[x] as int),
                                ),
                        decreases indices@.len() - t,
                    {
                        let j = indices[t];
                        assert(records@[j as int]@ == with_remark(orig[j as int], remark_after_matching(orig, j as int)));
                        let r = records[j].remark.as_str();
                        if str_eq(r, "退货-退单") || str_eq(r, "补差/同型号换货") {
                            hit = true;
                        }
                        proof {
                            if hit && !is_return_remark(remark_after_matching(orig, j as int)) {
                                let x = choose|x: int|
                                    0 <= x < t && is_return_remark(
                                        remark_after_matching(orig, #[trigger] indices@[x] as int),
                                    );
                                assert(0 <= x < t + 1);
                            }
                            if is_return_remark(remark_after_matching(orig, j as int)) {
                                assert(indices@[t as int] == j);
                            }
                        }
                        t = t + 1;
                    }
                    proof {
                        if hit {
                            let x = choose|x: int|
                                0 <= x < t && is_return_remark(
                                    remark_after_matching(orig, #[trigger] indices@[x] as int),
                                );
                            let j = indices@[x] as int;
                            assert(records@[j]@ == with_remark(orig[j], remark_after_matching(orig, j)));
                            assert(orig[j].original_ticket_no == md);
                        }
                        if original_hit(orig, i as int) {
                            let j = choose|j: int|
                                0 <= j < orig.len() && #[trigger] orig[j].original_ticket_no == md
                                    && is_return_remark(remark_after_matching(orig, j));
                            assert(records@[j]@ == with_remark(orig[j], remark_after_matching(orig, j)));
                            assert(key_of(records@[j]@, RecordKey::OriginalTicketNo) == md);
                            assert(by_original_ticket_no@[md]@.contains(j as usize));
                            let x = choose|x: int| 0 <= x < indices@.len() && indices@[x] == j as usize;
                            assert(is_return_remark(remark_after_matching(orig, indices@[x] as int)));
                        }
                    }
                },
                None => {
                    proof {
                        if original_hit(orig, i as int) {
                            let j = choose|j: int|
                                0 <= j < orig.len() && #[trigger] orig[j].original_ticket_no == md
                                    && is_return_remark(remark_after_matching(orig, j));
                            assert(records@[j]@ == with_remark(orig[j], remark_after_matching(orig, j)));
                            assert(key_of(records@[j]@, RecordKey::OriginalTicketNo) == md);
                        }
                    }
                },
            }
        }
        assert(hit == original_hit(orig, i as int));
        let ghost old_overrides = normal_overrides@;
        if hit {
            normal_overrides.push(i);
        }
        proof {
            assert forall|k: int| 0 <= k < i + 1 implies (original_hit(orig, k) <==> normal_overrides@.contains(k as usize)) by {
                if k < i {
                    if old_overrides.contains(k as usize) {
                        let t = choose|t: int| 0 <= t < old_overrides.len() && old_overrides[t] == k as usize;
                        assert(normal_overrides@[t] == k as usize);
                    }
                    if normal_overrides@.contains(k as usize) {
                        let t = choose|t: int| 0 <= t < normal_overrides@.len() && normal_overrides@[t] == k as usize;
                        if t < old_overrides.len() {
                            assert(old_overrides[t] == k as usize);
                        }
                    }
                } else {
                    if hit {
                        assert(normal_overrides@[old_overrides.len() as int] == i);
                    } else {
                        if normal_overrides@.contains(k as usize) {
                            let t = choose|t: int| 0 <= t < normal_overrides@.len() && normal_overrides@[t] == k as usize;
                            assert(old_overrides[t] < i);
                        }
                    }
                }
            }
        }
        i = i + 1;
    }
    apply_remark(records, &normal_overrides, "退货-原单");
    proof {
        assert forall|k: int| 0 <= k < n implies #[trigger] records@[k]@ == with_remark(
            orig[k],
            final_remark(orig, k),
        ) by {
            assert(original_hit(orig, k) <==> normal_overrides@.contains(k as usize));
        }
    }
}


/// The records of `count` source rows from row `first` on, in order, or the error of the first
/// of them that cannot be read.
pub open spec fn read_rows_spec(
    sheet: SheetGrid,
    file: Seq<char>,
    sheet_name: Seq<char>,
    first: int,
    count: nat,
) -> Result<Seq<ReceiptRecordView>, ErrorView>
    decreases count,
{
    if count == 0 {
        Ok(Seq::empty())
    } else {
        match read_rows_spec(sheet, file, sheet_name, first, (count - 1) as nat) {
            Err(e) => Err(e),
            Ok(rs) => match read_row_spec(sheet, file, sheet_name, (first + count - 1) as u32) {
                Err(e) => Err(e),
                Ok(r) => Ok(rs.push(r)),
            },
        }
    }
}

/// Once a row fails, every longer run of rows fails with the same error.
proof fn lemma_read_rows_err_extends(
    sheet: SheetGrid,
    file: Seq<char>,
    sheet_name: Seq<char>,
    first: int,
    count: nat,
    more: nat,
)
    requires
        read_rows_spec(sheet, file, sheet_name, first, count) is Err,
        count <= more,
    ensures
        read_rows_spec(sheet, file, sheet_name, first, more) == read_rows_spec(
            sheet,
            file,
            sheet_name,
            first,
            count,
        ),
    decreases more - count,
{
    if count < more {
        lemma_read_rows_err_extends(sheet, file, sheet_name, first, count, (more - 1) as nat);
    }
}

/// A run of rows that reads without error holds one record per row, each the reading of its row.
pub proof fn lemma_read_rows_ok(
    sheet: SheetGrid,
    file: Seq<char>,
    sheet_name: Seq<char>,
    first: int,
    count: nat,
)
    requires
        read_rows_spec(sheet, file, sheet_name, first, count) is Ok,
    ensures
        ({
            let rs = read_rows_spec(sheet, file, sheet_name, first, count)->Ok_0;
            &&& rs.len() == count
            &&& forall|k: int|
                0 <= k < count ==> read_row_spec(sheet, file, sheet_name, (first + k) as u32)
                    == Ok::<ReceiptRecordView, ErrorView>(#[trigger] rs[k])
        }),
    decreases count,
{
    if count > 0 {
        lemma_read_rows_ok(sheet, file, sheet_name, first, (count - 1) as nat);
    }
}

/// The records with their final remarks.
pub open spec fn remarked(rs: Seq<ReceiptRecordView>) -> Seq<ReceiptRecordView> {
    Seq::new(rs.len(), |k: int| with_remark(rs[k], final_remark(rs, k)))
}

/// The output row of a record: date, document number, product name, original ticket number,
/// matching document number and remark.
pub open spec fn receipt_row_view(r: ReceiptRecordView) -> RowView {
    RowView {
        values: seq![
            r.date,
            text_value_view(r.doc_no),
            text_value_view(r.product_name),
            text_value_view(r.original_ticket_no),
            text_value_view(r.match_doc_no),
            text_value_view(r.remark),
        ],
        fill: None,
    }
}

/// The output columns.
pub open spec fn receipt_columns() -> Seq<(Seq<char>, ColumnType)> {
    seq![
        ("日期"@, ColumnType::Date),
        ("单据号"@, ColumnType::Text),
        ("商品名称"@, ColumnType::Text),
        ("原票号"@, ColumnType::Text),
        ("匹配单据号"@, ColumnType::Text),
        ("备注"@, ColumnType::Text),
    ]
}

/// What processing the workbook gives: the sheet must be the only one, row 2 must hold the sixty
/// fields, the last row with a value must start with "合计"; the rows between row 2 and that
/// row are read in order and get their remarks.
pub open spec fn receipt_rows_spec(sheets: Seq<SheetGrid>) -> Result<Seq<RowView>, ErrorView> {
    if sheets.len() != 1 {
        Err(structure_error_view(FILE_NAME@, Seq::empty(), sheet_count_message(sheets.len() as int)))
    } else {
        let sheet = sheets[0];
        let name = sheet.name_spec();
        if sheet.row_texts_spec(2) != source_headers_seq() {
            Err(structure_error_view(FILE_NAME@, name, "第2行表头与规定的60个字段不一致"@))
        } else {
            match closing_row_spec(sheet, FILE_NAME@) {
                Err(e) => Err(e),
                Ok(last) => match read_rows_spec(sheet, FILE_NAME@, name, 3, data_row_count(last)) {
                    Err(e) => Err(e),
                    Ok(rs) => Ok(remarked(rs).map_values(|r: ReceiptRecordView| receipt_row_view(r))),
                },
            }
        }
    }
}

/// The output columns, in order.
pub fn output_columns() -> (res: Vec<Column>)
    ensures
        columns_view(res@) == receipt_columns(),
{
    let v = vec![
        Column { name: "日期", ty: ColumnType::Date },
        Column { name: "单据号", ty: ColumnType::Text },
        Column { name: "商品名称", ty: ColumnType::Text },
        Column { name: "原票号", ty: ColumnType::Text },
        Column { name: "匹配单据号", ty: ColumnType::Text },
        Column { name: "备注", ty: ColumnType::Text },
    ];
    assert(columns_view(v@) =~= receipt_columns());
    v
}

/// The output row of a record.
pub fn to_row(record: &ReceiptRecord) -> (row: Row)
    ensures
        row@ == receipt_row_view(record@),
{
    let values = vec![
        record.date.copied(),
        text_value(record.doc_no.clone()),
        text_value(record.product_name.clone()),
        text_value(record.original_ticket_no.clone()),
        text_value(record.match_doc_no.clone()),
        text_value(record.remark.clone()),
    ];
    let row = Row { values, fill: None };
    assert(row@.values =~= receipt_row_view(record@).values);
    row
}

/// The receipt statistics job.
pub struct ReceiptsJob;

impl ReceiptsJob {
    pub fn category(&self) -> (c: Category)
        ensures
            c == Category::Receipts,
    {
        Category::Receipts
    }

    pub fn title(&self) -> (t: &'static str)
        ensures
            t@ == "收款单统计"@,
    {
        "收款单统计"
    }

    pub fn output_stem(&self) -> (t: &'static str)
        ensures
            t@ == "收款单统计"@,
    {
        "收款单统计"
    }

    /// Processes the sheets of the source workbook into the output table.
    pub fn process(&self, sheets: &Vec<SheetGrid>) -> (res: Result<Table, ProcessError>)
        ensures
            match res {
                Ok(t) => receipt_rows_spec(sheets@) == Ok::<Seq<RowView>, ErrorView>(t@.rows)
                    && columns_view(t.columns@) == receipt_columns(),
                Err(e) => receipt_rows_spec(sheets@) == Err::<Seq<RowView>, ErrorView>(e@),
            },
    {
        if sheets.len() != 1 {
            return Err(sheet_count_error(FILE_NAME, sheets.len()));
        }
        let sheet = &sheets[0];
        let sheet_name = sheet.name();
        let header = sheet.row_texts(2);
        if !texts_equal(&header, &source_headers()) {
            return Err(
                ProcessError::Structure {
                    file: FILE_NAME.to_owned(),
                    sheet: sheet_name.to_owned(),
                    detail: "第2行表头与规定的60个字段不一致".to_owned(),
                },
            );
        }
        let last_row = match closing_row(sheet, FILE_NAME) {
            Ok(r) => r,
            Err(e) => return Err(e),
        };
        let ghost total = data_row_count(last_row);
        let mut records: Vec<ReceiptRecord> = Vec::new();
        let mut row: u32 = 3;
        assert(record_views(records@) =~= Seq::<ReceiptRecordView>::empty());
        while row < last_row
            invariant
                sheets@.len() == 1,
                *sheet == sheets@[0],
                sheet.row_texts_spec(2) == source_headers_seq(),
                closing_row_spec(*sheet, FILE_NAME@) == Ok::<u32, ErrorView>(last_row),
                3 <= row,
                row <= last_row || row == 3,
                total == data_row_count(last_row),
                sheet_name@ == sheet.name_spec(),
                read_rows_spec(*sheet, FILE_NAME@, sheet_name@, 3, (row - 3) as nat) == Ok::<
                    Seq<ReceiptRecordView>,
                    ErrorView,
                >(record_views(records@)),
            decreases last_row - row,
        {
            match read_row(sheet, row, FILE_NAME, sheet_name) {
                Ok(r) => {
                    let ghost before = records@;
                    records.push(r);
                    assert(record_views(records@) =~= record_views(before).push(r@));
                },
                Err(e) => {
                    proof {
                        let c = (row - 3 + 1) as nat;
                        assert(read_rows_spec(*sheet, FILE_NAME@, sheet_name@, 3, c) == Err::<
                            Seq<ReceiptRecordView>,
                            ErrorView,
                        >(e@));
                        lemma_read_rows_err_extends(*sheet, FILE_NAME@, sheet_name@, 3, c, total);
                    }
                    return Err(e);
                },
            }
            row = row + 1;
        }
        let ghost rs = record_views(records@);
        assert(read_rows_spec(*sheet, FILE_NAME@, sheet_name@, 3, total) == Ok::<
            Seq<ReceiptRecordView>,
            ErrorView,
        >(rs));
        compute_remarks(&mut records);
        assert(record_views(records@) =~= remarked(rs));
        let mut rows: Vec<Row> = Vec::new();
        let mut i: usize = 0;
        while i < records.len()
            invariant
                i <= records@.len(),
                rows@.len() == i,
                forall|k: int| 0 <= k < i ==> #[trigger] rows@[k]@ == receipt_row_view(records@[k]@),
            decreases records@.len() - i,
        {
            rows.push(to_row(&records[i]));
            i = i + 1;
        }
        let table = Table { columns: output_columns(), rows };
        assert(table@.rows =~= remarked(rs).map_values(|r: ReceiptRecordView| receipt_row_view(r)));
        Ok(table)
    }
}

/// The output keeps the source's order: output row `k` is source row `k + 3`, read as it
/// stands, with only its remark worked out over all the rows.
pub proof fn lemma_receipts_keep_row_order(sheets: Seq<SheetGrid>, k: int)
    requires
        receipt_rows_spec(sheets) is Ok,
        0 <= k < receipt_rows_spec(sheets)->Ok_0.len(),
    ensures
        ({
            let sheet = sheets[0];
            let name = sheet.name_spec();
            let rs = read_rows_spec(
                sheet,
                FILE_NAME@,
                name,
                3,
                data_row_count(closing_row_spec(sheet, FILE_NAME@)->Ok_0),
            )->Ok_0;
            &&& read_row_spec(sheet, FILE_NAME@, name, (k + 3) as u32) == Ok::<ReceiptRecordView, ErrorView>(rs[k])
            &&& receipt_rows_spec(sheets)->Ok_0[k] == receipt_row_view(with_remark(rs[k], final_remark(rs, k)))
        }),
{
    let sheet = sheets[0];
    let name = sheet.name_spec();
    let count = data_row_count(closing_row_spec(sheet, FILE_NAME@)->Ok_0);
    lemma_read_rows_ok(sheet, FILE_NAME@, name, 3, count);
    let rs = read_rows_spec(sheet, FILE_NAME@, name, 3, count)->Ok_0;
    assert(read_row_spec(sheet, FILE_NAME@, name, (3 + k) as u32) == Ok::<ReceiptRecordView, ErrorView>(rs[k]));
}


/// Every output row has one value per output column, so the table passes the check before it
/// is written.
pub proof fn lemma_receipt_rows_fit_columns(sheets: Seq<SheetGrid>)
    requires
        receipt_rows_spec(sheets) is Ok,
    ensures
        forall|i: int|
            0 <= i < receipt_rows_spec(sheets)->Ok_0.len() ==> (#[trigger] receipt_rows_spec(sheets)->Ok_0[i]).values.len()
                == receipt_columns().len(),
{
}


/// The remark each record ends with, by its sale category: a return is marked "退货-退单"; a
/// retail price adjustment or a same-model exchange is marked "补差/同型号换货" when its original
/// ticket is the matching document number of some record, and keeps its own category as remark
/// otherwise; a normal sale is marked "退货-原单" or nothing; any other record has no remark.
pub proof fn lemma_remarks_by_category(rs: Seq<ReceiptRecordView>, k: int)
    requires
        0 <= k < rs.len(),
    ensures
        rs[k].sale_category == "退货"@ ==> final_remark(rs, k) == "退货-退单"@,
        (rs[k].sale_category == "零售补差"@ || rs[k].sale_category == "同型号换货"@) ==> {
            if rs[k].original_ticket_no.len() > 0 && exists|j: int|
                0 <= j < rs.len() && #[trigger] rs[j].match_doc_no == rs[k].original_ticket_no {
                final_remark(rs, k) == "补差/同型号换货"@
            } else {
                final_remark(rs, k) == rs[k].sale_category
            }
        },
        rs[k].sale_category == "正常销售"@ ==> (final_remark(rs, k) == "退货-原单"@ || final_remark(
            rs,
            k,
        ).len() == 0),
        (rs[k].sale_category != "退货"@ && rs[k].sale_category != "零售补差"@ && rs[k].sale_category
            != "同型号换货"@ && rs[k].sale_category != "正常销售"@) ==> final_remark(rs, k).len() == 0,
{
    reveal_strlit("退货");
    reveal_strlit("零售补差");
    reveal_strlit("同型号换货");
    reveal_strlit("正常销售");
    reveal_strlit("退货-退单");
    reveal_strlit("退货-原单");
    reveal_strlit("补差/同型号换货");
    assert("退货"@.len() == 2);
    assert("零售补差"@.len() == 4);
    assert("同型号换货"@.len() == 5);
    assert("正常销售"@.len() == 4);
    assert("零售补差"@[0] != "正常销售"@[0]);
    assert("零售补差"@ != "正常销售"@);
    let cat = rs[k].sale_category;
    if cat == "正常销售"@ {
        assert(cat != "退货"@ && cat != "零售补差"@ && cat != "同型号换货"@);
        assert(!is_rebate_category(cat));
        assert(initial_remark_seq(cat).len() == 0);
    }
    if cat != "正常销售"@ {
        assert(!original_hit(rs, k));
        assert(final_remark(rs, k) == remark_after_matching(rs, k));
    }
    if cat == "退货"@ {
        assert(cat != "零售补差"@ && cat != "同型号换货"@);
        assert(!is_rebate_category(cat));
        assert(initial_remark_seq(cat) == "退货-退单"@);
    }
    if cat == "零售补差"@ {
        assert(cat != "退货"@);
        assert(initial_remark_seq(cat) == cat);
    }
    if cat == "同型号换货"@ {
        assert(cat != "退货"@ && cat != "零售补差"@);
        assert(initial_remark_seq(cat) == cat);
    }
}

/// The remark a sale category alone gives names the category: for a return, a retail price
/// adjustment and a same-model exchange it starts with the category's name, and no other
/// category gives one.
pub proof fn lemma_initial_remark_names_category(cat: Seq<char>)
    ensures
        (cat == "退货"@ || cat == "零售补差"@ || cat == "同型号换货"@) ==> initial_remark_seq(cat).len()
            > 0 && cat.is_prefix_of(initial_remark_seq(cat)),
        !(cat == "退货"@ || cat == "零售补差"@ || cat == "同型号换货"@) ==> initial_remark_seq(cat).len()
            == 0,
{
    reveal_strlit("退货");
    reveal_strlit("零售补差");
    reveal_strlit("同型号换货");
    reveal_strlit("退货-退单");
    if cat == "退货"@ {
        assert(cat.is_prefix_of("退货-退单"@));
    }
}

} // verus!
