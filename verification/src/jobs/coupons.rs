use vstd::prelude::*;
use vstd::hash_set::StringHashSet;
use vstd::string::StringSliceAdditionalSpecFns;
use vstd::utf8::*;

use crate::bindings::regex_search::{
    ascii_text, find_reference_matches, is_ascii_digit_byte, is_reference_bytes, reference_at,
    reference_pattern, reference_positions,
};
use crate::bindings::decimal_ops::{decimal_from_str, parse_decimal};
use crate::bindings::std_text::string_from_chars;
use crate::io::sheet::{RawCell, SheetGrid};
use crate::jobs::{
    build_match_doc_no, cell_display, cell_display_seq, closing_row, closing_row_spec,
    data_error, data_error_view, data_row_count, date_field_spec, match_doc_no_seq,
    parse_date_field, sheet_count_error, sheet_count_message, structure_error_view, text_at,
    text_field_spec, text_value, texts_equal, Category,
};
use crate::model::decimal::{round_cents, within_cent_tolerance, Decimal};
use crate::model::error::{result_view, ErrorView, ProcessError};
use crate::model::schema::{columns_view, Column, ColumnType, DecimalScale};
use crate::model::table::{Row, RowView, Table};
use crate::model::value::{text_value_view, Value, ValueView};
use crate::utils::numbers::to_cents;
use crate::utils::natural_sort::{digit_run_len, lemma_digit_run_len_bounds};
use crate::utils::strings::{
    chars_of, is_ascii_digit, is_ascii_digit_char, is_blank, lemma_trim_blank, str_eq, trim,
    trim_seq, views,
};
use crate::utils::text::{has_isolated_boundaries, isolated_boundaries};
use crate::utils::utf8_ascii::{
    lemma_ascii_byte_boundaries, lemma_ascii_bytes_ascii_chars, lemma_ascii_text_bytes,
};

verus! {

/// A reference number: eleven ASCII digits and a capital `N`.
pub open spec fn is_reference_chars(c: Seq<char>) -> bool {
    &&& c.len() == 12
    &&& forall|i: int| 0 <= i < 11 ==> is_ascii_digit(#[trigger] c[i])
    &&& c[11] == 'N'
}

/// Whether `value` has the shape of a reference number (eleven digits and a capital `N`).
pub fn is_valid_ref_no(value: &str) -> (res: bool)
    ensures
        res == is_reference_chars(value@),
{
    let b = value.as_bytes();
    let ghost chars = value@;
    let ghost bytes = value.spec_bytes();
    let mut ok = b.len() == 12 && b[11] == 0x4e;
    if ok {
        let mut i: usize = 0;
        while i < 11
            invariant
                b@ == bytes,
                bytes.len() == 12,
                i <= 11,
                ok == forall|j: int| 0 <= j < i ==> is_ascii_digit_byte(#[trigger] bytes[j]),
            decreases 11 - i,
        {
            ok = ok && 0x30 <= b[i] && b[i] <= 0x39;
            i = i + 1;
        }
    }
    proof {
        if is_reference_chars(chars) {
            assert(is_ascii_chars(chars));
            lemma_ascii_text_bytes(chars);
            assert(chars[11] as int == bytes[11] as int);
            assert forall|j: int| 0 <= j < 11 implies is_ascii_digit_byte(#[trigger] bytes[j]) by {
                assert(chars[j] as int == bytes[j] as int);
            }
        } else if is_reference_bytes(bytes) {
            assert forall|j: int| 0 <= j < bytes.len() implies #[trigger] bytes[j] < 0x80 by {
                if j < 11 {
                    assert(is_ascii_digit_byte(bytes[j]));
                }
            }
            lemma_ascii_bytes_ascii_chars(chars);
            lemma_ascii_text_bytes(chars);
            assert(chars[11] as int == bytes[11] as int);
            assert forall|j: int| 0 <= j < 11 implies is_ascii_digit(#[trigger] chars[j]) by {
                assert(chars[j] as int == bytes[j] as int);
                assert(is_ascii_digit_byte(bytes[j]));
            }
        }
    }
    ok
}

/// The text of the reference number found at byte `p`.
pub open spec fn reference_text_at(b: Seq<u8>, p: int) -> Seq<char> {
    ascii_text(b.subrange(p, p + 12))
}

/// Level one: the reference numbers written out in full at the given positions that stand on
/// their own and are known to the authority, in order.
pub open spec fn as_is_hit_seq(b: Seq<u8>, authority: Set<Seq<char>>, ps: Seq<int>) -> Seq<
    Seq<char>,
>
    decreases ps.len(),
{
    if ps.len() == 0 {
        seq![]
    } else {
        let p = ps.last();
        let rest = as_is_hit_seq(b, authority, ps.drop_last());
        if isolated_boundaries(b, p, p + 12) && authority.contains(reference_text_at(b, p)) {
            rest.push(reference_text_at(b, p))
        } else {
            rest
        }
    }
}

/// Level one of the reference search: every complete `[0-9]{11}N` in the summary that touches
/// no digit or ASCII letter on either side and that the authority knows, in order.
pub fn as_is_hits(summary: &str, authority: &StringHashSet) -> (res: Vec<String>)
    ensures
        res@.map_values(|s: String| s@) == as_is_hit_seq(
            summary.spec_bytes(),
            authority@,
            reference_positions(summary.spec_bytes(), 0),
        ),
{
    proof {
        reveal_strlit("[0-9]{11}N");
        assert("[0-9]{11}N"@ =~= reference_pattern());
    }
    let matches = find_reference_matches("[0-9]{11}N", summary);
    let ghost b = summary.spec_bytes();
    let ghost ps = reference_positions(b, 0);
    proof {
        encode_utf8_valid_utf8(summary@);
    }
    let mut out: Vec<String> = Vec::new();
    let mut k: usize = 0;
    while k < matches.len()
        invariant
            b == summary.spec_bytes(),
            valid_utf8(b),
            ps == reference_positions(b, 0),
            matches@.len() == ps.len(),
            forall|t: int|
                0 <= t < matches@.len() ==> {
                    &&& #[trigger] matches@[t].0 == ps[t]
                    &&& matches@[t].1 == matches@[t].0 + 12
                    &&& matches@[t].2@ == ascii_text(b.subrange(matches@[t].0 as int, matches@[t].0 + 12))
                },
            k <= matches@.len(),
            out@.map_values(|s: String| s@) == as_is_hit_seq(b, authority@, ps.take(k as int)),
        decreases matches@.len() - k,
    {
        let start = matches[k].0;
        let end = matches[k].1;
        proof {
            lemma_reference_positions_valid(b, 0, k as int);
            assert(reference_at(b, start as int));
            let r = b.subrange(start as int, start + 12);
            assert(r[0] == b[start as int]);
            assert(is_ascii_digit_byte(r[0]));
            lemma_ascii_byte_boundaries(b, start as int);
            assert(r[11] == b[start + 11]);
            lemma_ascii_byte_boundaries(b, start + 11);
        }
        let iso = has_isolated_boundaries(summary, start, end);
        let known = iso && authority.contains(matches[k].2.as_str());
        let ghost before = out@;
        if known {
            out.push(matches[k].2.clone());
        }
        proof {
            assert(ps.take(k + 1).drop_last() =~= ps.take(k as int));
            assert(ps.take(k + 1).last() == ps[k as int]);
            assert(out@.map_values(|s: String| s@) =~= as_is_hit_seq(b, authority@, ps.take(k + 1)));
        }
        k = k + 1;
    }
    proof {
        assert(ps.take(k as int) =~= ps);
    }
    out
}

proof fn lemma_reference_positions_valid(b: Seq<u8>, i: int, k: int)
    requires
        0 <= k < reference_positions(b, i).len(),
    ensures
        reference_at(b, reference_positions(b, i)[k]),
        reference_positions(b, i)[k] >= i,
    decreases b.len() + 1 - i,
{
    if i < 0 || i + 12 > b.len() {
    } else if reference_at(b, i) {
        if k > 0 {
            lemma_reference_positions_valid(b, i + 1, k - 1);
        }
    } else {
        lemma_reference_positions_valid(b, i + 1, k);
    }
}

/// The maximal runs of ASCII digits from character `i` on, as character ranges, in order.
pub open spec fn digit_run_ranges(s: Seq<char>, i: int) -> Seq<(int, int)>
    decreases s.len() - i,
{
    if i < 0 || i >= s.len() {
        seq![]
    } else if !is_ascii_digit(s[i]) {
        digit_run_ranges(s, i + 1)
    } else {
        proof {
            lemma_digit_run_len_bounds(s.skip(i));
            assert(s.skip(i)[0] == s[i]);
        }
        let j = i + digit_run_len(s.skip(i)) as int;
        seq![(i, j)] + digit_run_ranges(s, j)
    }
}

pub open spec fn ranges_as_int(r: Seq<(usize, usize)>) -> Seq<(int, int)> {
    r.map_values(|x: (usize, usize)| (x.0 as int, x.1 as int))
}

/// Character ranges of the maximal runs of ASCII digits in `v`, in order.
pub fn maximal_digit_runs(v: &Vec<char>) -> (res: Vec<(usize, usize)>)
    ensures
        ranges_as_int(res@) == digit_run_ranges(v@, 0),
{
    let n = v.len();
    let ghost s = v@;
    let mut out: Vec<(usize, usize)> = Vec::new();
    let mut i: usize = 0;
    while i < n
        invariant
            n == s.len(),
            s == v@,
            i <= n,
            ranges_as_int(out@) + digit_run_ranges(s, i as int) == digit_run_ranges(s, 0),
        decreases n - i,
    {
        if is_ascii_digit_char(v[i]) {
            let mut j: usize = i;
            while j < n && is_ascii_digit_char(v[j])
                invariant
                    n == s.len(),
                    s == v@,
                    i <= j <= n,
                    forall|t: int| i <= t < j ==> is_ascii_digit(#[trigger] s[t]),
                decreases n - j,
            {
                j = j + 1;
            }
            proof {
                let t = s.skip(i as int);
                lemma_digit_run_len_bounds(t);
                let k = digit_run_len(t) as int;
                assert(t[0] == s[i as int]);
                if k < j - i {
                    assert(t[k] == s[i + k]);
                }
                if j - i < k {
                    assert(t[j - i] == s[j as int]);
                }
                assert(k == j - i);
                assert(ranges_as_int(out@.push((i, j))) =~= ranges_as_int(out@).push((i as int, j as int)));
            }
            out.push((i, j));
            i = j;
        } else {
            i = i + 1;
        }
    }
    proof {
        assert(digit_run_ranges(s, n as int) == Seq::<(int, int)>::empty());
        assert(ranges_as_int(out@) =~= ranges_as_int(out@) + Seq::<(int, int)>::empty());
    }
    out
}

/// The runs among `rs` that hold ten to twelve digits, as text, in order.
pub open spec fn run_candidates(s: Seq<char>, rs: Seq<(int, int)>) -> Seq<Seq<char>>
    decreases rs.len(),
{
    if rs.len() == 0 {
        seq![]
    } else {
        let r = rs.last();
        let rest = run_candidates(s, rs.drop_last());
        if 10 <= r.1 - r.0 <= 12 {
            rest.push(s.subrange(r.0, r.1))
        } else {
            rest
        }
    }
}

/// The ASCII digits of `s`, in order.
pub open spec fn digits_only(s: Seq<char>) -> Seq<char>
    decreases s.len(),
{
    if s.len() == 0 {
        seq![]
    } else if is_ascii_digit(s.last()) {
        digits_only(s.drop_last()).push(s.last())
    } else {
        digits_only(s.drop_last())
    }
}

/// The letters whose presence lets all digits of a summary be read together.
pub open spec fn is_trigger_letter(c: char) -> bool {
    c == 'N' || c == 'n' || c == 'W' || c == 'w' || c == 'M' || c == 'm' || c == 'H' || c == 'h'
        || c == 'B' || c == 'b'
}

pub open spec fn has_trigger_letter(s: Seq<char>) -> bool {
    exists|i: int| 0 <= i < s.len() && is_trigger_letter(#[trigger] s[i])
}

/// Candidates for levels two to four: every maximal run of ten to twelve digits, in order,
/// and, when the summary holds a trigger letter, all its digits read together if they number
/// ten to twelve.
pub open spec fn digit_candidates_seq(s: Seq<char>) -> Seq<Seq<char>> {
    let runs = run_candidates(s, digit_run_ranges(s, 0));
    let all = digits_only(s);
    if has_trigger_letter(s) && 10 <= all.len() <= 12 {
        runs.push(all)
    } else {
        runs
    }
}

fn is_trigger_letter_char(c: char) -> (b: bool)
    ensures
        b == is_trigger_letter(c),
{
    c == 'N' || c == 'n' || c == 'W' || c == 'w' || c == 'M' || c == 'm' || c == 'H' || c == 'h'
        || c == 'B' || c == 'b'
}

/// Candidate digit strings of the summary for the levels that work on digits alone.
pub fn digit_candidates(summary: &str) -> (res: Vec<String>)
    ensures
        views(res@) == digit_candidates_seq(summary@),
{
    let v = chars_of(summary);
    let ghost s = v@;
    let runs = maximal_digit_runs(&v);
    let ghost rs = ranges_as_int(runs@);
    let mut out: Vec<String> = Vec::new();
    let mut k: usize = 0;
    while k < runs.len()
        invariant
            s == v@,
            s == summary@,
            rs == ranges_as_int(runs@),
            rs == digit_run_ranges(s, 0),
            k <= runs@.len(),
            views(out@) == run_candidates(s, rs.take(k as int)),
        decreases runs@.len() - k,
    {
        let (a, b) = runs[k];
        proof {
            lemma_digit_run_ranges_bounds(s, 0, k as int);
            assert(rs[k as int] == (a as int, b as int));
            assert(rs.take(k + 1).drop_last() =~= rs.take(k as int));
            assert(rs.take(k + 1).last() == rs[k as int]);
        }
        if b - a >= 10 && b - a <= 12 {
            let piece = summary.substring_char(a, b).to_owned();
            out.push(piece);
        }
        proof {
            assert(views(out@) =~= run_candidates(s, rs.take(k + 1)));
        }
        k = k + 1;
    }
    proof {
        assert(rs.take(k as int) =~= rs);
    }
    let mut trigger = false;
    let mut digits: Vec<char> = Vec::new();
    let n = v.len();
    let mut i: usize = 0;
    while i < n
        invariant
            s == v@,
            n == s.len(),
            i <= n,
            trigger == exists|t: int| 0 <= t < i && is_trigger_letter(#[trigger] s[t]),
            digits@ == digits_only(s.take(i as int)),
        decreases n - i,
    {
        let c = v[i];
        if is_trigger_letter_char(c) {
            trigger = true;
        }
        if is_ascii_digit_char(c) {
            digits.push(c);
        }
        proof {
            assert(s.take(i + 1).drop_last() =~= s.take(i as int));
            assert(s.take(i + 1).last() == c);
            if trigger && !is_trigger_letter(c) {
                let t = choose|t: int| 0 <= t < i && is_trigger_letter(#[trigger] s[t]);
                assert(0 <= t < i + 1 && is_trigger_letter(s[t]));
            }
            if is_trigger_letter(c) {
                assert(is_trigger_letter(s[i as int]));
            }
        }
        i = i + 1;
    }
    proof {
        assert(s.take(n as int) =~= s);
    }
    if trigger && digits.len() >= 10 && digits.len() <= 12 {
        let all = string_from_chars(digits);
        out.push(all);
        proof {
            assert(views(out@) =~= digit_candidates_seq(s));
        }
    }
    out
}

proof fn lemma_digit_run_ranges_bounds(s: Seq<char>, i: int, k: int)
    requires
        0 <= k < digit_run_ranges(s, i).len(),
    ensures
        i <= digit_run_ranges(s, i)[k].0 < digit_run_ranges(s, i)[k].1 <= s.len(),
        forall|t: int|
            digit_run_ranges(s, i)[k].0 <= t < digit_run_ranges(s, i)[k].1 ==> is_ascii_digit(
                #[trigger] s[t],
            ),
    decreases s.len() - i,
{
    if i < 0 || i >= s.len() {
    } else if !is_ascii_digit(s[i]) {
        lemma_digit_run_ranges_bounds(s, i + 1, k);
    } else {
        let t = s.skip(i);
        lemma_digit_run_len_bounds(t);
        assert(t[0] == s[i]);
        let j = i + digit_run_len(t) as int;
        if k > 0 {
            lemma_digit_run_ranges_bounds(s, j, k - 1);
        } else {
            assert forall|x: int| i <= x < j implies is_ascii_digit(#[trigger] s[x]) by {
                assert(t[x - i] == s[x]);
            }
        }
    }
}

/// Level three: the eleven-digit candidates that, with a capital `N` added, the authority knows.
pub open spec fn zero_edit_hit_seq(cands: Seq<Seq<char>>, authority: Set<Seq<char>>) -> Seq<
    Seq<char>,
>
    decreases cands.len(),
{
    if cands.len() == 0 {
        seq![]
    } else {
        let c = cands.last();
        let rest = zero_edit_hit_seq(cands.drop_last(), authority);
        if c.len() == 11 && authority.contains(c.push('N')) {
            rest.push(c.push('N'))
        } else {
            rest
        }
    }
}

/// Level three of the reference search: each eleven-digit candidate with a capital `N`
/// appended, kept when the authority knows it; the digits themselves are not changed.
pub fn zero_edit_hits(candidates: &Vec<String>, authority: &StringHashSet) -> (res: Vec<String>)
    ensures
        views(res@) == zero_edit_hit_seq(views(candidates@), authority@),
{
    let ghost cs = views(candidates@);
    let mut out: Vec<String> = Vec::new();
    let mut k: usize = 0;
    while k < candidates.len()
        invariant
            cs == views(candidates@),
            k <= candidates@.len(),
            views(out@) == zero_edit_hit_seq(cs.take(k as int), authority@),
        decreases candidates@.len() - k,
    {
        let c = &candidates[k];
        proof {
            assert(cs.take(k + 1).drop_last() =~= cs.take(k as int));
            assert(cs.take(k + 1).last() == c@);
        }
        if c.as_str().unicode_len() == 11 {
            let mut with_suffix = c.clone();
            with_suffix.append("N");
            proof {
                reveal_strlit("N");
                assert("N"@ =~= seq!['N']);
            }
            assert(with_suffix@ =~= c@.push('N'));
            if authority.contains(with_suffix.as_str()) {
                out.push(with_suffix);
            }
        }
        proof {
            assert(views(out@) =~= zero_edit_hit_seq(cs.take(k + 1), authority@));
        }
        k = k + 1;
    }
    proof {
        assert(cs.take(k as int) =~= cs);
    }
    out
}

/// `v` is `c` changed by exactly one digit: one digit inserted into ten digits, one digit
/// replaced by a different one in eleven, or one digit removed from twelve.
pub open spec fn is_single_edit(c: Seq<char>, v: Seq<char>) -> bool {
    ||| (c.len() == 10 && exists|pos: int, d: char|
        0 <= pos <= 10 && is_ascii_digit(d) && v == #[trigger] insert_at(c, pos, d))
    ||| (c.len() == 11 && exists|pos: int, d: char|
        0 <= pos < 11 && is_ascii_digit(d) && d != c[pos] && v == #[trigger] c.update(pos, d))
    ||| (c.len() == 12 && exists|pos: int| 0 <= pos < 12 && v == #[trigger] c.remove(pos))
}

pub open spec fn insert_at(c: Seq<char>, pos: int, d: char) -> Seq<char> {
    c.take(pos).push(d) + c.skip(pos)
}

pub open spec fn decimal_digit(k: int) -> char {
    if k == 0 { '0' }
    else if k == 1 { '1' }
    else if k == 2 { '2' }
    else if k == 3 { '3' }
    else if k == 4 { '4' }
    else if k == 5 { '5' }
    else if k == 6 { '6' }
    else if k == 7 { '7' }
    else if k == 8 { '8' }
    else { '9' }
}

proof fn lemma_decimal_digits()
    ensures
        forall|k: int| 0 <= k < 10 ==> is_ascii_digit(#[trigger] decimal_digit(k)),
        forall|d: char| is_ascii_digit(d) ==> exists|k: int| 0 <= k < 10 && decimal_digit(k) == d,
{
    assert forall|d: char| is_ascii_digit(d) implies exists|k: int|
        0 <= k < 10 && decimal_digit(k) == d by {
        if d == '0' {
            assert(decimal_digit(0) == d);
        } else if d == '1' {
            assert(decimal_digit(1) == d);
        } else if d == '2' {
            assert(decimal_digit(2) == d);
        } else if d == '3' {
            assert(decimal_digit(3) == d);
        } else if d == '4' {
            assert(decimal_digit(4) == d);
        } else if d == '5' {
            assert(decimal_digit(5) == d);
        } else if d == '6' {
            assert(decimal_digit(6) == d);
        } else if d == '7' {
            assert(decimal_digit(7) == d);
        } else if d == '8' {
            assert(decimal_digit(8) == d);
        } else {
            assert(decimal_digit(9) == d);
        }
    }
}

proof fn lemma_push_contains<A>(s: Seq<A>, y: A, x: A)
    requires
        s.contains(x) || x == y,
    ensures
        s.push(y).contains(x),
{
    if x == y {
        assert(s.push(y)[s.len() as int] == y);
    } else {
        let i = choose|i: int| 0 <= i < s.len() && s[i] == x;
        assert(s.push(y)[i] == x);
    }
}

fn digit_table() -> (res: Vec<char>)
    ensures
        res@.len() == 10,
        forall|k: int| 0 <= k < 10 ==> #[trigger] res@[k] == decimal_digit(k),
{
    let res = vec!['0', '1', '2', '3', '4', '5', '6', '7', '8', '9'];
    assert(res@[0] == '0' && res@[1] == '1' && res@[2] == '2' && res@[3] == '3');
    res
}

fn insert_char(c: &Vec<char>, pos: usize, d: char) -> (res: Vec<char>)
    requires
        pos <= c@.len(),
    ensures
        res@ == insert_at(c@, pos as int, d),
{
    let mut out: Vec<char> = Vec::new();
    let mut i: usize = 0;
    while i < pos
        invariant
            pos <= c@.len(),
            i <= pos,
            out@ == c@.take(i as int),
        decreases pos - i,
    {
        out.push(c[i]);
        i = i + 1;
        assert(out@ =~= c@.take(i as int));
    }
    out.push(d);
    let mut j: usize = pos;
    while j < c.len()
        invariant
            pos <= j <= c@.len(),
            out@ == c@.take(pos as int).push(d) + c@.subrange(pos as int, j as int),
        decreases c@.len() - j,
    {
        out.push(c[j]);
        j = j + 1;
        assert(out@ =~= c@.take(pos as int).push(d) + c@.subrange(pos as int, j as int));
    }
    assert(c@.subrange(pos as int, j as int) =~= c@.skip(pos as int));
    out
}

fn remove_char(c: &Vec<char>, pos: usize) -> (res: Vec<char>)
    requires
        pos < c@.len(),
    ensures
        res@ == c@.remove(pos as int),
{
    let mut out = c.clone();
    out.remove(pos);
    out
}

fn replace_char(c: &Vec<char>, pos: usize, d: char) -> (res: Vec<char>)
    requires
        pos < c@.len(),
    ensures
        res@ == c@.update(pos as int, d),
{
    let mut out = c.clone();
    out.set(pos, d);
    out
}

/// Each digit, `0` to `9` in order, inserted at each place below `p`, place by place.
pub open spec fn insertion_variants(c: Seq<char>, p: int) -> Seq<Seq<char>>
    decreases p,
{
    if p <= 0 {
        seq![]
    } else {
        insertion_variants(c, p - 1) + Seq::new(10, |k: int| insert_at(c, p - 1, decimal_digit(k)))
    }
}

/// The digits below `k`, in order, that differ from the one at place `p`, each put there.
pub open spec fn replacements_at(c: Seq<char>, p: int, k: int) -> Seq<Seq<char>>
    decreases k,
{
    if k <= 0 {
        seq![]
    } else {
        let rest = replacements_at(c, p, k - 1);
        if decimal_digit(k - 1) != c[p] {
            rest.push(c.update(p, decimal_digit(k - 1)))
        } else {
            rest
        }
    }
}

/// The replacements at each place below `p`, place by place.
pub open spec fn replacement_variants(c: Seq<char>, p: int) -> Seq<Seq<char>>
    decreases p,
{
    if p <= 0 {
        seq![]
    } else {
        replacement_variants(c, p - 1) + replacements_at(c, p - 1, 10)
    }
}

/// The one-digit edits of a candidate in the order they are tried: insertions for ten digits,
/// replacements for eleven, removals for twelve, place by place and digit by digit.
pub open spec fn single_edit_variants_seq(c: Seq<char>) -> Seq<Seq<char>> {
    if c.len() == 10 {
        insertion_variants(c, 11)
    } else if c.len() == 11 {
        replacement_variants(c, 11)
    } else if c.len() == 12 {
        Seq::new(12, |p: int| c.remove(p))
    } else {
        seq![]
    }
}

proof fn lemma_insertion_variants(c: Seq<char>, p: int)
    requires
        p >= 0,
    ensures
        insertion_variants(c, p).len() == 10 * p,
        forall|q: int, k: int|
            0 <= q < p && 0 <= k < 10 ==> #[trigger] insertion_variants(c, p)[q * 10 + k] == insert_at(
                c,
                q,
                decimal_digit(k),
            ),
    decreases p,
{
    if p > 0 {
        lemma_insertion_variants(c, p - 1);
        assert forall|q: int, k: int| 0 <= q < p && 0 <= k < 10 implies #[trigger] insertion_variants(
            c,
            p,
        )[q * 10 + k] == insert_at(c, q, decimal_digit(k)) by {
            if q < p - 1 {
                assert(q * 10 + k < 10 * (p - 1)) by (nonlinear_arith)
                    requires
                        q < p - 1,
                        k < 10,
                ;
            } else {
                assert(q * 10 + k - 10 * (p - 1) == k);
            }
        }
    }
}

/// Decimal digits are told apart by their number.
proof fn lemma_decimal_digit_distinct(j: int, k: int)
    requires
        0 <= j < 10,
        0 <= k < 10,
        j != k,
    ensures
        decimal_digit(j) != decimal_digit(k),
{
}

proof fn lemma_replacements_at_len(c: Seq<char>, p: int, j: int, k: int)
    requires
        0 <= j < 10,
        c[p] == decimal_digit(j),
        0 <= k <= 10,
    ensures
        replacements_at(c, p, k).len() == (if j < k {
            k - 1
        } else {
            k
        }),
    decreases k,
{
    if k > 0 {
        lemma_replacements_at_len(c, p, j, k - 1);
        if k - 1 != j {
            lemma_decimal_digit_distinct(k - 1, j);
        }
    }
}

proof fn lemma_replacement_variants_len(c: Seq<char>, p: int)
    requires
        0 <= p <= c.len(),
        forall|i: int| 0 <= i < c.len() ==> is_ascii_digit(#[trigger] c[i]),
    ensures
        replacement_variants(c, p).len() == 9 * p,
    decreases p,
{
    if p > 0 {
        lemma_replacement_variants_len(c, p - 1);
        lemma_decimal_digits();
        assert(is_ascii_digit(c[p - 1]));
        let j = choose|j: int| 0 <= j < 10 && decimal_digit(j) == c[p - 1];
        lemma_replacements_at_len(c, p - 1, j, 10);
    }
}

/// How many edits a candidate has and where each stands: 110 insertions for ten digits (digit
/// `k` at place `q` is number `q * 10 + k`), 99 replacements for eleven digits, 12 removals for
/// twelve (the `p`-th removes place `p`), none for other lengths.
pub proof fn lemma_single_edit_variants_shape(c: Seq<char>)
    ensures
        c.len() == 10 ==> single_edit_variants_seq(c).len() == 110 && forall|q: int, k: int|
            0 <= q < 11 && 0 <= k < 10 ==> #[trigger] single_edit_variants_seq(c)[q * 10 + k]
                == insert_at(c, q, decimal_digit(k)),
        c.len() == 11 && (forall|i: int| 0 <= i < 11 ==> is_ascii_digit(#[trigger] c[i]))
            ==> single_edit_variants_seq(c).len() == 99,
        c.len() == 12 ==> single_edit_variants_seq(c).len() == 12 && forall|p: int|
            0 <= p < 12 ==> #[trigger] single_edit_variants_seq(c)[p] == c.remove(p),
        c.len() < 10 || c.len() > 12 ==> single_edit_variants_seq(c).len() == 0,
{
    if c.len() == 10 {
        lemma_insertion_variants(c, 11);
    }
    if c.len() == 11 && (forall|i: int| 0 <= i < 11 ==> is_ascii_digit(#[trigger] c[i])) {
        lemma_replacement_variants_len(c, 11);
    }
}

/// Every text one digit edit away from `candidate`: with ten digits, each digit inserted at
/// each place; with eleven, each place changed to each other digit; with twelve, each digit
/// removed. Other lengths give nothing.
pub fn single_edit_variants(candidate: &String) -> (res: Vec<String>)
    ensures
        views(res@) == single_edit_variants_seq(candidate@),
        forall|v: Seq<char>| #[trigger] views(res@).contains(v) <==> is_single_edit(candidate@, v),
{
    let c = chars_of(candidate.as_str());
    let ghost cs = c@;
    let digits = digit_table();
    proof {
        lemma_decimal_digits();
    }
    let mut out: Vec<String> = Vec::new();
    let n = c.len();
    assert(views(out@) =~= Seq::<Seq<char>>::empty());
    assert(Seq::new(0, |p: int| cs.remove(p)) =~= Seq::<Seq<char>>::empty());
    if n == 10 {
        let mut pos: usize = 0;
        while pos <= n
            invariant
                n == 10,
                n == c@.len(),
                cs == c@,
                cs == candidate@,
                digits@.len() == 10,
                forall|k: int| 0 <= k < 10 ==> #[trigger] digits@[k] == decimal_digit(k),
                pos <= n + 1,
                views(out@) == insertion_variants(cs, pos as int),
                forall|v: Seq<char>| #[trigger] views(out@).contains(v) ==> is_single_edit(cs, v),
                forall|p: int, k: int|
                    0 <= p < pos && 0 <= k < 10 ==> views(out@).contains(
                        #[trigger] insert_at(cs, p, decimal_digit(k)),
                    ),
            decreases n + 1 - pos,
        {
            let mut k: usize = 0;
            assert(views(out@) =~= insertion_variants(cs, pos as int) + Seq::new(
                0,
                |k2: int| insert_at(cs, pos as int, decimal_digit(k2)),
            ));
            while k < 10
                invariant
                    n == 10,
                    n == c@.len(),
                    cs == c@,
                    cs == candidate@,
                    digits@.len() == 10,
                    forall|k: int| 0 <= k < 10 ==> #[trigger] digits@[k] == decimal_digit(k),
                    pos <= n,
                    k <= 10,
                    views(out@) == insertion_variants(cs, pos as int) + Seq::new(
                        k as nat,
                        |k2: int| insert_at(cs, pos as int, decimal_digit(k2)),
                    ),
                    forall|v: Seq<char>|
                        #[trigger] views(out@).contains(v) ==> is_single_edit(cs, v),
                    forall|p: int, k2: int|
                        0 <= p < pos && 0 <= k2 < 10 ==> views(out@).contains(
                            #[trigger] insert_at(cs, p, decimal_digit(k2)),
                        ),
                    forall|k2: int|
                        0 <= k2 < k ==> views(out@).contains(
                            #[trigger] insert_at(cs, pos as int, decimal_digit(k2)),
                        ),
                decreases 10 - k,
            {
                let v = insert_char(&c, pos, digits[k]);
                let s = string_from_chars(v);
                let ghost old_out = views(out@);
                out.push(s);
                proof {
                    assert(views(out@) =~= old_out.push(s@));
                    assert(views(out@) =~= insertion_variants(cs, pos as int) + Seq::new(
                        (k + 1) as nat,
                        |k2: int| insert_at(cs, pos as int, decimal_digit(k2)),
                    ));
                    assert(is_single_edit(cs, s@)) by {
                        assert(is_ascii_digit(decimal_digit(k as int)));
                        assert(s@ == insert_at(cs, pos as int, decimal_digit(k as int)));
                    }
                    assert forall|w: Seq<char>| #[trigger] views(out@).contains(w) implies is_single_edit(cs, w) by {
                        if w != s@ {
                            assert(old_out.contains(w));
                        }
                    }
                    assert forall|p: int, k2: int|
                        0 <= p < pos && 0 <= k2 < 10 implies views(out@).contains(
                            #[trigger] insert_at(cs, p, decimal_digit(k2)),
                        ) by {
                        lemma_push_contains(old_out, s@, insert_at(cs, p, decimal_digit(k2)));
                    }
                    assert forall|k2: int|
                        0 <= k2 < k + 1 implies views(out@).contains(
                            #[trigger] insert_at(cs, pos as int, decimal_digit(k2)),
                        ) by {
                        if k2 < k {
                            lemma_push_contains(old_out, s@, insert_at(cs, pos as int, decimal_digit(k2)));
                        } else {
                            lemma_push_contains(old_out, s@, s@);
                        }
                    }
                }
                k = k + 1;
            }
            assert(views(out@) =~= insertion_variants(cs, pos + 1));
            pos = pos + 1;
        }
        proof {
            assert forall|v: Seq<char>| is_single_edit(cs, v) implies #[trigger] views(out@).contains(v) by {
                let (p, d) = choose|p: int, d: char|
                    0 <= p <= 10 && is_ascii_digit(d) && v == #[trigger] insert_at(cs, p, d);
                let k = choose|k: int| 0 <= k < 10 && decimal_digit(k) == d;
                assert(views(out@).contains(insert_at(cs, p, decimal_digit(k))));
            }
        }
    } else if n == 11 {
        let mut pos: usize = 0;
        while pos < n
            invariant
                n == 11,
                n == c@.len(),
                cs == c@,
                cs == candidate@,
                digits@.len() == 10,
                forall|k: int| 0 <= k < 10 ==> #[trigger] digits@[k] == decimal_digit(k),
                pos <= n,
                views(out@) == replacement_variants(cs, pos as int),
                forall|v: Seq<char>| #[trigger] views(out@).contains(v) ==> is_single_edit(cs, v),
                forall|p: int, k: int|
                    0 <= p < pos && 0 <= k < 10 && decimal_digit(k) != cs[p] ==> views(
                        out@,
                    ).contains(#[trigger] cs.update(p, decimal_digit(k))),
            decreases n - pos,
        {
            let mut k: usize = 0;
            assert(views(out@) =~= replacement_variants(cs, pos as int) + replacements_at(
                cs,
                pos as int,
                0,
            ));
            while k < 10
                invariant
                    n == 11,
                    n == c@.len(),
                    cs == c@,
                    cs == candidate@,
                    digits@.len() == 10,
                    forall|k: int| 0 <= k < 10 ==> #[trigger] digits@[k] == decimal_digit(k),
                    pos < n,
                    k <= 10,
                    views(out@) == replacement_variants(cs, pos as int) + replacements_at(
                        cs,
                        pos as int,
                        k as int,
                    ),
                    forall|v: Seq<char>|
                        #[trigger] views(out@).contains(v) ==> is_single_edit(cs, v),
                    forall|p: int, k2: int|
                        0 <= p < pos && 0 <= k2 < 10 && decimal_digit(k2) != cs[p] ==> views(
                            out@,
                        ).contains(#[trigger] cs.update(p, decimal_digit(k2))),
                    forall|k2: int|
                        0 <= k2 < k && decimal_digit(k2) != cs[pos as int] ==> views(
                            out@,
                        ).contains(#[trigger] cs.update(pos as int, decimal_digit(k2))),
                decreases 10 - k,
            {
                let d = digits[k];
                let ghost before = views(out@);
                if d != c[pos] {
                    let v = replace_char(&c, pos, d);
                    let s = string_from_chars(v);
                    let ghost old_out = views(out@);
                    out.push(s);
                    proof {
                        assert(views(out@) =~= old_out.push(s@));
                        assert(s@ == cs.update(pos as int, decimal_digit(k as int)));
                        assert(is_single_edit(cs, s@)) by {
                            assert(is_ascii_digit(decimal_digit(k as int)));
                        }
                        assert forall|w: Seq<char>| #[trigger] views(out@).contains(w) implies is_single_edit(cs, w) by {
                            if w != s@ {
                                assert(old_out.contains(w));
                            }
                        }
                        assert forall|p: int, k2: int|
                            0 <= p < pos && 0 <= k2 < 10 && decimal_digit(k2) != cs[p] implies views(
                                out@,
                            ).contains(#[trigger] cs.update(p, decimal_digit(k2))) by {
                            lemma_push_contains(old_out, s@, cs.update(p, decimal_digit(k2)));
                        }
                        assert forall|k2: int|
                            0 <= k2 < k + 1 && decimal_digit(k2) != cs[pos as int] implies views(
                                out@,
                            ).contains(#[trigger] cs.update(pos as int, decimal_digit(k2))) by {
                            if k2 < k {
                                lemma_push_contains(old_out, s@, cs.update(pos as int, decimal_digit(k2)));
                            } else {
                                lemma_push_contains(old_out, s@, s@);
                            }
                        }
                    }
                }
                assert(views(out@) =~= replacement_variants(cs, pos as int) + replacements_at(
                    cs,
                    pos as int,
                    k + 1,
                ));
                k = k + 1;
            }
            assert(views(out@) =~= replacement_variants(cs, pos + 1));
            pos = pos + 1;
        }
        proof {
            assert forall|v: Seq<char>| is_single_edit(cs, v) implies #[trigger] views(out@).contains(v) by {
                let (p, d) = choose|p: int, d: char|
                    0 <= p < 11 && is_ascii_digit(d) && d != cs[p] && v == #[trigger] cs.update(p, d);
                let k = choose|k: int| 0 <= k < 10 && decimal_digit(k) == d;
                assert(views(out@).contains(cs.update(p, decimal_digit(k))));
            }
        }
    } else if n == 12 {
        let mut pos: usize = 0;
        while pos < n
            invariant
                n == 12,
                n == c@.len(),
                cs == c@,
                cs == candidate@,
                pos <= n,
                views(out@) == Seq::new(pos as nat, |p: int| cs.remove(p)),
                forall|v: Seq<char>| #[trigger] views(out@).contains(v) ==> is_single_edit(cs, v),
                forall|p: int| 0 <= p < pos ==> views(out@).contains(#[trigger] cs.remove(p)),
            decreases n - pos,
        {
            let v = remove_char(&c, pos);
            let s = string_from_chars(v);
            let ghost old_out = views(out@);
            out.push(s);
            proof {
                assert(views(out@) =~= old_out.push(s@));
                assert(s@ == cs.remove(pos as int));
                assert(views(out@) =~= Seq::new((pos + 1) as nat, |p: int| cs.remove(p)));
                assert(is_single_edit(cs, s@));
                assert forall|w: Seq<char>| #[trigger] views(out@).contains(w) implies is_single_edit(cs, w) by {
                    if w != s@ {
                        assert(old_out.contains(w));
                    }
                }
                assert forall|p: int| 0 <= p < pos + 1 implies views(out@).contains(#[trigger] cs.remove(p)) by {
                    if p < pos {
                        lemma_push_contains(old_out, s@, cs.remove(p));
                    } else {
                        lemma_push_contains(old_out, s@, s@);
                    }
                }
            }
            pos = pos + 1;
        }
    }
    out
}

/// Level four: `x` is a candidate changed by one digit with a capital `N` added, and the
/// authority knows it.
pub open spec fn single_edit_hit(cands: Seq<Seq<char>>, authority: Set<Seq<char>>, x: Seq<char>) -> bool {
    exists|k: int, v: Seq<char>|
        0 <= k < cands.len() && #[trigger] is_single_edit(cands[k], v) && x == v.push('N')
            && authority.contains(x)
}

/// The variants, in order, that with a capital `N` added the authority knows, so extended.
pub open spec fn known_with_suffix(vs: Seq<Seq<char>>, authority: Set<Seq<char>>) -> Seq<Seq<char>>
    decreases vs.len(),
{
    if vs.len() == 0 {
        seq![]
    } else {
        let rest = known_with_suffix(vs.drop_last(), authority);
        let x = vs.last().push('N');
        if authority.contains(x) {
            rest.push(x)
        } else {
            rest
        }
    }
}

/// The hits of level four in the order they are found: candidate by candidate, and within a
/// candidate in the order of its edits.
pub open spec fn single_edit_hit_seq(cands: Seq<Seq<char>>, authority: Set<Seq<char>>) -> Seq<
    Seq<char>,
>
    decreases cands.len(),
{
    if cands.len() == 0 {
        seq![]
    } else {
        single_edit_hit_seq(cands.drop_last(), authority) + known_with_suffix(
            single_edit_variants_seq(cands.last()),
            authority,
        )
    }
}

/// Level four of the reference search: every one-digit correction of a candidate that, with a
/// capital `N` added, the authority knows.
pub fn single_edit_hits(candidates: &Vec<String>, authority: &StringHashSet) -> (res: Vec<String>)
    ensures
        views(res@) == single_edit_hit_seq(views(candidates@), authority@),
        forall|x: Seq<char>|
            #[trigger] views(res@).contains(x) <==> single_edit_hit(
                views(candidates@),
                authority@,
                x,
            ),
{
    let ghost cs = views(candidates@);
    let mut out: Vec<String> = Vec::new();
    let mut k: usize = 0;
    assert(views(out@) =~= single_edit_hit_seq(cs.take(0), authority@));
    while k < candidates.len()
        invariant
            cs == views(candidates@),
            k <= candidates@.len(),
            views(out@) == single_edit_hit_seq(cs.take(k as int), authority@),
            forall|x: Seq<char>|
                #[trigger] views(out@).contains(x) <==> (exists|k2: int, v: Seq<char>|
                    0 <= k2 < k && #[trigger] is_single_edit(cs[k2], v) && x == v.push('N')
                        && authority@.contains(x)),
        decreases candidates@.len() - k,
    {
        let variants = single_edit_variants(&candidates[k]);
        let ghost vs = views(variants@);
        let mut j: usize = 0;
        assert(vs.take(0) =~= Seq::<Seq<char>>::empty());
        assert(views(out@) =~= single_edit_hit_seq(cs.take(k as int), authority@) + known_with_suffix(
            vs.take(0),
            authority@,
        ));
        while j < variants.len()
            invariant
                cs == views(candidates@),
                k < candidates@.len(),
                vs == views(variants@),
                vs == single_edit_variants_seq(cs[k as int]),
                forall|v: Seq<char>| #[trigger] vs.contains(v) <==> is_single_edit(cs[k as int], v),
                j <= variants@.len(),
                views(out@) == single_edit_hit_seq(cs.take(k as int), authority@) + known_with_suffix(
                    vs.take(j as int),
                    authority@,
                ),
                forall|x: Seq<char>|
                    #[trigger] views(out@).contains(x) <==> ((exists|k2: int, v: Seq<char>|
                        0 <= k2 < k && #[trigger] is_single_edit(cs[k2], v) && x == v.push('N')
                            && authority@.contains(x)) || (exists|j2: int|
                        0 <= j2 < j && x == #[trigger] vs[j2].push('N') && authority@.contains(
                            x,
                        ))),
            decreases variants@.len() - j,
        {
            let mut with_suffix = variants[j].clone();
            proof {
                reveal_strlit("N");
                assert("N"@ =~= seq!['N']);
            }
            with_suffix.append("N");
            assert(with_suffix@ =~= vs[j as int].push('N'));
            let ghost old_out = views(out@);
            if authority.contains(with_suffix.as_str()) {
                out.push(with_suffix);
            }
            proof {
                assert(vs.take(j + 1).drop_last() =~= vs.take(j as int));
                assert(vs.take(j + 1).last() == vs[j as int]);
                let x = vs[j as int].push('N');
                if authority@.contains(x) {
                    assert(views(out@) =~= old_out.push(x));
                } else {
                    assert(views(out@) =~= old_out);
                }
                assert(views(out@) =~= single_edit_hit_seq(cs.take(k as int), authority@) + known_with_suffix(
                    vs.take(j + 1),
                    authority@,
                ));
                assert forall|x: Seq<char>|
                    #[trigger] views(out@).contains(x) <==> ((exists|k2: int, v: Seq<char>|
                        0 <= k2 < k && #[trigger] is_single_edit(cs[k2], v) && x == v.push('N')
                            && authority@.contains(x)) || (exists|j2: int|
                        0 <= j2 < j + 1 && x == #[trigger] vs[j2].push('N')
                            && authority@.contains(x))) by {
                    if views(out@) != old_out {
                        assert(views(out@) =~= old_out.push(vs[j as int].push('N')));
                        if views(out@).contains(x) && !old_out.contains(x) {
                            let i = choose|i: int| 0 <= i < views(out@).len() && views(out@)[i] == x;
                            assert(i == old_out.len());
                        }
                        if x == vs[j as int].push('N') {
                            lemma_push_contains(old_out, x, x);
                        } else if old_out.contains(x) {
                            lemma_push_contains(old_out, vs[j as int].push('N'), x);
                        }
                    }
                }
            }
            j = j + 1;
        }
        proof {
            assert forall|x: Seq<char>|
                #[trigger] views(out@).contains(x) <==> (exists|k2: int, v: Seq<char>|
                    0 <= k2 < k + 1 && #[trigger] is_single_edit(cs[k2], v) && x == v.push('N')
                        && authority@.contains(x)) by {
                if views(out@).contains(x) {
                    if exists|j2: int| 0 <= j2 < j && x == #[trigger] vs[j2].push('N') && authority@.contains(x) {
                        let j2 = choose|j2: int| 0 <= j2 < j && x == #[trigger] vs[j2].push('N') && authority@.contains(x);
                        assert(vs.contains(vs[j2]));
                        assert(is_single_edit(cs[k as int], vs[j2]));
                    }
                }
                if exists|k2: int, v: Seq<char>|
                    0 <= k2 < k + 1 && #[trigger] is_single_edit(cs[k2], v) && x == v.push('N')
                        && authority@.contains(x) {
                    let (k2, v) = choose|k2: int, v: Seq<char>|
                        0 <= k2 < k + 1 && #[trigger] is_single_edit(cs[k2], v) && x == v.push('N')
                            && authority@.contains(x);
                    if k2 == k {
                        assert(vs.contains(v));
                        let j2 = choose|j2: int| 0 <= j2 < vs.len() && vs[j2] == v;
                        assert(x == vs[j2].push('N'));
                    }
                }
            }
            assert(vs.take(j as int) =~= vs);
            assert(cs.take(k + 1).drop_last() =~= cs.take(k as int));
            assert(cs.take(k + 1).last() == cs[k as int]);
            assert(views(out@) =~= single_edit_hit_seq(cs.take(k + 1), authority@));
        }
        k = k + 1;
    }
    assert(cs.take(k as int) =~= cs);
    out
}

/// How the hits of one level decide the reference: one distinct hit gives it, several leave
/// it blank, none passes on to the next level.
pub enum PriorityOutcome {
    Unique(String),
    Ambiguous,
    NoHit,
}

/// The outcome that the set of distinct hits of a level calls for.
pub open spec fn outcome_of(o: PriorityOutcome, hits: Set<Seq<char>>) -> bool {
    match o {
        PriorityOutcome::NoHit => hits.is_empty(),
        PriorityOutcome::Unique(v) => hits == set![v@],
        PriorityOutcome::Ambiguous => !hits.is_empty() && forall|v: Seq<char>| hits != set![v],
    }
}

/// Settles one level: no hit, exactly one distinct hit, or more than one.
pub fn resolve(hits: Vec<String>) -> (res: PriorityOutcome)
    ensures
        outcome_of(res, views(hits@).to_set()),
{
    let ghost hs = views(hits@);
    if hits.len() == 0 {
        assert(hs.to_set() =~= Set::<Seq<char>>::empty());
        return PriorityOutcome::NoHit;
    }
    let first = hits[0].clone();
    let mut i: usize = 1;
    while i < hits.len()
        invariant
            hs == views(hits@),
            hits@.len() > 0,
            first@ == hs[0],
            1 <= i <= hits@.len(),
            forall|t: int| 0 <= t < i ==> #[trigger] hs[t] == hs[0],
        decreases hits@.len() - i,
    {
        if hits[i] != first {
            proof {
                assert(hs.to_set().contains(hs[0]));
                assert(hs.to_set().contains(hs[i as int]));
                assert forall|v: Seq<char>| hs.to_set() != set![v] by {
                    if hs.to_set() == set![v] {
                        assert(set![v].contains(hs[0]));
                        assert(set![v].contains(hs[i as int]));
                    }
                }
            }
            return PriorityOutcome::Ambiguous;
        }
        i = i + 1;
    }
    proof {
        assert forall|v: Seq<char>| hs.to_set().contains(v) <==> set![hs[0]].contains(v) by {
            if hs.to_set().contains(v) {
                let t = choose|t: int| 0 <= t < hs.len() && hs[t] == v;
            }
            if v == hs[0] {
                assert(hs.contains(hs[0]));
            }
        }
        assert(hs.to_set() =~= set![hs[0]]);
    }
    PriorityOutcome::Unique(first)
}

/// What one level of hits gives: `None` when it has none and the search goes on, otherwise
/// the reference when exactly one distinct value was hit and blank when several were.
pub open spec fn level_result(hits: Set<Seq<char>>) -> Option<Option<Seq<char>>> {
    if hits.is_empty() {
        None
    } else if exists|v: Seq<char>| hits == set![v] {
        Some(Some(choose|v: Seq<char>| hits == set![v]))
    } else {
        Some(None)
    }
}

/// The reference number for a coupon summary: blank summaries give none; otherwise the first of
/// the three levels (full reference numbers as written, eleven-digit candidates with `N` added,
/// candidates corrected by one digit) that has any hit decides, and it gives a reference only
/// when all its hits are the same value.
pub open spec fn extract_reference_seq(s: Seq<char>, b: Seq<u8>, authority: Set<Seq<char>>) -> Option<
    Seq<char>,
> {
    if is_blank(s) {
        None
    } else {
        match level_result(as_is_hit_seq(b, authority, reference_positions(b, 0)).to_set()) {
            Some(r) => r,
            None => {
                let cands = digit_candidates_seq(s);
                match level_result(zero_edit_hit_seq(cands, authority).to_set()) {
                    Some(r) => r,
                    None => match level_result(
                        Set::new(|x: Seq<char>| single_edit_hit(cands, authority, x)),
                    ) {
                        Some(r) => r,
                        None => None,
                    },
                }
            },
        }
    }
}

proof fn lemma_level_result(o: PriorityOutcome, hits: Set<Seq<char>>)
    requires
        outcome_of(o, hits),
    ensures
        o is NoHit <==> level_result(hits) is None,
        o matches PriorityOutcome::Unique(v) ==> level_result(hits) == Some(Some(v@)),
        o is Ambiguous ==> level_result(hits) == Some(None::<Seq<char>>),
{
    match o {
        PriorityOutcome::Unique(v) => {
            assert(hits.contains(v@));
            let w = choose|w: Seq<char>| hits == set![w];
            assert(set![w].contains(v@));
        },
        _ => {},
    }
}

/// Finds the reference number that a coupon summary mentions, checked against the authority
/// of known reference numbers.
pub fn extract_reference(summary: &str, authority: &StringHashSet) -> (res: Option<String>)
    ensures
        match res {
            Some(r) => extract_reference_seq(summary@, summary.spec_bytes(), authority@) == Some(
                r@,
            ),
            None => extract_reference_seq(summary@, summary.spec_bytes(), authority@) is None,
        },
{
    proof {
        lemma_trim_blank(summary@);
    }
    if trim(summary).is_empty() {
        return None;
    }
    let level1 = resolve(as_is_hits(summary, authority));
    proof {
        lemma_level_result(level1, as_is_hit_seq(summary.spec_bytes(), authority@, reference_positions(summary.spec_bytes(), 0)).to_set());
    }
    match level1 {
        PriorityOutcome::Unique(value) => return Some(value),
        PriorityOutcome::Ambiguous => return None,
        PriorityOutcome::NoHit => {},
    }
    let candidates = digit_candidates(summary);
    let level2 = resolve(zero_edit_hits(&candidates, authority));
    proof {
        lemma_level_result(level2, zero_edit_hit_seq(views(candidates@), authority@).to_set());
    }
    match level2 {
        PriorityOutcome::Unique(value) => return Some(value),
        PriorityOutcome::Ambiguous => return None,
        PriorityOutcome::NoHit => {},
    }
    let hits = single_edit_hits(&candidates, authority);
    let level3 = resolve(hits);
    proof {
        let single = Set::new(|x: Seq<char>| single_edit_hit(views(candidates@), authority@, x));
        assert(views(hits@).to_set() =~= single);
        lemma_level_result(level3, single);
    }
    match level3 {
        PriorityOutcome::Unique(value) => Some(value),
        PriorityOutcome::Ambiguous | PriorityOutcome::NoHit => None,
    }
}


/// Every hit of level one is known to the authority.
proof fn lemma_as_is_hits_known(b: Seq<u8>, authority: Set<Seq<char>>, ps: Seq<int>, x: Seq<char>)
    requires
        as_is_hit_seq(b, authority, ps).contains(x),
    ensures
        authority.contains(x),
    decreases ps.len(),
{
    if ps.len() > 0 {
        let p = ps.last();
        let rest = as_is_hit_seq(b, authority, ps.drop_last());
        if isolated_boundaries(b, p, p + 12) && authority.contains(reference_text_at(b, p)) {
            if x != reference_text_at(b, p) {
                let i = choose|i: int| 0 <= i < rest.push(reference_text_at(b, p)).len()
                    && rest.push(reference_text_at(b, p))[i] == x;
                assert(rest[i] == x);
                lemma_as_is_hits_known(b, authority, ps.drop_last(), x);
            }
        } else {
            lemma_as_is_hits_known(b, authority, ps.drop_last(), x);
        }
    }
}

/// Every hit of level three is known to the authority.
proof fn lemma_zero_edit_hits_known(cands: Seq<Seq<char>>, authority: Set<Seq<char>>, x: Seq<char>)
    requires
        zero_edit_hit_seq(cands, authority).contains(x),
    ensures
        authority.contains(x),
    decreases cands.len(),
{
    if cands.len() > 0 {
        let c = cands.last();
        let rest = zero_edit_hit_seq(cands.drop_last(), authority);
        if c.len() == 11 && authority.contains(c.push('N')) {
            if x != c.push('N') {
                let i = choose|i: int| 0 <= i < rest.push(c.push('N')).len() && rest.push(c.push('N'))[i] == x;
                assert(rest[i] == x);
                lemma_zero_edit_hits_known(cands.drop_last(), authority, x);
            }
        } else {
            lemma_zero_edit_hits_known(cands.drop_last(), authority, x);
        }
    }
}

/// A level that decides a reference decides one of its hits.
proof fn lemma_level_result_member(hits: Set<Seq<char>>, x: Seq<char>)
    requires
        level_result(hits) == Some(Some(x)),
    ensures
        hits.contains(x),
{
    assert(set![x].contains(x));
}

/// The reference found in a summary is always one that the authority knows: no text from the
/// summary is taken over unless the authority confirms it.
pub proof fn lemma_reference_is_known(s: Seq<char>, authority: Set<Seq<char>>)
    ensures
        extract_reference_seq(s, encode_utf8(s), authority) matches Some(x) ==> authority.contains(x),
{
    let b = encode_utf8(s);
    if let Some(x) = extract_reference_seq(s, b, authority) {
        let l1 = as_is_hit_seq(b, authority, reference_positions(b, 0)).to_set();
        let cands = digit_candidates_seq(s);
        let l2 = zero_edit_hit_seq(cands, authority).to_set();
        let l3 = Set::new(|y: Seq<char>| single_edit_hit(cands, authority, y));
        if level_result(l1) is Some {
            lemma_level_result_member(l1, x);
            lemma_as_is_hits_known(b, authority, reference_positions(b, 0), x);
        } else if level_result(l2) is Some {
            lemma_level_result_member(l2, x);
            lemma_zero_edit_hits_known(cands, authority, x);
        } else {
            lemma_level_result_member(l3, x);
        }
    }
}


/// What a run of digits gives: each candidate taken from the runs is the text of one of them.
proof fn lemma_run_candidate_source(s: Seq<char>, rs: Seq<(int, int)>, k: int)
    requires
        0 <= k < run_candidates(s, rs).len(),
    ensures
        exists|j: int|
            0 <= j < rs.len() && 10 <= rs[j].1 - rs[j].0 && #[trigger] run_candidates(s, rs)[k]
                == s.subrange(rs[j].0, rs[j].1),
    decreases rs.len(),
{
    let rest = run_candidates(s, rs.drop_last());
    if k < rest.len() {
        lemma_run_candidate_source(s, rs.drop_last(), k);
        let j = choose|j: int|
            0 <= j < rs.drop_last().len() && 10 <= rs.drop_last()[j].1 - rs.drop_last()[j].0
                && #[trigger] rest[k] == s.subrange(rs.drop_last()[j].0, rs.drop_last()[j].1);
        assert(rs[j] == rs.drop_last()[j]);
        assert(run_candidates(s, rs)[k] == rest[k]);
    } else {
        assert(run_candidates(s, rs)[k] == s.subrange(rs.last().0, rs.last().1));
        assert(rs[rs.len() - 1] == rs.last());
    }
}

/// A summary that yields any candidate is not blank.
proof fn lemma_candidate_not_blank(s: Seq<char>, k: int)
    requires
        0 <= k < digit_candidates_seq(s).len(),
    ensures
        !is_blank(s),
{
    if has_trigger_letter(s) {
        let i = choose|i: int| 0 <= i < s.len() && is_trigger_letter(#[trigger] s[i]);
        assert(!crate::utils::strings::is_white_space(s[i]));
    } else {
        let rs = digit_run_ranges(s, 0);
        lemma_run_candidate_source(s, rs, k);
        let j = choose|j: int|
            0 <= j < rs.len() && 10 <= rs[j].1 - rs[j].0 && #[trigger] run_candidates(s, rs)[k]
                == s.subrange(rs[j].0, rs[j].1);
        lemma_digit_run_ranges_bounds(s, 0, j);
        assert(is_ascii_digit(s[rs[j].0]));
        assert(!crate::utils::strings::is_white_space(s[rs[j].0]));
    }
}

/// The hits of level three are exactly the eleven-digit candidates, with `N` added, that the
/// authority knows.
proof fn lemma_zero_edit_hits_exactly(cands: Seq<Seq<char>>, authority: Set<Seq<char>>, x: Seq<char>)
    ensures
        zero_edit_hit_seq(cands, authority).contains(x) <==> exists|k: int|
            0 <= k < cands.len() && (#[trigger] cands[k]).len() == 11 && x == cands[k].push('N')
                && authority.contains(x),
    decreases cands.len(),
{
    if cands.len() > 0 {
        let c = cands.last();
        let init = cands.drop_last();
        let rest = zero_edit_hit_seq(init, authority);
        lemma_zero_edit_hits_exactly(init, authority, x);
        let hit = c.len() == 11 && authority.contains(c.push('N'));
        if zero_edit_hit_seq(cands, authority).contains(x) {
            let i = choose|i: int| 0 <= i < zero_edit_hit_seq(cands, authority).len()
                && zero_edit_hit_seq(cands, authority)[i] == x;
            if hit && i == rest.len() {
                assert(cands[cands.len() - 1] == c);
            } else {
                assert(rest[i] == x);
                let k = choose|k: int|
                    0 <= k < init.len() && (#[trigger] init[k]).len() == 11 && x == init[k].push('N')
                        && authority.contains(x);
                assert(cands[k] == init[k]);
            }
        }
        if exists|k: int|
            0 <= k < cands.len() && (#[trigger] cands[k]).len() == 11 && x == cands[k].push('N')
                && authority.contains(x) {
            let k = choose|k: int|
                0 <= k < cands.len() && (#[trigger] cands[k]).len() == 11 && x == cands[k].push('N')
                    && authority.contains(x);
            if k < init.len() {
                assert(init[k] == cands[k]);
                let i = choose|i: int| 0 <= i < rest.len() && rest[i] == x;
                if hit {
                    assert(rest.push(c.push('N'))[i] == x);
                }
            } else {
                assert(cands[k] == c);
                assert(zero_edit_hit_seq(cands, authority) == rest.push(c.push('N')));
                assert(zero_edit_hit_seq(cands, authority)[rest.len() as int] == x);
            }
        }
    }
}

/// An eleven-digit number written in a summary and known, with `N` added, as a retrieval
/// number is taken as it stands before any one-digit correction: when no full reference number
/// is written and every eleven-digit candidate that the authority knows with `N` gives the same
/// value `v`, the reference found is `v`.
pub proof fn lemma_exact_candidate_before_correction(s: Seq<char>, authority: Set<Seq<char>>, v: Seq<char>)
    requires
        as_is_hit_seq(encode_utf8(s), authority, reference_positions(encode_utf8(s), 0)).len() == 0,
        exists|k: int|
            0 <= k < digit_candidates_seq(s).len() && (#[trigger] digit_candidates_seq(s)[k]).len() == 11
                && digit_candidates_seq(s)[k].push('N') == v,
        authority.contains(v),
        forall|k: int|
            0 <= k < digit_candidates_seq(s).len() && (#[trigger] digit_candidates_seq(s)[k]).len() == 11
                && authority.contains(digit_candidates_seq(s)[k].push('N')) ==> digit_candidates_seq(
                s,
            )[k].push('N') == v,
    ensures
        extract_reference_seq(s, encode_utf8(s), authority) == Some(v),
{
    let b = encode_utf8(s);
    let cands = digit_candidates_seq(s);
    let k0 = choose|k: int| 0 <= k < cands.len() && (#[trigger] cands[k]).len() == 11 && cands[k].push('N') == v;
    lemma_candidate_not_blank(s, k0);
    let l1 = as_is_hit_seq(b, authority, reference_positions(b, 0));
    assert(l1.to_set() =~= Set::<Seq<char>>::empty());
    let l2 = zero_edit_hit_seq(cands, authority).to_set();
    assert(l2 =~= set![v]) by {
        assert forall|x: Seq<char>| l2.contains(x) <==> x == v by {
            lemma_zero_edit_hits_exactly(cands, authority, x);
        }
    }
    assert(level_result(l2) == Some(Some(v))) by {
        let w = choose|w: Seq<char>| l2 == set![w];
        assert(set![w].contains(v));
    }
}

/// A one-digit correction is only used when no candidate is known as it stands: when no full
/// reference number is written and some eleven-digit candidate with `N` added is known, the
/// reference found, if any, is such a candidate with `N` added.
pub proof fn lemma_correction_only_without_exact(s: Seq<char>, authority: Set<Seq<char>>)
    requires
        as_is_hit_seq(encode_utf8(s), authority, reference_positions(encode_utf8(s), 0)).len() == 0,
        exists|k: int|
            0 <= k < digit_candidates_seq(s).len() && (#[trigger] digit_candidates_seq(s)[k]).len() == 11
                && authority.contains(digit_candidates_seq(s)[k].push('N')),
    ensures
        extract_reference_seq(s, encode_utf8(s), authority) matches Some(x) ==> exists|k: int|
            0 <= k < digit_candidates_seq(s).len() && (#[trigger] digit_candidates_seq(s)[k]).len() == 11
                && x == digit_candidates_seq(s)[k].push('N'),
{
    let b = encode_utf8(s);
    let cands = digit_candidates_seq(s);
    let k0 = choose|k: int|
        0 <= k < cands.len() && (#[trigger] cands[k]).len() == 11 && authority.contains(cands[k].push('N'));
    lemma_candidate_not_blank(s, k0);
    let l1 = as_is_hit_seq(b, authority, reference_positions(b, 0));
    assert(l1.to_set() =~= Set::<Seq<char>>::empty());
    let l2 = zero_edit_hit_seq(cands, authority).to_set();
    lemma_zero_edit_hits_exactly(cands, authority, cands[k0].push('N'));
    assert(l2.contains(cands[k0].push('N')));
    if let Some(x) = extract_reference_seq(s, b, authority) {
        lemma_level_result_member(l2, x);
        lemma_zero_edit_hits_exactly(cands, authority, x);
    }
}

/// The one source workbook of this category.
pub const FILE_NAME: &'static str = "销售用券情况统计.xlsx";

/// The title that cell A1 of the source must hold.
pub const TITLE: &'static str = "销售用券情况统计";

// Source columns (from 1).
pub const COL_DOC_NO: u32 = 3;

pub const COL_DOC_DATE: u32 = 4;

pub const COL_PRODUCT_NAME: u32 = 6;

pub const COL_BRAND: u32 = 8;

pub const COL_FINANCE_CATEGORY: u32 = 15;

pub const COL_SUMMARY: u32 = 18;

pub const COL_TOTAL: u32 = 28;

/// The twenty-eight fields that row 2 of the source must hold, in order.
pub open spec fn source_headers_seq() -> Seq<Seq<char>> {
    seq![
        "供应商"@,
        "原始供应商"@,
        "单据号"@,
        "单据日期"@,
        "收款员"@,
        "商品名称"@,
        "商品简码"@,
        "品牌"@,
        "销售部门"@,
        "销售员"@,
        "业绩成本"@,
        "业绩利润"@,
        "价格类型名称"@,
        "库存类型"@,
        "财务大类"@,
        "顾客姓名"@,
        "备注"@,
        "明细摘要"@,
        "收款日期"@,
        "销售成本"@,
        "不含券收入"@,
        "其它"@,
        "本期尾款"@,
        "销售单价"@,
        "含券收入"@,
        "2026家电国补（计入收入）"@,
        "2026数码国补（计入收入）"@,
        "合计"@
    ]
}

pub fn source_headers() -> (res: Vec<&'static str>)
    ensures
        res@.map_values(|s: &str| s@) == source_headers_seq(),
{
    let v = vec![
        "供应商",
        "原始供应商",
        "单据号",
        "单据日期",
        "收款员",
        "商品名称",
        "商品简码",
        "品牌",
        "销售部门",
        "销售员",
        "业绩成本",
        "业绩利润",
        "价格类型名称",
        "库存类型",
        "财务大类",
        "顾客姓名",
        "备注",
        "明细摘要",
        "收款日期",
        "销售成本",
        "不含券收入",
        "其它",
        "本期尾款",
        "销售单价",
        "含券收入",
        "2026家电国补（计入收入）",
        "2026数码国补（计入收入）",
        "合计"
    ];
    assert(v@.map_values(|s: &str| s@) =~= source_headers_seq());
    v
}

/// The authority of known reference numbers: the retrieval numbers that have the shape of one.
pub open spec fn authority_of(retrieval_nos: Seq<Seq<char>>) -> Set<Seq<char>> {
    retrieval_nos.to_set().filter(|s: Seq<char>| is_reference_chars(s))
}

/// Builds the authority from the retrieval numbers of the payment records, keeping those that
/// have the shape of a reference number.
pub fn build_authority(retrieval_nos: &Vec<String>) -> (res: StringHashSet)
    ensures
        res@ == authority_of(views(retrieval_nos@)),
{
    let ghost all = views(retrieval_nos@);
    let mut set = StringHashSet::new();
    let mut i: usize = 0;
    while i < retrieval_nos.len()
        invariant
            all == views(retrieval_nos@),
            i <= retrieval_nos@.len(),
            set@ == authority_of(all.take(i as int)),
        decreases retrieval_nos@.len() - i,
    {
        let value = &retrieval_nos[i];
        let ghost before = set@;
        if is_valid_ref_no(value.as_str()) {
            set.insert(value.clone());
        }
        proof {
            let pre = all.take(i as int);
            let post = all.take(i + 1);
            assert(post =~= pre.push(value@));
            assert forall|x: Seq<char>| set@.contains(x) <==> authority_of(post).contains(x) by {
                if pre.to_set().contains(x) {
                    let t = choose|t: int| 0 <= t < pre.len() && #[trigger] pre[t] == x;
                    assert(post[t] == x);
                }
                if post.to_set().contains(x) {
                    let t = choose|t: int| 0 <= t < post.len() && #[trigger] post[t] == x;
                    if t < i {
                        assert(pre[t] == x);
                    }
                }
                if x == value@ {
                    assert(post[i as int] == x);
                }
            }
            assert(set@ =~= authority_of(post));
        }
        i = i + 1;
    }
    assert(all.take(i as int) =~= all);
    set
}

/// The amount the total field stands for, before the cent rule: blank text and cells that are
/// not numbers give none.
pub open spec fn subsidy_amount(c: RawCell) -> Option<Decimal> {
    match c {
        RawCell::Text(t) => if is_blank(t@) {
            None
        } else {
            match decimal_from_str(trim_seq(t@)) {
                Some(p) => Some(Decimal { mantissa: p.0 as i128, scale: p.1 as u32 }),
                None => None,
            }
        },
        RawCell::Int(n) => Some(Decimal { mantissa: n as i128, scale: 0 }),
        RawCell::Float(f) => match f.amount {
            Some(d) => if d.wf() {
                Some(d)
            } else {
                None
            },
            None => None,
        },
        _ => None,
    }
}

/// The subsidy of a row: the total field brought to two fractional digits by the cent rule, or
/// the data error for a field that is blank, not a number, or too far from whole cents.
pub open spec fn subsidy_spec(c: RawCell, file: Seq<char>, sheet: Seq<char>, row: u32) -> Result<
    Decimal,
    ErrorView,
> {
    match subsidy_amount(c) {
        None => Err(
            data_error_view(file, sheet, row, "合计"@, cell_display_seq(c), "补贴额为空或无法解析为数值"@),
        ),
        Some(raw) => if within_cent_tolerance(raw) {
            Ok(round_cents(raw))
        } else {
            Err(
                data_error_view(
                    file,
                    sheet,
                    row,
                    "合计"@,
                    cell_display_seq(c),
                    "金额与最接近的两位小数之差超出0.000001元容差"@,
                ),
            )
        },
    }
}

/// Reads the subsidy from the total field.
pub fn parse_subsidy(cell: &RawCell, file: &str, sheet: &str, row: u32) -> (res: Result<
    Decimal,
    ProcessError,
>)
    ensures
        match res {
            Ok(d) => subsidy_spec(*cell, file@, sheet@, row) == Ok::<Decimal, ErrorView>(d),
            Err(e) => subsidy_spec(*cell, file@, sheet@, row) == Err::<Decimal, ErrorView>(e@),
        },
{
    let raw: Option<Decimal> = match cell {
        RawCell::Text(t) => {
            proof {
                lemma_trim_blank(t@);
            }
            let trimmed = trim(t.as_str());
            if trimmed.is_empty() {
                None
            } else {
                parse_decimal(trimmed)
            }
        },
        RawCell::Int(n) => Some(Decimal::from_i64(*n)),
        RawCell::Float(f) => match f.amount {
            Some(d) => if d.is_wf() {
                Some(d)
            } else {
                None
            },
            None => None,
        },
        _ => None,
    };
    match raw {
        None => Err(
            data_error(
                file,
                sheet,
                row,
                "合计",
                cell_display(cell),
                "补贴额为空或无法解析为数值".to_owned(),
            ),
        ),
        Some(raw) => match to_cents(raw) {
            Some(d) => Ok(d),
            None => Err(
                data_error(
                    file,
                    sheet,
                    row,
                    "合计",
                    cell_display(cell),
                    "金额与最接近的两位小数之差超出0.000001元容差".to_owned(),
                ),
            ),
        },
    }
}

/// One coupon line as read from the source.
pub struct CouponRecord {
    pub doc_no: String,
    pub doc_date: Value,
    pub product_name: String,
    pub brand: String,
    pub finance_category: String,
    pub subsidy: Decimal,
    pub summary: String,
}

pub struct CouponRecordView {
    pub doc_no: Seq<char>,
    pub doc_date: ValueView,
    pub product_name: Seq<char>,
    pub brand: Seq<char>,
    pub finance_category: Seq<char>,
    pub subsidy: Decimal,
    pub summary: Seq<char>,
}

impl View for CouponRecord {
    type V = CouponRecordView;

    open spec fn view(&self) -> CouponRecordView {
        CouponRecordView {
            doc_no: self.doc_no@,
            doc_date: self.doc_date@,
            product_name: self.product_name@,
            brand: self.brand@,
            finance_category: self.finance_category@,
            subsidy: self.subsidy,
            summary: self.summary@,
        }
    }
}

/// One source row read as a record, or the first field that fails, in the order document
/// number, document date, product name, brand, finance category, subsidy, summary.
pub open spec fn read_row_spec(sheet: SheetGrid, file: Seq<char>, sheet_name: Seq<char>, row: u32) -> Result<
    CouponRecordView,
    ErrorView,
> {
    match text_field_spec(sheet, row, COL_DOC_NO, "单据号"@, file, sheet_name) {
        Err(e) => Err(e),
        Ok(doc_no) => match date_field_spec(
            sheet.cell_spec(row as int, COL_DOC_DATE as int),
            "单据日期"@,
            file,
            sheet_name,
            row,
        ) {
            Err(e) => Err(e),
            Ok(doc_date) => match text_field_spec(sheet, row, COL_PRODUCT_NAME, "商品名称"@, file, sheet_name) {
                Err(e) => Err(e),
                Ok(product_name) => match text_field_spec(sheet, row, COL_BRAND, "品牌"@, file, sheet_name) {
                    Err(e) => Err(e),
                    Ok(brand) => match text_field_spec(
                        sheet,
                        row,
                        COL_FINANCE_CATEGORY,
                        "财务大类"@,
                        file,
                        sheet_name,
                    ) {
                        Err(e) => Err(e),
                        Ok(finance_category) => match subsidy_spec(
                            sheet.cell_spec(row as int, COL_TOTAL as int),
                            file,
                            sheet_name,
                            row,
                        ) {
                            Err(e) => Err(e),
                            Ok(subsidy) => match text_field_spec(sheet, row, COL_SUMMARY, "明细摘要"@, file, sheet_name) {
                                Err(e) => Err(e),
                                Ok(summary) => Ok(
                                    CouponRecordView {
                                        doc_no,
                                        doc_date,
                                        product_name,
                                        brand,
                                        finance_category,
                                        subsidy,
                                        summary,
                                    },
                                ),
                            },
                        },
                    },
                },
            },
        },
    }
}

/// Reads one source row.
pub fn read_row(sheet: &SheetGrid, row: u32, file: &str, sheet_name: &str) -> (res: Result<
    CouponRecord,
    ProcessError,
>)
    ensures
        result_view(res) == read_row_spec(*sheet, file@, sheet_name@, row),
{
    let doc_no = text_at(sheet, row, COL_DOC_NO, "单据号", file, sheet_name)?;
    let doc_date = parse_date_field(&sheet.cell(row, COL_DOC_DATE), "单据日期", file, sheet_name, row)?;
    let product_name = text_at(sheet, row, COL_PRODUCT_NAME, "商品名称", file, sheet_name)?;
    let brand = text_at(sheet, row, COL_BRAND, "品牌", file, sheet_name)?;
    let finance_category = text_at(sheet, row, COL_FINANCE_CATEGORY, "财务大类", file, sheet_name)?;
    let subsidy = match parse_subsidy(&sheet.cell(row, COL_TOTAL), file, sheet_name, row) {
        Ok(d) => d,
        Err(e) => return Err(e),
    };
    let summary = text_at(sheet, row, COL_SUMMARY, "明细摘要", file, sheet_name)?;
    Ok(CouponRecord { doc_no, doc_date, product_name, brand, finance_category, subsidy, summary })
}

/// The quantity of a coupon line: the sign of its subsidy.
pub open spec fn quantity_spec(subsidy: Decimal) -> i64 {
    if subsidy.mantissa > 0 {
        1i64
    } else if subsidy.mantissa == 0 {
        0i64
    } else {
        -1i64
    }
}

/// 1 for a positive subsidy, 0 for zero, -1 for a negative one.
pub fn quantity_of(subsidy: Decimal) -> (q: i64)
    ensures
        q == quantity_spec(subsidy),
{
    subsidy.signum()
}

/// The reference number that a summary yields against the authority.
pub open spec fn reference_of(summary: Seq<char>, authority: Set<Seq<char>>) -> Option<Seq<char>> {
    extract_reference_seq(summary, encode_utf8(summary), authority)
}

/// The output row of a record: document number, document date, product name, brand, finance
/// category, subsidy, quantity, reference number and matching document number.
pub open spec fn coupon_row_view(r: CouponRecordView, authority: Set<Seq<char>>) -> RowView {
    RowView {
        values: seq![
            text_value_view(r.doc_no),
            r.doc_date,
            text_value_view(r.product_name),
            text_value_view(r.brand),
            text_value_view(r.finance_category),
            ValueView::Decimal(r.subsidy),
            ValueView::Integer(quantity_spec(r.subsidy)),
            match reference_of(r.summary, authority) {
                Some(x) => ValueView::Text(x),
                None => ValueView::Empty,
            },
            text_value_view(match_doc_no_seq(r.doc_date, r.doc_no)),
        ],
        fill: None,
    }
}

/// The output row of a record.
pub fn to_row(record: CouponRecord, authority: &StringHashSet) -> (row: Row)
    ensures
        row@ == coupon_row_view(record@, authority@),
{
    let quantity = quantity_of(record.subsidy);
    let match_doc_no = build_match_doc_no(&record.doc_date, record.doc_no.as_str());
    let reference = extract_reference(record.summary.as_str(), authority);
    let reference_value = match reference {
        Some(x) => Value::Text(x),
        None => Value::Empty,
    };
    let ghost r = record@;
    let values = vec![
        text_value(record.doc_no),
        record.doc_date,
        text_value(record.product_name),
        text_value(record.brand),
        text_value(record.finance_category),
        Value::Decimal(record.subsidy),
        Value::Integer(quantity),
        reference_value,
        text_value(match_doc_no),
    ];
    let row = Row { values, fill: None };
    assert(row@.values =~= coupon_row_view(r, authority@).values);
    row
}

/// The output columns.
pub open spec fn coupon_columns() -> Seq<(Seq<char>, ColumnType)> {
    seq![
        ("单据号"@, ColumnType::Text),
        ("单据日期"@, ColumnType::Date),
        ("商品名称"@, ColumnType::Text),
        ("品牌"@, ColumnType::Text),
        ("财务大类"@, ColumnType::Text),
        ("补贴额"@, ColumnType::Decimal(DecimalScale::Two)),
        ("数量"@, ColumnType::Integer),
        ("参考号"@, ColumnType::Text),
        ("匹配单据号"@, ColumnType::Text),
    ]
}

/// The source field that an output column is named after: the column of the same name among the
/// twenty-eight source fields, found only for the document number, date, product name, brand
/// and finance category.
proof fn lemma_named_source_field(i: int, j: int)
    requires
        0 <= i < coupon_columns().len(),
        0 <= j < source_headers_seq().len(),
        coupon_columns()[i].0 == source_headers_seq()[j],
    ensures
        (i == 0 && j == 2) || (i == 1 && j == 3) || (i == 2 && j == 5) || (i == 3 && j == 7) || (i
            == 4 && j == 14),
{
    reveal_strlit("2026家电国补（计入收入）");
    reveal_strlit("2026数码国补（计入收入）");
    reveal_strlit("不含券收入");
    reveal_strlit("业绩利润");
    reveal_strlit("业绩成本");
    reveal_strlit("价格类型名称");
    reveal_strlit("供应商");
    reveal_strlit("其它");
    reveal_strlit("匹配单据号");
    reveal_strlit("单据号");
    reveal_strlit("单据日期");
    reveal_strlit("原始供应商");
    reveal_strlit("参考号");
    reveal_strlit("合计");
    reveal_strlit("含券收入");
    reveal_strlit("品牌");
    reveal_strlit("商品名称");
    reveal_strlit("商品简码");
    reveal_strlit("备注");
    reveal_strlit("库存类型");
    reveal_strlit("收款员");
    reveal_strlit("收款日期");
    reveal_strlit("数量");
    reveal_strlit("明细摘要");
    reveal_strlit("本期尾款");
    reveal_strlit("补贴额");
    reveal_strlit("财务大类");
    reveal_strlit("销售单价");
    reveal_strlit("销售员");
    reveal_strlit("销售成本");
    reveal_strlit("销售部门");
    reveal_strlit("顾客姓名");
    let n = coupon_columns()[i].0;
    let h = source_headers_seq()[j];
    assert(i == 0 ==> n.len() == 3 && n[0] == '单' && n[2] == '号');
    assert(i == 1 ==> n.len() == 4 && n[0] == '单' && n[3] == '期');
    assert(i == 2 ==> n.len() == 4 && n[0] == '商' && n[3] == '称');
    assert(i == 3 ==> n.len() == 2 && n[0] == '品' && n[1] == '牌');
    assert(i == 4 ==> n.len() == 4 && n[0] == '财' && n[3] == '类');
    assert(i == 5 ==> n.len() == 3 && n[0] == '补' && n[2] == '额');
    assert(i == 6 ==> n.len() == 2 && n[0] == '数' && n[1] == '量');
    assert(i == 7 ==> n.len() == 3 && n[0] == '参' && n[2] == '号');
    assert(i == 8 ==> n.len() == 5 && n[0] == '匹' && n[4] == '号');
    assert(j == 0 ==> h.len() == 3 && h[0] == '供' && h[2] == '商');
    assert(j == 1 ==> h.len() == 5 && h[0] == '原' && h[4] == '商');
    assert(j == 2 ==> h.len() == 3 && h[0] == '单' && h[2] == '号');
    assert(j == 3 ==> h.len() == 4 && h[0] == '单' && h[3] == '期');
    assert(j == 4 ==> h.len() == 3 && h[0] == '收' && h[2] == '员');
    assert(j == 5 ==> h.len() == 4 && h[0] == '商' && h[3] == '称');
    assert(j == 6 ==> h.len() == 4 && h[0] == '商' && h[3] == '码');
    assert(j == 7 ==> h.len() == 2 && h[0] == '品' && h[1] == '牌');
    assert(j == 8 ==> h.len() == 4 && h[0] == '销' && h[3] == '门');
    assert(j == 9 ==> h.len() == 3 && h[0] == '销' && h[2] == '员');
    assert(j == 10 ==> h.len() == 4 && h[0] == '业' && h[3] == '本');
    assert(j == 11 ==> h.len() == 4 && h[0] == '业' && h[3] == '润');
    assert(j == 12 ==> h.len() == 6 && h[0] == '价' && h[5] == '称');
    assert(j == 13 ==> h.len() == 4 && h[0] == '库' && h[3] == '型');
    assert(j == 14 ==> h.len() == 4 && h[0] == '财' && h[3] == '类');
    assert(j == 15 ==> h.len() == 4 && h[0] == '顾' && h[3] == '名');
    assert(j == 16 ==> h.len() == 2 && h[0] == '备' && h[1] == '注');
    assert(j == 17 ==> h.len() == 4 && h[0] == '明' && h[3] == '要');
    assert(j == 18 ==> h.len() == 4 && h[0] == '收' && h[3] == '期');
    assert(j == 19 ==> h.len() == 4 && h[0] == '销' && h[3] == '本');
    assert(j == 20 ==> h.len() == 5 && h[0] == '不' && h[4] == '入');
    assert(j == 21 ==> h.len() == 2 && h[0] == '其' && h[1] == '它');
    assert(j == 22 ==> h.len() == 4 && h[0] == '本' && h[3] == '款');
    assert(j == 23 ==> h.len() == 4 && h[0] == '销' && h[3] == '价');
    assert(j == 24 ==> h.len() == 4 && h[0] == '含' && h[3] == '入');
    assert(j == 25 ==> h.len() == 14 && h[0] == '2' && h[13] == '）');
    assert(j == 26 ==> h.len() == 14 && h[0] == '2' && h[13] == '）');
    assert(j == 27 ==> h.len() == 2 && h[0] == '合' && h[1] == '计');
}

/// Each output column that bears the name of a source field holds what was read from that field
/// of the row: the text of the document number, product name, brand and finance category as it
/// stands in the source (blank text giving an empty cell), and the date of the document date.
pub proof fn lemma_coupon_columns_from_source(
    sheet: SheetGrid,
    file: Seq<char>,
    sheet_name: Seq<char>,
    row: u32,
    authority: Set<Seq<char>>,
    i: int,
    j: int,
)
    requires
        read_row_spec(sheet, file, sheet_name, row) is Ok,
        0 <= i < coupon_columns().len(),
        0 <= j < source_headers_seq().len(),
        coupon_columns()[i].0 == source_headers_seq()[j],
    ensures
        ({
            let values = coupon_row_view(read_row_spec(sheet, file, sheet_name, row)->Ok_0, authority).values;
            &&& coupon_columns()[i].1 == ColumnType::Text ==> (text_field_spec(
                sheet,
                row,
                (j + 1) as u32,
                source_headers_seq()[j],
                file,
                sheet_name,
            ) matches Ok(t) && values[i] == text_value_view(t))
            &&& coupon_columns()[i].1 == ColumnType::Date ==> date_field_spec(
                sheet.cell_spec(row as int, j + 1),
                source_headers_seq()[j],
                file,
                sheet_name,
                row,
            ) == Ok::<ValueView, ErrorView>(values[i])
        }),
{
    lemma_named_source_field(i, j);
}

/// The output columns, in order.
pub fn output_columns() -> (res: Vec<Column>)
    ensures
        columns_view(res@) == coupon_columns(),
{
    let v = vec![
        Column { name: "单据号", ty: ColumnType::Text },
        Column { name: "单据日期", ty: ColumnType::Date },
        Column { name: "商品名称", ty: ColumnType::Text },
        Column { name: "品牌", ty: ColumnType::Text },
        Column { name: "财务大类", ty: ColumnType::Text },
        Column { name: "补贴额", ty: ColumnType::Decimal(DecimalScale::Two) },
        Column { name: "数量", ty: ColumnType::Integer },
        Column { name: "参考号", ty: ColumnType::Text },
        Column { name: "匹配单据号", ty: ColumnType::Text },
    ];
    assert(columns_view(v@) =~= coupon_columns());
    v
}

/// The output rows of `count` source rows from row `first` on, in order, or the error of the
/// first of them that cannot be read.
pub open spec fn coupon_rows_from(
    sheet: SheetGrid,
    file: Seq<char>,
    sheet_name: Seq<char>,
    authority: Set<Seq<char>>,
    first: int,
    count: nat,
) -> Result<Seq<RowView>, ErrorView>
    decreases count,
{
    if count == 0 {
        Ok(Seq::empty())
    } else {
        match coupon_rows_from(sheet, file, sheet_name, authority, first, (count - 1) as nat) {
            Err(e) => Err(e),
            Ok(rows) => match read_row_spec(sheet, file, sheet_name, (first + count - 1) as u32) {
                Err(e) => Err(e),
                Ok(r) => Ok(rows.push(coupon_row_view(r, authority))),
            },
        }
    }
}

/// Once a row fails, every longer run of rows fails with the same error.
proof fn lemma_coupon_rows_err_extends(
    sheet: SheetGrid,
    file: Seq<char>,
    sheet_name: Seq<char>,
    authority: Set<Seq<char>>,
    first: int,
    count: nat,
    more: nat,
)
    requires
        coupon_rows_from(sheet, file, sheet_name, authority, first, count) is Err,
        count <= more,
    ensures
        coupon_rows_from(sheet, file, sheet_name, authority, first, more) == coupon_rows_from(
            sheet,
            file,
            sheet_name,
            authority,
            first,
            count,
        ),
    decreases more - count,
{
    if count < more {
        lemma_coupon_rows_err_extends(sheet, file, sheet_name, authority, first, count, (more - 1) as nat);
    }
}

/// The detail when cell A1 does not hold the title.
pub open spec fn title_message(title: Seq<char>) -> Seq<char> {
    "第1行第1列应为“"@ + TITLE@ + "”，实际为“"@ + title + "”"@
}

/// What processing the workbook gives: the sheet must be the only one, A1 must hold the title,
/// row 2 must hold the twenty-eight fields, the last row with a value must start with "合计";
/// the rows between row 2 and that row become output rows in order.
pub open spec fn coupon_rows_spec(sheets: Seq<SheetGrid>, authority: Set<Seq<char>>) -> Result<
    Seq<RowView>,
    ErrorView,
> {
    if sheets.len() != 1 {
        Err(structure_error_view(FILE_NAME@, Seq::empty(), sheet_count_message(sheets.len() as int)))
    } else {
        let sheet = sheets[0];
        let name = sheet.name_spec();
        let title = cell_display_seq(sheet.cell_spec(1, 1));
        if title != TITLE@ {
            Err(structure_error_view(FILE_NAME@, name, title_message(title)))
        } else if sheet.row_texts_spec(2) != source_headers_seq() {
            Err(structure_error_view(FILE_NAME@, name, "第2行表头与规定的28个字段不一致"@))
        } else {
            match closing_row_spec(sheet, FILE_NAME@) {
                Err(e) => Err(e),
                Ok(last) => coupon_rows_from(sheet, FILE_NAME@, name, authority, 3, data_row_count(last)),
            }
        }
    }
}

/// The coupon statistics job.
pub struct CouponsJob;

impl CouponsJob {
    pub fn category(&self) -> (c: Category)
        ensures
            c == Category::Coupons,
    {
        Category::Coupons
    }

    pub fn title(&self) -> (t: &'static str)
        ensures
            t@ == "销售用券情况统计"@,
    {
        "销售用券情况统计"
    }

    pub fn output_stem(&self) -> (t: &'static str)
        ensures
            t@ == "销售用券情况统计"@,
    {
        "销售用券情况统计"
    }

    /// Processes the sheets of the source workbook into the output table, checking reference
    /// numbers against `authority`.
    pub fn process(&self, sheets: &Vec<SheetGrid>, authority: &StringHashSet) -> (res: Result<
        Table,
        ProcessError,
    >)
        ensures
            match res {
                Ok(t) => coupon_rows_spec(sheets@, authority@) == Ok::<Seq<RowView>, ErrorView>(t@.rows)
                    && columns_view(t.columns@) == coupon_columns(),
                Err(e) => coupon_rows_spec(sheets@, authority@) == Err::<Seq<RowView>, ErrorView>(e@),
            },
    {
        if sheets.len() != 1 {
            return Err(sheet_count_error(FILE_NAME, sheets.len()));
        }
        let sheet = &sheets[0];
        let sheet_name = sheet.name();
        let title = cell_display(&sheet.cell(1, 1));
        if !str_eq(title.as_str(), TITLE) {
            let mut detail = "第1行第1列应为“".to_owned();
            detail.append(TITLE);
            detail.append("”，实际为“");
            detail.append(title.as_str());
            detail.append("”");
            return Err(
                ProcessError::Structure {
                    file: FILE_NAME.to_owned(),
                    sheet: sheet_name.to_owned(),
                    detail,
                },
            );
        }
        let header = sheet.row_texts(2);
        if !texts_equal(&header, &source_headers()) {
            return Err(
                ProcessError::Structure {
                    file: FILE_NAME.to_owned(),
                    sheet: sheet_name.to_owned(),
                    detail: "第2行表头与规定的28个字段不一致".to_owned(),
                },
            );
        }
        let last_row = match closing_row(sheet, FILE_NAME) {
            Ok(r) => r,
            Err(e) => return Err(e),
        };
        let ghost total = data_row_count(last_row);
        let mut rows: Vec<Row> = Vec::new();
        let mut row: u32 = 3;
        assert(rows@.map_values(|r: Row| r@) =~= Seq::<RowView>::empty());
        while row < last_row
            invariant
                sheets@.len() == 1,
                *sheet == sheets@[0],
                sheet_name@ == sheet.name_spec(),
                cell_display_seq(sheet.cell_spec(1, 1)) == TITLE@,
                sheet.row_texts_spec(2) == source_headers_seq(),
                closing_row_spec(*sheet, FILE_NAME@) == Ok::<u32, ErrorView>(last_row),
                total == data_row_count(last_row),
                3 <= row,
                row <= last_row || row == 3,
                coupon_rows_from(*sheet, FILE_NAME@, sheet_name@, authority@, 3, (row - 3) as nat)
                    == Ok::<Seq<RowView>, ErrorView>(rows@.map_values(|r: Row| r@)),
            decreases last_row - row,
        {
            match read_row(sheet, row, FILE_NAME, sheet_name) {
                Ok(record) => {
                    let ghost before = rows@;
                    rows.push(to_row(record, authority));
                    assert(rows@.map_values(|r: Row| r@) =~= before.map_values(|r: Row| r@).push(
                        rows@[before.len() as int]@,
                    ));
                },
                Err(e) => {
                    proof {
                        let c = (row - 3 + 1) as nat;
                        lemma_coupon_rows_err_extends(*sheet, FILE_NAME@, sheet_name@, authority@, 3, c, total);
                    }
                    return Err(e);
                },
            }
            row = row + 1;
        }
        Ok(Table { columns: output_columns(), rows })
    }
}


proof fn lemma_coupon_rows_from_width(
    sheet: SheetGrid,
    file: Seq<char>,
    sheet_name: Seq<char>,
    authority: Set<Seq<char>>,
    first: int,
    count: nat,
)
    requires
        coupon_rows_from(sheet, file, sheet_name, authority, first, count) is Ok,
    ensures
        forall|i: int|
            0 <= i < coupon_rows_from(sheet, file, sheet_name, authority, first, count)->Ok_0.len()
                ==> (#[trigger] coupon_rows_from(sheet, file, sheet_name, authority, first, count)->Ok_0[i]).values.len()
                == coupon_columns().len(),
    decreases count,
{
    if count > 0 {
        lemma_coupon_rows_from_width(sheet, file, sheet_name, authority, first, (count - 1) as nat);
    }
}

/// Every output row has one value per output column, so the table passes the check before it
/// is written.
pub proof fn lemma_coupon_rows_fit_columns(sheets: Seq<SheetGrid>, authority: Set<Seq<char>>)
    requires
        coupon_rows_spec(sheets, authority) is Ok,
    ensures
        forall|i: int|
            0 <= i < coupon_rows_spec(sheets, authority)->Ok_0.len() ==> (#[trigger] coupon_rows_spec(
                sheets,
                authority,
            )->Ok_0[i]).values.len() == coupon_columns().len(),
{
    let sheet = sheets[0];
    let last = closing_row_spec(sheet, FILE_NAME@)->Ok_0;
    lemma_coupon_rows_from_width(sheet, FILE_NAME@, sheet.name_spec(), authority, 3, data_row_count(last));
}


/// Against an authority built from retrieval numbers, the reference found in a summary is one
/// of those numbers and has the shape of a reference number.
pub proof fn lemma_reference_from_retrieval_numbers(summary: Seq<char>, retrieval_nos: Seq<Seq<char>>)
    ensures
        reference_of(summary, authority_of(retrieval_nos)) matches Some(x) ==> retrieval_nos.contains(x)
            && is_reference_chars(x),
{
    lemma_reference_is_known(summary, authority_of(retrieval_nos));
}

} // verus!
