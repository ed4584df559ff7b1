use vstd::prelude::*;

use vstd::relations::injective_on;
use vstd::set_lib::lemma_map_size;

use crate::io::sheet::{
    columns_reordered, header_text, lemma_columns_reordered_back, lemma_outside_range_empty,
    lemma_reordered_last_row, lemma_reordered_row_texts, lemma_row_texts_cells, reordered_texts,
    reorders, SheetGrid,
};
use crate::jobs::total_row_spec;
use crate::jobs::uploaded::{
    fields_of, fingerprint_spec, initial_state, join, lemma_fields_len, lemma_positions_bounded,
    lemma_resolve_len, lemma_row_reads_only_its_columns, positions_of, resolve_spec, row_step,
    rows_step, sheet_step, sheets_step, files_step, upload_row_count, uploaded_rows_spec,
    SourceFile, UploadState, UploadedGroup,
};
use crate::model::error::ErrorView;

verus! {

/// The indices at which `f` stands in `h`.
spec fn occurrences(h: Seq<Seq<char>>, f: Seq<char>) -> Set<int> {
    Set::new(|i: int| 0 <= i < h.len() && h[i] == f)
}

/// Every position where `f` stands is among its positions.
proof fn lemma_positions_complete(h: Seq<Seq<char>>, f: Seq<char>, idx: int)
    requires
        0 <= idx < h.len(),
        h[idx] == f,
    ensures
        positions_of(h, f).contains(idx),
    decreases h.len(),
{
    let rest = positions_of(h.drop_last(), f);
    if idx < h.len() - 1 {
        lemma_positions_complete(h.drop_last(), f, idx);
        let k = choose|k: int| 0 <= k < rest.len() && rest[k] == idx;
        if h.last() == f {
            assert(rest.push(h.len() - 1)[k] == idx);
        }
    } else {
        let ps = positions_of(h, f);
        assert(ps == rest.push(h.len() - 1));
        assert(ps[ps.len() - 1] == idx);
    }
}

/// Positions come in increasing order.
proof fn lemma_positions_increasing(h: Seq<Seq<char>>, f: Seq<char>)
    ensures
        forall|i: int, j: int|
            0 <= i < j < positions_of(h, f).len() ==> #[trigger] positions_of(h, f)[i] < #[trigger] positions_of(
                h,
                f,
            )[j],
    decreases h.len(),
{
    if h.len() > 0 {
        lemma_positions_increasing(h.drop_last(), f);
        lemma_positions_bounded(h.drop_last(), f);
    }
}

/// The number of positions of `f` in `h` is the number of indices where it stands.
proof fn lemma_positions_count(h: Seq<Seq<char>>, f: Seq<char>)
    ensures
        occurrences(h, f).finite(),
        positions_of(h, f).len() == occurrences(h, f).len(),
{
    broadcast use vstd::seq_lib::seq_to_set_is_finite;

    let ps = positions_of(h, f);
    lemma_positions_increasing(h, f);
    lemma_positions_bounded(h, f);
    assert(ps.no_duplicates()) by {
        assert forall|i: int, j: int| 0 <= i < ps.len() && 0 <= j < ps.len() && i != j implies ps[i]
            != ps[j] by {
            if i < j {
                assert(ps[i] < ps[j]);
            } else {
                assert(ps[j] < ps[i]);
            }
        }
    }
    assert(ps.to_set() =~= occurrences(h, f)) by {
        assert forall|i: int| occurrences(h, f).contains(i) implies ps.contains(i) by {
            lemma_positions_complete(h, f, i);
        }
        assert forall|i: int| ps.contains(i) implies occurrences(h, f).contains(i) by {
            let k = choose|k: int| 0 <= k < ps.len() && ps[k] == i;
        }
    }
    ps.unique_seq_to_set();
}

/// Putting the texts in a new order keeps how often each occurs.
proof fn lemma_reordered_count(
    h: Seq<Seq<char>>,
    f: Seq<char>,
    order: spec_fn(int) -> int,
    back: spec_fn(int) -> int,
)
    requires
        reorders(order, back, h.len() as int),
    ensures
        positions_of(reordered_texts(h, order), f).len() == positions_of(h, f).len(),
{
    let h2 = reordered_texts(h, order);
    let g = |j: int| back(j + 1) - 1;
    let o1 = occurrences(h, f);
    let o2 = occurrences(h2, f);
    lemma_positions_count(h, f);
    lemma_positions_count(h2, f);
    assert(o1.map(g) =~= o2) by {
        assert forall|i: int| o2.contains(i) implies o1.map(g).contains(i) by {
            let j = order(i + 1) - 1;
            assert(o1.contains(j));
            assert(g(j) == i);
        }
        assert forall|i: int| o1.map(g).contains(i) implies o2.contains(i) by {
            let j = choose|j: int| o1.contains(j) && g(j) == i;
            assert(order(back(j + 1)) == j + 1);
            assert(h2[i] == h[j]);
        }
    }
    assert(injective_on(g, o1)) by {
        assert forall|j1: int, j2: int| o1.contains(j1) && o1.contains(j2) && #[trigger] g(j1) == #[trigger] g(
            j2,
        ) implies j1 == j2 by {
            assert(order(back(j1 + 1)) == j1 + 1);
            assert(order(back(j2 + 1)) == j2 + 1);
        }
    }
    lemma_map_size(o1, o2, g);
}

/// Resolving fields in two headers gives the same error, or columns that correspond under the
/// new order: the column found for a field in the second header is the one it was moved to.
pub open spec fn resolutions_match(
    r1: Result<Seq<u32>, Seq<char>>,
    r2: Result<Seq<u32>, Seq<char>>,
    back: spec_fn(int) -> int,
    c: int,
    w: int,
) -> bool {
    match (r1, r2) {
        (Err(d1), Err(d2)) => d1 == d2,
        (Ok(c1), Ok(c2)) => cols_moved(c1, c2, back, c, w),
        _ => false,
    }
}

/// `c2` holds, field for field, where the columns `c1` of a range starting after column `c`
/// and `w` wide went in the new order.
pub open spec fn cols_moved(c1: Seq<u32>, c2: Seq<u32>, back: spec_fn(int) -> int, c: int, w: int) -> bool {
    &&& c2.len() == c1.len()
    &&& forall|k: int|
        0 <= k < c1.len() ==> c < #[trigger] c1[k] <= c + w && c2[k] as int == c + back(c1[k] - c)
}

/// A header with its texts in a new order resolves every field to the column it was moved to,
/// or fails with the same detail: how often a name occurs does not depend on where.
proof fn lemma_resolve_reordered(
    h: Seq<Seq<char>>,
    c: int,
    fields: Seq<Seq<char>>,
    order: spec_fn(int) -> int,
    back: spec_fn(int) -> int,
)
    requires
        reorders(order, back, h.len() as int),
        c >= 0,
        c + h.len() < u32::MAX,
    ensures
        resolutions_match(
            resolve_spec(h, c, fields),
            resolve_spec(reordered_texts(h, order), c, fields),
            back,
            c,
            h.len() as int,
        ),
    decreases fields.len(),
{
    let h2 = reordered_texts(h, order);
    if fields.len() > 0 {
        lemma_resolve_reordered(h, c, fields.drop_last(), order, back);
        let f = fields.last();
        let ps1 = positions_of(h, f);
        let ps2 = positions_of(h2, f);
        lemma_reordered_count(h, f, order, back);
        if ps1.len() == 1 {
            lemma_positions_bounded(h, f);
            lemma_positions_bounded(h2, f);
            let p = ps1[0];
            let q = back(p + 1) - 1;
            assert(order(back(p + 1)) == p + 1);
            assert(h2[q] == h[p]);
            lemma_positions_complete(h2, f, q);
            assert(ps2[0] == q);
            match (resolve_spec(h, c, fields.drop_last()), resolve_spec(h2, c, fields.drop_last())) {
                (Ok(c1), Ok(c2)) => {
                    let n1 = c1.push((c + p + 1) as u32);
                    let n2 = c2.push((c + q + 1) as u32);
                    assert(resolve_spec(h, c, fields) == Ok::<Seq<u32>, Seq<char>>(n1));
                    assert(resolve_spec(h2, c, fields) == Ok::<Seq<u32>, Seq<char>>(n2));
                    assert forall|k: int| 0 <= k < n1.len() implies c < #[trigger] n1[k] <= c + h.len()
                        && n2[k] as int == c + back(n1[k] - c) by {
                        if k < c1.len() {
                            assert(n1[k] == c1[k] && n2[k] == c2[k]);
                        }
                    }
                },
                _ => {},
            }
        }
    }
}

/// `t` holds no `c`.
pub open spec fn free_of(t: Seq<char>, c: char) -> bool {
    forall|m: int| 0 <= m < t.len() ==> t[m] != c
}

/// Joined texts hold a character only where a text or a separator holds it.
proof fn lemma_join_free_of(parts: Seq<Seq<char>>, sep: char, c: char)
    requires
        c != sep,
        forall|k: int| 0 <= k < parts.len() ==> free_of(#[trigger] parts[k], c),
    ensures
        free_of(join(parts, sep), c),
    decreases parts.len(),
{
    if parts.len() >= 2 {
        lemma_join_free_of(parts.drop_last(), sep, c);
        assert(free_of(parts[parts.len() - 1], c));
    } else if parts.len() == 1 {
        assert(free_of(parts[0], c));
    }
}

/// Texts that hold no separator are found again from their join: two nonempty lists of such
/// texts with the same join are the same list.
proof fn lemma_join_injective(p: Seq<Seq<char>>, q: Seq<Seq<char>>, sep: char)
    requires
        p.len() > 0,
        q.len() > 0,
        forall|k: int| 0 <= k < p.len() ==> free_of(#[trigger] p[k], sep),
        forall|k: int| 0 <= k < q.len() ==> free_of(#[trigger] q[k], sep),
        join(p, sep) == join(q, sep),
    ensures
        p == q,
    decreases p.len(),
{
    let s = join(p, sep);
    if p.len() == 1 && q.len() == 1 {
        assert(p =~= q);
    } else if p.len() == 1 {
        let b = join(q.drop_last(), sep);
        assert(s[b.len() as int] == sep);
        assert(free_of(p[0], sep));
    } else if q.len() == 1 {
        let a = join(p.drop_last(), sep);
        assert(s[a.len() as int] == sep);
        assert(free_of(q[0], sep));
    } else {
        let a = join(p.drop_last(), sep);
        let b = join(q.drop_last(), sep);
        let lp = p.last();
        let lq = q.last();
        assert(free_of(p[p.len() - 1], sep));
        assert(free_of(q[q.len() - 1], sep));
        assert(s == a.push(sep) + lp);
        assert(s == b.push(sep) + lq);
        if lp.len() < lq.len() {
            assert(s[a.len() as int] == sep);
            assert(lq[a.len() - b.len() - 1] == s[a.len() as int]);
        } else if lq.len() < lp.len() {
            assert(s[b.len() as int] == sep);
            assert(lp[b.len() - a.len() - 1] == s[b.len() as int]);
        } else {
            assert(a =~= s.subrange(0, a.len() as int));
            assert(b =~= s.subrange(0, b.len() as int));
            assert(lp =~= lq) by {
                assert forall|m: int| 0 <= m < lp.len() implies lp[m] == lq[m] by {
                    assert(s[a.len() + 1 + m] == lp[m]);
                    assert(s[b.len() + 1 + m] == lq[m]);
                }
            }
            assert forall|k: int| 0 <= k < p.drop_last().len() implies free_of(
                #[trigger] p.drop_last()[k],
                sep,
            ) by {
                assert(free_of(p[k], sep));
            }
            assert forall|k: int| 0 <= k < q.drop_last().len() implies free_of(
                #[trigger] q.drop_last()[k],
                sep,
            ) by {
                assert(free_of(q[k], sep));
            }
            lemma_join_injective(p.drop_last(), q.drop_last(), sep);
            assert(p =~= p.drop_last().push(lp));
            assert(q =~= q.drop_last().push(lq));
        }
    }
}

/// A text that holds neither separator of the sheet fingerprint (U+0001 between the texts of a
/// row, U+0002 between rows).
pub open spec fn separator_free(t: Seq<char>) -> bool {
    free_of(t, '\u{1}') && free_of(t, '\u{2}')
}

/// No cell of the sheet reads as a text that holds a fingerprint separator.
pub open spec fn no_separator_texts(s: SheetGrid) -> bool {
    forall|row: int, col: int| separator_free(#[trigger] header_text(s.cell_spec(row, col)))
}

/// `t` is `s` with the columns of its data range in the new order `order` (undone by `back`),
/// and no text of `s` holds a fingerprint separator.
pub open spec fn columns_moved(
    s: SheetGrid,
    t: SheetGrid,
    order: spec_fn(int) -> int,
    back: spec_fn(int) -> int,
) -> bool {
    &&& s.valid()
    &&& t.valid()
    &&& columns_reordered(s, t, order, back)
    &&& no_separator_texts(s)
}

/// Putting the columns back in their first order gives the first sheet back.
proof fn lemma_moved_back(s: SheetGrid, t: SheetGrid, order: spec_fn(int) -> int, back: spec_fn(int) -> int)
    requires
        columns_moved(s, t, order, back),
    ensures
        columns_moved(t, s, back, order),
{
    lemma_columns_reordered_back(s, t, order, back);
    let c0 = s.first_col_spec();
    assert forall|row: int, col: int| separator_free(#[trigger] header_text(t.cell_spec(row, col))) by {
        if c0 < col <= c0 + s.width_spec() {
            let k = col - c0;
            assert(t.cell_spec(row, c0 + k) == s.cell_spec(row, c0 + order(k)));
            assert(separator_free(header_text(s.cell_spec(row, c0 + order(k)))));
        } else {
            lemma_outside_range_empty(t, row, col);
        }
    }
}

/// A sheet's fingerprint as the duplicate check takes it.
pub open spec fn sheet_print(s: SheetGrid) -> Seq<char> {
    fingerprint_spec(s, total_row_spec(s))
}

/// The joined texts of a row: each text is free of both separators, and the join of U+0002.
proof fn lemma_row_join_free(s: SheetGrid, row: int)
    requires
        s.valid(),
        no_separator_texts(s),
    ensures
        forall|off: int|
            0 <= off < s.row_texts_spec(row).len() ==> free_of(#[trigger] s.row_texts_spec(row)[off], '\u{1}'),
        free_of(join(s.row_texts_spec(row), '\u{1}'), '\u{2}'),
{
    lemma_row_texts_cells(s, row);
    let q = s.row_texts_spec(row);
    assert forall|off: int| 0 <= off < q.len() implies separator_free(#[trigger] q[off]) by {
        assert(separator_free(header_text(s.cell_spec(row, s.first_col_spec() + off + 1))));
    }
    assert forall|off: int| 0 <= off < q.len() implies free_of(#[trigger] q[off], '\u{2}') by {
        assert(separator_free(q[off]));
    }
    lemma_join_free_of(q, '\u{1}', '\u{2}');
}

/// Two sheets of some width and with no separator in their texts have the same fingerprint only
/// when they have as many data rows and every fingerprinted row reads alike.
proof fn lemma_print_rows(x: SheetGrid, y: SheetGrid)
    requires
        x.valid(),
        y.valid(),
        no_separator_texts(x),
        no_separator_texts(y),
        x.width_spec() > 0,
        y.width_spec() > 0,
        sheet_print(x) == sheet_print(y),
    ensures
        upload_row_count(total_row_spec(x)) == upload_row_count(total_row_spec(y)),
        forall|k: int|
            0 <= k < 2 + upload_row_count(total_row_spec(x)) ==> #[trigger] x.row_texts_spec(k + 1)
                == y.row_texts_spec(k + 1),
{
    let px = Seq::new(
        2 + upload_row_count(total_row_spec(x)),
        |k: int| join(x.row_texts_spec(k + 1), '\u{1}'),
    );
    let py = Seq::new(
        2 + upload_row_count(total_row_spec(y)),
        |k: int| join(y.row_texts_spec(k + 1), '\u{1}'),
    );
    assert forall|k: int| 0 <= k < px.len() implies free_of(#[trigger] px[k], '\u{2}') by {
        lemma_row_join_free(x, k + 1);
    }
    assert forall|k: int| 0 <= k < py.len() implies free_of(#[trigger] py[k], '\u{2}') by {
        lemma_row_join_free(y, k + 1);
    }
    lemma_join_injective(px, py, '\u{2}');
    assert forall|k: int|
        0 <= k < 2 + upload_row_count(total_row_spec(x)) implies #[trigger] x.row_texts_spec(k + 1)
        == y.row_texts_spec(k + 1) by {
        lemma_row_join_free(x, k + 1);
        lemma_row_join_free(y, k + 1);
        lemma_row_texts_cells(x, k + 1);
        lemma_row_texts_cells(y, k + 1);
        assert(px[k] == py[k]);
        lemma_join_injective(x.row_texts_spec(k + 1), y.row_texts_spec(k + 1), '\u{1}');
    }
}

/// Sheets that share a fingerprint still share it after the columns of each are put in the
/// same new order.
proof fn lemma_print_moved(
    x1: SheetGrid,
    x2: SheetGrid,
    y1: SheetGrid,
    y2: SheetGrid,
    order: spec_fn(int) -> int,
    back: spec_fn(int) -> int,
)
    requires
        columns_moved(x1, x2, order, back),
        columns_moved(y1, y2, order, back),
        x1.width_spec() > 0,
        y1.width_spec() > 0,
        sheet_print(x1) == sheet_print(y1),
    ensures
        sheet_print(x2) == sheet_print(y2),
{
    lemma_print_rows(x1, y1);
    lemma_reordered_last_row(x1, x2, order, back);
    lemma_reordered_last_row(y1, y2, order, back);
    let n = 2 + upload_row_count(total_row_spec(x1));
    let px = Seq::new(n, |k: int| join(x2.row_texts_spec(k + 1), '\u{1}'));
    let py = Seq::new(n, |k: int| join(y2.row_texts_spec(k + 1), '\u{1}'));
    assert forall|k: int| 0 <= k < n implies px[k] == py[k] by {
        lemma_reordered_row_texts(x1, x2, order, back, k + 1);
        lemma_reordered_row_texts(y1, y2, order, back, k + 1);
        assert(x1.row_texts_spec(k + 1) == y1.row_texts_spec(k + 1));
    }
    assert(px =~= py);
}

/// A resolution that succeeds for a nonempty list of fields found them in a nonempty header.
proof fn lemma_resolved_header_nonempty(h: Seq<Seq<char>>, c: int, fields: Seq<Seq<char>>)
    requires
        fields.len() > 0,
        resolve_spec(h, c, fields) is Ok,
    ensures
        h.len() > 0,
{
    let f = fields.last();
    lemma_positions_bounded(h, f);
    if resolve_spec(h, c, fields.drop_last()) is Ok {
        assert(positions_of(h, f).len() == 1);
        assert(0 <= positions_of(h, f)[0] < h.len());
    }
}

/// Two runs in step: the same rows and UUIDs so far, and for every pair of sheets related by
/// the new order, the first has been seen (and from which file) exactly when the second has.
spec fn states_match(
    st1: UploadState,
    st2: UploadState,
    order: spec_fn(int) -> int,
    back: spec_fn(int) -> int,
) -> bool {
    &&& st1.rows == st2.rows
    &&& st1.seen == st2.seen
    &&& forall|y1: SheetGrid, y2: SheetGrid|
        #![trigger columns_moved(y1, y2, order, back)]
        columns_moved(y1, y2, order, back) && y1.width_spec() > 0 ==> {
            &&& st1.prints.contains_key(sheet_print(y1)) == st2.prints.contains_key(sheet_print(y2))
            &&& st1.prints.contains_key(sheet_print(y1)) ==> st1.prints[sheet_print(y1)]
                == st2.prints[sheet_print(y2)]
        }
}

/// Two steps end alike: with the same error, or in matching states.
spec fn outcomes_match(
    r1: Result<UploadState, ErrorView>,
    r2: Result<UploadState, ErrorView>,
    order: spec_fn(int) -> int,
    back: spec_fn(int) -> int,
) -> bool {
    match (r1, r2) {
        (Err(e1), Err(e2)) => e1 == e2,
        (Ok(s1), Ok(s2)) => states_match(s1, s2, order, back),
        _ => false,
    }
}

proof fn lemma_row_step_moved(
    st1: UploadState,
    st2: UploadState,
    group: UploadedGroup,
    x1: SheetGrid,
    x2: SheetGrid,
    row: u32,
    cols1: Seq<u32>,
    cols2: Seq<u32>,
    file: Seq<char>,
    name: Seq<char>,
    order: spec_fn(int) -> int,
    back: spec_fn(int) -> int,
)
    requires
        states_match(st1, st2, order, back),
        columns_reordered(x1, x2, order, back),
        cols1.len() == fields_of(group).len(),
        cols_moved(cols1, cols2, back, x1.first_col_spec(), x1.width_spec()),
    ensures
        outcomes_match(
            row_step(st1, group, x1, row, cols1, file, name),
            row_step(st2, group, x2, row, cols2, file, name),
            order,
            back,
        ),
{
    let c0 = x1.first_col_spec();
    assert forall|k: int| 0 <= k < cols1.len() implies x1.cell_spec(row as int, #[trigger] cols1[k] as int)
        == x2.cell_spec(row as int, cols2[k] as int) by {
        let m = cols1[k] - c0;
        assert(1 <= m <= x1.width_spec());
        assert(cols2[k] as int == c0 + back(m));
        assert(x2.cell_spec(row as int, c0 + back(m)) == x1.cell_spec(row as int, c0 + order(back(m))));
    }
    lemma_row_reads_only_its_columns(group, x1, x2, row, cols1, cols2, file, name);
}

proof fn lemma_rows_step_moved(
    st1: UploadState,
    st2: UploadState,
    group: UploadedGroup,
    x1: SheetGrid,
    x2: SheetGrid,
    cols1: Seq<u32>,
    cols2: Seq<u32>,
    file: Seq<char>,
    name: Seq<char>,
    count: nat,
    order: spec_fn(int) -> int,
    back: spec_fn(int) -> int,
)
    requires
        states_match(st1, st2, order, back),
        columns_reordered(x1, x2, order, back),
        cols1.len() == fields_of(group).len(),
        cols_moved(cols1, cols2, back, x1.first_col_spec(), x1.width_spec()),
    ensures
        outcomes_match(
            rows_step(st1, group, x1, cols1, file, name, count),
            rows_step(st2, group, x2, cols2, file, name, count),
            order,
            back,
        ),
    decreases count,
{
    if count > 0 {
        lemma_rows_step_moved(st1, st2, group, x1, x2, cols1, cols2, file, name, (count - 1) as nat, order, back);
        match (
            rows_step(st1, group, x1, cols1, file, name, (count - 1) as nat),
            rows_step(st2, group, x2, cols2, file, name, (count - 1) as nat),
        ) {
            (Ok(s1), Ok(s2)) => {
                lemma_row_step_moved(s1, s2, group, x1, x2, (3 + count - 1) as u32, cols1, cols2, file, name, order, back);
            },
            _ => {},
        }
    }
}

proof fn lemma_sheet_step_moved(
    st1: UploadState,
    st2: UploadState,
    group: UploadedGroup,
    x1: SheetGrid,
    x2: SheetGrid,
    file: Seq<char>,
    order: spec_fn(int) -> int,
    back: spec_fn(int) -> int,
)
    requires
        states_match(st1, st2, order, back),
        columns_moved(x1, x2, order, back),
    ensures
        outcomes_match(sheet_step(st1, group, x1, file), sheet_step(st2, group, x2, file), order, back),
{
    let fields = fields_of(group);
    let c0 = x1.first_col_spec();
    lemma_fields_len(group);
    lemma_row_texts_cells(x1, 2);
    lemma_reordered_row_texts(x1, x2, order, back, 2);
    let h1 = x1.row_texts_spec(2);
    lemma_resolve_reordered(h1, c0, fields, order, back);
    if let Ok(cols1) = resolve_spec(h1, c0, fields) {
        let cols2 = resolve_spec(x2.row_texts_spec(2), c0, fields)->Ok_0;
        lemma_resolve_len(h1, c0, fields);
        lemma_resolved_header_nonempty(h1, c0, fields);
        lemma_reordered_last_row(x1, x2, order, back);
        let fp1 = sheet_print(x1);
        let fp2 = sheet_print(x2);
        assert(columns_moved(x1, x2, order, back) && x1.width_spec() > 0);
        let next1 = if st1.prints.contains_key(fp1) {
            st1
        } else {
            UploadState { rows: st1.rows, prints: st1.prints.insert(fp1, file), seen: st1.seen }
        };
        let next2 = if st2.prints.contains_key(fp2) {
            st2
        } else {
            UploadState { rows: st2.rows, prints: st2.prints.insert(fp2, file), seen: st2.seen }
        };
        if !st1.prints.contains_key(fp1) {
            assert forall|y1: SheetGrid, y2: SheetGrid|
                columns_moved(y1, y2, order, back) && y1.width_spec() > 0 implies {
                &&& next1.prints.contains_key(sheet_print(y1)) == next2.prints.contains_key(sheet_print(y2))
                &&& next1.prints.contains_key(sheet_print(y1)) ==> next1.prints[sheet_print(y1)]
                    == next2.prints[sheet_print(y2)]
            } by {
                assert(columns_moved(y1, y2, order, back));
                if sheet_print(y1) == fp1 {
                    lemma_print_moved(y1, y2, x1, x2, order, back);
                }
                if sheet_print(y2) == fp2 {
                    lemma_moved_back(x1, x2, order, back);
                    lemma_moved_back(y1, y2, order, back);
                    lemma_print_moved(y2, y1, x2, x1, back, order);
                }
            }
            assert(states_match(next1, next2, order, back));
        }
        lemma_rows_step_moved(
            next1,
            next2,
            group,
            x1,
            x2,
            cols1,
            cols2,
            file,
            x1.name_spec(),
            upload_row_count(total_row_spec(x1)),
            order,
            back,
        );
    }
}

proof fn lemma_sheets_step_moved(
    st1: UploadState,
    st2: UploadState,
    group: UploadedGroup,
    sheets1: Seq<SheetGrid>,
    sheets2: Seq<SheetGrid>,
    file: Seq<char>,
    n: nat,
    order: spec_fn(int) -> int,
    back: spec_fn(int) -> int,
)
    requires
        states_match(st1, st2, order, back),
        n <= sheets1.len(),
        sheets2.len() == sheets1.len(),
        forall|k: int| 0 <= k < sheets1.len() ==> columns_moved(#[trigger] sheets1[k], sheets2[k], order, back),
    ensures
        outcomes_match(
            sheets_step(st1, group, sheets1, file, n),
            sheets_step(st2, group, sheets2, file, n),
            order,
            back,
        ),
    decreases n,
{
    if n > 0 {
        lemma_sheets_step_moved(st1, st2, group, sheets1, sheets2, file, (n - 1) as nat, order, back);
        match (
            sheets_step(st1, group, sheets1, file, (n - 1) as nat),
            sheets_step(st2, group, sheets2, file, (n - 1) as nat),
        ) {
            (Ok(s1), Ok(s2)) => {
                assert(columns_moved(sheets1[n - 1], sheets2[n - 1], order, back));
                lemma_sheet_step_moved(s1, s2, group, sheets1[n - 1], sheets2[n - 1], file, order, back);
            },
            _ => {},
        }
    }
}

/// `f2` is `f1` with the columns of each of its sheets in the new order: the same name, and the
/// same error reading it, or sheet for sheet the reordered sheets.
pub open spec fn files_moved(
    f1: SourceFile,
    f2: SourceFile,
    order: spec_fn(int) -> int,
    back: spec_fn(int) -> int,
) -> bool {
    &&& f1.name@ == f2.name@
    &&& match (f1.sheets, f2.sheets) {
        (Err(e1), Err(e2)) => e1@ == e2@,
        (Ok(v1), Ok(v2)) => v1@.len() == v2@.len() && forall|k: int|
            0 <= k < v1@.len() ==> columns_moved(#[trigger] v1@[k], v2@[k], order, back),
        _ => false,
    }
}

proof fn lemma_files_step_moved(
    st1: UploadState,
    st2: UploadState,
    group: UploadedGroup,
    files1: Seq<SourceFile>,
    files2: Seq<SourceFile>,
    n: nat,
    order: spec_fn(int) -> int,
    back: spec_fn(int) -> int,
)
    requires
        states_match(st1, st2, order, back),
        n <= files1.len(),
        files2.len() == files1.len(),
        forall|k: int| 0 <= k < files1.len() ==> files_moved(#[trigger] files1[k], files2[k], order, back),
    ensures
        outcomes_match(files_step(st1, group, files1, n), files_step(st2, group, files2, n), order, back),
    decreases n,
{
    if n > 0 {
        lemma_files_step_moved(st1, st2, group, files1, files2, (n - 1) as nat, order, back);
        match (files_step(st1, group, files1, (n - 1) as nat), files_step(st2, group, files2, (n - 1) as nat)) {
            (Ok(s1), Ok(s2)) => {
                let f1 = files1[n - 1];
                let f2 = files2[n - 1];
                assert(files_moved(f1, f2, order, back));
                match (f1.sheets, f2.sheets) {
                    (Ok(v1), Ok(v2)) => {
                        lemma_sheets_step_moved(s1, s2, group, v1@, v2@, f1.name@, v1@.len(), order, back);
                    },
                    _ => {},
                }
            },
            _ => {},
        }
    }
}

/// Fields are found by their names in row 2, not by where they stand: when the columns of every
/// sheet of every source file are put in one new order (the `k`-th column of each data range
/// taken from its `order(k)`-th, `back` undoing it), the group's processing gives the same
/// rows, or the same error. This holds of sheets with no text holding U+0001 or U+0002, the
/// separators of the sheet fingerprint.
pub proof fn lemma_uploaded_column_order_irrelevant(
    group: UploadedGroup,
    files1: Seq<SourceFile>,
    files2: Seq<SourceFile>,
    order: spec_fn(int) -> int,
    back: spec_fn(int) -> int,
)
    requires
        files2.len() == files1.len(),
        forall|k: int| 0 <= k < files1.len() ==> files_moved(#[trigger] files1[k], files2[k], order, back),
    ensures
        uploaded_rows_spec(group, files1) == uploaded_rows_spec(group, files2),
{
    if files1.len() > 0 {
        assert(states_match(initial_state(), initial_state(), order, back));
        lemma_files_step_moved(initial_state(), initial_state(), group, files1, files2, files1.len(), order, back);
    }
}

} // verus!
