use vstd::prelude::*;

use crate::model::calendar::{Date, DateTime};
use crate::model::decimal::Decimal;
use crate::utils::numerals::{int_text, int_to_text};

verus! {

/// A number cell as the workbook stores it, with what the jobs read from it: its display text,
/// the whole number it stands for when it is one that converts back to its text without loss,
/// and its decimal value.
#[derive(Clone, Debug, PartialEq)]
pub struct FloatCell {
    pub display: String,
    pub identifier: Option<String>,
    pub amount: Option<Decimal>,
}

/// A date/time serial cell (before any epoch conversion), with its display text and the date
/// and date-time it converts to under the 1900 date system.
#[derive(Clone, Debug, PartialEq)]
pub struct SerialCell {
    pub display: String,
    pub date: Option<Date>,
    pub datetime: Option<DateTime>,
}

/// A cell's raw value, keeping the source type for the jobs to judge.
#[derive(Clone, Debug, PartialEq)]
pub enum RawCell {
    Empty,
    Text(String),
    Float(FloatCell),
    Int(i64),
    Bool(bool),
    /// An Excel date/time serial value.
    DateTime(SerialCell),
    Error(String),
}

pub open spec fn bool_text(b: bool) -> Seq<char> {
    if b {
        "true"@
    } else {
        "false"@
    }
}

pub fn bool_to_text(b: bool) -> (res: String)
    ensures
        res@ == bool_text(b),
{
    if b {
        "true".to_owned()
    } else {
        "false".to_owned()
    }
}

/// The text a header cell reads as: text as it is, numbers and booleans written out, and
/// nothing for empty, date and error cells.
pub open spec fn header_text(c: RawCell) -> Seq<char> {
    match c {
        RawCell::Text(t) => t@,
        RawCell::Int(v) => int_text(v as int),
        RawCell::Float(f) => f.display@,
        RawCell::Bool(b) => bool_text(b),
        _ => Seq::empty(),
    }
}

pub fn header_text_of(c: &RawCell) -> (res: String)
    ensures
        res@ == header_text(*c),
{
    match c {
        RawCell::Text(t) => t.clone(),
        RawCell::Int(v) => int_to_text(*v),
        RawCell::Float(f) => f.display.clone(),
        RawCell::Bool(b) => bool_to_text(*b),
        _ => String::new(),
    }
}

impl FloatCell {
    /// A copy of the cell.
    pub fn copied(&self) -> (res: FloatCell)
        ensures
            res == *self,
    {
        FloatCell {
            display: self.display.clone(),
            identifier: match &self.identifier {
                Some(t) => Some(t.clone()),
                None => None,
            },
            amount: self.amount,
        }
    }
}

impl SerialCell {
    /// A copy of the cell.
    pub fn copied(&self) -> (res: SerialCell)
        ensures
            res == *self,
    {
        SerialCell { display: self.display.clone(), date: self.date, datetime: self.datetime }
    }
}

impl RawCell {
    /// A copy of the cell.
    pub fn copied(&self) -> (res: RawCell)
        ensures
            res == *self,
    {
        match self {
            RawCell::Empty => RawCell::Empty,
            RawCell::Text(t) => RawCell::Text(t.clone()),
            RawCell::Float(f) => RawCell::Float(f.copied()),
            RawCell::Int(n) => RawCell::Int(*n),
            RawCell::Bool(b) => RawCell::Bool(*b),
            RawCell::DateTime(d) => RawCell::DateTime(d.copied()),
            RawCell::Error(m) => RawCell::Error(m.clone()),
        }
    }
}

/// Rows that make a data range at `origin`: none without an origin; otherwise all as wide as
/// the first, and the range within the sheet's `u32` coordinates.
pub open spec fn grid_fits(origin: Option<(u32, u32)>, cells: Seq<Vec<RawCell>>) -> bool {
    match origin {
        None => cells.len() == 0,
        Some((r0, c0)) => {
            let w = if cells.len() == 0 {
                0
            } else {
                cells[0]@.len()
            };
            &&& r0 + cells.len() <= u32::MAX
            &&& c0 + w < u32::MAX
            &&& forall|r: int| 0 <= r < cells.len() ==> #[trigger] cells[r]@.len() == w
        },
    }
}

/// The width of a data range: that of its first row.
pub open spec fn width_of(cells: Seq<Vec<RawCell>>) -> nat {
    if cells.len() == 0 {
        0
    } else {
        cells[0]@.len()
    }
}

/// One worksheet's data range. Rows and columns are absolute Excel numbers counted from 1.
pub struct SheetGrid {
    name: String,
    origin: Option<(u32, u32)>,
    width: u32,
    cells: Vec<Vec<RawCell>>,
}

impl SheetGrid {
    #[verifier::type_invariant]
    spec fn inv(self) -> bool {
        self.valid()
    }

    /// The data range is well formed: all rows as wide as the range, and the range within the
    /// sheet's `u32` coordinates. Every sheet that exists at run time is valid.
    pub closed spec fn valid(self) -> bool {
        match self.origin {
            None => self.cells@.len() == 0 && self.width == 0,
            Some((r0, c0)) => {
                &&& r0 + self.cells@.len() <= u32::MAX
                &&& c0 + self.width < u32::MAX
                &&& forall|r: int|
                    0 <= r < self.cells@.len() ==> #[trigger] self.cells@[r]@.len() == self.width
            },
        }
    }

    /// The zero-based column of the data range's first column (0 for a sheet without data).
    pub closed spec fn first_col_spec(self) -> int {
        match self.origin {
            None => 0,
            Some((r0, c0)) => c0 as int,
        }
    }

    /// The number of columns of the data range.
    pub closed spec fn width_spec(self) -> int {
        self.width as int
    }

    pub closed spec fn name_spec(self) -> Seq<char> {
        self.name@
    }

    /// The cell at absolute row `row` and column `col`; outside the data range it is empty.
    pub closed spec fn cell_spec(self, row: int, col: int) -> RawCell {
        match self.origin {
            None => RawCell::Empty,
            Some((r0, c0)) => {
                let r = row - 1 - r0;
                let c = col - 1 - c0;
                if row >= 1 && col >= 1 && 0 <= r < self.cells@.len() && 0 <= c < self.width {
                    self.cells@[r]@[c]
                } else {
                    RawCell::Empty
                }
            },
        }
    }

    /// Row `r` of the range holds a non-empty cell.
    pub closed spec fn row_has_value(self, r: int) -> bool {
        exists|c: int| 0 <= c < self.width && !(#[trigger] self.cells@[r]@[c] is Empty)
    }

    /// Row `r` of the range holds a value and no later row does.
    pub closed spec fn is_last_value_index(self, r: int) -> bool {
        &&& 0 <= r < self.cells@.len()
        &&& self.row_has_value(r)
        &&& forall|r2: int| r < r2 < self.cells@.len() ==> !#[trigger] self.row_has_value(r2)
    }

    /// Absolute number of the last row that holds a non-empty cell.
    pub closed spec fn last_value_row_spec(self) -> Option<u32> {
        match self.origin {
            None => None,
            Some((r0, c0)) => if exists|r: int| #[trigger] self.is_last_value_index(r) {
                let last = choose|r: int| #[trigger] self.is_last_value_index(r);
                Some((r0 + last + 1) as u32)
            } else {
                None
            },
        }
    }

    /// The texts of absolute row `row` across the full width of the data range.
    pub closed spec fn row_texts_spec(self, row: int) -> Seq<Seq<char>> {
        match self.origin {
            None => Seq::empty(),
            Some((r0, c0)) => Seq::new(
                self.width as nat,
                |off: int| header_text(self.cell_spec(row, c0 + off + 1)),
            ),
        }
    }

    /// A sheet from its name, the zero-based position of its data range's top-left cell and
    /// the rows of that range; `None` when the rows are not all equally wide or the range does
    /// not fit the sheet's coordinates.
    pub fn new(name: String, origin: Option<(u32, u32)>, cells: Vec<Vec<RawCell>>) -> (res: Option<SheetGrid>)
        ensures
            res is Some <==> grid_fits(origin, cells@),
            res matches Some(s) ==> s.valid(),
            res matches Some(s) ==> s.first_col_spec() == (match origin {
                None => 0int,
                Some((r0, c0)) => c0 as int,
            }),
            res matches Some(s) ==> s.name_spec() == name@ && (forall|row: int, col: int|
                #[trigger] s.cell_spec(row, col) == (match origin {
                    None => RawCell::Empty,
                    Some((r0, c0)) => if row >= 1 && col >= 1 && 0 <= row - 1 - r0 < cells@.len()
                        && 0 <= col - 1 - c0 < cells@[row - 1 - r0]@.len() {
                        cells@[row - 1 - r0]@[col - 1 - c0]
                    } else {
                        RawCell::Empty
                    },
                })) && (forall|row: int|
                #[trigger] s.row_texts_spec(row) == (match origin {
                    None => Seq::empty(),
                    Some((r0, c0)) => Seq::new(
                        width_of(cells@),
                        |off: int| header_text(s.cell_spec(row, c0 + off + 1)),
                    ),
                })),
    {
        match origin {
            None => {
                if cells.len() != 0 {
                    return None;
                }
                Some(SheetGrid { name, origin, width: 0, cells })
            },
            Some((r0, c0)) => {
                let height = cells.len();
                if height as u64 > (u32::MAX - r0) as u64 {
                    return None;
                }
                let w = if height == 0 {
                    0
                } else {
                    cells[0].len()
                };
                if w as u64 >= (u32::MAX - c0) as u64 {
                    return None;
                }
                let width = w as u32;
                let mut i: usize = 0;
                while i < height
                    invariant
                        height == cells@.len(),
                        w == width as usize,
                        height > 0 ==> w == cells@[0]@.len(),
                        i <= height,
                        forall|r: int| 0 <= r < i ==> #[trigger] cells@[r]@.len() == width,
                    decreases height - i,
                {
                    if cells[i].len() != w {
                        assert(cells@[i as int]@.len() != w);
                        return None;
                    }
                    i = i + 1;
                }
                Some(SheetGrid { name, origin, width, cells })
            },
        }
    }

    /// The zero-based column where the data range starts: the text at offset `off` of a row
    /// stands in absolute column `first_col() + off + 1`.
    pub fn first_col(&self) -> (c: u32)
        ensures
            c == self.first_col_spec(),
            forall|row: int| #[trigger] self.row_texts_spec(row).len() + c < u32::MAX,
            forall|row: int, off: int|
                0 <= off < self.row_texts_spec(row).len() ==> #[trigger] self.row_texts_spec(row)[off]
                    == header_text(self.cell_spec(row, c + off + 1)),
    {
        proof {
            use_type_invariant(self);
        }
        match self.origin {
            None => 0,
            Some((r0, c0)) => c0,
        }
    }

    pub fn name(&self) -> (res: &str)
        ensures
            res@ == self.name_spec(),
    {
        self.name.as_str()
    }

    /// The cell at absolute row `row` and column `col` (both from 1); outside the data range,
    /// or at row or column 0, it is empty.
    pub fn cell(&self, row: u32, col: u32) -> (res: RawCell)
        ensures
            res == self.cell_spec(row as int, col as int),
    {
        proof {
            use_type_invariant(self);
        }
        if row == 0 || col == 0 {
            return RawCell::Empty;
        }
        match self.origin {
            None => RawCell::Empty,
            Some((r0, c0)) => {
                if row - 1 < r0 || col - 1 < c0 {
                    return RawCell::Empty;
                }
                let r = (row - 1 - r0) as usize;
                let c = (col - 1 - c0) as usize;
                if r < self.cells.len() && c < self.width as usize {
                    self.cells[r][c].copied()
                } else {
                    RawCell::Empty
                }
            },
        }
    }

    /// Absolute number of the last row with a non-empty cell.
    pub fn last_value_row(&self) -> (res: Option<u32>)
        ensures
            res == self.last_value_row_spec(),
            last_value_row_in_cells(*self, res),
    {
        proof {
            use_type_invariant(self);
            lemma_last_value_row(*self);
        }
        match self.origin {
            None => None,
            Some((r0, c0)) => {
                let mut r: usize = self.cells.len();
                while r > 0
                    invariant
                        self.origin == Some((r0, c0)),
                        r0 + self.cells@.len() <= u32::MAX,
                        last_value_row_in_cells(*self, self.last_value_row_spec()),
                        r <= self.cells@.len(),
                        forall|r2: int| r <= r2 < self.cells@.len() ==> !#[trigger] self.row_has_value(r2),
                        forall|x: int| 0 <= x < self.cells@.len() ==> #[trigger] self.cells@[x]@.len() == self.width,
                    decreases r,
                {
                    let row = &self.cells[r - 1];
                    let mut c: usize = 0;
                    while c < row.len()
                        invariant
                            self.origin == Some((r0, c0)),
                            r0 + self.cells@.len() <= u32::MAX,
                            last_value_row_in_cells(*self, self.last_value_row_spec()),
                            0 < r <= self.cells@.len(),
                            forall|r2: int| r <= r2 < self.cells@.len() ==> !#[trigger] self.row_has_value(r2),
                            row@ == self.cells@[r - 1]@,
                            row@.len() == self.width,
                            c <= row@.len(),
                            forall|c2: int| 0 <= c2 < c ==> #[trigger] row@[c2] is Empty,
                        decreases row@.len() - c,
                    {
                        if !matches!(row[c], RawCell::Empty) {
                            proof {
                                let last = (r - 1) as int;
                                assert(self.cells@[last]@[c as int] == row@[c as int]);
                                assert(self.row_has_value(last));
                                assert(self.is_last_value_index(last));
                                let chosen = choose|x: int| #[trigger] self.is_last_value_index(x);
                                if chosen < last {
                                    assert(!self.row_has_value(last));
                                }
                                if chosen > last {
                                    assert(!self.row_has_value(chosen));
                                }
                            }
                            return Some(r0 + (r - 1) as u32 + 1);
                        }
                        c = c + 1;
                    }
                    proof {
                        assert(!self.row_has_value((r - 1) as int));
                    }
                    r = r - 1;
                }
                None
            },
        }
    }

    /// The texts of absolute row `row` across the full width of the data range (the header
    /// reading of each cell).
    pub fn row_texts(&self, row: u32) -> (res: Vec<String>)
        ensures
            res@.map_values(|s: String| s@) == self.row_texts_spec(row as int),
            res@.len() < u32::MAX,
    {
        proof {
            use_type_invariant(self);
        }
        let mut out: Vec<String> = Vec::new();
        match self.origin {
            None => {
                assert(out@.map_values(|s: String| s@) =~= self.row_texts_spec(row as int));
            },
            Some((r0, c0)) => {
                let width = self.width;
                let mut off: u32 = 0;
                while off < width
                    invariant
                        self.origin == Some((r0, c0)),
                        width == self.width,
                        c0 + width < u32::MAX,
                        off <= width,
                        out@.len() == off,
                        forall|k: int|
                            0 <= k < off ==> #[trigger] out@[k]@ == header_text(
                                self.cell_spec(row as int, c0 + k + 1),
                            ),
                    decreases width - off,
                {
                    let c = self.cell(row, c0 + off + 1);
                    out.push(header_text_of(&c));
                    off = off + 1;
                }
                assert(out@.map_values(|s: String| s@) =~= self.row_texts_spec(row as int));
            },
        }
        out
    }
}


/// The last row with a value, in terms of the cells: a row holding a non-empty cell with only
/// empty cells below it; `None` when every cell is empty.
pub open spec fn last_value_row_in_cells(s: SheetGrid, res: Option<u32>) -> bool {
    match res {
        Some(r) => {
            &&& r >= 1
            &&& exists|c: int| !(#[trigger] s.cell_spec(r as int, c) is Empty)
            &&& forall|r2: int, c: int| r2 > r ==> #[trigger] s.cell_spec(r2, c) is Empty
        },
        None => forall|r: int, c: int| #[trigger] s.cell_spec(r, c) is Empty,
    }
}

proof fn lemma_last_value_row(s: SheetGrid)
    requires
        s.origin matches Some((r0, c0)) ==> r0 + s.cells@.len() <= u32::MAX,
    ensures
        last_value_row_in_cells(s, s.last_value_row_spec()),
{
    match s.origin {
        None => {},
        Some((r0, c0)) => {
            if exists|r: int| #[trigger] s.is_last_value_index(r) {
                let last = choose|r: int| #[trigger] s.is_last_value_index(r);
                let c = choose|c: int| 0 <= c < s.width && !(#[trigger] s.cells@[last]@[c] is Empty);
                assert(!(s.cell_spec(r0 + last + 1, c0 + c + 1) is Empty));
                assert forall|r2: int, col: int| r2 > r0 + last + 1 implies #[trigger] s.cell_spec(r2, col) is Empty by {
                    let i = r2 - 1 - r0;
                    let j = col - 1 - c0;
                    if r2 >= 1 && col >= 1 && 0 <= i < s.cells@.len() && 0 <= j < s.width {
                        assert(!s.row_has_value(i));
                    }
                }
            } else {
                assert forall|r: int, col: int| #[trigger] s.cell_spec(r, col) is Empty by {
                    let i = r - 1 - r0;
                    let j = col - 1 - c0;
                    if r >= 1 && col >= 1 && 0 <= i < s.cells@.len() && 0 <= j < s.width {
                        if !(s.cells@[i]@[j] is Empty) {
                            lemma_some_last_row(s, i);
                        }
                    }
                }
            }
        },
    }
}

/// A row with a value means some row is the last with one.
proof fn lemma_some_last_row(s: SheetGrid, i: int)
    requires
        0 <= i < s.cells@.len(),
        s.row_has_value(i),
    ensures
        exists|r: int| #[trigger] s.is_last_value_index(r),
    decreases s.cells@.len() - i,
{
    if forall|r2: int| i < r2 < s.cells@.len() ==> !#[trigger] s.row_has_value(r2) {
        assert(s.is_last_value_index(i));
    } else {
        let k = choose|r2: int| i < r2 < s.cells@.len() && #[trigger] s.row_has_value(r2);
        lemma_some_last_row(s, k);
    }
}


/// The texts of a row are the header readings of its cells, one per column of the range.
pub proof fn lemma_row_texts_cells(s: SheetGrid, row: int)
    requires
        s.valid(),
    ensures
        s.row_texts_spec(row).len() == s.width_spec(),
        s.width_spec() >= 0,
        s.first_col_spec() >= 0,
        s.first_col_spec() + s.width_spec() < u32::MAX,
        forall|off: int|
            0 <= off < s.width_spec() ==> #[trigger] s.row_texts_spec(row)[off] == header_text(
                s.cell_spec(row, s.first_col_spec() + off + 1),
            ),
{
}

/// `order` puts the columns `1..=w` of a data range in a new order, and `back` undoes it: both
/// map `1..=w` into itself and each is the other's inverse there.
pub open spec fn reorders(order: spec_fn(int) -> int, back: spec_fn(int) -> int, w: int) -> bool {
    forall|k: int|
        #![trigger order(k)]
        #![trigger back(k)]
        1 <= k <= w ==> {
            &&& 1 <= order(k) <= w
            &&& 1 <= back(k) <= w
            &&& order(back(k)) == k
            &&& back(order(k)) == k
        }
}

/// `t` is `s` with the columns of its data range put in a new order: the same name and range,
/// and the `k`-th column of the range of `t` is the `order(k)`-th of `s`.
pub open spec fn columns_reordered(
    s: SheetGrid,
    t: SheetGrid,
    order: spec_fn(int) -> int,
    back: spec_fn(int) -> int,
) -> bool {
    let c0 = s.first_col_spec();
    &&& t.name_spec() == s.name_spec()
    &&& t.first_col_spec() == c0
    &&& t.width_spec() == s.width_spec()
    &&& reorders(order, back, s.width_spec())
    &&& forall|row: int, k: int|
        1 <= k <= s.width_spec() ==> #[trigger] t.cell_spec(row, c0 + k) == s.cell_spec(row, c0 + order(k))
}

/// Outside its data range a valid sheet is empty.
pub proof fn lemma_outside_range_empty(s: SheetGrid, row: int, col: int)
    requires
        s.valid(),
        !(s.first_col_spec() < col <= s.first_col_spec() + s.width_spec()),
    ensures
        s.cell_spec(row, col) is Empty,
{
}

/// Putting the columns back in their first order gives the first sheet back.
pub proof fn lemma_columns_reordered_back(
    s: SheetGrid,
    t: SheetGrid,
    order: spec_fn(int) -> int,
    back: spec_fn(int) -> int,
)
    requires
        columns_reordered(s, t, order, back),
    ensures
        columns_reordered(t, s, back, order),
{
    let c0 = s.first_col_spec();
    assert forall|row: int, k: int| 1 <= k <= t.width_spec() implies #[trigger] s.cell_spec(row, c0 + k)
        == t.cell_spec(row, c0 + back(k)) by {
        assert(t.cell_spec(row, c0 + back(k)) == s.cell_spec(row, c0 + order(back(k))));
    }
}

/// The texts `q` in the new order: the entry at `i` is the one at `order(i + 1) - 1`.
pub open spec fn reordered_texts(q: Seq<Seq<char>>, order: spec_fn(int) -> int) -> Seq<Seq<char>> {
    Seq::new(q.len(), |i: int| q[order(i + 1) - 1])
}

/// A row of `t` reads as the same row of `s` with its texts in the new order.
pub proof fn lemma_reordered_row_texts(
    s: SheetGrid,
    t: SheetGrid,
    order: spec_fn(int) -> int,
    back: spec_fn(int) -> int,
    row: int,
)
    requires
        s.valid(),
        t.valid(),
        columns_reordered(s, t, order, back),
    ensures
        t.row_texts_spec(row) == reordered_texts(s.row_texts_spec(row), order),
{
    lemma_row_texts_cells(s, row);
    lemma_row_texts_cells(t, row);
    let c0 = s.first_col_spec();
    let q = s.row_texts_spec(row);
    let w = reordered_texts(q, order);
    assert forall|i: int| 0 <= i < w.len() implies t.row_texts_spec(row)[i] == w[i] by {
        assert(t.cell_spec(row, c0 + (i + 1)) == s.cell_spec(row, c0 + order(i + 1)));
        assert(q[order(i + 1) - 1] == header_text(s.cell_spec(row, c0 + (order(i + 1) - 1) + 1)));
    }
    assert(t.row_texts_spec(row) =~= w);
}

/// A row of `t` holds a value exactly where the same row of `s` does.
proof fn lemma_reordered_row_value(
    s: SheetGrid,
    t: SheetGrid,
    order: spec_fn(int) -> int,
    back: spec_fn(int) -> int,
    row: int,
    col: int,
)
    requires
        s.valid(),
        t.valid(),
        columns_reordered(s, t, order, back),
        !(t.cell_spec(row, col) is Empty),
    ensures
        exists|c: int| !(#[trigger] s.cell_spec(row, c) is Empty),
{
    let c0 = s.first_col_spec();
    if !(c0 < col <= c0 + s.width_spec()) {
        lemma_outside_range_empty(t, row, col);
    }
    let k = col - c0;
    assert(t.cell_spec(row, c0 + k) == s.cell_spec(row, c0 + order(k)));
    assert(!(s.cell_spec(row, c0 + order(k)) is Empty));
}

/// Putting the columns in a new order leaves the last row with a value where it is.
pub proof fn lemma_reordered_last_row(
    s: SheetGrid,
    t: SheetGrid,
    order: spec_fn(int) -> int,
    back: spec_fn(int) -> int,
)
    requires
        s.valid(),
        t.valid(),
        columns_reordered(s, t, order, back),
    ensures
        t.last_value_row_spec() == s.last_value_row_spec(),
{
    lemma_columns_reordered_back(s, t, order, back);
    lemma_last_value_row(s);
    lemma_last_value_row(t);
    match (s.last_value_row_spec(), t.last_value_row_spec()) {
        (None, None) => {},
        (None, Some(r)) => {
            let c = choose|c: int| !(#[trigger] t.cell_spec(r as int, c) is Empty);
            lemma_reordered_row_value(s, t, order, back, r as int, c);
        },
        (Some(r), None) => {
            let c = choose|c: int| !(#[trigger] s.cell_spec(r as int, c) is Empty);
            lemma_reordered_row_value(t, s, back, order, r as int, c);
        },
        (Some(r1), Some(r2)) => {
            if r1 < r2 {
                let c = choose|c: int| !(#[trigger] t.cell_spec(r2 as int, c) is Empty);
                lemma_reordered_row_value(s, t, order, back, r2 as int, c);
            } else if r2 < r1 {
                let c = choose|c: int| !(#[trigger] s.cell_spec(r1 as int, c) is Empty);
                lemma_reordered_row_value(t, s, back, order, r1 as int, c);
            }
        },
    }
}

} // verus!
