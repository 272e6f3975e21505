//! The reference grid over a map page, the labels of its columns, and the
//! assignment of street-name labels to grid cells.
use vstd::prelude::*;

use crate::order::{column_lt, lemma_seq_lt_irreflexive, lemma_seq_lt_push, lemma_seq_lt_push_last};
use crate::roads2csv::{
    entries_view, positions_view, EntryView, GridPosition, InputStreetValue, PositionView,
    StreetName,
};
use crate::text::{letter, letter_text};

verus! {

/// The label of zero-based column `n` in bijective base 26:
/// 0 is "A", 25 is "Z", 26 is "AA", 27 is "AB", and so on.
pub open spec fn column_label(n: nat) -> Seq<char>
    decreases n,
{
    if n < 26 {
        seq![letter(n)]
    } else {
        column_label((n / 26 - 1) as nat).push(letter(n % 26))
    }
}

/// Maps a zero-based column index to its label: 0 to "A", 25 to "Z",
/// 26 to "AA", 27 to "AB", and so on, with no bound on the length.
pub fn number_to_alphabet_value(num: usize) -> (r: String)
    ensures
        r@ == column_label(num as nat),
    decreases num,
{
    if num < 26 {
        String::from_str(letter_text(num))
    } else {
        let mut s = number_to_alphabet_value(num / 26 - 1);
        s.append(letter_text(num % 26));
        s
    }
}

proof fn lemma_column_label_len(n: nat)
    ensures
        column_label(n).len() >= 1,
        n >= 26 ==> column_label(n).len() >= 2,
    decreases n,
{
    if n >= 26 {
        lemma_column_label_len((n / 26 - 1) as nat);
    }
}

/// Column labels follow the order of their indices: a larger index gets a
/// longer label or, at equal length, a lexicographically later one. Hence
/// distinct indices get distinct labels.
pub proof fn lemma_column_label_ordered(n: nat, m: nat)
    requires
        n < m,
    ensures
        column_lt(column_label(n), column_label(m)),
        column_label(n) != column_label(m),
    decreases m,
{
    let a = column_label(n);
    let b = column_label(m);
    lemma_column_label_len(n);
    lemma_column_label_len(m);
    if m < 26 {
        assert(a[0] == letter(n));
        assert(b[0] == letter(m));
        assert((letter(n) as int) < (letter(m) as int));
    } else if n >= 26 {
        let q = (n / 26 - 1) as nat;
        let r = (m / 26 - 1) as nat;
        if q < r {
            lemma_column_label_ordered(q, r);
            if column_label(q).len() == column_label(r).len() {
                lemma_seq_lt_push(column_label(q), column_label(r), letter(n % 26), letter(m % 26));
            }
        } else {
            assert(q == r);
            assert((letter(n % 26) as int) < (letter(m % 26) as int));
            lemma_seq_lt_push_last(column_label(q), letter(n % 26), letter(m % 26));
        }
    }
    if a == b {
        lemma_seq_lt_irreflexive(a);
    }
}


/// A length on the page, held exactly as a whole number of thousandths of a
/// millimetre (micrometres).
#[derive(Debug, Copy, Clone, PartialEq, Eq)]
pub struct Millimeter(pub i32);

impl Millimeter {
    /// A length of `mm` whole millimetres.
    pub fn from_whole(mm: i32) -> (r: Millimeter)
        requires
            -2147483 <= mm <= 2147483,
        ensures
            r.0 == mm * 1000,
    {
        Millimeter(mm * 1000)
    }
}

/// Bounding box (usually the page extents).
#[derive(Debug, Copy, Clone, PartialEq, Eq)]
pub struct Bbox {
    pub width: Millimeter,
    pub height: Millimeter,
}

/// How large one cell of the grid is. Cells start at the top left of the page.
#[derive(Debug, Copy, Clone, PartialEq, Eq)]
pub struct GridConfig {
    pub cell_height: Millimeter,
    pub cell_width: Millimeter,
}

/// The extent of one rendered street-name label on the page.
#[derive(Debug, Clone, PartialEq, Eq)]
pub struct StreetNameRect {
    pub street_name: String,
    pub x_from_left: Millimeter,
    pub y_from_top: Millimeter,
    pub width: Millimeter,
    pub height: Millimeter,
}

/// Why a grid or a label was refused.
#[derive(Debug, Copy, Clone, PartialEq, Eq)]
pub enum GridError {
    /// A cell width or height is not strictly positive.
    ConfigError,
    /// A label has a negative offset, width or height.
    GeometryError,
}

/// Both cell dimensions are strictly positive.
pub open spec fn config_valid(c: GridConfig) -> bool {
    c.cell_width.0 > 0 && c.cell_height.0 > 0
}

/// No offset or extent of the label is negative.
pub open spec fn rect_valid(r: StreetNameRect) -> bool {
    r.x_from_left.0 >= 0 && r.y_from_top.0 >= 0 && r.width.0 >= 0 && r.height.0 >= 0
}

/// Zero-based column of the label's left edge.
pub open spec fn first_column(r: StreetNameRect, c: GridConfig) -> nat {
    (r.x_from_left.0 as int / c.cell_width.0 as int) as nat
}

/// Zero-based column of the label's right edge.
pub open spec fn last_column(r: StreetNameRect, c: GridConfig) -> nat {
    ((r.x_from_left.0 + r.width.0) / c.cell_width.0 as int) as nat
}

/// One-based row of the label's top edge.
pub open spec fn first_row(r: StreetNameRect, c: GridConfig) -> nat {
    (r.y_from_top.0 as int / c.cell_height.0 as int + 1) as nat
}

/// One-based row of the label's bottom edge.
pub open spec fn last_row(r: StreetNameRect, c: GridConfig) -> nat {
    ((r.y_from_top.0 + r.height.0) / c.cell_height.0 as int + 1) as nat
}

/// The cells at the corners of a label: one, two sharing a column or a row,
/// or four.
pub open spec fn cells_of(r: StreetNameRect, c: GridConfig) -> Seq<PositionView> {
    let c0 = column_label(first_column(r, c));
    let c1 = column_label(last_column(r, c));
    let r0 = first_row(r, c);
    let r1 = last_row(r, c);
    if first_column(r, c) == last_column(r, c) {
        if r0 == r1 {
            seq![(c0, r0)]
        } else {
            seq![(c0, r0), (c0, r1)]
        }
    } else if r0 == r1 {
        seq![(c0, r0), (c1, r0)]
    } else {
        seq![(c0, r0), (c0, r1), (c1, r0), (c1, r1)]
    }
}

/// The entries that name `name` in each of `cells`.
pub open spec fn named_cells(name: Seq<char>, cells: Seq<PositionView>) -> Seq<EntryView> {
    cells.map_values(|p: PositionView| (name, p))
}

/// A label inside one cell gives one position; one across two columns of a
/// row gives two that share the row; one across two rows of a column gives
/// two that share the column; one across both gives four distinct corners.
pub proof fn lemma_cell_count(r: StreetNameRect, c: GridConfig)
    requires
        config_valid(c),
        rect_valid(r),
    ensures
        ({
            let cells = cells_of(r, c);
            let same_col = first_column(r, c) == last_column(r, c);
            let same_row = first_row(r, c) == last_row(r, c);
            &&& same_col && same_row ==> cells.len() == 1
            &&& !same_col && same_row ==> cells.len() == 2 && cells[0].1 == cells[1].1
                && cells[0].0 != cells[1].0
            &&& same_col && !same_row ==> cells.len() == 2 && cells[0].0 == cells[1].0
                && cells[0].1 != cells[1].1
            &&& !same_col && !same_row ==> cells.len() == 4 && forall|i: int, j: int|
                0 <= i < j < 4 ==> cells[i] != cells[j]
        }),
{
    let f = first_column(r, c);
    let l = last_column(r, c);
    lemma_quotient_monotonic(r.x_from_left.0 as int, r.x_from_left.0 + r.width.0, c.cell_width.0 as int);
    if f != l {
        lemma_column_label_ordered(f, l);
    }
}

proof fn lemma_quotient_bound(a: int, d: int)
    requires
        a >= 0,
        d >= 1,
    ensures
        0 <= a / d <= a,
{
    assert(0 <= a / d <= a) by (nonlinear_arith)
        requires
            a >= 0,
            d >= 1,
    ;
}

proof fn lemma_quotient_monotonic(a: int, b: int, d: int)
    requires
        0 <= a <= b,
        d >= 1,
    ensures
        a / d <= b / d,
{
    assert(a / d <= b / d) by (nonlinear_arith)
        requires
            0 <= a <= b,
            d >= 1,
    ;
}

/// The grid positions at the corners of `rect` on a grid with cells of the
/// size `config` gives.
pub fn cell_positions(rect: &StreetNameRect, config: &GridConfig) -> (r: Result<
    Vec<GridPosition>,
    GridError,
>)
    ensures
        !config_valid(*config) ==> r is Err && r->Err_0 == GridError::ConfigError,
        config_valid(*config) && !rect_valid(*rect) ==> r is Err && r->Err_0
            == GridError::GeometryError,
        config_valid(*config) && rect_valid(*rect) ==> r is Ok && positions_view(r->Ok_0@)
            == cells_of(*rect, *config),
{
    if config.cell_width.0 <= 0 || config.cell_height.0 <= 0 {
        return Err(GridError::ConfigError);
    }
    if rect.x_from_left.0 < 0 || rect.y_from_top.0 < 0 || rect.width.0 < 0 || rect.height.0 < 0 {
        return Err(GridError::GeometryError);
    }
    let cw = config.cell_width.0 as u64;
    let ch = config.cell_height.0 as u64;
    let x = rect.x_from_left.0 as u64;
    let y = rect.y_from_top.0 as u64;
    let w = rect.width.0 as u64;
    let h = rect.height.0 as u64;
    proof {
        lemma_quotient_bound(x + w, cw as int);
        lemma_quotient_bound(y + h, ch as int);
        lemma_quotient_bound(x as int, cw as int);
        lemma_quotient_bound(y as int, ch as int);
    }
    let min_x = (x / cw) as usize;
    let max_x = ((x + w) / cw) as usize;
    let min_y = (y / ch) as usize + 1;
    let max_y = ((y + h) / ch) as usize + 1;
    let first = number_to_alphabet_value(min_x);
    let mut v: Vec<GridPosition> = Vec::new();
    if min_x == max_x {
        if min_y == max_y {
            v.push(GridPosition { column: first, row: min_y });
        } else {
            v.push(GridPosition { column: first.clone(), row: min_y });
            v.push(GridPosition { column: first, row: max_y });
        }
    } else {
        let last = number_to_alphabet_value(max_x);
        if min_y == max_y {
            v.push(GridPosition { column: first, row: min_y });
            v.push(GridPosition { column: last, row: min_y });
        } else {
            v.push(GridPosition { column: first.clone(), row: min_y });
            v.push(GridPosition { column: first, row: max_y });
            v.push(GridPosition { column: last.clone(), row: min_y });
            v.push(GridPosition { column: last, row: max_y });
        }
    }
    assert(positions_view(v@) =~= cells_of(*rect, *config));
    Ok(v)
}


/// The street-name grid of one map page: the page extent, the cell size, and
/// the street entries recorded so far.
#[derive(Debug, Clone)]
pub struct Grid {
    pub bbox: Bbox,
    pub config: GridConfig,
    fonts: Vec<InputStreetValue>,
}

impl Grid {
    /// The page extent.
    pub closed spec fn page(&self) -> Bbox {
        self.bbox
    }

    /// The cell size.
    pub closed spec fn cell_size(&self) -> GridConfig {
        self.config
    }

    /// The street entries recorded so far, in order of insertion.
    pub closed spec fn entries(&self) -> Seq<EntryView> {
        entries_view(self.fonts@)
    }

    /// An empty grid over the page `bbox` with cells of the size `config`
    /// gives; refused where a cell dimension is not strictly positive.
    pub fn new(bbox: Bbox, config: GridConfig) -> (r: Result<Self, GridError>)
        ensures
            config_valid(config) ==> r is Ok && r->Ok_0.page() == bbox && r->Ok_0.cell_size() == config
                && r->Ok_0.entries() == Seq::<EntryView>::empty(),
            !config_valid(config) ==> r is Err && r->Err_0 == GridError::ConfigError,
    {
        if config.cell_width.0 <= 0 || config.cell_height.0 <= 0 {
            return Err(GridError::ConfigError);
        }
        let g = Grid { bbox, config, fonts: Vec::new() };
        assert(g.entries() =~= Seq::<EntryView>::empty());
        Ok(g)
    }

    /// Records the street of `rect` once in each corner cell of the label.
    /// A grid whose cell size is not strictly positive, or a label with a
    /// negative offset or extent, is refused and nothing is recorded.
    pub fn insert_street(&mut self, rect: StreetNameRect) -> (r: Result<(), GridError>)
        ensures
            final(self).page() == old(self).page(),
            final(self).cell_size() == old(self).cell_size(),
            !config_valid(old(self).cell_size()) ==> r is Err && r->Err_0 == GridError::ConfigError,
            config_valid(old(self).cell_size()) && !rect_valid(rect) ==> r is Err && r->Err_0
                == GridError::GeometryError,
            r is Ok ==> final(self).entries() == old(self).entries() + named_cells(
                rect.street_name@,
                cells_of(rect, old(self).cell_size()),
            ),
            r is Err ==> final(self).entries() == old(self).entries(),
            r is Ok <==> config_valid(old(self).cell_size()) && rect_valid(rect),
    {
        let cells = match cell_positions(&rect, &self.config) {
            Ok(cells) => cells,
            Err(e) => {
                return Err(e);
            },
        };
        let ghost start = self.entries();
        let ghost added = named_cells(rect.street_name@, positions_view(cells@));
        let mut i: usize = 0;
        while i < cells.len()
            invariant
                i <= cells.len(),
                self.bbox == old(self).bbox,
                self.config == old(self).config,
                start == old(self).entries(),
                added == named_cells(rect.street_name@, positions_view(cells@)),
                self.entries() == start + added.take(i as int),
            decreases cells.len() - i,
        {
            let entry = InputStreetValue {
                street_name: StreetName(rect.street_name.clone()),
                position: cells[i].copy(),
            };
            assert(entry@ == added[i as int]);
            let ghost before = self.fonts@;
            self.fonts.push(entry);
            assert(entries_view(self.fonts@) =~= entries_view(before).push(entry@));
            assert(added.take(i + 1) =~= added.take(i as int).push(added[i as int]));
            assert(self.entries() =~= start + added.take(i + 1));
            i += 1;
        }
        assert(added.take(i as int) =~= added);
        Ok(())
    }

    /// The street entries recorded so far, in order of insertion.
    pub fn street_names(&self) -> (r: Vec<InputStreetValue>)
        ensures
            entries_view(r@) == self.entries(),
    {
        let mut out: Vec<InputStreetValue> = Vec::new();
        let mut i: usize = 0;
        while i < self.fonts.len()
            invariant
                i <= self.fonts.len(),
                entries_view(out@) == entries_view(self.fonts@).take(i as int),
            decreases self.fonts.len() - i,
        {
            let e = self.fonts[i].copy();
            let ghost before = out@;
            out.push(e);
            assert(entries_view(out@) =~= entries_view(before).push(e@));
            assert(entries_view(out@) =~= entries_view(self.fonts@).take(i + 1));
            i += 1;
        }
        assert(entries_view(self.fonts@).take(i as int) =~= entries_view(self.fonts@));
        out
    }
}

} // verus!
