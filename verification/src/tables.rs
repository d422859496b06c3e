//! Table assembly and rendering.
//!
//! A table is built once from raw strings: each header resolves a column
//! width, every cell is wrapped at its column's width, and each row is
//! padded to a uniform height. Rendering then emits border rows and
//! multi-line content rows using a theme's border characters.

use crate::decimal::{dec_rep, lemma_dec_rep_no_newline, usize_to_string};
use crate::themes::Theme;
use crate::wrap::{
    grid_content, heights_of, lemma_grid_content_is_grid, lemma_grid_pad,
    lemma_seq_max_cons, lemma_seq_max_ge, lemma_seq_max_le, lemma_wrap_height, no_newline,
    pad_suffix, row_height, seq_max, wrap_height, WrappedCell,
};
use vstd::prelude::*;

verus! {

/// Why a table could not be assembled from headers and rows.
#[derive(Debug, PartialEq, Eq, Structural)]
pub enum TableError {
    /// A requested or derived column width was zero.
    InvalidWidth,
    /// A data row's entry count differs from the header count.
    ColumnCountMismatch,
}

/// A flat input sequence does not tile into complete rows: its length is
/// not divisible by the column count or too short to supply the header
/// row, or the supplied width list does not provide one positive width
/// per column.
#[derive(Debug, PartialEq, Eq, Structural)]
pub struct DimensionError;

impl DimensionError {
    /// The human-readable description of the failure.
    pub fn message(&self) -> (r: String)
        ensures
            r@ == "Dimension mismatch!"@,
    {
        "Dimension mismatch!".to_owned()
    }
}

/// The width a column takes from its `(width, label)` header entry: the
/// given width, or the character length of the label when none is given.
pub open spec fn resolved_width(h: (Option<usize>, String)) -> int {
    match h.0 {
        Some(n) => n as int,
        None => h.1@.len() as int,
    }
}

/// The widths of all columns described by a header list.
pub open spec fn header_widths(headers: Seq<(Option<usize>, String)>) -> Seq<int> {
    Seq::new(headers.len(), |j: int| resolved_width(headers[j]))
}

/// The labels of a header list.
pub open spec fn header_labels(headers: Seq<(Option<usize>, String)>) -> Seq<Seq<char>> {
    Seq::new(headers.len(), |j: int| headers[j].1@)
}

/// The heights the entries of one row wrap to under the given column
/// widths.
pub open spec fn wrap_heights(ws: Seq<int>, strs: Seq<Seq<char>>) -> Seq<int>
    recommends
        ws.len() == strs.len(),
{
    Seq::new(strs.len(), |j: int| wrap_height(ws[j], strs[j].len() as int))
}

/// The views of the strings of one row.
pub open spec fn string_views(row: Seq<String>) -> Seq<Seq<char>> {
    row.map_values(|s: String| s@)
}

/// No header label contains a line break.
pub open spec fn labels_breakfree(headers: Seq<(Option<usize>, String)>) -> bool {
    forall|j: int| 0 <= j < headers.len() ==> no_newline((#[trigger] headers[j]).1@)
}

/// No data cell contains a line break.
pub open spec fn rows_breakfree(rows: Seq<Vec<String>>) -> bool {
    forall|i: int, j: int|
        0 <= i < rows.len() && 0 <= j < rows[i]@.len() ==> no_newline((#[trigger] rows[i]@[j])@)
}

/// What `make` builds in the successful case: one padded header cell per
/// column at its resolved width, all sharing the greatest wrapped header
/// height, and per row one padded cell per column at the column's width,
/// sharing the row's greatest wrapped height.
pub open spec fn is_made_table(
    headers: Seq<(Option<usize>, String)>,
    data: Seq<Vec<String>>,
    t: Table,
) -> bool {
    let ws = header_widths(headers);
    let labels = header_labels(headers);
    let hh = seq_max(wrap_heights(ws, labels));
    &&& t.headers@.len() == headers.len()
    &&& forall|j: int|
        0 <= j < headers.len() ==> (#[trigger] t.headers@[j]).width as int == ws[j]
    &&& forall|j: int|
        0 <= j < headers.len() ==> (#[trigger] t.headers@[j]).height as int == hh
    &&& forall|j: int|
        0 <= j < headers.len() ==> (#[trigger] t.headers@[j]).content@ == grid_content(
            ws[j],
            hh,
            labels[j],
        )
    &&& t.data@.len() == data.len()
    &&& forall|i: int| 0 <= i < data.len() ==> (#[trigger] t.data@[i])@.len() == headers.len()
    &&& forall|i: int, j: int|
        0 <= i < data.len() && 0 <= j < headers.len() ==> ({
            let rs = string_views(data[i]@);
            let rh = seq_max(wrap_heights(ws, rs));
            &&& (#[trigger] t.data@[i]@[j]).width as int == ws[j]
            &&& t.data@[i]@[j].height as int == rh
            &&& t.data@[i]@[j].content@ == grid_content(ws[j], rh, rs[j])
        })
}

/// The column widths `from_string_vec` resolves: the supplied list, or the
/// default width of 10 for every column.
pub open spec fn flat_widths(column_widths: Option<Vec<usize>>, n: int) -> Seq<int> {
    match column_widths {
        None => Seq::new(n as nat, |j: int| 10int),
        Some(v) => v@.map_values(|x: usize| x as int),
    }
}

/// A flat input supplies at least the header row, tiles into complete
/// rows and, where a width list is supplied, that list provides one
/// positive width per column.
pub open spec fn flat_input_ok(len: int, n: int, column_widths: Option<Vec<usize>>) -> bool {
    &&& len % n == 0
    &&& len >= n
    &&& match column_widths {
        None => true,
        Some(v) => v@.len() == n && forall|k: int| 0 <= k < v@.len() ==> (#[trigger] v@[k]) >= 1,
    }
}

/// No string of the flat input contains a line break.
pub open spec fn values_breakfree(values: Seq<String>) -> bool {
    forall|k: int| 0 <= k < values.len() ==> no_newline((#[trigger] values[k])@)
}

/// What `from_string_vec` builds in the successful case: the first `n`
/// strings become the padded header row under the resolved widths, and
/// each following group of `n` strings becomes one padded data row.
pub open spec fn is_flat_table(values: Seq<String>, n: int, ws: Seq<int>, t: Table) -> bool {
    let labels = string_views(values.subrange(0, n));
    let hh = seq_max(wrap_heights(ws, labels));
    let rows = values.len() as int / n - 1;
    &&& t.headers@.len() == n
    &&& forall|j: int| 0 <= j < n ==> (#[trigger] t.headers@[j]).width as int == ws[j]
    &&& forall|j: int| 0 <= j < n ==> (#[trigger] t.headers@[j]).height as int == hh
    &&& forall|j: int|
        0 <= j < n ==> (#[trigger] t.headers@[j]).content@ == grid_content(ws[j], hh, labels[j])
    &&& t.data@.len() == rows
    &&& forall|i: int| 0 <= i < rows ==> (#[trigger] t.data@[i])@.len() == n
    &&& forall|i: int, j: int|
        0 <= i < rows && 0 <= j < n ==> ({
            let rs = string_views(values.subrange(n + i * n, n + i * n + n));
            let rh = seq_max(wrap_heights(ws, rs));
            &&& (#[trigger] t.data@[i]@[j]).width as int == ws[j]
            &&& t.data@[i]@[j].height as int == rh
            &&& t.data@[i]@[j].content@ == grid_content(ws[j], rh, rs[j])
        })
}

/// A run of `n` copies of `c`.
pub open spec fn char_repeat(c: char, n: int) -> Seq<char> {
    Seq::new(n as nat, |i: int| c)
}

/// The border row for the columns from index `i` on: each column
/// contributes its junction character (`left` for the first column,
/// `center` otherwise) and `width` fill characters, and the last column
/// additionally closes with `right` unless it is also the first.
pub open spec fn border_row_from(
    widths: Seq<usize>,
    i: int,
    left: char,
    center: char,
    right: char,
    fill: char,
) -> Seq<char>
    decreases widths.len() - i,
{
    if i < 0 || i >= widths.len() {
        Seq::empty()
    } else {
        (if i == 0 {
            seq![left]
        } else {
            seq![center]
        }) + char_repeat(fill, widths[i] as int) + (if i == widths.len() - 1 && i != 0 {
            seq![right]
        } else {
            Seq::<char>::empty()
        }) + border_row_from(widths, i + 1, left, center, right, fill)
    }
}

/// A whole border row (top, bottom, or separator) for the given column
/// widths.
pub open spec fn border_row(
    widths: Seq<usize>,
    left: char,
    center: char,
    right: char,
    fill: char,
) -> Seq<char> {
    border_row_from(widths, 0, left, center, right, fill)
}

/// Line `k` of a wrapped cell: the `k`-th stretch of `width` characters
/// between line breaks.
pub open spec fn cell_line(c: WrappedCell, k: int) -> Seq<char>
    recommends
        c.wf(),
        0 <= k < c.height,
{
    c.content@.subrange(k * (c.width as int + 1), k * (c.width as int + 1) + c.width as int)
}

/// Output line `k` of a row, for the cells from index `i` on: each cell
/// contributes a leading vertical border character (the outer border for
/// the first cell, the internal one otherwise) and its own line `k`, and
/// the row closes with one outer vertical border character.
pub open spec fn row_line_from(
    cells: Seq<WrappedCell>,
    i: int,
    k: int,
    vert: char,
    ivert: char,
) -> Seq<char>
    decreases cells.len() - i,
{
    if i < 0 || i >= cells.len() {
        seq![vert]
    } else {
        (if i == 0 {
            seq![vert]
        } else {
            seq![ivert]
        }) + cell_line(cells[i], k) + row_line_from(cells, i + 1, k, vert, ivert)
    }
}

/// One whole output line of a row of cells.
pub open spec fn row_line(cells: Seq<WrappedCell>, k: int, vert: char, ivert: char) -> Seq<char> {
    row_line_from(cells, 0, k, vert, ivert)
}

/// All output lines of one row: one line per unit of the row's height.
pub open spec fn row_lines(cells: Seq<WrappedCell>, vert: char, ivert: char) -> Seq<Seq<char>>
    recommends
        cells.len() > 0,
{
    Seq::new(cells[0].height as nat, |k: int| row_line(cells, k, vert, ivert))
}

/// The widths of a table's columns, read from its header cells.
pub open spec fn table_widths(t: Table) -> Seq<usize> {
    Seq::new(t.headers@.len(), |j: int| t.headers@[j].width)
}

/// The output lines of the data rows from index `i` on: each row's lines,
/// with a separator row between consecutive rows but none after the last.
pub open spec fn data_lines_from(
    data: Seq<Vec<WrappedCell>>,
    i: int,
    sep: Seq<char>,
    vert: char,
    ivert: char,
) -> Seq<Seq<char>>
    decreases data.len() - i,
{
    if i < 0 || i >= data.len() {
        Seq::empty()
    } else {
        row_lines(data[i]@, vert, ivert) + (if i == data.len() - 1 {
            Seq::<Seq<char>>::empty()
        } else {
            seq![sep]
        }) + data_lines_from(data, i + 1, sep, vert, ivert)
    }
}

/// Every output line of a drawn table, in order: the top border, the
/// header row's lines, a separator, each data row's lines with separators
/// between consecutive rows, and the bottom border.
pub open spec fn render_lines(t: Table, theme: Theme) -> Seq<Seq<char>> {
    let ws = table_widths(t);
    let sep = border_row(
        ws,
        theme.middle_left,
        theme.middle_center,
        theme.middle_right,
        theme.internal_horizontal,
    );
    seq![
        border_row(
            ws,
            theme.top_left_corner,
            theme.top_center,
            theme.top_right_corner,
            theme.horizontal_border,
        ),
    ] + row_lines(t.headers@, theme.vertical_border, theme.internal_vertical) + seq![sep]
        + data_lines_from(t.data@, 0, sep, theme.vertical_border, theme.internal_vertical) + seq![
        border_row(
            ws,
            theme.bottom_left_corner,
            theme.bottom_center,
            theme.bottom_right_corner,
            theme.horizontal_border,
        ),
    ]
}

/// The representation of a table: wrapped header cells and wrapped rows of
/// data cells.
#[derive(Debug)]
pub struct Table {
    pub headers: Vec<WrappedCell>,
    pub data: Vec<Vec<WrappedCell>>,
}

impl Table {
    /// Every cell is well formed, all header cells share one height, every
    /// data row has one cell per column at that column's width, and the
    /// cells of each data row share one height.
    pub open spec fn wf(&self) -> bool {
        &&& forall|j: int| 0 <= j < self.headers@.len() ==> (#[trigger] self.headers@[j]).wf()
        &&& forall|j: int|
            0 <= j < self.headers@.len() ==> (#[trigger] self.headers@[j]).height
                == self.headers@[0].height
        &&& forall|i: int|
            0 <= i < self.data@.len() ==> (#[trigger] self.data@[i])@.len() == self.headers@.len()
        &&& forall|i: int, j: int|
            0 <= i < self.data@.len() && 0 <= j < self.data@[i]@.len() ==> (#[trigger] self.data@[i]@[j]).wf()
        &&& forall|i: int, j: int|
            0 <= i < self.data@.len() && 0 <= j < self.data@[i]@.len() ==> (#[trigger] self.data@[i]@[j]).width
                == self.headers@[j].width
        &&& forall|i: int, j: int|
            0 <= i < self.data@.len() && 0 <= j < self.data@[i]@.len() ==> (#[trigger] self.data@[i]@[j]).height
                == self.data@[i]@[0].height
    }

    /// Assemble a table from `(width, label)` header entries and rows of
    /// raw strings. Every label and cell is wrapped at its column's width
    /// and every row is padded to a uniform height. Fails when a column
    /// width resolves to zero, or when a row's entry count differs from
    /// the header count.
    pub fn make(headers: Vec<(Option<usize>, String)>, data: Vec<Vec<String>>) -> (r: Result<
        Table,
        TableError,
    >)
        ensures
            ({
                let ws = header_widths(headers@);
                let labels = header_labels(headers@);
                let bad_width = exists|j: int| 0 <= j < ws.len() && ws[j] == 0;
                let bad_row = exists|i: int|
                    0 <= i < data@.len() && (#[trigger] data@[i])@.len() != headers@.len();
                &&& (r is Ok <==> !bad_width && !bad_row)
                &&& (r == Result::<Table, TableError>::Err(TableError::InvalidWidth) <==> bad_width)
                &&& (r == Result::<Table, TableError>::Err(TableError::ColumnCountMismatch) <==> (
                !bad_width && bad_row))
                &&& (r is Ok ==> is_made_table(headers@, data@, r->Ok_0))
                &&& (r is Ok && labels_breakfree(headers@) && rows_breakfree(data@)
                    ==> r->Ok_0.wf())
            }),
    {
        let ghost gws = header_widths(headers@);
        let ghost glabels = header_labels(headers@);
        // resolve the column widths, rejecting zero widths
        let mut widths: Vec<usize> = Vec::new();
        let mut j: usize = 0;
        while j < headers.len()
            invariant
                j <= headers@.len(),
                gws == header_widths(headers@),
                widths@.len() == j as int,
                forall|t: int|
                    0 <= t < j as int ==> (#[trigger] widths@[t]) as int == gws[t] && widths@[t]
                        >= 1,
            decreases headers@.len() - j,
        {
            let hj = &headers[j];
            let wj: usize = match hj.0 {
                Some(n) => n,
                None => hj.1.as_str().unicode_len(),
            };
            if wj == 0 {
                proof {
                    assert(gws[j as int] == 0);
                }
                return Err(TableError::InvalidWidth);
            }
            widths.push(wj);
            j = j + 1;
        }
        proof {
            assert forall|t: int| 0 <= t < gws.len() implies gws[t] >= 1 by {
                assert(widths@[t] as int == gws[t] && widths@[t] >= 1);
            }
        }
        // reject rows whose entry count differs from the header count
        let mut i: usize = 0;
        while i < data.len()
            invariant
                i <= data@.len(),
                gws == header_widths(headers@),
                forall|t: int| 0 <= t < gws.len() ==> (#[trigger] gws[t]) >= 1,
                forall|t: int|
                    0 <= t < i as int ==> (#[trigger] data@[t])@.len() == headers@.len(),
            decreases data@.len() - i,
        {
            if data[i].len() != headers.len() {
                proof {
                    assert(data@[i as int]@.len() != headers@.len());
                }
                return Err(TableError::ColumnCountMismatch);
            }
            i = i + 1;
        }
        // wrap the header labels and pad them to a common height
        let mut pre_headers: Vec<WrappedCell> = Vec::new();
        let mut j: usize = 0;
        while j < headers.len()
            invariant
                j <= headers@.len(),
                gws == header_widths(headers@),
                glabels == header_labels(headers@),
                widths@.len() == headers@.len(),
                forall|t: int|
                    0 <= t < headers@.len() ==> (#[trigger] widths@[t]) as int == gws[t]
                        && widths@[t] >= 1,
                pre_headers@.len() == j as int,
                forall|t: int|
                    0 <= t < j as int ==> {
                        &&& (#[trigger] pre_headers@[t]).width as int == gws[t]
                        &&& pre_headers@[t].height as int == wrap_height(
                            gws[t],
                            glabels[t].len() as int,
                        )
                        &&& pre_headers@[t].content@ == grid_content(
                            gws[t],
                            pre_headers@[t].height as int,
                            glabels[t],
                        )
                    },
            decreases headers@.len() - j,
        {
            let label = headers[j].1.clone();
            let cell = WrappedCell::wrap_str(widths[j], label).unwrap();
            pre_headers.push(cell);
            j = j + 1;
        }
        let ghost gpre = pre_headers@;
        let the_headers = WrappedCell::pad_row(pre_headers);
        let ghost ghh = seq_max(wrap_heights(gws, glabels));
        proof {
            assert(heights_of(gpre) =~= wrap_heights(gws, glabels));
            assert forall|t: int| 0 <= t < headers@.len() implies (#[trigger] the_headers@[t]).content@
                == grid_content(gws[t], ghh, glabels[t]) && the_headers@[t].height as int
                == ghh by {
                assert(widths@[t] as int == gws[t] && widths@[t] >= 1);
                lemma_seq_max_ge(wrap_heights(gws, glabels), t);
                lemma_wrap_height(gws[t], glabels[t].len() as int);
                lemma_grid_pad(
                    gws[t],
                    wrap_height(gws[t], glabels[t].len() as int),
                    ghh,
                    glabels[t],
                );
            }
        }
        // wrap each data row under its column widths and pad it
        let mut the_data: Vec<Vec<WrappedCell>> = Vec::new();
        let mut i: usize = 0;
        while i < data.len()
            invariant
                i <= data@.len(),
                gws == header_widths(headers@),
                glabels == header_labels(headers@),
                ghh == seq_max(wrap_heights(gws, glabels)),
                widths@.len() == headers@.len(),
                forall|t: int|
                    0 <= t < headers@.len() ==> (#[trigger] widths@[t]) as int == gws[t]
                        && widths@[t] >= 1,
                forall|t: int|
                    0 <= t < data@.len() ==> (#[trigger] data@[t])@.len() == headers@.len(),
                the_data@.len() == i as int,
                forall|t: int, u: int|
                    0 <= t < i as int && 0 <= u < headers@.len() ==> ({
                        let rs = string_views(data@[t]@);
                        let rh = seq_max(wrap_heights(gws, rs));
                        &&& (#[trigger] the_data@[t]@[u]).width as int == gws[u]
                        &&& the_data@[t]@[u].height as int == rh
                        &&& the_data@[t]@[u].content@ == grid_content(gws[u], rh, rs[u])
                    }),
                forall|t: int|
                    0 <= t < i as int ==> (#[trigger] the_data@[t])@.len() == headers@.len(),
            decreases data@.len() - i,
        {
            let ghost grs = string_views(data@[i as int]@);
            let mut row_of_data: Vec<WrappedCell> = Vec::new();
            let mut u: usize = 0;
            let row_ref = &data[i];
            while u < row_ref.len()
                invariant
                    u <= row_ref@.len(),
                    row_ref@.len() == headers@.len(),
                    grs == string_views(row_ref@),
                    gws == header_widths(headers@),
                    widths@.len() == headers@.len(),
                    forall|t: int|
                        0 <= t < headers@.len() ==> (#[trigger] widths@[t]) as int == gws[t]
                            && widths@[t] >= 1,
                    row_of_data@.len() == u as int,
                    forall|t: int|
                        0 <= t < u as int ==> {
                            &&& (#[trigger] row_of_data@[t]).width as int == gws[t]
                            &&& row_of_data@[t].height as int == wrap_height(
                                gws[t],
                                grs[t].len() as int,
                            )
                            &&& row_of_data@[t].content@ == grid_content(
                                gws[t],
                                row_of_data@[t].height as int,
                                grs[t],
                            )
                        },
                decreases row_ref@.len() - u,
            {
                let cell = WrappedCell::wrap_str(widths[u], row_ref[u].clone()).unwrap();
                row_of_data.push(cell);
                u = u + 1;
            }
            let ghost grow = row_of_data@;
            let padded = WrappedCell::pad_row(row_of_data);
            proof {
                assert(heights_of(grow) =~= wrap_heights(gws, grs));
                let rh = seq_max(wrap_heights(gws, grs));
                assert forall|t: int| 0 <= t < headers@.len() implies (#[trigger] padded@[t]).content@
                    == grid_content(gws[t], rh, grs[t]) && padded@[t].height as int == rh by {
                    assert(widths@[t] as int == gws[t] && widths@[t] >= 1);
                    lemma_seq_max_ge(wrap_heights(gws, grs), t);
                    lemma_wrap_height(gws[t], grs[t].len() as int);
                    lemma_grid_pad(gws[t], wrap_height(gws[t], grs[t].len() as int), rh, grs[t]);
                }
            }
            the_data.push(padded);
            i = i + 1;
        }
        let t = Table { headers: the_headers, data: the_data };
        proof {
            if labels_breakfree(headers@) && rows_breakfree(data@) {
                assert forall|j: int| 0 <= j < t.headers@.len() implies (#[trigger] t.headers@[j]).wf() by {
                    lemma_seq_max_ge(wrap_heights(gws, glabels), j);
                    lemma_wrap_height(gws[j], glabels[j].len() as int);
                    lemma_grid_content_is_grid(gws[j], ghh, glabels[j]);
                }
                assert forall|i: int, j: int|
                    0 <= i < t.data@.len() && 0 <= j < t.data@[i]@.len() implies (
                #[trigger] t.data@[i]@[j]).wf() by {
                    let rs = string_views(data@[i]@);
                    let rh = seq_max(wrap_heights(gws, rs));
                    lemma_seq_max_ge(wrap_heights(gws, rs), j);
                    lemma_wrap_height(gws[j], rs[j].len() as int);
                    lemma_grid_content_is_grid(gws[j], rh, rs[j]);
                }
            }
        }
        Ok(t)
    }

    /// Build a table from one flat sequence of strings: the first
    /// `number_of_columns` entries are the header labels and the remainder
    /// are row values in row-major order. Fails when the sequence does not
    /// tile into complete rows, when it is too short to supply the header
    /// row, or when a supplied width list does not provide one positive
    /// width per column.
    pub fn from_string_vec(
        input_vector: Vec<String>,
        number_of_columns: usize,
        column_widths: Option<Vec<usize>>,
    ) -> (r: Result<Table, DimensionError>)
        requires
            number_of_columns >= 1,
        ensures
            r is Ok <==> flat_input_ok(
                input_vector@.len() as int,
                number_of_columns as int,
                column_widths,
            ),
            r is Ok ==> is_flat_table(
                input_vector@,
                number_of_columns as int,
                flat_widths(column_widths, number_of_columns as int),
                r->Ok_0,
            ),
            r is Ok && values_breakfree(input_vector@) ==> r->Ok_0.wf(),
    {
        let n = number_of_columns;
        let total = input_vector.len();
        let ghost gws = flat_widths(column_widths, n as int);
        if total % n != 0 {
            return Err(DimensionError);
        }
        if total < n {
            return Err(DimensionError);
        }
        // resolve the column widths
        let mut widths: Vec<usize> = Vec::new();
        match &column_widths {
            None => {
                let mut j: usize = 0;
                while j < n
                    invariant
                        j <= n,
                        widths@.len() == j as int,
                        forall|t: int| 0 <= t < j as int ==> (#[trigger] widths@[t]) == 10,
                    decreases n - j,
                {
                    widths.push(10);
                    j = j + 1;
                }
            },
            Some(v) => {
                if v.len() != n {
                    return Err(DimensionError);
                }
                let mut j: usize = 0;
                while j < n
                    invariant
                        j <= n,
                        column_widths == Some(*v),
                        v@.len() == n as int,
                        widths@.len() == j as int,
                        forall|t: int|
                            0 <= t < j as int ==> (#[trigger] widths@[t]) == v@[t] && widths@[t]
                                >= 1,
                    decreases n - j,
                {
                    let wv = v[j];
                    if wv == 0 {
                        proof {
                            assert(v@[j as int] == 0);
                        }
                        return Err(DimensionError);
                    }
                    widths.push(wv);
                    j = j + 1;
                }
            },
        }
        proof {
            assert(gws.len() == n as int);
            assert forall|t: int| 0 <= t < n as int implies widths@[t] as int == gws[t] && gws[t]
                >= 1 by {
                match column_widths {
                    None => {},
                    Some(v) => {
                        assert(gws[t] == v@[t] as int);
                    },
                }
            }
        }
        let ghost glabels = string_views(input_vector@.subrange(0, n as int));
        // wrap the header labels and pad them to a common height
        let mut pre_headers: Vec<WrappedCell> = Vec::new();
        let mut j: usize = 0;
        while j < n
            invariant
                j <= n,
                n <= input_vector@.len(),
                gws == flat_widths(column_widths, n as int),
                gws.len() == n as int,
                glabels == string_views(input_vector@.subrange(0, n as int)),
                widths@.len() == n as int,
                forall|t: int|
                    0 <= t < n as int ==> (#[trigger] widths@[t]) as int == gws[t] && widths@[t]
                        >= 1,
                pre_headers@.len() == j as int,
                forall|t: int|
                    0 <= t < j as int ==> {
                        &&& (#[trigger] pre_headers@[t]).width as int == gws[t]
                        &&& pre_headers@[t].height as int == wrap_height(
                            gws[t],
                            glabels[t].len() as int,
                        )
                        &&& pre_headers@[t].content@ == grid_content(
                            gws[t],
                            pre_headers@[t].height as int,
                            glabels[t],
                        )
                    },
            decreases n - j,
        {
            let cell = WrappedCell::wrap_str(widths[j], input_vector[j].clone()).unwrap();
            pre_headers.push(cell);
            j = j + 1;
        }
        let ghost gpre = pre_headers@;
        let the_headers = WrappedCell::pad_row(pre_headers);
        let ghost ghh = seq_max(wrap_heights(gws, glabels));
        proof {
            assert(heights_of(gpre) =~= wrap_heights(gws, glabels));
            assert forall|t: int| 0 <= t < n as int implies (#[trigger] the_headers@[t]).content@
                == grid_content(gws[t], ghh, glabels[t]) && the_headers@[t].height as int
                == ghh by {
                assert(widths@[t] as int == gws[t] && widths@[t] >= 1);
                lemma_seq_max_ge(wrap_heights(gws, glabels), t);
                lemma_wrap_height(gws[t], glabels[t].len() as int);
                lemma_grid_pad(
                    gws[t],
                    wrap_height(gws[t], glabels[t].len() as int),
                    ghh,
                    glabels[t],
                );
            }
        }
        // group the remaining values into rows, wrapping and padding each
        proof {
            assert(total as int / n as int >= 1) by (nonlinear_arith)
                requires
                    total >= n,
                    n >= 1,
            ;
        }
        let rows = total / n - 1;
        proof {
            assert(total as int == (rows as int + 1) * n as int) by (nonlinear_arith)
                requires
                    n >= 1,
                    total as int % n as int == 0,
                    total >= n,
                    rows as int == total as int / n as int - 1,
            ;
        }
        let mut the_data: Vec<Vec<WrappedCell>> = Vec::new();
        let mut i: usize = 0;
        let mut pos: usize = n;
        while i < rows
            invariant
                i <= rows,
                n >= 1,
                total == input_vector@.len(),
                total as int == (rows as int + 1) * n as int,
                pos as int == n as int + i as int * n as int,
                gws == flat_widths(column_widths, n as int),
                gws.len() == n as int,
                widths@.len() == n as int,
                forall|t: int|
                    0 <= t < n as int ==> (#[trigger] widths@[t]) as int == gws[t] && widths@[t]
                        >= 1,
                the_data@.len() == i as int,
                forall|t: int|
                    0 <= t < i as int ==> (#[trigger] the_data@[t])@.len() == n as int,
                forall|t: int, u: int|
                    0 <= t < i as int && 0 <= u < n as int ==> ({
                        let rs = string_views(
                            input_vector@.subrange(
                                n as int + t * n as int,
                                n as int + t * n as int + n as int,
                            ),
                        );
                        let rh = seq_max(wrap_heights(gws, rs));
                        &&& (#[trigger] the_data@[t]@[u]).width as int == gws[u]
                        &&& the_data@[t]@[u].height as int == rh
                        &&& the_data@[t]@[u].content@ == grid_content(gws[u], rh, rs[u])
                    }),
            decreases rows - i,
        {
            proof {
                assert(pos as int + n as int <= total as int) by (nonlinear_arith)
                    requires
                        pos as int == n as int + i as int * n as int,
                        total as int == (rows as int + 1) * n as int,
                        (i as int) < rows as int,
                        n >= 1,
                ;
            }
            let ghost grs = string_views(
                input_vector@.subrange(pos as int, pos as int + n as int),
            );
            let mut row_of_data: Vec<WrappedCell> = Vec::new();
            let mut u: usize = 0;
            while u < n
                invariant
                    u <= n,
                    pos as int + n as int <= total as int,
                    total == input_vector@.len(),
                    grs == string_views(input_vector@.subrange(pos as int, pos as int + n as int)),
                    gws.len() == n as int,
                    widths@.len() == n as int,
                    forall|t: int|
                        0 <= t < n as int ==> (#[trigger] widths@[t]) as int == gws[t] && widths@[t]
                            >= 1,
                    row_of_data@.len() == u as int,
                    forall|t: int|
                        0 <= t < u as int ==> {
                            &&& (#[trigger] row_of_data@[t]).width as int == gws[t]
                            &&& row_of_data@[t].height as int == wrap_height(
                                gws[t],
                                grs[t].len() as int,
                            )
                            &&& row_of_data@[t].content@ == grid_content(
                                gws[t],
                                row_of_data@[t].height as int,
                                grs[t],
                            )
                        },
                decreases n - u,
            {
                let cell = WrappedCell::wrap_str(widths[u], input_vector[pos + u].clone()).unwrap();
                row_of_data.push(cell);
                u = u + 1;
            }
            let ghost grow = row_of_data@;
            let padded = WrappedCell::pad_row(row_of_data);
            proof {
                assert(heights_of(grow) =~= wrap_heights(gws, grs));
                let rh = seq_max(wrap_heights(gws, grs));
                assert forall|t: int| 0 <= t < n as int implies (#[trigger] padded@[t]).content@
                    == grid_content(gws[t], rh, grs[t]) && padded@[t].height as int == rh by {
                    assert(widths@[t] as int == gws[t] && widths@[t] >= 1);
                    lemma_seq_max_ge(wrap_heights(gws, grs), t);
                    lemma_wrap_height(gws[t], grs[t].len() as int);
                    lemma_grid_pad(gws[t], wrap_height(gws[t], grs[t].len() as int), rh, grs[t]);
                }
            }
            the_data.push(padded);
            proof {
                assert(n as int + i as int * n as int + n as int == n as int + (i as int + 1)
                    * n as int) by (nonlinear_arith);
            }
            pos = pos + n;
            i = i + 1;
        }
        let t = Table { headers: the_headers, data: the_data };
        proof {
            if let Some(v) = column_widths {
                assert forall|k: int| 0 <= k < v@.len() implies (#[trigger] v@[k]) >= 1 by {
                    assert(gws[k] == v@[k] as int);
                }
            }
            if values_breakfree(input_vector@) {
                assert forall|j: int| 0 <= j < t.headers@.len() implies (#[trigger] t.headers@[j]).wf() by {
                    assert(widths@[j] as int == gws[j] && widths@[j] >= 1);
                    assert(glabels[j] == input_vector@[j]@);
                    lemma_seq_max_ge(wrap_heights(gws, glabels), j);
                    lemma_wrap_height(gws[j], glabels[j].len() as int);
                    lemma_grid_content_is_grid(gws[j], ghh, glabels[j]);
                }
                assert forall|i2: int, j: int|
                    0 <= i2 < t.data@.len() && 0 <= j < t.data@[i2]@.len() implies (
                #[trigger] t.data@[i2]@[j]).wf() by {
                    let lo = n as int + i2 * n as int;
                    let rs = string_views(input_vector@.subrange(lo, lo + n as int));
                    let rh = seq_max(wrap_heights(gws, rs));
                    assert(0 <= lo && lo + n as int <= total as int) by (nonlinear_arith)
                        requires
                            0 <= i2,
                            i2 < rows as int,
                            n >= 1,
                            lo == n as int + i2 * n as int,
                            total as int == (rows as int + 1) * n as int,
                    ;
                    assert(rs[j] == input_vector@[lo + j]@);
                    assert(widths@[j] as int == gws[j] && widths@[j] >= 1);
                    lemma_seq_max_ge(wrap_heights(gws, rs), j);
                    lemma_wrap_height(gws[j], rs[j].len() as int);
                    lemma_grid_content_is_grid(gws[j], rh, rs[j]);
                }
            }
        }
        Ok(t)
    }

    /// One border row (top, bottom, or separator): for the first column its
    /// `left` character and `width` fill characters, for every further
    /// column the `center` character and its fill, and after the last of
    /// several columns the closing `right` character.
    pub fn table_row_border(
        col_widths: &Vec<usize>,
        left: char,
        center: char,
        right: char,
        horiz_border: char,
    ) -> (r: String)
        ensures
            r@ == border_row(col_widths@, left, center, right, horiz_border),
    {
        let mut to_print = String::new();
        proof {
            assert(Seq::<char>::empty() + border_row(
                col_widths@,
                left,
                center,
                right,
                horiz_border,
            ) =~= border_row(col_widths@, left, center, right, horiz_border));
        }
        let mut i: usize = 0;
        while i < col_widths.len()
            invariant
                i <= col_widths@.len(),
                to_print@ + border_row_from(
                    col_widths@,
                    i as int,
                    left,
                    center,
                    right,
                    horiz_border,
                ) == border_row(col_widths@, left, center, right, horiz_border),
            decreases col_widths@.len() - i,
        {
            let ghost start = to_print@;
            let ghost jseq: Seq<char> = if i == 0 {
                seq![left]
            } else {
                seq![center]
            };
            if i == 0 {
                to_print.push(left);
            } else {
                to_print.push(center);
            }
            proof {
                assert(to_print@ =~= start + jseq);
            }
            let w = col_widths[i];
            let ghost pre = to_print@;
            let mut c: usize = 0;
            while c < w
                invariant
                    c <= w,
                    to_print@ == pre + char_repeat(horiz_border, c as int),
                decreases w - c,
            {
                proof {
                    assert((pre + char_repeat(horiz_border, c as int)).push(horiz_border) =~= pre
                        + char_repeat(horiz_border, c as int + 1));
                }
                to_print.push(horiz_border);
                c = c + 1;
            }
            let ghost closing: Seq<char> = if i == col_widths@.len() - 1 && i != 0 {
                seq![right]
            } else {
                Seq::<char>::empty()
            };
            if i == col_widths.len() - 1 && i != 0 {
                to_print.push(right);
            }
            proof {
                assert(to_print@ =~= start + jseq + char_repeat(horiz_border, w as int) + closing);
                assert(to_print@ + border_row_from(
                    col_widths@,
                    i as int + 1,
                    left,
                    center,
                    right,
                    horiz_border,
                ) =~= start + border_row_from(
                    col_widths@,
                    i as int,
                    left,
                    center,
                    right,
                    horiz_border,
                ));
            }
            i = i + 1;
        }
        proof {
            assert(border_row_from(
                col_widths@,
                col_widths@.len() as int,
                left,
                center,
                right,
                horiz_border,
            ) =~= Seq::<char>::empty());
            assert(to_print@ =~= to_print@ + Seq::<char>::empty());
        }
        to_print
    }

    /// The top border row of a table with the given column widths.
    pub fn table_top_border(col_widths: &Vec<usize>, theme: &Theme) -> (r: String)
        ensures
            r@ == border_row(
                col_widths@,
                theme.top_left_corner,
                theme.top_center,
                theme.top_right_corner,
                theme.horizontal_border,
            ),
    {
        Table::table_row_border(
            col_widths,
            theme.top_left_corner,
            theme.top_center,
            theme.top_right_corner,
            theme.horizontal_border,
        )
    }

    /// The bottom border row of a table with the given column widths.
    pub fn table_bottom_border(col_widths: &Vec<usize>, theme: &Theme) -> (r: String)
        ensures
            r@ == border_row(
                col_widths@,
                theme.bottom_left_corner,
                theme.bottom_center,
                theme.bottom_right_corner,
                theme.horizontal_border,
            ),
    {
        Table::table_row_border(
            col_widths,
            theme.bottom_left_corner,
            theme.bottom_center,
            theme.bottom_right_corner,
            theme.horizontal_border,
        )
    }

    /// The separator row drawn between the header and the first data row
    /// and between consecutive data rows.
    pub fn table_row_sep(col_widths: &Vec<usize>, theme: &Theme) -> (r: String)
        ensures
            r@ == border_row(
                col_widths@,
                theme.middle_left,
                theme.middle_center,
                theme.middle_right,
                theme.internal_horizontal,
            ),
    {
        Table::table_row_border(
            col_widths,
            theme.middle_left,
            theme.middle_center,
            theme.middle_right,
            theme.internal_horizontal,
        )
    }

    /// The text lines of one row of cells: line `k` concatenates, for each
    /// cell in order, a vertical border character (the outer border before
    /// the first cell, the internal one before the others) and the cell's
    /// own line `k`, closed by one outer vertical border character.
    pub fn render_row(v: &Vec<WrappedCell>, vert_border: char, internal_vert: char) -> (r: Vec<
        String,
    >)
        requires
            v@.len() > 0,
            forall|i: int| 0 <= i < v@.len() ==> (#[trigger] v@[i]).wf(),
            forall|i: int| 0 <= i < v@.len() ==> (#[trigger] v@[i]).height == v@[0].height,
        ensures
            r@.len() == v@[0].height,
            forall|k: int|
                0 <= k < r@.len() ==> (#[trigger] r@[k])@ == row_line(
                    v@,
                    k,
                    vert_border,
                    internal_vert,
                ),
    {
        let h = v[0].height;
        let mut out: Vec<String> = Vec::new();
        let mut k: usize = 0;
        while k < h
            invariant
                k <= h,
                v@.len() > 0,
                h == v@[0].height,
                forall|i: int| 0 <= i < v@.len() ==> (#[trigger] v@[i]).wf(),
                forall|i: int| 0 <= i < v@.len() ==> (#[trigger] v@[i]).height == v@[0].height,
                out@.len() == k as int,
                forall|t: int|
                    0 <= t < k as int ==> (#[trigger] out@[t])@ == row_line(
                        v@,
                        t,
                        vert_border,
                        internal_vert,
                    ),
            decreases h - k,
        {
            let mut line = String::new();
            proof {
                assert(Seq::<char>::empty() + row_line(
                    v@,
                    k as int,
                    vert_border,
                    internal_vert,
                ) =~= row_line(v@, k as int, vert_border, internal_vert));
            }
            let mut i: usize = 0;
            while i < v.len()
                invariant
                    i <= v@.len(),
                    v@.len() > 0,
                    k < h,
                    h == v@[0].height,
                    forall|t: int| 0 <= t < v@.len() ==> (#[trigger] v@[t]).wf(),
                    forall|t: int| 0 <= t < v@.len() ==> (#[trigger] v@[t]).height == v@[0].height,
                    line@ + row_line_from(v@, i as int, k as int, vert_border, internal_vert)
                        == row_line(v@, k as int, vert_border, internal_vert),
                decreases v@.len() - i,
            {
                let ghost start = line@;
                let ghost jseq: Seq<char> = if i == 0 {
                    seq![vert_border]
                } else {
                    seq![internal_vert]
                };
                if i == 0 {
                    line.push(vert_border);
                } else {
                    line.push(internal_vert);
                }
                proof {
                    assert(line@ =~= start + jseq);
                }
                let cell = &v[i];
                let wi = cell.width;
                let clen = cell.content.as_str().unicode_len();
                proof {
                    assert(cell.wf());
                    assert(clen as int == cell.height as int * (wi as int + 1) - 1);
                    assert((k as int) * (wi as int) + k as int == (k as int) * (wi as int + 1))
                        by (nonlinear_arith);
                    assert((k as int) * (wi as int + 1) >= 0 && (k as int + 1) * (wi as int + 1)
                        <= cell.height as int * (wi as int + 1)) by (nonlinear_arith)
                        requires
                            0 <= k as int,
                            (k as int) < cell.height as int,
                            wi as int >= 1,
                    ;
                    assert((k as int + 1) * (wi as int + 1) == (k as int) * (wi as int + 1) + (
                    wi as int + 1)) by (nonlinear_arith);
                }
                let start_idx = k * wi + k;
                let end_idx = start_idx + wi;
                let piece = cell.content.as_str().substring_char(start_idx, end_idx);
                line.append(piece);
                proof {
                    assert(piece@ == cell_line(v@[i as int], k as int));
                    assert(line@ =~= start + jseq + cell_line(v@[i as int], k as int));
                    assert(line@ + row_line_from(
                        v@,
                        i as int + 1,
                        k as int,
                        vert_border,
                        internal_vert,
                    ) =~= start + row_line_from(v@, i as int, k as int, vert_border, internal_vert));
                }
                i = i + 1;
            }
            let ghost before = line@;
            line.push(vert_border);
            proof {
                assert(row_line_from(
                    v@,
                    v@.len() as int,
                    k as int,
                    vert_border,
                    internal_vert,
                ) =~= seq![vert_border]);
                assert(line@ =~= before + seq![vert_border]);
                assert(line@ =~= row_line(v@, k as int, vert_border, internal_vert));
            }
            out.push(line);
            k = k + 1;
        }
        out
    }

    /// The full rendered text of the table, one string per output line:
    /// the top border, the header lines, a separator, the data rows with a
    /// separator between consecutive rows, and the bottom border.
    pub fn render(&self, theme: &Theme) -> (r: Vec<String>)
        requires
            self.wf(),
            self.headers@.len() > 0,
        ensures
            string_views(r@) == render_lines(*self, *theme),
    {
        let mut column_widths: Vec<usize> = Vec::new();
        let mut j: usize = 0;
        while j < self.headers.len()
            invariant
                j <= self.headers@.len(),
                column_widths@.len() == j as int,
                forall|t: int|
                    0 <= t < j as int ==> (#[trigger] column_widths@[t]) == self.headers@[t].width,
            decreases self.headers@.len() - j,
        {
            column_widths.push(self.headers[j].width);
            j = j + 1;
        }
        proof {
            assert(column_widths@ =~= table_widths(*self));
        }
        let ghost gvert = theme.vertical_border;
        let ghost givert = theme.internal_vertical;
        let ghost gsep = border_row(
            table_widths(*self),
            theme.middle_left,
            theme.middle_center,
            theme.middle_right,
            theme.internal_horizontal,
        );
        let mut lines: Vec<String> = Vec::new();
        lines.push(Table::table_top_border(&column_widths, theme));
        let mut header_lines = Table::render_row(
            &self.headers,
            theme.vertical_border,
            theme.internal_vertical,
        );
        lines.append(&mut header_lines);
        lines.push(Table::table_row_sep(&column_widths, theme));
        proof {
            assert(string_views(lines@) =~= seq![
                border_row(
                    table_widths(*self),
                    theme.top_left_corner,
                    theme.top_center,
                    theme.top_right_corner,
                    theme.horizontal_border,
                ),
            ] + row_lines(self.headers@, gvert, givert) + seq![gsep]);
        }
        let n_rows = self.data.len();
        let mut i: usize = 0;
        while i < n_rows
            invariant
                i <= n_rows,
                self.wf(),
                self.headers@.len() > 0,
                n_rows == self.data@.len(),
                column_widths@ == table_widths(*self),
                gvert == theme.vertical_border,
                givert == theme.internal_vertical,
                gsep == border_row(
                    table_widths(*self),
                    theme.middle_left,
                    theme.middle_center,
                    theme.middle_right,
                    theme.internal_horizontal,
                ),
                string_views(lines@) + data_lines_from(self.data@, i as int, gsep, gvert, givert)
                    == seq![
                    border_row(
                        table_widths(*self),
                        theme.top_left_corner,
                        theme.top_center,
                        theme.top_right_corner,
                        theme.horizontal_border,
                    ),
                ] + row_lines(self.headers@, gvert, givert) + seq![gsep] + data_lines_from(
                    self.data@,
                    0,
                    gsep,
                    gvert,
                    givert,
                ),
            decreases n_rows - i,
        {
            let ghost before = lines@;
            proof {
                assert(self.data@[i as int]@.len() == self.headers@.len());
                assert forall|t: int|
                    0 <= t < self.data@[i as int]@.len() implies (#[trigger] self.data@[i as
                    int]@[t]).wf() && self.data@[i as int]@[t].height == self.data@[i as
                    int]@[0].height by {}
            }
            let mut row_lines_vec = Table::render_row(
                &self.data[i],
                theme.vertical_border,
                theme.internal_vertical,
            );
            lines.append(&mut row_lines_vec);
            proof {
                assert(string_views(lines@) =~= string_views(before) + row_lines(
                    self.data@[i as int]@,
                    gvert,
                    givert,
                ));
            }
            let ghost mid = lines@;
            if i != n_rows - 1 {
                lines.push(Table::table_row_sep(&column_widths, theme));
                proof {
                    assert(string_views(lines@) =~= string_views(mid) + seq![gsep]);
                }
            }
            proof {
                assert(string_views(lines@) + data_lines_from(
                    self.data@,
                    i as int + 1,
                    gsep,
                    gvert,
                    givert,
                ) =~= string_views(before) + data_lines_from(
                    self.data@,
                    i as int,
                    gsep,
                    gvert,
                    givert,
                ));
            }
            i = i + 1;
        }
        let ghost before_bottom = lines@;
        lines.push(Table::table_bottom_border(&column_widths, theme));
        proof {
            assert(string_views(lines@) =~= string_views(before_bottom) + seq![
                border_row(
                    table_widths(*self),
                    theme.bottom_left_corner,
                    theme.bottom_center,
                    theme.bottom_right_corner,
                    theme.horizontal_border,
                ),
            ]);
            assert(data_lines_from(self.data@, self.data@.len() as int, gsep, gvert, givert)
                =~= Seq::<Seq<char>>::empty());
            assert(string_views(before_bottom) =~= string_views(before_bottom) + Seq::<
                Seq<char>,
            >::empty());
            assert(string_views(lines@) =~= render_lines(*self, *theme));
        }
        lines
    }

    /// Prepend an index column of width 3: the header row gains a leading
    /// `"#"` cell and each data row gains a leading cell holding the row's
    /// zero-based index in decimal, each padded to its row's height. Not
    /// idempotent: numbering twice inserts two index columns, the second
    /// counting the first as data.
    pub fn number(&mut self)
        requires
            old(self).wf(),
        ensures
            final(self).wf(),
            final(self).headers@.len() == old(self).headers@.len() + 1,
            ({
                let oldh = old(self).headers@;
                let hh = if oldh.len() == 0 {
                    1int
                } else {
                    oldh[0].height as int
                };
                &&& final(self).headers@[0].width == 3
                &&& final(self).headers@[0].height as int == hh
                &&& final(self).headers@[0].content@ == grid_content(3, hh, seq!['#'])
                &&& forall|j: int|
                    1 <= j < final(self).headers@.len() ==> {
                        &&& (#[trigger] final(self).headers@[j]).width == oldh[j - 1].width
                        &&& final(self).headers@[j].height as int == hh
                        &&& final(self).headers@[j].content@ == oldh[j - 1].content@
                    }
            }),
            final(self).data@.len() == old(self).data@.len(),
            forall|i: int|
                0 <= i < final(self).data@.len() ==> ({
                    let oldrow = old(self).data@[i]@;
                    let hi = wrap_height(3, dec_rep(i).len() as int);
                    let rh = if hi > row_height(oldrow) {
                        hi
                    } else {
                        row_height(oldrow)
                    };
                    &&& (#[trigger] final(self).data@[i])@.len() == oldrow.len() + 1
                    &&& final(self).data@[i]@[0].width == 3
                    &&& final(self).data@[i]@[0].height as int == rh
                    &&& final(self).data@[i]@[0].content@ == grid_content(3, rh, dec_rep(i))
                    &&& forall|j: int|
                        1 <= j < final(self).data@[i]@.len() ==> {
                            &&& (#[trigger] final(self).data@[i]@[j]).width == oldrow[j - 1].width
                            &&& final(self).data@[i]@[j].height as int == rh
                            &&& final(self).data@[i]@[j].content@ == oldrow[j - 1].content@
                                + pad_suffix(
                                oldrow[j - 1].width as int,
                                rh - row_height(oldrow),
                            )
                        }
                }),
    {
        // build the numbered data rows first, from the unchanged table
        let n_rows = self.data.len();
        let mut new_data: Vec<Vec<WrappedCell>> = Vec::new();
        let mut i: usize = 0;
        while i < n_rows
            invariant
                i <= n_rows,
                old(self).wf(),
                n_rows == old(self).data@.len(),
                self.headers@ == old(self).headers@,
                self.data@ == old(self).data@.subrange(i as int, n_rows as int),
                new_data@.len() == i as int,
                forall|t: int|
                    0 <= t < i as int ==> ({
                        let oldrow = old(self).data@[t]@;
                        let hi = wrap_height(3, dec_rep(t).len() as int);
                        let rh = if hi > row_height(oldrow) {
                            hi
                        } else {
                            row_height(oldrow)
                        };
                        &&& (#[trigger] new_data@[t])@.len() == oldrow.len() + 1
                        &&& new_data@[t]@[0].width == 3
                        &&& new_data@[t]@[0].height as int == rh
                        &&& new_data@[t]@[0].content@ == grid_content(3, rh, dec_rep(t))
                        &&& (forall|u: int|
                            0 <= u < new_data@[t]@.len() ==> (#[trigger] new_data@[t]@[u]).wf())
                        &&& (forall|u: int|
                            0 <= u < new_data@[t]@.len() ==> (#[trigger] new_data@[t]@[u]).height
                                as int == rh)
                        &&& forall|j: int|
                            1 <= j < new_data@[t]@.len() ==> {
                                &&& (#[trigger] new_data@[t]@[j]).width == oldrow[j - 1].width
                                &&& new_data@[t]@[j].content@ == oldrow[j - 1].content@
                                    + pad_suffix(
                                    oldrow[j - 1].width as int,
                                    rh - row_height(oldrow),
                                )
                            }
                    }),
            decreases n_rows - i,
        {
            proof {
                assert(self.data@[0] == old(self).data@[i as int]);
            }
            let old_row = self.data.remove(0);
            proof {
                assert(self.data@ =~= old(self).data@.subrange(i as int + 1, n_rows as int));
            }
            let num = usize_to_string(i);
            let idx_cell = WrappedCell::wrap_str(3, num).unwrap();
            proof {
                lemma_dec_rep_no_newline(i as int);
            }
            let mut new_row: Vec<WrappedCell> = Vec::new();
            new_row.push(idx_cell);
            let mut tmp = old_row;
            new_row.append(&mut tmp);
            let ghost grow = new_row@;
            let ghost goldrow = old(self).data@[i as int]@;
            proof {
                assert(grow =~= seq![idx_cell] + goldrow);
            }
            let padded = WrappedCell::pad_row(new_row);
            proof {
                let hi = wrap_height(3, dec_rep(i as int).len() as int);
                lemma_wrap_height(3, dec_rep(i as int).len() as int);
                assert(heights_of(grow) =~= seq![hi] + heights_of(goldrow));
                lemma_seq_max_cons(hi, heights_of(goldrow));
                let rh = if hi > row_height(goldrow) {
                    hi
                } else {
                    row_height(goldrow)
                };
                assert(row_height(grow) == rh);
                lemma_grid_pad(3, hi, rh, dec_rep(i as int));
                assert(grow[0] == idx_cell);
                assert forall|u: int| 0 <= u < grow.len() implies (#[trigger] grow[u]).wf() by {
                    if u >= 1 {
                        assert(goldrow[u - 1].wf());
                        assert(grow[u] == goldrow[u - 1]);
                    }
                }
                if goldrow.len() > 0 {
                    lemma_seq_max_ge(heights_of(goldrow), 0);
                    assert forall|u: int|
                        0 <= u < heights_of(goldrow).len() implies #[trigger] heights_of(goldrow)[u]
                        <= goldrow[0].height as int by {
                        assert(goldrow[u].height == goldrow[0].height);
                    }
                    lemma_seq_max_le(heights_of(goldrow), goldrow[0].height as int);
                    assert(row_height(goldrow) == goldrow[0].height as int);
                }
                assert forall|j: int| 1 <= j < padded@.len() implies (#[trigger] padded@[j]).width
                    == goldrow[j - 1].width && padded@[j].content@ == goldrow[j - 1].content@
                    + pad_suffix(goldrow[j - 1].width as int, rh - row_height(goldrow)) by {
                    assert(grow[j] == goldrow[j - 1]);
                    assert(goldrow[j - 1].height as int == row_height(goldrow));
                }
            }
            new_data.push(padded);
            i = i + 1;
        }
        self.data = new_data;
        // insert the header cell and pad the header row
        let hash_cell = WrappedCell::wrap_str(3, "#".to_owned()).unwrap();
        proof {
            reveal_strlit("#");
            assert("#"@ =~= seq!['#']);
        }
        let ghost goldh = old(self).headers@;
        let mut hs: Vec<WrappedCell> = Vec::new();
        hs.push(hash_cell);
        hs.append(&mut self.headers);
        proof {
            assert(hs@ =~= seq![hash_cell] + goldh);
        }
        let padded_headers = WrappedCell::pad_row(hs);
        proof {
            assert(heights_of(seq![hash_cell] + goldh) =~= seq![1int] + heights_of(goldh));
            lemma_seq_max_cons(1, heights_of(goldh));
            let hh = if goldh.len() == 0 {
                1int
            } else {
                goldh[0].height as int
            };
            if goldh.len() > 0 {
                lemma_seq_max_ge(heights_of(goldh), 0);
                assert forall|u: int|
                    0 <= u < heights_of(goldh).len() implies #[trigger] heights_of(goldh)[u]
                    <= goldh[0].height as int by {
                    assert(goldh[u].height == goldh[0].height);
                }
                lemma_seq_max_le(heights_of(goldh), goldh[0].height as int);
            } else {
                assert(heights_of(goldh) =~= Seq::<int>::empty());
            }
            assert(row_height(seq![hash_cell] + goldh) == hh);
            lemma_grid_pad(3, 1, hh, seq!['#']);
            assert forall|u: int| 0 <= u < (seq![hash_cell] + goldh).len() implies (#[trigger] (
            seq![hash_cell] + goldh)[u]).wf() by {
                if u >= 1 {
                    assert(goldh[u - 1].wf());
                }
            }
            assert forall|j: int| 1 <= j < padded_headers@.len() implies (
            #[trigger] padded_headers@[j]).width == goldh[j - 1].width && padded_headers@[j].content@
                == goldh[j - 1].content@ && padded_headers@[j].height as int == hh by {
                assert((seq![hash_cell] + goldh)[j] == goldh[j - 1]);
                assert(goldh[j - 1].height as int == hh);
                assert(goldh[j - 1].content@ + pad_suffix(goldh[j - 1].width as int, 0) =~= goldh[j
                    - 1].content@);
            }
        }
        self.headers = padded_headers;
        proof {
            assert forall|i2: int, j: int|
                0 <= i2 < self.data@.len() && 0 <= j < self.data@[i2]@.len() implies (
            #[trigger] self.data@[i2]@[j]).width == self.headers@[j].width by {
                if j >= 1 {
                    assert(old(self).data@[i2]@[j - 1].width == old(self).headers@[j - 1].width);
                }
            }
        }
    }
}

} // verus!
