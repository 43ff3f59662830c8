//! The sheet model: a worksheet read as a grid of cell texts (row 0 holds a note,
//! row 1 the column headers, the rows after it the data), and the two shapes the
//! tools read it into: a workbook of rows fitted to the headers, and a table of
//! rows keyed by the value of a key column.

use vstd::prelude::*;
use crate::text::{copy_strings, lemma_strs_push, strs};

verus! {

/// The cell texts of a grid.
pub open spec fn grid_view(g: Seq<Vec<String>>) -> Seq<Seq<Seq<char>>> {
    g.map_values(|r: Vec<String>| strs(r@))
}

/// The header row of a grid: its row 1, or nothing when it has no such row.
pub open spec fn header_row(g: Seq<Seq<Seq<char>>>) -> Seq<Seq<char>> {
    if g.len() > 1 {
        g[1]
    } else {
        Seq::<Seq<char>>::empty()
    }
}

/// A row cut or padded with empty cells to `n` cells.
pub open spec fn fit_row(r: Seq<Seq<char>>, n: nat) -> Seq<Seq<char>> {
    Seq::new(n, |c: int| if c < r.len() { r[c] } else { Seq::<char>::empty() })
}

/// Each row fitted to `n` cells.
pub open spec fn fit_rows(rows: Seq<Seq<Seq<char>>>, n: nat) -> Seq<Seq<Seq<char>>> {
    rows.map_values(|r: Seq<Seq<char>>| fit_row(r, n))
}

/// Law: a fitted row has exactly `n` cells; each keeps the row's cell where the row
/// has one and is empty past the row's end.
pub proof fn lemma_fit_row_cells(r: Seq<Seq<char>>, n: nat)
    ensures
        fit_row(r, n).len() == n,
        forall|c: int| 0 <= c < n && c < r.len() ==> #[trigger] fit_row(r, n)[c] == r[c],
        forall|c: int| 0 <= c < n && c >= r.len() ==> (#[trigger] fit_row(r, n)[c]).len() == 0,
{
}

/// Pushing a row pushes its cell texts.
pub proof fn lemma_grid_view_push(g: Seq<Vec<String>>, r: Vec<String>)
    ensures
        grid_view(g.push(r)) == grid_view(g).push(strs(r@)),
{
    assert(grid_view(g.push(r)) =~= grid_view(g).push(strs(r@)));
}

/// Fitting commutes with pushing a row.
pub proof fn lemma_fit_rows_push(rows: Seq<Seq<Seq<char>>>, r: Seq<Seq<char>>, n: nat)
    ensures
        fit_rows(rows.push(r), n) == fit_rows(rows, n).push(fit_row(r, n)),
{
    assert(fit_rows(rows.push(r), n) =~= fit_rows(rows, n).push(fit_row(r, n)));
}

/// A sheet read for translation: its headers and its data rows.
pub struct WorkbookData {
    pub headers: Vec<String>,
    pub rows: Vec<Vec<String>>,
}

impl WorkbookData {
    /// There are headers, and every row has one cell per header.
    pub open spec fn wf(&self) -> bool {
        &&& self.headers@.len() > 0
        &&& forall|i: int| 0 <= i < self.rows@.len() ==> #[trigger] self.rows@[i]@.len()
            == self.headers@.len()
    }
}

/// Reads a grid into workbook data: the headers are row 1, and every later row is
/// fitted to the number of headers. A grid without headers is refused.
pub fn workbook_from_grid(grid: &Vec<Vec<String>>) -> (r: Result<WorkbookData, String>)
    ensures
        header_row(grid_view(grid@)).len() == 0 ==> (r matches Err(m) && m@
            == "No headers found in row 2"@),
        header_row(grid_view(grid@)).len() > 0 ==> (r matches Ok(d) && d.wf() && strs(
            d.headers@,
        ) == header_row(grid_view(grid@)) && grid_view(d.rows@) == fit_rows(
            grid_view(grid@).skip(2),
            d.headers@.len(),
        )),
{
    if grid.len() < 2 || grid[1].len() == 0 {
        return Err(String::from_str("No headers found in row 2"));
    }
    let headers = copy_strings(&grid[1]);
    let n = headers.len();
    let ghost gv = grid_view(grid@);
    assert(strs(headers@) == gv[1]);
    let mut rows: Vec<Vec<String>> = Vec::new();
    let total = grid.len();
    for i in 2..total
        invariant
            total == grid@.len(),
            n == headers@.len(),
            gv == grid_view(grid@),
            gv.len() == total,
            forall|q: int| 0 <= q < rows@.len() ==> #[trigger] rows@[q]@.len() == n,
            grid_view(rows@) == fit_rows(gv.subrange(2, i as int), n as nat),
    {
        let row = &grid[i];
        assert(strs(row@) == gv[i as int]);
        let mut values: Vec<String> = Vec::new();
        for c in 0..n
            invariant
                n == headers@.len(),
                2 <= i < gv.len(),
                strs(row@) == gv[i as int],
                strs(values@) == fit_row(gv[i as int], n as nat).take(c as int),
        {
            let ghost before = values@;
            let cell = if c < row.len() {
                row[c].clone()
            } else {
                String::new()
            };
            values.push(cell);
            proof {
                lemma_strs_push(before, cell);
                assert(fit_row(gv[i as int], n as nat).take(c + 1) == fit_row(
                    gv[i as int],
                    n as nat,
                ).take(c as int).push(fit_row(gv[i as int], n as nat)[c as int]));
            }
        }
        assert(fit_row(gv[i as int], n as nat).take(n as int) == fit_row(gv[i as int], n as nat));
        let ghost before = rows@;
        rows.push(values);
        assert(gv.subrange(2, i + 1) == gv.subrange(2, i as int).push(gv[i as int]));
        proof {
            lemma_grid_view_push(before, values);
            lemma_fit_rows_push(gv.subrange(2, i as int), gv[i as int], n as nat);
        }
    }
    assert(gv.subrange(2, total as int) == gv.skip(2));
    Ok(WorkbookData { headers, rows })
}

/// The first `n` cells of a row, or all of it when it is shorter.
pub open spec fn first_cells(r: Seq<String>, n: nat) -> Seq<String> {
    if r.len() <= n {
        r
    } else {
        r.take(n as int)
    }
}

/// A row of cell texts cut to at most `n` cells.
pub open spec fn cut_row(r: Seq<Seq<char>>, n: nat) -> Seq<Seq<char>> {
    if r.len() <= n {
        r
    } else {
        r.take(n as int)
    }
}

/// Law: a cut row keeps the first cells of the row, as many as it has up to `n`.
pub proof fn lemma_cut_row_cells(r: Seq<Seq<char>>, n: nat)
    ensures
        cut_row(r, n).len() == if r.len() <= n { r.len() } else { n },
        forall|c: int| 0 <= c < cut_row(r, n).len() ==> #[trigger] cut_row(r, n)[c] == r[c],
{
}

/// Each row cut to at most `n` cells.
pub open spec fn cut_rows(rows: Seq<Seq<Seq<char>>>, n: nat) -> Seq<Seq<Seq<char>>> {
    rows.map_values(|r: Seq<Seq<char>>| cut_row(r, n))
}

/// Law: a sheet written as a note row, its headers and its data rows cut to the
/// headers reads back with those headers and with its rows fitted to them; rows that
/// already have one cell per header read back as they are.
pub proof fn lemma_written_sheet_reads_back(
    note: Seq<Seq<char>>,
    h: Seq<Seq<char>>,
    rows: Seq<Seq<Seq<char>>>,
)
    requires
        h.len() > 0,
    ensures
        header_row(seq![note, h] + cut_rows(rows, h.len())) == h,
        fit_rows((seq![note, h] + cut_rows(rows, h.len())).skip(2), h.len()) == fit_rows(
            rows,
            h.len(),
        ),
        (forall|i: int| 0 <= i < rows.len() ==> (#[trigger] rows[i]).len() == h.len()) ==> fit_rows(
            rows,
            h.len(),
        ) == rows,
{
    let g = seq![note, h] + cut_rows(rows, h.len());
    assert(g[1] == h);
    assert(g.skip(2) =~= cut_rows(rows, h.len()));
    assert forall|i: int| 0 <= i < rows.len() implies #[trigger] fit_rows(
        cut_rows(rows, h.len()),
        h.len(),
    )[i] == fit_rows(rows, h.len())[i] by {
        assert(fit_row(cut_row(rows[i], h.len()), h.len()) =~= fit_row(rows[i], h.len()));
    }
    assert(fit_rows(cut_rows(rows, h.len()), h.len()) =~= fit_rows(rows, h.len()));
    if forall|i: int| 0 <= i < rows.len() ==> (#[trigger] rows[i]).len() == h.len() {
        assert forall|i: int| 0 <= i < rows.len() implies #[trigger] fit_rows(rows, h.len())[i]
            == rows[i] by {
            assert(fit_row(rows[i], h.len()) =~= rows[i]);
        }
        assert(fit_rows(rows, h.len()) =~= rows);
    }
}

/// The data rows written under `headers`: each row cut to the number of headers.
/// Nothing is written without headers.
pub fn written_rows(headers: &Vec<String>, rows: &Vec<Vec<String>>) -> (r: Result<
    Vec<Vec<String>>,
    String,
>)
    ensures
        headers@.len() == 0 ==> (r matches Err(m) && m@
            == "Cannot write workbook with empty headers"@),
        headers@.len() > 0 ==> (r matches Ok(w) && w@.len() == rows@.len() && grid_view(w@)
            == cut_rows(grid_view(rows@), headers@.len()) && forall|i: int|
            0 <= i < rows@.len() ==> (#[trigger] w@[i])@ == first_cells(
                rows@[i]@,
                headers@.len(),
            )),
{
    if headers.len() == 0 {
        return Err(String::from_str("Cannot write workbook with empty headers"));
    }
    let n = headers.len();
    let mut w: Vec<Vec<String>> = Vec::new();
    let total = rows.len();
    for i in 0..total
        invariant
            total == rows@.len(),
            n == headers@.len(),
            w@.len() == i,
            forall|q: int| 0 <= q < i ==> (#[trigger] w@[q])@ == first_cells(rows@[q]@, n as nat),
    {
        let row = &rows[i];
        let m = if row.len() < n {
            row.len()
        } else {
            n
        };
        let mut cut: Vec<String> = Vec::new();
        for c in 0..m
            invariant
                m <= row@.len(),
                cut@ == row@.take(c as int),
        {
            cut.push(row[c].clone());
            assert(row@.take(c + 1) == row@.take(c as int).push(row@[c as int]));
        }
        assert(cut@ == first_cells(row@, n as nat));
        w.push(cut);
    }
    assert forall|i: int| 0 <= i < rows@.len() implies #[trigger] grid_view(w@)[i] == cut_rows(
        grid_view(rows@),
        n as nat,
    )[i] by {
        assert(strs(first_cells(rows@[i]@, n as nat)) =~= cut_row(strs(rows@[i]@), n as nat));
    }
    assert(grid_view(w@) =~= cut_rows(grid_view(rows@), n as nat));
    Ok(w)
}

/// The header row of a grid (row 1), when it has one.
pub fn header_row_of(grid: &Vec<Vec<String>>) -> (r: Option<Vec<String>>)
    ensures
        grid@.len() <= 1 ==> r is None,
        grid@.len() > 1 ==> (r matches Some(h) && h@ == grid@[1]@),
{
    if grid.len() < 2 {
        None
    } else {
        Some(copy_strings(&grid[1]))
    }
}

} // verus!
