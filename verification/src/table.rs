//! Tables keyed by the value of a key column (what a worksheet becomes for
//! merging and filtering), and the rows written out from them.

use vstd::prelude::*;
use crate::sheet::{grid_view, header_row};
use crate::text::{copy_strings, str_eq, strs};

verus! {

/// Law: the rows of a table stand for its map one for one: each row's key maps to
/// that row's fields, and every key of the map is the key of a row.
pub proof fn lemma_table_rows_cover(t: &KeyedTable)
    requires
        t.wf(),
    ensures
        forall|i: int|
            0 <= i < t.entries@.len() ==> t@.dom().contains((#[trigger] t.entries@[i]).key@) && t@[t.entries@[i].key@]
                == t.fields_at(i),
        forall|k: Seq<char>|
            #[trigger] t@.dom().contains(k) ==> exists|i: int|
                0 <= i < t.entries@.len() && (#[trigger] t.entries@[i]).key@ == k,
{
    assert forall|i: int| 0 <= i < t.entries@.len() implies t@.dom().contains(
        (#[trigger] t.entries@[i]).key@,
    ) && t@[t.entries@[i].key@] == t.fields_at(i) by {
        lemma_entries_map_at(strs(t.headers@), t.key_column@, t.entries@, i);
    }
    assert forall|k: Seq<char>| #[trigger] t@.dom().contains(k) implies exists|i: int|
        0 <= i < t.entries@.len() && (#[trigger] t.entries@[i]).key@ == k by {
        lemma_entries_map_dom(strs(t.headers@), t.key_column@, t.entries@, k);
    }
}

/// The key of a data row: the cell of the last column headed `kc`, empty when none is.
pub open spec fn row_key(h: Seq<Seq<char>>, cells: Seq<Seq<char>>, kc: Seq<char>) -> Seq<char>
    decreases cells.len(),
{
    if cells.len() == 0 {
        Seq::<char>::empty()
    } else if h[cells.len() - 1] == kc {
        cells.last()
    } else {
        row_key(h, cells.drop_last(), kc)
    }
}

/// The fields of a data row: each header other than `kc` mapped to the cell of the
/// last column it heads.
pub open spec fn row_fields(h: Seq<Seq<char>>, cells: Seq<Seq<char>>, kc: Seq<char>) -> Map<
    Seq<char>,
    Seq<char>,
>
    decreases cells.len(),
{
    if cells.len() == 0 {
        Map::empty()
    } else {
        let m = row_fields(h, cells.drop_last(), kc);
        if h[cells.len() - 1] == kc {
            m
        } else {
            m.insert(h[cells.len() - 1], cells.last())
        }
    }
}

/// The table that the data rows make: each row with a non-empty key maps its key to
/// its fields; a later row with the same key replaces an earlier one.
pub open spec fn table_of(h: Seq<Seq<char>>, rows: Seq<Seq<Seq<char>>>, kc: Seq<char>) -> Map<
    Seq<char>,
    Map<Seq<char>, Seq<char>>,
>
    decreases rows.len(),
{
    if rows.len() == 0 {
        Map::empty()
    } else {
        let t = table_of(h, rows.drop_last(), kc);
        let k = row_key(h, rows.last(), kc);
        if k.len() == 0 {
            t
        } else {
            t.insert(k, row_fields(h, rows.last(), kc))
        }
    }
}

/// The keyed table of a grid: its header row, and the rows after it.
pub open spec fn grid_table(g: Seq<Seq<Seq<char>>>, kc: Seq<char>) -> Map<
    Seq<char>,
    Map<Seq<char>, Seq<char>>,
> {
    if g.len() <= 1 {
        Map::empty()
    } else {
        table_of(g[1], g.skip(2), kc)
    }
}

/// Law: the key of a row is the cell of the last column headed by the key column,
/// and empty when no column is.
pub proof fn lemma_row_key_is_last_key_cell(h: Seq<Seq<char>>, cells: Seq<Seq<char>>, kc: Seq<char>)
    ensures
        forall|i: int|
            0 <= i < cells.len() && h[i] == kc && (forall|j: int|
                i < j < cells.len() ==> h[j] != kc) ==> row_key(h, cells, kc) == cells[i],
        (forall|i: int| 0 <= i < cells.len() ==> h[i] != kc) ==> row_key(h, cells, kc).len() == 0,
    decreases cells.len(),
{
    if cells.len() > 0 {
        let pre = cells.drop_last();
        lemma_row_key_is_last_key_cell(h, pre, kc);
        assert forall|i: int|
            0 <= i < cells.len() && h[i] == kc && (forall|j: int|
                i < j < cells.len() ==> h[j] != kc) implies row_key(h, cells, kc) == cells[i] by {
            if i < cells.len() - 1 {
                assert(h[cells.len() - 1] != kc);
                assert(pre[i] == cells[i]);
                assert forall|j: int| i < j < pre.len() implies h[j] != kc by {}
            }
        }
        if forall|i: int| 0 <= i < cells.len() ==> h[i] != kc {
            assert(h[cells.len() - 1] != kc);
        }
    }
}

/// Law: a row has a field for a header exactly when the header is not the key
/// column and heads one of the row's cells; the field is the cell of the last column
/// the header heads.
pub proof fn lemma_row_fields_are_last_cells(h: Seq<Seq<char>>, cells: Seq<Seq<char>>, kc: Seq<char>)
    ensures
        forall|x: Seq<char>|
            #[trigger] row_fields(h, cells, kc).dom().contains(x) <==> (x != kc && exists|i: int|
                0 <= i < cells.len() && h[i] == x),
        forall|i: int|
            0 <= i < cells.len() && h[i] != kc && (forall|j: int|
                i < j < cells.len() ==> h[j] != h[i]) ==> row_fields(h, cells, kc)[h[i]] == cells[i],
    decreases cells.len(),
{
    if cells.len() > 0 {
        let pre = cells.drop_last();
        let n = cells.len() - 1;
        lemma_row_fields_are_last_cells(h, pre, kc);
        assert forall|x: Seq<char>| #[trigger]
            row_fields(h, cells, kc).dom().contains(x) <==> (x != kc && exists|i: int|
                0 <= i < cells.len() && h[i] == x) by {
            if x != kc && exists|i: int| 0 <= i < cells.len() && h[i] == x {
                let i = choose|i: int| 0 <= i < cells.len() && h[i] == x;
                if i < n {
                    assert(0 <= i < pre.len() && h[i] == x);
                }
            }
            if row_fields(h, pre, kc).dom().contains(x) {
                let i = choose|i: int| 0 <= i < pre.len() && h[i] == x;
                assert(0 <= i < cells.len() && h[i] == x);
            }
        }
        assert forall|i: int|
            0 <= i < cells.len() && h[i] != kc && (forall|j: int|
                i < j < cells.len() ==> h[j] != h[i]) implies row_fields(h, cells, kc)[h[i]]
            == cells[i] by {
            if i < n {
                assert(h[n] != h[i]);
                assert(pre[i] == cells[i]);
                assert forall|j: int| i < j < pre.len() implies h[j] != h[i] by {}
            }
        }
    }
}

/// Law: every data row with a non-empty key puts its key in the table, whatever its
/// other cells hold, and only such keys are in it; the fields of a key are those of
/// the last row with that key.
pub proof fn lemma_table_of_rows(h: Seq<Seq<char>>, rows: Seq<Seq<Seq<char>>>, kc: Seq<char>)
    ensures
        forall|k: Seq<char>|
            #[trigger] table_of(h, rows, kc).dom().contains(k) <==> (k.len() > 0 && exists|r: int|
                0 <= r < rows.len() && row_key(h, rows[r], kc) == k),
        forall|r: int|
            0 <= r < rows.len() && row_key(h, rows[r], kc).len() > 0 && (forall|q: int|
                r < q < rows.len() ==> row_key(h, rows[q], kc) != row_key(h, rows[r], kc))
                ==> table_of(h, rows, kc)[row_key(h, rows[r], kc)] == row_fields(h, rows[r], kc),
    decreases rows.len(),
{
    if rows.len() > 0 {
        let pre = rows.drop_last();
        let n = rows.len() - 1;
        lemma_table_of_rows(h, pre, kc);
        assert forall|k: Seq<char>| #[trigger]
            table_of(h, rows, kc).dom().contains(k) <==> (k.len() > 0 && exists|r: int|
                0 <= r < rows.len() && row_key(h, rows[r], kc) == k) by {
            if k.len() > 0 && exists|r: int| 0 <= r < rows.len() && row_key(h, rows[r], kc) == k {
                let r = choose|r: int| 0 <= r < rows.len() && row_key(h, rows[r], kc) == k;
                if r < n {
                    assert(pre[r] == rows[r]);
                    assert(0 <= r < pre.len() && row_key(h, pre[r], kc) == k);
                }
            }
            if table_of(h, pre, kc).dom().contains(k) {
                let r = choose|r: int| 0 <= r < pre.len() && row_key(h, pre[r], kc) == k;
                assert(pre[r] == rows[r]);
                assert(0 <= r < rows.len() && row_key(h, rows[r], kc) == k);
            }
        }
        assert forall|r: int|
            0 <= r < rows.len() && row_key(h, rows[r], kc).len() > 0 && (forall|q: int|
                r < q < rows.len() ==> row_key(h, rows[q], kc) != row_key(h, rows[r], kc))
                implies table_of(h, rows, kc)[row_key(h, rows[r], kc)] == row_fields(
            h,
            rows[r],
            kc,
        ) by {
            if r < n {
                assert(pre[r] == rows[r]);
                assert(row_key(h, rows[n], kc) != row_key(h, rows[r], kc));
                assert forall|q: int| r < q < pre.len() implies row_key(h, pre[q], kc) != row_key(
                    h,
                    pre[r],
                    kc,
                ) by {
                    assert(pre[q] == rows[q]);
                }
            }
        }
    }
}

/// One row of a keyed table: its key and its cells, in header order.
pub struct KeyedRow {
    pub key: String,
    pub cells: Vec<String>,
}

/// A table of rows keyed by the value of the key column.
pub struct KeyedTable {
    pub headers: Vec<String>,
    pub key_column: String,
    pub entries: Vec<KeyedRow>,
}

/// The map that a sequence of rows with distinct keys stands for.
pub open spec fn entries_map(h: Seq<Seq<char>>, kc: Seq<char>, e: Seq<KeyedRow>) -> Map<
    Seq<char>,
    Map<Seq<char>, Seq<char>>,
>
    decreases e.len(),
{
    if e.len() == 0 {
        Map::empty()
    } else {
        entries_map(h, kc, e.drop_last()).insert(
            e.last().key@,
            row_fields(h, strs(e.last().cells@), kc),
        )
    }
}

/// The keys of rows are non-empty and distinct, and no row is longer than the headers.
pub open spec fn entries_wf(hlen: nat, e: Seq<KeyedRow>) -> bool {
    &&& forall|i: int, j: int| 0 <= i < j < e.len() ==> #[trigger] e[i].key@ != #[trigger] e[j].key@
    &&& forall|i: int| 0 <= i < e.len() ==> (#[trigger] e[i]).key@.len() > 0
    &&& forall|i: int| 0 <= i < e.len() ==> (#[trigger] e[i]).cells@.len() <= hlen
}

impl KeyedTable {
    pub open spec fn wf(&self) -> bool {
        entries_wf(self.headers@.len(), self.entries@)
    }

    /// The table as a map from key to fields.
    pub open spec fn view(&self) -> Map<Seq<char>, Map<Seq<char>, Seq<char>>> {
        entries_map(strs(self.headers@), self.key_column@, self.entries@)
    }

    /// The fields of the row at `i`.
    pub open spec fn fields_at(&self, i: int) -> Map<Seq<char>, Seq<char>> {
        row_fields(strs(self.headers@), strs(self.entries@[i].cells@), self.key_column@)
    }

    /// The keys in row order.
    pub open spec fn keys(&self) -> Seq<Seq<char>> {
        self.entries@.map_values(|r: KeyedRow| r.key@)
    }
}

/// A row found at `j` is what the map holds for its key.
pub proof fn lemma_entries_map_at(h: Seq<Seq<char>>, kc: Seq<char>, e: Seq<KeyedRow>, j: int)
    requires
        0 <= j < e.len(),
        forall|a: int, b: int| 0 <= a < b < e.len() ==> #[trigger] e[a].key@ != #[trigger] e[b].key@,
    ensures
        entries_map(h, kc, e).dom().contains(e[j].key@),
        entries_map(h, kc, e)[e[j].key@] == row_fields(h, strs(e[j].cells@), kc),
    decreases e.len(),
{
    if j < e.len() - 1 {
        lemma_entries_map_at(h, kc, e.drop_last(), j);
        assert(e.drop_last()[j] == e[j]);
    }
}

/// A key that no row has is not in the map.
pub proof fn lemma_entries_map_absent(
    h: Seq<Seq<char>>,
    kc: Seq<char>,
    e: Seq<KeyedRow>,
    k: Seq<char>,
)
    requires
        forall|j: int| 0 <= j < e.len() ==> (#[trigger] e[j]).key@ != k,
    ensures
        !entries_map(h, kc, e).dom().contains(k),
    decreases e.len(),
{
    if e.len() > 0 {
        assert forall|j: int| 0 <= j < e.len() - 1 implies (#[trigger] e.drop_last()[j]).key@
            != k by {
            assert(e.drop_last()[j] == e[j]);
        }
        lemma_entries_map_absent(h, kc, e.drop_last(), k);
    }
}

/// Every key of the map is the key of some row.
pub proof fn lemma_entries_map_dom(h: Seq<Seq<char>>, kc: Seq<char>, e: Seq<KeyedRow>, k: Seq<char>)
    requires
        entries_map(h, kc, e).dom().contains(k),
    ensures
        exists|j: int| 0 <= j < e.len() && (#[trigger] e[j]).key@ == k,
    decreases e.len(),
{
    if e.last().key@ != k {
        lemma_entries_map_dom(h, kc, e.drop_last(), k);
        let j = choose|j: int| 0 <= j < e.len() - 1 && (#[trigger] e.drop_last()[j]).key@ == k;
        assert(e.drop_last()[j] == e[j]);
    }
}

/// Replacing the cells of the row that has key `k` replaces the fields of `k`.
pub proof fn lemma_entries_map_replace(
    h: Seq<Seq<char>>,
    kc: Seq<char>,
    e: Seq<KeyedRow>,
    j: int,
    r: KeyedRow,
)
    requires
        0 <= j < e.len(),
        e[j].key@ == r.key@,
        forall|a: int, b: int| 0 <= a < b < e.len() ==> #[trigger] e[a].key@ != #[trigger] e[b].key@,
    ensures
        entries_map(h, kc, e.update(j, r)) == entries_map(h, kc, e).insert(
            r.key@,
            row_fields(h, strs(r.cells@), kc),
        ),
    decreases e.len(),
{
    let e2 = e.update(j, r);
    if j == e.len() - 1 {
        assert(e2.drop_last() == e.drop_last());
        lemma_entries_map_at(h, kc, e, j);
        assert forall|q: int| 0 <= q < e.drop_last().len() implies (#[trigger] e.drop_last()[q]).key@
            != r.key@ by {
            assert(e.drop_last()[q] == e[q]);
        }
        lemma_entries_map_absent(h, kc, e.drop_last(), r.key@);
        assert(entries_map(h, kc, e2) =~= entries_map(h, kc, e).insert(
            r.key@,
            row_fields(h, strs(r.cells@), kc),
        ));
    } else {
        assert(e2.drop_last() == e.drop_last().update(j, r));
        assert forall|a: int, b: int| 0 <= a < b < e.drop_last().len() implies #[trigger] e.drop_last()[a].key@
            != #[trigger] e.drop_last()[b].key@ by {
            assert(e.drop_last()[a] == e[a]);
            assert(e.drop_last()[b] == e[b]);
        }
        assert(e.drop_last()[j] == e[j]);
        lemma_entries_map_replace(h, kc, e.drop_last(), j, r);
        assert(e2.last() == e.last());
        assert(e.last().key@ != r.key@);
        assert(entries_map(h, kc, e2) =~= entries_map(h, kc, e).insert(
            r.key@,
            row_fields(h, strs(r.cells@), kc),
        ));
    }
}

/// The key of a row of cells under the given headers.
pub fn key_of_row(headers: &Vec<String>, cells: &Vec<String>, key_column: &str) -> (k: String)
    requires
        cells@.len() <= headers@.len(),
    ensures
        k@ == row_key(strs(headers@), strs(cells@), key_column@),
{
    let mut k = String::new();
    let n = cells.len();
    let ghost h = strs(headers@);
    let ghost c = strs(cells@);
    for i in 0..n
        invariant
            n == cells@.len(),
            n <= headers@.len(),
            h == strs(headers@),
            c == strs(cells@),
            k@ == row_key(h, c.take(i as int), key_column@),
    {
        assert(c.take(i + 1).drop_last() == c.take(i as int));
        if str_eq(headers[i].as_str(), key_column) {
            k = cells[i].clone();
        }
    }
    assert(c.take(n as int) == c);
    k
}

/// The field `column` of a row of cells, if it has one.
pub fn field_of_row(headers: &Vec<String>, cells: &Vec<String>, key_column: &str, column: &str) -> (r:
    Option<String>)
    requires
        cells@.len() <= headers@.len(),
    ensures
        ({
            let m = row_fields(strs(headers@), strs(cells@), key_column@);
            &&& m.dom().contains(column@) ==> (r matches Some(v) && v@ == m[column@])
            &&& !m.dom().contains(column@) ==> r is None
        }),
{
    let mut r: Option<String> = None;
    let n = cells.len();
    let ghost h = strs(headers@);
    let ghost c = strs(cells@);
    for i in 0..n
        invariant
            n == cells@.len(),
            n <= headers@.len(),
            h == strs(headers@),
            c == strs(cells@),
            ({
                let m = row_fields(h, c.take(i as int), key_column@);
                &&& m.dom().contains(column@) ==> (r matches Some(v) && v@ == m[column@])
                &&& !m.dom().contains(column@) ==> r is None
            }),
    {
        assert(c.take(i + 1).drop_last() == c.take(i as int));
        if !str_eq(headers[i].as_str(), key_column) && str_eq(headers[i].as_str(), column) {
            r = Some(cells[i].clone());
        }
    }
    assert(c.take(n as int) == c);
    r
}

impl KeyedTable {
    /// The position of the row with key `key`, if there is one.
    pub fn position_of(&self, key: &str) -> (r: Option<usize>)
        requires
            self.wf(),
        ensures
            r matches Some(j) ==> j < self.entries@.len() && self.entries@[j as int].key@ == key@,
            r is None ==> !self@.dom().contains(key@),
    {
        let r = find_key(&self.entries, key);
        proof {
            if r is None {
                lemma_entries_map_absent(
                    strs(self.headers@),
                    self.key_column@,
                    self.entries@,
                    key@,
                );
            }
        }
        r
    }

    /// The value of field `column` in the row with key `key` (`get(key).and_then(get(column))`).
    pub fn field(&self, key: &str, column: &str) -> (r: Option<String>)
        requires
            self.wf(),
        ensures
            (self@.dom().contains(key@) && self@[key@].dom().contains(column@)) ==> (r matches Some(
                v,
            ) && v@ == self@[key@][column@]),
            !(self@.dom().contains(key@) && self@[key@].dom().contains(column@)) ==> r is None,
    {
        match self.position_of(key) {
            None => None,
            Some(j) => {
                proof {
                    lemma_entries_map_at(
                        strs(self.headers@),
                        self.key_column@,
                        self.entries@,
                        j as int,
                    );
                }
                field_of_row(&self.headers, &self.entries[j].cells, self.key_column.as_str(), column)
            },
        }
    }
}


/// The position of the row with key `key`.
pub fn find_key(entries: &Vec<KeyedRow>, key: &str) -> (r: Option<usize>)
    ensures
        r matches Some(j) ==> j < entries@.len() && entries@[j as int].key@ == key@,
        r is None ==> forall|q: int| 0 <= q < entries@.len() ==> (#[trigger] entries@[q]).key@ != key@,
{
    let n = entries.len();
    for j in 0..n
        invariant
            n == entries@.len(),
            forall|q: int| 0 <= q < j ==> (#[trigger] entries@[q]).key@ != key@,
    {
        if str_eq(entries[j].key.as_str(), key) {
            return Some(j);
        }
    }
    None
}

/// Reads a grid into a table keyed by `key_column`: row 1 holds the headers; each
/// later row whose key is not empty maps its key to its fields, and a later row
/// with the same key replaces an earlier one.
pub fn keyed_table_from_grid(grid: &Vec<Vec<String>>, key_column: &str) -> (t: KeyedTable)
    requires
        forall|i: int| 2 <= i < grid@.len() ==> (#[trigger] grid@[i])@.len() <= grid@[1]@.len(),
    ensures
        t.wf(),
        t.key_column@ == key_column@,
        strs(t.headers@) == header_row(grid_view(grid@)),
        t@ == grid_table(grid_view(grid@), key_column@),
        forall|r: int|
            2 <= r < grid@.len() && row_key(grid_view(grid@)[1], #[trigger] grid_view(grid@)[r], key_column@).len()
                > 0 ==> t@.dom().contains(row_key(grid_view(grid@)[1], grid_view(grid@)[r], key_column@)),
{
    let kc = key_column.to_owned();
    if grid.len() < 2 {
        let t = KeyedTable { headers: Vec::new(), key_column: kc, entries: Vec::new() };
        assert(t@ == Map::<Seq<char>, Map<Seq<char>, Seq<char>>>::empty());
        return t;
    }
    let headers = copy_strings(&grid[1]);
    let ghost gv = grid_view(grid@);
    let ghost h = strs(headers@);
    assert(h == gv[1]);
    let mut entries: Vec<KeyedRow> = Vec::new();
    let total = grid.len();
    assert(gv.subrange(2, 2) == Seq::<Seq<Seq<char>>>::empty());
    for i in 2..total
        invariant
            total == grid@.len(),
            gv == grid_view(grid@),
            gv.len() == total,
            h == strs(headers@),
            h == gv[1],
            kc@ == key_column@,
            forall|q: int| 2 <= q < grid@.len() ==> (#[trigger] grid@[q])@.len() <= grid@[1]@.len(),
            headers@.len() == grid@[1]@.len(),
            entries_wf(headers@.len(), entries@),
            entries_map(h, kc@, entries@) == table_of(h, gv.subrange(2, i as int), kc@),
    {
        let row = &grid[i];
        assert(strs(row@) == gv[i as int]);
        assert(gv.subrange(2, i + 1).drop_last() == gv.subrange(2, i as int));
        assert(gv.subrange(2, i + 1).last() == gv[i as int]);
        let k = key_of_row(&headers, row, key_column);
        if !k.as_str().is_empty() {
            let cells = copy_strings(row);
            let new_row = KeyedRow { key: k, cells };
            let found = find_key(&entries, new_row.key.as_str());
            match found {
                Some(j) => {
                    proof {
                        lemma_entries_map_replace(h, kc@, entries@, j as int, new_row);
                    }
                    entries.set(j, new_row);
                },
                None => {
                    proof {
                        lemma_entries_map_absent(h, kc@, entries@, new_row.key@);
                    }
                    let ghost before = entries@;
                    entries.push(new_row);
                    assert(entries@.drop_last() == before);
                },
            }
        }
    }
    assert(gv.subrange(2, total as int) == gv.skip(2));
    proof {
        lemma_table_of_rows(h, gv.skip(2), kc@);
        assert forall|r: int|
            2 <= r < grid@.len() && row_key(gv[1], #[trigger] gv[r], key_column@).len() > 0
            implies table_of(h, gv.skip(2), kc@).dom().contains(row_key(gv[1], gv[r], key_column@)) by {
            assert(gv.skip(2)[r - 2] == gv[r]);
        }
    }
    KeyedTable { headers, key_column: kc, entries }
}

} // verus!
