//! Merging a reference table into a source table: the rows written out when one
//! column of the source is refilled from the reference.

use vstd::prelude::*;
use crate::table::{KeyedTable, field_of_row};
use crate::text::{contains_str, lemma_strs_push, str_eq, strs};

verus! {

/// The value of `column` in `fields`, empty when there is none (`get(..).unwrap_or("")`).
pub open spec fn field_or_empty(fields: Map<Seq<char>, Seq<char>>, column: Seq<char>) -> Seq<char> {
    if fields.dom().contains(column) {
        fields[column]
    } else {
        Seq::<char>::empty()
    }
}

/// The cell under `header` of the merged row for `key`: the reference's value under
/// a column to fill, the key itself under the key column, the row's own value elsewhere.
pub open spec fn merged_cell(
    reference: Map<Seq<char>, Map<Seq<char>, Seq<char>>>,
    key: Seq<char>,
    fields: Map<Seq<char>, Seq<char>>,
    key_column: Seq<char>,
    fill_columns: Seq<Seq<char>>,
    header: Seq<char>,
) -> Seq<char> {
    if fill_columns.contains(header) {
        if reference.dom().contains(key) {
            field_or_empty(reference[key], header)
        } else {
            Seq::<char>::empty()
        }
    } else if header == key_column {
        key
    } else {
        field_or_empty(fields, header)
    }
}

/// The merged row of the source row at `i`.
pub open spec fn merged_row(
    reference: &KeyedTable,
    source: &KeyedTable,
    i: int,
    key_column: Seq<char>,
    fill_columns: Seq<Seq<char>>,
    headers: Seq<Seq<char>>,
) -> Seq<Seq<char>> {
    Seq::new(
        headers.len(),
        |c: int|
            merged_cell(
                reference@,
                source.entries@[i].key@,
                source.fields_at(i),
                key_column,
                fill_columns,
                headers[c],
            ),
    )
}

/// Each cell of a merged row, by the kind of its column. Under a column to fill it
/// is the reference's value for the row's key and that column, whatever that value
/// is (an empty one too), and empty when the reference has none: the source row's own
/// value never shows there. Under the key column it is the key; under any other
/// column it is the source row's own value, empty when the row has none.
pub proof fn lemma_merged_cells(
    reference: &KeyedTable,
    source: &KeyedTable,
    i: int,
    key_column: Seq<char>,
    fill_columns: Seq<Seq<char>>,
    headers: Seq<Seq<char>>,
    c: int,
)
    requires
        0 <= i < source.entries@.len(),
        0 <= c < headers.len(),
    ensures
        merged_row(reference, source, i, key_column, fill_columns, headers).len() == headers.len(),
        ({
            let h = headers[c];
            let k = source.entries@[i].key@;
            let cell = merged_row(reference, source, i, key_column, fill_columns, headers)[c];
            &&& (fill_columns.contains(h) && reference@.dom().contains(k)
                && reference@[k].dom().contains(h)) ==> cell == reference@[k][h]
            &&& (fill_columns.contains(h) && !(reference@.dom().contains(k)
                && reference@[k].dom().contains(h))) ==> cell.len() == 0
            &&& (!fill_columns.contains(h) && h == key_column) ==> cell == k
            &&& (!fill_columns.contains(h) && h != key_column && source.fields_at(i).dom().contains(h))
                ==> cell == source.fields_at(i)[h]
            &&& (!fill_columns.contains(h) && h != key_column && !source.fields_at(i).dom().contains(h))
                ==> cell.len() == 0
        }),
{
}

/// The data rows written when the columns `fill_columns` of `source` are refilled
/// from `reference`, rows matched by their key: one row per source row, one cell per
/// header.
pub fn merge_rows(
    reference: &KeyedTable,
    source: &KeyedTable,
    key_column: &str,
    fill_columns: &Vec<String>,
    headers: &Vec<String>,
) -> (r: Vec<Vec<String>>)
    requires
        reference.wf(),
        source.wf(),
    ensures
        r@.len() == source.entries@.len(),
        forall|i: int|
            0 <= i < r@.len() ==> strs(#[trigger] r@[i]@) == merged_row(
                reference,
                source,
                i,
                key_column@,
                strs(fill_columns@),
                strs(headers@),
            ),
        forall|i: int, c: int|
            0 <= i < r@.len() && 0 <= c < headers@.len() && strs(fill_columns@).contains(headers@[c]@)
                && reference@.dom().contains(source.entries@[i].key@)
                && reference@[source.entries@[i].key@].dom().contains(headers@[c]@)
                ==> (#[trigger] r@[i]@[c])@ == reference@[source.entries@[i].key@][headers@[c]@],
{
    let mut out: Vec<Vec<String>> = Vec::new();
    let n = source.entries.len();
    let m = headers.len();
    let ghost hv = strs(headers@);
    for i in 0..n
        invariant
            n == source.entries@.len(),
            m == headers@.len(),
            hv == strs(headers@),
            reference.wf(),
            source.wf(),
            out@.len() == i,
            forall|q: int|
                0 <= q < i ==> strs(#[trigger] out@[q]@) == merged_row(
                    reference,
                    source,
                    q,
                    key_column@,
                    strs(fill_columns@),
                    hv,
                ),
    {
        let entry = &source.entries[i];
        let ghost full = merged_row(
            reference,
            source,
            i as int,
            key_column@,
            strs(fill_columns@),
            hv,
        );
        let mut row: Vec<String> = Vec::new();
        for c in 0..m
            invariant
                m == headers@.len(),
                hv == strs(headers@),
                i < source.entries@.len(),
                *entry == source.entries@[i as int],
                reference.wf(),
                source.wf(),
                full == merged_row(
                    reference,
                    source,
                    i as int,
                    key_column@,
                    strs(fill_columns@),
                    hv,
                ),
                strs(row@) == full.take(c as int),
        {
            let header = headers[c].as_str();
            let cell = if contains_str(fill_columns, header) {
                match reference.field(entry.key.as_str(), header) {
                    Some(v) => v,
                    None => String::new(),
                }
            } else if str_eq(header, key_column) {
                entry.key.clone()
            } else {
                match field_of_row(&source.headers, &entry.cells, source.key_column.as_str(), header) {
                    Some(v) => v,
                    None => String::new(),
                }
            };
            assert(cell@ == full[c as int]);
            let ghost before = row@;
            row.push(cell);
            proof {
                lemma_strs_push(before, cell);
                assert(full.take(c + 1) == full.take(c as int).push(full[c as int]));
            }
        }
        assert(full.take(m as int) == full);
        out.push(row);
    }
    proof {
        assert forall|i: int, c: int|
            0 <= i < out@.len() && 0 <= c < headers@.len() && strs(fill_columns@).contains(headers@[c]@)
                && reference@.dom().contains(source.entries@[i].key@)
                && reference@[source.entries@[i].key@].dom().contains(headers@[c]@)
            implies (#[trigger] out@[i]@[c])@ == reference@[source.entries@[i].key@][headers@[c]@] by {
            lemma_merged_cells(reference, source, i, key_column@, strs(fill_columns@), hv, c);
            assert(strs(out@[i]@)[c] == out@[i]@[c]@);
            assert(hv[c] == headers@[c]@);
        }
    }
    out
}

} // verus!
