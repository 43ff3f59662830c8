//! Filtering a keyed table by a list of keys and its headers by a list of columns,
//! and the rows written out from the result.

use vstd::prelude::*;
use crate::merge::{field_or_empty, merged_row};
use crate::table::{
    KeyedRow, KeyedTable, entries_map, entries_wf, field_of_row, lemma_table_rows_cover,
};
use crate::text::{
    contains_str, copy_strings, lemma_last_contains, lemma_push_contains, lemma_strs_push, str_eq,
    strs,
};

verus! {

/// The column of notes that a filtered sheet always keeps.
pub open spec fn note_column() -> Seq<char> {
    "备注"@
}

/// Whether a header is kept: it is the key column, the note column, or one of `cols`.
pub open spec fn keeps_header(h: Seq<char>, kc: Seq<char>, cols: Seq<Seq<char>>) -> bool {
    h == kc || h == note_column() || cols.contains(h)
}

/// The headers that are kept, in their order.
pub open spec fn kept_headers(h: Seq<Seq<char>>, kc: Seq<char>, cols: Seq<Seq<char>>) -> Seq<
    Seq<char>,
>
    decreases h.len(),
{
    if h.len() == 0 {
        h
    } else {
        let p = kept_headers(h.drop_last(), kc, cols);
        if keeps_header(h.last(), kc, cols) {
            p.push(h.last())
        } else {
            p
        }
    }
}

/// The headers of a filtered sheet: all of them without a column list, else those kept.
pub fn filter_headers(headers: &Vec<String>, key_column: &str, columns: &Option<Vec<String>>) -> (r:
    Vec<String>)
    ensures
        columns is None ==> r@ == headers@,
        columns matches Some(cols) ==> strs(r@) == kept_headers(
            strs(headers@),
            key_column@,
            strs(cols@),
        ),
        columns matches Some(cols) ==> forall|x: Seq<char>|
            #[trigger] strs(r@).contains(x) <==> (strs(headers@).contains(x) && (x == key_column@
                || x == "备注"@ || strs(cols@).contains(x))),
{
    match columns {
        None => copy_strings(headers),
        Some(cols) => {
            let mut r: Vec<String> = Vec::new();
            let n = headers.len();
            let ghost h = strs(headers@);
            for i in 0..n
                invariant
                    n == headers@.len(),
                    h == strs(headers@),
                    strs(r@) == kept_headers(h.take(i as int), key_column@, strs(cols@)),
            {
                assert(h.take(i + 1).drop_last() == h.take(i as int));
                assert(h.take(i + 1).last() == headers@[i as int]@);
                let x = headers[i].as_str();
                if str_eq(x, key_column) || str_eq(x, "备注") || contains_str(cols, x) {
                    let ghost before = r@;
                    let y = headers[i].clone();
                    r.push(y);
                    proof {
                        lemma_strs_push(before, y);
                    }
                }
            }
            assert(h.take(n as int) == h);
            proof {
                lemma_kept_headers_members(h, key_column@, strs(cols@));
            }
            r
        },
    }
}

/// Keeps the rows whose key is in `keys`, in their order.
pub fn filter_rows(data: &KeyedTable, keys: &Vec<String>) -> (r: KeyedTable)
    requires
        data.wf(),
    ensures
        r.wf(),
        r.headers@ == data.headers@,
        r.key_column@ == data.key_column@,
        r@ == data@.restrict(strs(keys@).to_set()),
{
    let ghost h = strs(data.headers@);
    let ghost kc = data.key_column@;
    let ghost ks = strs(keys@).to_set();
    let mut entries: Vec<KeyedRow> = Vec::new();
    let n = data.entries.len();
    for i in 0..n
        invariant
            n == data.entries@.len(),
            data.wf(),
            h == strs(data.headers@),
            kc == data.key_column@,
            ks == strs(keys@).to_set(),
            entries_wf(data.headers@.len(), entries@),
            forall|q: int|
                0 <= q < entries@.len() ==> exists|p: int|
                    0 <= p < i && (#[trigger] entries@[q]).key@ == data.entries@[p].key@,
            entries_map(h, kc, entries@) == entries_map(h, kc, data.entries@.take(i as int)).restrict(ks),
    {
        let e = &data.entries[i];
        let ghost pre = data.entries@.take(i as int);
        assert(data.entries@.take(i + 1).drop_last() == pre);
        assert(data.entries@.take(i + 1).last() == *e);
        let ghost f = crate::table::row_fields(h, strs(e.cells@), kc);
        if contains_str(keys, e.key.as_str()) {
            let row = KeyedRow { key: e.key.clone(), cells: copy_strings(&e.cells) };
            let ghost before = entries@;
            assert forall|q: int| 0 <= q < before.len() implies (#[trigger] before[q]).key@
                != row.key@ by {
                let p = choose|p: int| 0 <= p < i && before[q].key@ == data.entries@[p].key@;
                assert(data.entries@[p].key@ != data.entries@[i as int].key@);
            }
            entries.push(row);
            assert(entries@.drop_last() == before);
            assert forall|q: int|
                0 <= q < entries@.len() implies exists|p: int|
                    0 <= p < i + 1 && (#[trigger] entries@[q]).key@ == data.entries@[p].key@ by {
                if q < before.len() {
                    assert(entries@[q] == before[q]);
                    let p = choose|p: int| 0 <= p < i && before[q].key@ == data.entries@[p].key@;
                    assert(entries@[q].key@ == data.entries@[p].key@);
                } else {
                    assert(entries@[q].key@ == data.entries@[i as int].key@);
                }
            }
            assert(strs(keys@).contains(e.key@));
            assert(ks.contains(e.key@));
            assert(pre.push(*e).drop_last() == pre);
            assert(entries_map(h, kc, pre.push(*e)) == entries_map(h, kc, pre).insert(e.key@, f));
            assert(row.cells@ == e.cells@);
            assert(entries_map(h, kc, entries@) == entries_map(h, kc, before).insert(row.key@, f));
            assert(entries_map(h, kc, entries@) =~= entries_map(h, kc, pre.push(*e)).restrict(ks));
        } else {
            assert(!ks.contains(e.key@));
            assert(pre.push(*e).drop_last() == pre);
            assert(entries_map(h, kc, pre.push(*e)) == entries_map(h, kc, pre).insert(e.key@, f));
            assert(entries_map(h, kc, entries@) =~= entries_map(h, kc, pre.push(*e)).restrict(ks));
        }
        assert(pre.push(*e) == data.entries@.take(i + 1));
    }
    assert(data.entries@.take(n as int) == data.entries@);
    KeyedTable { headers: copy_strings(&data.headers), key_column: data.key_column.clone(), entries }
}

/// The cell under `header` of the written row for `key`: the key under the key
/// column, the row's own value elsewhere.
pub open spec fn filtered_cell(
    key: Seq<char>,
    fields: Map<Seq<char>, Seq<char>>,
    key_column: Seq<char>,
    header: Seq<char>,
) -> Seq<char> {
    if header == key_column {
        key
    } else {
        field_or_empty(fields, header)
    }
}

/// The written row of the table row at `i`.
pub open spec fn filtered_row(
    data: &KeyedTable,
    i: int,
    key_column: Seq<char>,
    headers: Seq<Seq<char>>,
) -> Seq<Seq<char>> {
    Seq::new(
        headers.len(),
        |c: int| filtered_cell(data.entries@[i].key@, data.fields_at(i), key_column, headers[c]),
    )
}

/// Law: refilling columns of a table from the table itself changes no value: each
/// merged row is the row as it is written without refilling (the key column not
/// being one of the columns to fill).
pub proof fn lemma_merge_with_itself(
    t: &KeyedTable,
    i: int,
    fill_columns: Seq<Seq<char>>,
    headers: Seq<Seq<char>>,
)
    requires
        t.wf(),
        0 <= i < t.entries@.len(),
        !fill_columns.contains(t.key_column@),
    ensures
        merged_row(t, t, i, t.key_column@, fill_columns, headers) == filtered_row(
            t,
            i,
            t.key_column@,
            headers,
        ),
{
    lemma_table_rows_cover(t);
    assert(t@.dom().contains(t.entries@[i].key@));
    assert(t@[t.entries@[i].key@] == t.fields_at(i));
    assert forall|c: int| 0 <= c < headers.len() implies merged_row(
        t,
        t,
        i,
        t.key_column@,
        fill_columns,
        headers,
    )[c] == filtered_row(t, i, t.key_column@, headers)[c] by {
        if fill_columns.contains(headers[c]) {
            assert(headers[c] != t.key_column@);
        }
    }
    assert(merged_row(t, t, i, t.key_column@, fill_columns, headers) =~= filtered_row(
        t,
        i,
        t.key_column@,
        headers,
    ));
}

/// The data rows written for a filtered table: one row per table row, one cell per header.
pub fn filtered_rows(data: &KeyedTable, headers: &Vec<String>, key_column: &str) -> (r: Vec<
    Vec<String>,
>)
    requires
        data.wf(),
    ensures
        r@.len() == data.entries@.len(),
        forall|i: int|
            0 <= i < r@.len() ==> strs(#[trigger] r@[i]@) == filtered_row(
                data,
                i,
                key_column@,
                strs(headers@),
            ),
        forall|i: int, c: int|
            0 <= i < r@.len() && 0 <= c < headers@.len() ==> {
                let h = headers@[c]@;
                let f = data.fields_at(i);
                &&& r@[i]@.len() == headers@.len()
                &&& h == key_column@ ==> (#[trigger] r@[i]@[c])@ == data.entries@[i].key@
                &&& (h != key_column@ && f.dom().contains(h)) ==> r@[i]@[c]@ == f[h]
                &&& (h != key_column@ && !f.dom().contains(h)) ==> r@[i]@[c]@.len() == 0
            },
{
    let mut out: Vec<Vec<String>> = Vec::new();
    let n = data.entries.len();
    let m = headers.len();
    let ghost hv = strs(headers@);
    for i in 0..n
        invariant
            n == data.entries@.len(),
            m == headers@.len(),
            hv == strs(headers@),
            data.wf(),
            out@.len() == i,
            forall|q: int|
                0 <= q < i ==> strs(#[trigger] out@[q]@) == filtered_row(data, q, key_column@, hv),
    {
        let entry = &data.entries[i];
        let ghost full = filtered_row(data, i as int, key_column@, hv);
        let mut row: Vec<String> = Vec::new();
        for c in 0..m
            invariant
                m == headers@.len(),
                hv == strs(headers@),
                i < data.entries@.len(),
                *entry == data.entries@[i as int],
                data.wf(),
                full == filtered_row(data, i as int, key_column@, hv),
                strs(row@) == full.take(c as int),
        {
            let header = headers[c].as_str();
            let cell = if str_eq(header, key_column) {
                entry.key.clone()
            } else {
                match field_of_row(&data.headers, &entry.cells, data.key_column.as_str(), header) {
                    Some(v) => v,
                    None => String::new(),
                }
            };
            assert(cell@ == full[c as int]);
            let ghost before = row@;
            row.push(cell);
            proof {
                lemma_strs_push(before, cell);
                assert(full.take(c + 1) == full.take(c as int).push(full[c as int]));
            }
        }
        assert(full.take(m as int) == full);
        out.push(row);
    }
    proof {
        assert forall|i: int, c: int| 0 <= i < out@.len() && 0 <= c < headers@.len() implies {
            let h = headers@[c]@;
            let f = data.fields_at(i);
            &&& out@[i]@.len() == headers@.len()
            &&& h == key_column@ ==> (#[trigger] out@[i]@[c])@ == data.entries@[i].key@
            &&& (h != key_column@ && f.dom().contains(h)) ==> out@[i]@[c]@ == f[h]
            &&& (h != key_column@ && !f.dom().contains(h)) ==> out@[i]@[c]@.len() == 0
        } by {
            assert(strs(out@[i]@).len() == hv.len());
            assert(strs(out@[i]@)[c] == out@[i]@[c]@);
            assert(hv[c] == headers@[c]@);
        }
    }
    out
}

/// The headers other than the key column `key`, in their order.
pub open spec fn non_key_headers(h: Seq<Seq<char>>) -> Seq<Seq<char>>
    decreases h.len(),
{
    if h.len() == 0 {
        h
    } else {
        let p = non_key_headers(h.drop_last());
        if h.last() != "key"@ {
            p.push(h.last())
        } else {
            p
        }
    }
}

/// The headers of a sheet without its key column `key`.
pub fn headers_without_key(headers: &Vec<String>) -> (r: Vec<String>)
    ensures
        strs(r@) == non_key_headers(strs(headers@)),
        forall|x: Seq<char>|
            #[trigger] strs(r@).contains(x) <==> (strs(headers@).contains(x) && x != "key"@),
{
    let mut r: Vec<String> = Vec::new();
    let n = headers.len();
    let ghost h = strs(headers@);
    for i in 0..n
        invariant
            n == headers@.len(),
            h == strs(headers@),
            strs(r@) == non_key_headers(h.take(i as int)),
    {
        assert(h.take(i + 1).drop_last() == h.take(i as int));
        assert(h.take(i + 1).last() == headers@[i as int]@);
        if !str_eq(headers[i].as_str(), "key") {
            let ghost before = r@;
            let y = headers[i].clone();
            r.push(y);
            proof {
                lemma_strs_push(before, y);
            }
        }
    }
    assert(h.take(n as int) == h);
    proof {
        lemma_non_key_headers_members(h);
    }
    r
}

/// Headers that are language columns: neither the key column nor the note column.
pub open spec fn language_headers(h: Seq<Seq<char>>) -> Seq<Seq<char>>
    decreases h.len(),
{
    if h.len() == 0 {
        h
    } else {
        let p = language_headers(h.drop_last());
        if h.last() != "key"@ && h.last() != note_column() {
            p.push(h.last())
        } else {
            p
        }
    }
}

/// The language columns among the headers, in their order.
pub fn language_columns(headers: &Vec<String>) -> (r: Vec<String>)
    ensures
        strs(r@) == language_headers(strs(headers@)),
        forall|x: Seq<char>|
            #[trigger] strs(r@).contains(x) <==> (strs(headers@).contains(x) && x != "key"@ && x
                != "备注"@),
{
    let mut r: Vec<String> = Vec::new();
    let n = headers.len();
    let ghost h = strs(headers@);
    for i in 0..n
        invariant
            n == headers@.len(),
            h == strs(headers@),
            strs(r@) == language_headers(h.take(i as int)),
    {
        assert(h.take(i + 1).drop_last() == h.take(i as int));
        assert(h.take(i + 1).last() == headers@[i as int]@);
        let x = headers[i].as_str();
        if !str_eq(x, "key") && !str_eq(x, "备注") {
            let ghost before = r@;
            let y = headers[i].clone();
            r.push(y);
            proof {
                lemma_strs_push(before, y);
            }
        }
    }
    assert(h.take(n as int) == h);
    proof {
        lemma_language_headers_members(h);
    }
    r
}

/// Law: with a column list, a header is kept exactly when it is a header and it is
/// the key column, the note column 备注, or any one of the listed columns.
pub proof fn lemma_kept_headers_members(h: Seq<Seq<char>>, kc: Seq<char>, cols: Seq<Seq<char>>)
    ensures
        forall|x: Seq<char>|
            #[trigger] kept_headers(h, kc, cols).contains(x) <==> (h.contains(x) && (x == kc || x
                == "备注"@ || cols.contains(x))),
    decreases h.len(),
{
    if h.len() > 0 {
        lemma_kept_headers_members(h.drop_last(), kc, cols);
        let p = kept_headers(h.drop_last(), kc, cols);
        assert forall|x: Seq<char>|
            #[trigger] kept_headers(h, kc, cols).contains(x) <==> (h.contains(x) && (x == kc || x
                == "备注"@ || cols.contains(x))) by {
            lemma_last_contains(h, x);
            lemma_push_contains(p, h.last(), x);
        }
    }
}

/// Law: the headers without the key column are exactly the headers other than `key`.
pub proof fn lemma_non_key_headers_members(h: Seq<Seq<char>>)
    ensures
        forall|x: Seq<char>|
            #[trigger] non_key_headers(h).contains(x) <==> (h.contains(x) && x != "key"@),
    decreases h.len(),
{
    if h.len() > 0 {
        lemma_non_key_headers_members(h.drop_last());
        let p = non_key_headers(h.drop_last());
        assert forall|x: Seq<char>|
            #[trigger] non_key_headers(h).contains(x) <==> (h.contains(x) && x != "key"@) by {
            lemma_last_contains(h, x);
            lemma_push_contains(p, h.last(), x);
        }
    }
}

/// Law: the language columns are exactly the headers other than `key` and 备注.
pub proof fn lemma_language_headers_members(h: Seq<Seq<char>>)
    ensures
        forall|x: Seq<char>|
            #[trigger] language_headers(h).contains(x) <==> (h.contains(x) && x != "key"@ && x
                != "备注"@),
    decreases h.len(),
{
    if h.len() > 0 {
        lemma_language_headers_members(h.drop_last());
        let p = language_headers(h.drop_last());
        assert forall|x: Seq<char>|
            #[trigger] language_headers(h).contains(x) <==> (h.contains(x) && x != "key"@ && x
                != "备注"@) by {
            lemma_last_contains(h, x);
            lemma_push_contains(p, h.last(), x);
        }
    }
}

} // verus!
