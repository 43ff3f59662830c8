use xlsx_merge::filter::{filter_headers, filter_rows, filtered_rows, language_columns};
use xlsx_merge::merge::merge_rows;
use xlsx_merge::sheet::{header_row_of, workbook_from_grid, written_rows};
use xlsx_merge::table::keyed_table_from_grid;

fn row(v: &[&str]) -> Vec<String> {
    v.iter().map(|x| x.to_string()).collect()
}

fn grid(rows: &[&[&str]]) -> Vec<Vec<String>> {
    rows.iter().map(|r| row(r)).collect()
}

#[test]
fn workbook_from_grid_fits_rows() {
    let g = grid(&[&["note"], &["key", "zh", "en"], &["k1", "你好"], &["k2", "a", "b", "extra"]]);
    let d = workbook_from_grid(&g).unwrap();
    assert_eq!(d.headers, row(&["key", "zh", "en"]));
    assert_eq!(d.rows, vec![row(&["k1", "你好", ""]), row(&["k2", "a", "b"])]);
}

#[test]
fn workbook_from_grid_needs_headers() {
    assert_eq!(workbook_from_grid(&grid(&[&["note"]])).err(), Some("No headers found in row 2".to_string()));
    assert_eq!(workbook_from_grid(&grid(&[&["note"], &[]])).err(), Some("No headers found in row 2".to_string()));
}

#[test]
fn header_row_is_second_row() {
    assert_eq!(header_row_of(&grid(&[&["n"], &["key", "en"]])), Some(row(&["key", "en"])));
    assert_eq!(header_row_of(&grid(&[&["n"]])), None);
}

#[test]
fn keyed_table_last_row_wins_and_empty_keys_skipped() {
    let g = grid(&[
        &["note", "", ""],
        &["key", "zh", "en"],
        &["a", "一", "one"],
        &["", "空", "empty"],
        &["a", "壹", "ONE"],
        &["b", "二", "two"],
    ]);
    let t = keyed_table_from_grid(&g, "key");
    assert_eq!(t.entries.len(), 2);
    assert_eq!(t.field("a", "en"), Some("ONE".to_string()));
    assert_eq!(t.field("a", "zh"), Some("壹".to_string()));
    assert_eq!(t.field("b", "en"), Some("two".to_string()));
    assert_eq!(t.field("a", "key"), None);
    assert_eq!(t.field("c", "en"), None);
}

#[test]
fn keyed_table_of_short_grid_is_empty() {
    let t = keyed_table_from_grid(&grid(&[&["only note"]]), "key");
    assert!(t.entries.is_empty());
    assert!(t.headers.is_empty());
}

#[test]
fn merge_fills_from_reference() {
    let source = keyed_table_from_grid(
        &grid(&[&["n", "", ""], &["key", "zh", "id"], &["k1", "你好", "old"], &["k2", "再见", "keep?"]]),
        "key",
    );
    let reference = keyed_table_from_grid(
        &grid(&[&["n", ""], &["key", "id"], &["k1", "Halo"]]),
        "key",
    );
    let headers = row(&["key", "zh", "id"]);
    let rows = merge_rows(&reference, &source, "key", &row(&["id"]), &headers);
    assert_eq!(rows, vec![row(&["k1", "你好", "Halo"]), row(&["k2", "再见", ""])]);
}

#[test]
fn filter_keeps_listed_keys_and_columns() {
    let data = keyed_table_from_grid(
        &grid(&[
            &["n", "", "", ""],
            &["key", "备注", "zh", "en"],
            &["k1", "r1", "一", "one"],
            &["k2", "r2", "二", "two"],
            &["k3", "r3", "三", "three"],
        ]),
        "key",
    );
    let kept = filter_rows(&data, &row(&["k3", "k1", "zz"]));
    assert_eq!(kept.entries.len(), 2);
    assert_eq!(kept.field("k1", "en"), Some("one".to_string()));
    assert_eq!(kept.field("k2", "en"), None);
    let headers = filter_headers(&data.headers, "key", &Some(row(&["en"])));
    assert_eq!(headers, row(&["key", "备注", "en"]));
    assert_eq!(filter_headers(&data.headers, "key", &None), data.headers);
    let rows = filtered_rows(&kept, &headers, "key");
    assert_eq!(rows, vec![row(&["k1", "r1", "one"]), row(&["k3", "r3", "three"])]);
}

#[test]
fn language_columns_drop_key_and_note() {
    assert_eq!(language_columns(&row(&["key", "备注", "zh", "en"])), row(&["zh", "en"]));
}

#[test]
fn written_rows_cut_to_headers() {
    let headers = row(&["a", "b"]);
    let rows = vec![row(&["1", "2", "3"]), row(&["x"])];
    assert_eq!(written_rows(&headers, &rows), Ok(vec![row(&["1", "2"]), row(&["x"])]));
    assert_eq!(
        written_rows(&vec![], &rows),
        Err("Cannot write workbook with empty headers".to_string())
    );
}
