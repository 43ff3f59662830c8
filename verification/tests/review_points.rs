use xlsx_merge::filter::{filtered_rows, headers_without_key};
use xlsx_merge::jobs::{JobBoard, TranslateJob};
use xlsx_merge::translate::{TranslateProgress, TranslateResult};
use xlsx_merge::merge::merge_rows;
use xlsx_merge::reply::{chat_prompts, parse_translated_array};
use xlsx_merge::sheet::{workbook_from_grid, written_rows};
use xlsx_merge::table::keyed_table_from_grid;

fn row(v: &[&str]) -> Vec<String> {
    v.iter().map(|x| x.to_string()).collect()
}

#[test]
fn headers_exclude_key_column() {
    assert_eq!(headers_without_key(&row(&["key", "备注", "zh", "key", "en"])), row(&["备注", "zh", "en"]));
    assert_eq!(headers_without_key(&row(&[])), row(&[]));
}

#[test]
fn prompts_escape_like_the_codec() {
    let texts = row(&["a\u{1}b\t\\\"é", "\u{1f}\u{7f}/", ""]);
    let (_, user) = chat_prompts("zh", "en", &texts).unwrap();
    let payload = serde_json::to_string(&texts).unwrap();
    assert_eq!(payload, "[\"a\\u0001b\\t\\\\\\\"é\",\"\\u001f\u{7f}/\",\"\"]");
    assert!(user.ends_with(&format!("```json\n{}\n```", payload)));
    let (_, empty) = chat_prompts("zh", "en", &vec![]).unwrap();
    assert!(empty.ends_with("```json\n[]\n```"));
}

#[test]
fn decode_error_text_is_the_codec_message() {
    let e = serde_json::from_str::<Vec<String>>("[1]").unwrap_err().to_string();
    assert_eq!(
        parse_translated_array("[1]", 1),
        Err(format!("Failed to parse translated output as JSON array: {e}; output: [1]"))
    );
}

#[test]
fn merging_a_sheet_with_itself_changes_nothing() {
    let g = vec![
        row(&["n", "", ""]),
        row(&["key", "zh", "en"]),
        row(&["a", "一", "one"]),
        row(&["b", "二", ""]),
        row(&["a", "壹", "ONE"]),
    ];
    let t = keyed_table_from_grid(&g, "key");
    let headers = row(&["key", "zh", "en"]);
    let merged = merge_rows(&t, &t, "key", &row(&["en", "zh"]), &headers);
    assert_eq!(merged, filtered_rows(&t, &headers, "key"));
    assert_eq!(merged, vec![row(&["a", "壹", "ONE"]), row(&["b", "二", ""])]);
}

#[test]
fn written_sheet_reads_back() {
    let headers = row(&["key", "zh"]);
    let rows = vec![row(&["k1", "一"]), row(&["k2", ""])];
    let mut grid = vec![row(&["note"]), headers.clone()];
    grid.extend(written_rows(&headers, &rows).unwrap());
    let d = workbook_from_grid(&grid).unwrap();
    assert_eq!(d.headers, headers);
    assert_eq!(d.rows, rows);
}

#[test]
fn job_ids_never_repeat() {
    let mut board = JobBoard::new();
    let mut seen = std::collections::HashSet::new();
    for _ in 0..150 {
        assert!(seen.insert(board.allocate_job_id()));
    }
}

#[test]
fn empty_chunk_is_not_sent() {
    assert_eq!(xlsx_merge::translate::answer_without_request(&vec![]), Some(vec![]));
    assert_eq!(xlsx_merge::translate::answer_without_request(&row(&["a"])), None);
}

#[test]
fn ended_jobs_are_left_as_they_are() {
    let mut board = JobBoard::new();
    let id = board.allocate_job_id();
    board.insert(id.clone(), TranslateJob::queued());
    board.mark_running(&id);
    board.finish(&id, Ok(TranslateResult { translated_count: 2, skipped_count: 1 }), "/output/a.xlsx");
    board.record_progress(&id, TranslateProgress { total: 9, processed: 1, translated: 1, skipped: 0 });
    board.mark_running(&id);
    board.finish(&id, Err("late".to_string()), "/output/b.xlsx");
    let r = board.report(&id).unwrap();
    assert_eq!(r.status, "completed");
    assert_eq!(r.message, "Translated 2 entries, skipped 1 entries");
    assert_eq!(r.download_url, Some("/output/a.xlsx".to_string()));
}
