use xlsx_merge::jobs::{JobBoard, TranslateJob, TranslateJobStatus};
use xlsx_merge::request::{
    check_filter_keys, check_merge_columns, check_translate_languages, check_upload,
    download_url, filter_output_path, merge_output_path, parse_columns, parse_keys,
    reference_path, translate_paths, upload_path,
};
use xlsx_merge::translate::{TranslateProgress, TranslateResult};

fn strings(v: &[&str]) -> Vec<String> {
    v.iter().map(|x| x.to_string()).collect()
}

#[test]
fn keys_are_trimmed_nonempty_lines() {
    assert_eq!(parse_keys(" a \n\n b\r\n  \nc"), strings(&["a", "b", "c"]));
    assert_eq!(check_filter_keys(""), Err("Keys are missing".to_string()));
    assert_eq!(check_filter_keys(" \n \n"), Err("No valid keys provided".to_string()));
    assert_eq!(check_filter_keys("k1\nk2\n"), Ok(strings(&["k1", "k2"])));
}

#[test]
fn columns_are_trimmed_nonempty_pieces() {
    assert_eq!(parse_columns(""), None);
    assert_eq!(parse_columns(" | |"), None);
    assert_eq!(parse_columns(" en | | zh"), Some(strings(&["en", "zh"])));
}

#[test]
fn merge_columns_checks() {
    assert_eq!(check_merge_columns("", "a"), Err("Reference Column is missing".to_string()));
    assert_eq!(check_merge_columns("key", ""), Err("To be Filled Columns is missing".to_string()));
    assert_eq!(check_merge_columns("key", "||"), Err("To be Filled Columns is invalid".to_string()));
    assert_eq!(check_merge_columns("key", "en||id| "), Ok(strings(&["en", "id", " "])));
}

#[test]
fn upload_checks_and_paths() {
    assert_eq!(check_upload(0, &Some("a.xlsx".to_string()), "Source"), Err("Source file size is zero".to_string()));
    assert_eq!(check_upload(5, &None, "Reference"), Err("Reference file name is missing".to_string()));
    assert_eq!(check_upload(5, &Some("a.xlsx".to_string()), "Source"), Ok("a.xlsx".to_string()));
    assert_eq!(upload_path("a.xlsx"), "/tmp/xlsx_merge/upload/a.xlsx");
    assert_eq!(reference_path("r.xlsx"), "/tmp/r.xlsx");
    assert_eq!(merge_output_path("a.xlsx"), "/tmp/xlsx_merge/output/a.xlsx_merge.xlsx");
    assert_eq!(filter_output_path("a.xlsx"), "/tmp/xlsx_merge/output/a.xlsx_filtered.xlsx");
    assert_eq!(download_url("/tmp/xlsx_merge/output/a.xlsx_merge.xlsx"), "/output/a.xlsx_merge.xlsx");
    assert_eq!(download_url("plain"), "/output/plain");
    let p = translate_paths("translate-3", "b.xlsx");
    assert_eq!(p.upload, "/tmp/xlsx_merge/upload/translate-3_b.xlsx");
    assert_eq!(p.output_name, "translate-3_b.xlsx_ai_translated.xlsx");
    assert_eq!(p.output, "/tmp/xlsx_merge/output/translate-3_b.xlsx_ai_translated.xlsx");
    assert_eq!(p.download_url, "/output/translate-3_b.xlsx_ai_translated.xlsx");
}

#[test]
fn translate_language_checks() {
    assert_eq!(check_translate_languages("  ", "en"), Err("Source language is missing".to_string()));
    assert_eq!(check_translate_languages("zh", " "), Err("Target language is missing".to_string()));
    assert_eq!(
        check_translate_languages(" zh", "zh "),
        Err("Source and target languages cannot be the same".to_string())
    );
    assert_eq!(check_translate_languages(" zh ", "en"), Ok(("zh".to_string(), "en".to_string())));
}

#[test]
fn status_names() {
    assert_eq!(TranslateJobStatus::Queued.as_str(), "queued");
    assert_eq!(TranslateJobStatus::Running.as_str(), "running");
    assert_eq!(TranslateJobStatus::Completed.as_str(), "completed");
    assert_eq!(TranslateJobStatus::Failed.as_str(), "failed");
}

#[test]
fn job_board_lifecycle() {
    let mut board = JobBoard::new();
    let id = board.allocate_job_id();
    assert_eq!(id, "translate-1");
    assert_eq!(board.allocate_job_id(), "translate-2");
    assert!(board.report(&id).is_none());
    board.insert(id.clone(), TranslateJob::queued());
    let r = board.report(&id).unwrap();
    assert_eq!(r.status, "queued");
    assert_eq!(r.message, "Job queued");
    board.mark_running(&id);
    assert_eq!(board.report(&id).unwrap().message, "Starting AI translation");
    board.record_progress(&id, TranslateProgress { total: 250, processed: 200, translated: 200, skipped: 3 });
    let r = board.report(&id).unwrap();
    assert_eq!(r.status, "running");
    assert_eq!((r.total, r.processed, r.translated, r.skipped), (250, 200, 200, 3));
    assert_eq!(r.message, "Processing 200 / 250");
    board.finish(&id, Ok(TranslateResult { translated_count: 250, skipped_count: 3 }), "/output/x.xlsx");
    let r = board.report(&id).unwrap();
    assert_eq!(r.status, "completed");
    assert_eq!(r.processed, 250);
    assert_eq!(r.download_url, Some("/output/x.xlsx".to_string()));
    assert_eq!(r.message, "Translated 250 entries, skipped 3 entries");
    board.record_progress("translate-9", TranslateProgress { total: 1, processed: 1, translated: 1, skipped: 0 });
    assert!(board.report("translate-9").is_none());
}

#[test]
fn job_board_failure_keeps_counts() {
    let mut board = JobBoard::new();
    board.insert("j".to_string(), TranslateJob::queued());
    board.record_progress("j", TranslateProgress { total: 5, processed: 0, translated: 0, skipped: 1 });
    board.finish("j", Err("AI request failed: boom".to_string()), "/output/j.xlsx");
    let r = board.report("j").unwrap();
    assert_eq!(r.status, "failed");
    assert_eq!(r.message, "AI request failed: boom");
    assert_eq!((r.total, r.skipped), (5, 1));
    assert_eq!(r.download_url, None);
}
