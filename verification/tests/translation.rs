use xlsx_merge::sheet::workbook_from_grid;
use xlsx_merge::translate::{check_distinct_languages, find_column, plan_translation, AiConfig};

fn row(v: &[&str]) -> Vec<String> {
    v.iter().map(|x| x.to_string()).collect()
}

#[test]
fn config_defaults() {
    assert_eq!(
        AiConfig::from_settings(None, None, None).err(),
        Some("Missing OPENAI_API_KEY environment variable".to_string())
    );
    let c = AiConfig::from_settings(Some("k".to_string()), None, None).ok().unwrap();
    assert_eq!(c.base_url, "https://api.openai.com/v1/chat/completions");
    assert_eq!(c.model, "gpt-5-chat-latest");
    let c = AiConfig::from_settings(Some("k".to_string()), Some("u".to_string()), Some("m".to_string()))
        .ok()
        .unwrap();
    assert_eq!((c.api_key.as_str(), c.base_url.as_str(), c.model.as_str()), ("k", "u", "m"));
}

#[test]
fn distinct_languages() {
    assert_eq!(
        check_distinct_languages("zh", "zh"),
        Err("Source language and target language cannot be the same".to_string())
    );
    assert_eq!(check_distinct_languages("zh", "en"), Ok(()));
}

#[test]
fn find_column_first_match() {
    assert_eq!(find_column(&row(&["a", "b", "b"]), "b"), Some(1));
    assert_eq!(find_column(&row(&["a"]), "z"), None);
}

#[test]
fn plan_reports_missing_columns() {
    let d = workbook_from_grid(&vec![row(&["n"]), row(&["key", "zh", "en"])]).unwrap();
    assert_eq!(plan_translation(d, "fr", "en").err(), Some("Source language column not found: fr".to_string()));
    let d = workbook_from_grid(&vec![row(&["n"]), row(&["key", "zh", "en"])]).unwrap();
    assert_eq!(plan_translation(d, "zh", "fr").err(), Some("Target language column not found: fr".to_string()));
}

#[test]
fn translation_run_in_chunks() {
    let mut grid = vec![row(&["note"]), row(&["key", "zh", "en"])];
    for i in 0..250 {
        grid.push(row(&[&format!("k{i}"), &format!(" 文{i} "), ""]));
    }
    grid.push(row(&["done", "有", "has"]));
    grid.push(row(&["blank", "  ", ""]));
    let d = workbook_from_grid(&grid).unwrap();
    let mut t = plan_translation(d, "zh", "en").ok().unwrap();
    assert_eq!(t.pending.len(), 250);
    assert_eq!(t.skipped, 2);
    let first = t.next_chunk();
    assert_eq!(first.len(), 200);
    assert_eq!(first[0], " 文0 ");
    let wrong = t.accept_chunk(vec!["x".to_string()]);
    assert_eq!(wrong, Err("AI output length mismatch, expected 200, got 1".to_string()));
    assert_eq!(t.next, 0);
    let answers: Vec<String> = first.iter().map(|s| format!("T{}", s.trim())).collect();
    assert_eq!(t.accept_chunk(answers), Ok(()));
    let p = t.progress();
    assert_eq!((p.total, p.processed, p.translated, p.skipped), (250, 200, 200, 2));
    let second = t.next_chunk();
    assert_eq!(second.len(), 50);
    let answers: Vec<String> = second.iter().map(|s| format!("T{}", s.trim())).collect();
    assert_eq!(t.accept_chunk(answers), Ok(()));
    assert!(t.is_finished());
    let r = t.result();
    assert_eq!((r.translated_count, r.skipped_count), (250, 2));
    assert_eq!(t.data.rows[0], row(&["k0", " 文0 ", "T文0"]));
    assert_eq!(t.data.rows[249][2], "T文249");
    assert_eq!(t.data.rows[250], row(&["done", "有", "has"]));
    assert_eq!(t.data.rows[251], row(&["blank", "  ", ""]));
}
