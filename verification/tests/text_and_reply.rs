use xlsx_merge::number::decimal_string;
use xlsx_merge::reply::{
    chat_prompts, check_reply_status, check_translated_count, first_choice_content,
    parse_translated_array, strip_code_fence,
};

fn s(v: &str) -> String {
    v.to_string()
}

#[test]
fn strip_code_fence_removes_json_fence() {
    assert_eq!(strip_code_fence("```json\n[\"a\", \"b\"]\n```"), "[\"a\", \"b\"]");
}

#[test]
fn strip_code_fence_trims_plain_text() {
    assert_eq!(strip_code_fence("  \n [1, 2] \t\n"), "[1, 2]");
}

#[test]
fn strip_code_fence_without_closing_fence_keeps_body() {
    assert_eq!(strip_code_fence("```\nline one\nline two"), "line one\nline two");
}

#[test]
fn strip_code_fence_handles_crlf_and_indented_closing() {
    assert_eq!(strip_code_fence("```json\r\n[\"x\"]\r\n   ```"), "[\"x\"]");
}

#[test]
fn strip_code_fence_only_fence_is_empty() {
    assert_eq!(strip_code_fence("```"), "");
    assert_eq!(strip_code_fence("   "), "");
}

#[test]
fn strip_code_fence_unicode_whitespace() {
    assert_eq!(strip_code_fence("\u{3000}你好\u{00A0}"), "你好");
}

#[test]
fn parse_translated_array_accepts_fenced_array() {
    let r = parse_translated_array("```json\n[\"Halo\", \"Dunia\"]\n```", 2);
    assert_eq!(r, Ok(vec![s("Halo"), s("Dunia")]));
}

#[test]
fn parse_translated_array_count_mismatch() {
    let r = parse_translated_array("[\"Halo\"]", 3);
    assert_eq!(r, Err(s("Translated item count mismatch, expected 3, got 1")));
}

#[test]
fn parse_translated_array_rejects_non_json() {
    let r = parse_translated_array("not json", 1);
    let m = r.unwrap_err();
    assert!(m.starts_with("Failed to parse translated output as JSON array: "));
    assert!(m.ends_with("; output: not json"));
}

#[test]
fn check_translated_count_exact() {
    assert_eq!(check_translated_count(vec![s("a")], 1), Ok(vec![s("a")]));
    assert_eq!(
        check_translated_count(vec![], 12),
        Err(s("Translated item count mismatch, expected 12, got 0"))
    );
}

#[test]
fn chat_prompts_match_templates() {
    let (system, user) = chat_prompts("中文", "English", &vec![s("你好"), s("a\"b")]).unwrap();
    assert_eq!(system, "请将之后发送的中文翻译为English, 不要输出多余内容. 不需要翻译 `{}` 内部的内容");
    assert_eq!(
        user,
        "请翻译发送内容的 JSON 数组内容，并遵守：\n1. 只输出 JSON 数组\n2. 输出元素数量与输入一致\n3. 保持顺序一致\n\n```json\n[\"你好\",\"a\\\"b\"]\n```"
    );
}

#[test]
fn reply_status_success_range() {
    assert_eq!(check_reply_status(200, "ok"), Ok(()));
    assert_eq!(check_reply_status(299, "ok"), Ok(()));
    assert_eq!(
        check_reply_status(404, "missing"),
        Err(s("AI request returned non-success status 404: missing"))
    );
    assert_eq!(
        check_reply_status(199, ""),
        Err(s("AI request returned non-success status 199: "))
    );
}

#[test]
fn first_choice_content_trims() {
    assert_eq!(first_choice_content(&vec![s("  hi \n"), s("x")]), Ok(s("hi")));
    assert_eq!(first_choice_content(&vec![]), Err(s("AI response choices are empty")));
}

#[test]
fn decimal_rendering() {
    assert_eq!(decimal_string(0), "0");
    assert_eq!(decimal_string(7), "7");
    assert_eq!(decimal_string(10), "10");
    assert_eq!(decimal_string(1234567), "1234567");
    assert_eq!(decimal_string(usize::MAX), usize::MAX.to_string());
}
