use xlsx_merge::reply::strip_code_fence;
use xlsx_merge::request::{parse_columns, parse_keys};
use xlsx_merge::text::is_whitespace_char;

/// The same steps written with std's string methods.
fn std_strip_code_fence(content: &str) -> String {
    let trimmed = content.trim();
    if !trimmed.starts_with("```") {
        return trimmed.to_string();
    }
    let mut lines = trimmed.lines();
    let _ = lines.next();
    let mut inner: Vec<&str> = lines.collect();
    if inner.last().map(|l| l.trim_start().starts_with("```")).unwrap_or(false) {
        inner.pop();
    }
    inner.join("\n")
}

const SAMPLES: &[&str] = &[
    "",
    "```",
    "``",
    "```json",
    "```json\n[\"a\"]\n```",
    "  ```\n  a  \n\n b\r\n  ```  ",
    "```\na\r\nb\r\n```\r\n",
    "```\n\n\n```",
    "```\nx\n```rest",
    "```\nx\n ``",
    "\u{2003}```\n内容\n```\u{3000}",
    "no fence\nat all",
    "a\r",
    "```\na\r",
    "\n\n```\n```\n```\n",
];

#[test]
fn whitespace_matches_std() {
    for u in 0u32..=0x10FFFF {
        if let Some(c) = char::from_u32(u) {
            assert_eq!(is_whitespace_char(c), c.is_whitespace(), "char {:#x}", u);
        }
    }
}

#[test]
fn strip_code_fence_matches_std() {
    for s in SAMPLES {
        assert_eq!(strip_code_fence(s), std_strip_code_fence(s), "input {:?}", s);
    }
}

#[test]
fn parse_keys_matches_std() {
    for s in SAMPLES {
        let expected: Vec<String> = s
            .lines()
            .map(|x| x.trim().to_string())
            .filter(|x| !x.is_empty())
            .collect();
        assert_eq!(parse_keys(s), expected, "input {:?}", s);
    }
}

#[test]
fn parse_columns_matches_std() {
    for s in &["", "a|b", " | a ||b |", "|", "x\u{3000}|\u{3000}"] {
        let expected: Option<Vec<String>> = if s.is_empty() {
            None
        } else {
            let cols: Vec<String> = s
                .split('|')
                .map(|x| x.trim().to_string())
                .filter(|x| !x.is_empty())
                .collect();
            if cols.is_empty() {
                None
            } else {
                Some(cols)
            }
        };
        assert_eq!(parse_columns(s), expected, "input {:?}", s);
    }
}
