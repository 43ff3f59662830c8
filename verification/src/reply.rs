//! Handling of a language model's reply: unwrapping a fenced code block and
//! decoding the JSON array of translations it carries.

use vstd::prelude::*;
use crate::number::{decimal, decimal_string};
use crate::text::{
    chars_of, chars_start_with, join, join_chars, lemma_lines_nonempty, lines, lines_chars,
    slice_chars, starts_with, string_of, strs, trim, trim_bounds, trim_start, trim_start_chars, views,
};

verus! {

/// The three back-ticks that open and close a fenced code block.
pub open spec fn fence_mark() -> Seq<char> {
    seq!['`', '`', '`']
}

/// What `strip_code_fence` makes of `content`: the trimmed text; when that opens
/// with a code fence, its lines after the first, without a last line that (after
/// leading white space) opens with a fence, joined with line feeds.
pub open spec fn code_fence_inner(content: Seq<char>) -> Seq<char> {
    let t = trim(content);
    if !starts_with(t, fence_mark()) {
        t
    } else {
        let body = lines(t).drop_first();
        let kept = if body.len() > 0 && starts_with(trim_start(body.last()), fence_mark()) {
            body.drop_last()
        } else {
            body
        };
        join(kept, seq!['\n'])
    }
}

/// Removes a surrounding Markdown code fence (and the surrounding white space) from a reply.
pub fn strip_code_fence(content: &str) -> (r: String)
    ensures
        r@ == code_fence_inner(content@),
{
    let v = chars_of(content);
    let (a, b) = trim_bounds(&v);
    let t = slice_chars(&v, a, b);
    let mark: Vec<char> = vec!['`', '`', '`'];
    assert(mark@ == fence_mark());
    if !chars_start_with(&t, &mark) {
        return string_of(t.as_slice());
    }
    let mut body = lines_chars(&t);
    proof {
        lemma_lines_nonempty(t@);
    }
    let ghost all = views(body@);
    body.remove(0);
    assert(views(body@) == all.drop_first());
    let n = body.len();
    if n > 0 {
        let last_trimmed = trim_start_chars(&body[n - 1]);
        assert(views(body@).last() == body@[n - 1]@);
        if chars_start_with(&last_trimmed, &mark) {
            let ghost before = views(body@);
            body.pop();
            assert(views(body@) == before.drop_last());
        }
    }
    let nl: Vec<char> = vec!['\n'];
    assert(nl@ == seq!['\n']);
    let joined = join_chars(&body, &nl);
    string_of(joined.as_slice())
}


/// The outside error type of the JSON codec.
#[verifier::external_type_specification]
#[verifier::external_body]
pub struct ExJsonError(serde_json::Error);

/// What the JSON codec makes of a text read as an array of strings: the strings, or
/// the message of its error.
pub uninterp spec fn json_string_array(text: Seq<char>) -> Result<Seq<Seq<char>>, Seq<char>>;

/// A lower-case hexadecimal digit for `d < 16`.
pub open spec fn hex_digit(d: int) -> char {
    if d < 10 {
        ('0' as int + d) as char
    } else {
        ('a' as int + d - 10) as char
    }
}

/// How the JSON codec writes one character inside a string: quote and backslash
/// escaped, the control characters below U+0020 by their short escape or as
/// `\u00XX`, every other character as it is.
pub open spec fn json_char(c: char) -> Seq<char> {
    let u = c as u32;
    if c == '"' {
        seq!['\\', '"']
    } else if c == '\\' {
        seq!['\\', '\\']
    } else if u == 0x08 {
        seq!['\\', 'b']
    } else if u == 0x09 {
        seq!['\\', 't']
    } else if u == 0x0A {
        seq!['\\', 'n']
    } else if u == 0x0C {
        seq!['\\', 'f']
    } else if u == 0x0D {
        seq!['\\', 'r']
    } else if u < 0x20 {
        seq!['\\', 'u', '0', '0', hex_digit(u as int / 16), hex_digit(u as int % 16)]
    } else {
        seq![c]
    }
}

/// The characters of `s`, each written as inside a JSON string.
pub open spec fn json_escaped(s: Seq<char>) -> Seq<char>
    decreases s.len(),
{
    if s.len() == 0 {
        Seq::<char>::empty()
    } else {
        json_escaped(s.drop_last()) + json_char(s.last())
    }
}

/// A JSON string literal for `s`.
pub open spec fn json_string(s: Seq<char>) -> Seq<char> {
    seq!['"'] + json_escaped(s) + seq!['"']
}

/// Each item as a JSON string literal.
pub open spec fn json_strings(items: Seq<Seq<char>>) -> Seq<Seq<char>> {
    items.map_values(|x: Seq<char>| json_string(x))
}

/// The compact JSON text of an array of strings: `[`, the string literals joined
/// with `,`, then `]`.
pub open spec fn json_array_text(items: Seq<Seq<char>>) -> Seq<char> {
    seq!['['] + join(json_strings(items), seq![',']) + seq![']']
}

/// Decodes a JSON array of strings with `serde_json::from_str::<Vec<String>>`, the
/// error turned into its message. The outcome is named by `json_string_array`: it
/// depends on the text alone; which texts decode, and what the messages say, is not
/// restated here.
#[verifier::external_body]
fn decode_string_array(text: &str) -> (r: Result<Vec<String>, String>)
    ensures
        match r {
            Ok(v) => json_string_array(text@) == Ok::<Seq<Seq<char>>, Seq<char>>(strs(v@)),
            Err(m) => json_string_array(text@) == Err::<Seq<Seq<char>>, Seq<char>>(m@),
        },
{
    serde_json::from_str::<Vec<String>>(text).map_err(|e| e.to_string())
}

/// Encodes strings as a compact JSON array with `serde_json::to_string`. Strings
/// serialise without failing (the codec fails only in a failing `Serialize` impl or
/// on a map with non-string keys), and the text is `json_array_text` of them.
#[verifier::external_body]
fn encode_string_array(items: &Vec<String>) -> (r: Result<String, serde_json::Error>)
    ensures
        r is Ok,
        r matches Ok(t) ==> t@ == json_array_text(strs(items@)),
{
    serde_json::to_string(items)
}

/// The error for a reply whose array has the wrong number of items.
pub open spec fn count_mismatch_message(expected: nat, got: nat) -> Seq<char> {
    "Translated item count mismatch, expected "@ + decimal(expected) + ", got "@ + decimal(got)
}

/// Accepts decoded translations only when there are exactly `expected_len` of them.
pub fn check_translated_count(translated: Vec<String>, expected_len: usize) -> (r: Result<
    Vec<String>,
    String,
>)
    ensures
        translated@.len() == expected_len ==> r == Ok::<Vec<String>, String>(translated),
        translated@.len() != expected_len ==> (r matches Err(m) && m@ == count_mismatch_message(
            expected_len as nat,
            translated@.len(),
        )),
{
    if translated.len() != expected_len {
        let mut m = String::from_str("Translated item count mismatch, expected ");
        m.append(decimal_string(expected_len).as_str());
        m.append(", got ");
        m.append(decimal_string(translated.len()).as_str());
        return Err(m);
    }
    Ok(translated)
}

/// The text that is decoded from a reply: its fenced content, trimmed.
pub open spec fn reply_payload(raw: Seq<char>) -> Seq<char> {
    trim(code_fence_inner(raw))
}

/// Decodes the JSON array of translations in a reply and checks that it holds
/// `expected_len` items.
pub fn parse_translated_array(raw_content: &str, expected_len: usize) -> (r: Result<
    Vec<String>,
    String,
>)
    ensures
        json_string_array(reply_payload(raw_content@)) matches Err(e) ==> (r matches Err(m) && m@
            == "Failed to parse translated output as JSON array: "@ + e + "; output: "@
            + raw_content@),
        json_string_array(reply_payload(raw_content@)) matches Ok(d) ==> {
            &&& d.len() == expected_len ==> (r matches Ok(v) && strs(v@) == d)
            &&& d.len() != expected_len ==> (r matches Err(m) && m@ == count_mismatch_message(
                expected_len as nat,
                d.len(),
            ))
        },
{
    let cleaned = strip_code_fence(raw_content);
    let cv = chars_of(cleaned.as_str());
    let (a, b) = trim_bounds(&cv);
    let payload = string_of(slice_chars(&cv, a, b).as_slice());
    match decode_string_array(payload.as_str()) {
        Ok(v) => check_translated_count(v, expected_len),
        Err(e) => {
            let mut m = String::from_str("Failed to parse translated output as JSON array: ");
            m.append(e.as_str());
            m.append("; output: ");
            m.append(raw_content);
            Err(m)
        },
    }
}


/// The system prompt that asks to render texts in `source` as `target`.
pub open spec fn system_prompt(source: Seq<char>, target: Seq<char>) -> Seq<char> {
    "请将之后发送的"@ + source + "翻译为"@ + target + ", 不要输出多余内容. 不需要翻译 `{}` 内部的内容"@
}

/// The user prompt that carries the JSON array `payload` of texts to translate.
pub open spec fn user_prompt(payload: Seq<char>) -> Seq<char> {
    "请翻译发送内容的 JSON 数组内容，并遵守：\n1. 只输出 JSON 数组\n2. 输出元素数量与输入一致\n3. 保持顺序一致\n\n```json\n"@
        + payload + "\n```"@
}

/// The system and user prompts of one translation request.
pub fn chat_prompts(source_lang: &str, target_lang: &str, source_texts: &Vec<String>) -> (r:
    Result<(String, String), String>)
    ensures
        r matches Ok(p) && p.0@ == system_prompt(source_lang@, target_lang@) && p.1@
            == user_prompt(json_array_text(strs(source_texts@))),
{
    let mut system = String::from_str("请将之后发送的");
    system.append(source_lang);
    system.append("翻译为");
    system.append(target_lang);
    system.append(", 不要输出多余内容. 不需要翻译 `{}` 内部的内容");
    match encode_string_array(source_texts) {
        Ok(payload) => {
            let mut user = String::from_str(
                "请翻译发送内容的 JSON 数组内容，并遵守：\n1. 只输出 JSON 数组\n2. 输出元素数量与输入一致\n3. 保持顺序一致\n\n```json\n",
            );
            user.append(payload.as_str());
            user.append("\n```");
            Ok((system, user))
        },
        Err(_) => Err(String::from_str("Failed to serialize source texts")),
    }
}

/// The error for a reply whose HTTP status is not a success.
pub open spec fn status_message(status: nat, body: Seq<char>) -> Seq<char> {
    "AI request returned non-success status "@ + decimal(status) + ": "@ + body
}

/// Accepts a reply with a success status (200 to 299).
pub fn check_reply_status(status: u16, body: &str) -> (r: Result<(), String>)
    ensures
        200 <= status <= 299 ==> r is Ok,
        !(200 <= status <= 299) ==> (r matches Err(m) && m@ == status_message(
            status as nat,
            body@,
        )),
{
    if 200 <= status && status <= 299 {
        Ok(())
    } else {
        let mut m = String::from_str("AI request returned non-success status ");
        m.append(decimal_string(status as usize).as_str());
        m.append(": ");
        m.append(body);
        Err(m)
    }
}

/// The content of the first choice of a reply, trimmed.
pub fn first_choice_content(contents: &Vec<String>) -> (r: Result<String, String>)
    ensures
        contents@.len() == 0 ==> (r matches Err(m) && m@ == "AI response choices are empty"@),
        contents@.len() > 0 ==> (r matches Ok(c) && c@ == trim(contents@[0]@)),
{
    if contents.len() == 0 {
        return Err(String::from_str("AI response choices are empty"));
    }
    let v = chars_of(contents[0].as_str());
    let (a, b) = trim_bounds(&v);
    Ok(string_of(slice_chars(&v, a, b).as_slice()))
}

} // verus!
