//! The checks and parsing that the web handlers apply to submitted forms, and the
//! paths and download links they derive from uploaded file names.

use vstd::prelude::*;
use crate::text::{
    chars_of, lemma_last_contains, lemma_push_contains, lemma_split_on_nonempty, lemma_strs_push,
    lines, lines_chars, slice_chars,
    split_chars, split_on, string_of, strs, trim, trim_bounds, views,
};

verus! {

/// The non-empty trimmed pieces, in order.
pub open spec fn trimmed_nonempty(p: Seq<Seq<char>>) -> Seq<Seq<char>>
    decreases p.len(),
{
    if p.len() == 0 {
        Seq::<Seq<char>>::empty()
    } else {
        let r = trimmed_nonempty(p.drop_last());
        if trim(p.last()).len() > 0 {
            r.push(trim(p.last()))
        } else {
            r
        }
    }
}

/// The non-empty pieces, in order.
pub open spec fn nonempty_pieces(p: Seq<Seq<char>>) -> Seq<Seq<char>>
    decreases p.len(),
{
    if p.len() == 0 {
        Seq::<Seq<char>>::empty()
    } else {
        let r = nonempty_pieces(p.drop_last());
        if p.last().len() > 0 {
            r.push(p.last())
        } else {
            r
        }
    }
}

/// Law: the trimmed pieces kept are exactly the non-empty trims of the pieces.
pub proof fn lemma_trimmed_nonempty_members(p: Seq<Seq<char>>)
    ensures
        forall|x: Seq<char>|
            #[trigger] trimmed_nonempty(p).contains(x) <==> (x.len() > 0 && exists|i: int|
                0 <= i < p.len() && trim(p[i]) == x),
    decreases p.len(),
{
    if p.len() > 0 {
        let pre = p.drop_last();
        lemma_trimmed_nonempty_members(pre);
        assert forall|x: Seq<char>|
            #[trigger] trimmed_nonempty(p).contains(x) <==> (x.len() > 0 && exists|i: int|
                0 <= i < p.len() && trim(p[i]) == x) by {
            lemma_push_contains(trimmed_nonempty(pre), trim(p.last()), x);
            if exists|i: int| 0 <= i < p.len() && trim(p[i]) == x {
                let i = choose|i: int| 0 <= i < p.len() && trim(p[i]) == x;
                if i < pre.len() {
                    assert(pre[i] == p[i]);
                }
            }
            if exists|i: int| 0 <= i < pre.len() && trim(pre[i]) == x {
                let i = choose|i: int| 0 <= i < pre.len() && trim(pre[i]) == x;
                assert(pre[i] == p[i]);
            }
        }
    }
}

/// Law: the pieces kept are exactly the non-empty pieces.
pub proof fn lemma_nonempty_pieces_members(p: Seq<Seq<char>>)
    ensures
        forall|x: Seq<char>|
            #[trigger] nonempty_pieces(p).contains(x) <==> (x.len() > 0 && p.contains(x)),
    decreases p.len(),
{
    if p.len() > 0 {
        lemma_nonempty_pieces_members(p.drop_last());
        assert forall|x: Seq<char>|
            #[trigger] nonempty_pieces(p).contains(x) <==> (x.len() > 0 && p.contains(x)) by {
            lemma_last_contains(p, x);
            lemma_push_contains(nonempty_pieces(p.drop_last()), p.last(), x);
        }
    }
}

fn collect_pieces(pieces: &Vec<Vec<char>>, trimmed: bool) -> (r: Vec<String>)
    ensures
        trimmed ==> strs(r@) == trimmed_nonempty(views(pieces@)),
        !trimmed ==> strs(r@) == nonempty_pieces(views(pieces@)),
{
    let mut r: Vec<String> = Vec::new();
    let n = pieces.len();
    let ghost pv = views(pieces@);
    for i in 0..n
        invariant
            n == pieces@.len(),
            pv == views(pieces@),
            trimmed ==> strs(r@) == trimmed_nonempty(pv.take(i as int)),
            !trimmed ==> strs(r@) == nonempty_pieces(pv.take(i as int)),
    {
        assert(pv.take(i + 1).drop_last() == pv.take(i as int));
        assert(pv.take(i + 1).last() == pieces@[i as int]@);
        let piece = &pieces[i];
        let (a, b) = if trimmed {
            trim_bounds(piece)
        } else {
            (0, piece.len())
        };
        assert(!trimmed ==> piece@.subrange(a as int, b as int) == piece@);
        if a < b {
            let s = string_of(slice_chars(piece, a, b).as_slice());
            let ghost before = r@;
            r.push(s);
            proof {
                lemma_strs_push(before, s);
            }
        }
    }
    assert(pv.take(n as int) == pv);
    r
}

/// The keys of a filter form: its lines, trimmed, without the empty ones.
pub fn parse_keys(text: &str) -> (r: Vec<String>)
    ensures
        strs(r@) == trimmed_nonempty(lines(text@)),
{
    let v = chars_of(text);
    let ls = lines_chars(&v);
    collect_pieces(&ls, true)
}

/// The columns of a filter form: its `|`-separated pieces, trimmed, without the empty
/// ones; none for an empty field or when no piece is left.
pub fn parse_columns(text: &str) -> (r: Option<Vec<String>>)
    ensures
        ({
            let c = trimmed_nonempty(split_on(text@, '|'));
            &&& (text@.len() == 0 || c.len() == 0) ==> r is None
            &&& (text@.len() > 0 && c.len() > 0) ==> (r matches Some(v) && strs(v@) == c)
        }),
{
    if text.is_empty() {
        return None;
    }
    let v = chars_of(text);
    let ps = split_chars(&v, '|');
    let cols = collect_pieces(&ps, true);
    if cols.len() == 0 {
        None
    } else {
        Some(cols)
    }
}

/// The columns to fill of a merge form: its `|`-separated pieces without the empty ones.
pub fn parse_fill_columns(text: &str) -> (r: Vec<String>)
    ensures
        strs(r@) == nonempty_pieces(split_on(text@, '|')),
{
    let v = chars_of(text);
    let ps = split_chars(&v, '|');
    collect_pieces(&ps, false)
}

/// Checks the column fields of a merge form and yields the columns to fill.
pub fn check_merge_columns(ref_column: &str, fill_columns: &str) -> (r: Result<Vec<String>, String>)
    ensures
        ref_column@.len() == 0 ==> (r matches Err(m) && m@ == "Reference Column is missing"@),
        ref_column@.len() > 0 && fill_columns@.len() == 0 ==> (r matches Err(m) && m@
            == "To be Filled Columns is missing"@),
        ref_column@.len() > 0 && fill_columns@.len() > 0 && nonempty_pieces(
            split_on(fill_columns@, '|'),
        ).len() == 0 ==> (r matches Err(m) && m@ == "To be Filled Columns is invalid"@),
        ref_column@.len() > 0 && fill_columns@.len() > 0 && nonempty_pieces(
            split_on(fill_columns@, '|'),
        ).len() > 0 ==> (r matches Ok(c) && strs(c@) == nonempty_pieces(
            split_on(fill_columns@, '|'),
        )),
{
    if ref_column.is_empty() {
        return Err(String::from_str("Reference Column is missing"));
    }
    if fill_columns.is_empty() {
        return Err(String::from_str("To be Filled Columns is missing"));
    }
    let cols = parse_fill_columns(fill_columns);
    if cols.len() == 0 {
        return Err(String::from_str("To be Filled Columns is invalid"));
    }
    Ok(cols)
}

/// Checks the key field of a filter form and yields its keys.
pub fn check_filter_keys(text: &str) -> (r: Result<Vec<String>, String>)
    ensures
        text@.len() == 0 ==> (r matches Err(m) && m@ == "Keys are missing"@),
        text@.len() > 0 && trimmed_nonempty(lines(text@)).len() == 0 ==> (r matches Err(m) && m@
            == "No valid keys provided"@),
        text@.len() > 0 && trimmed_nonempty(lines(text@)).len() > 0 ==> (r matches Ok(k) && strs(
            k@,
        ) == trimmed_nonempty(lines(text@))),
{
    if text.is_empty() {
        return Err(String::from_str("Keys are missing"));
    }
    let keys = parse_keys(text);
    if keys.len() == 0 {
        return Err(String::from_str("No valid keys provided"));
    }
    Ok(keys)
}

/// Checks an uploaded file: it must have content and a name. Yields the name.
pub fn check_upload(size: usize, file_name: &Option<String>, label: &str) -> (r: Result<
    String,
    String,
>)
    ensures
        size == 0 ==> (r matches Err(m) && m@ == label@ + " file size is zero"@),
        size > 0 && file_name is None ==> (r matches Err(m) && m@ == label@
            + " file name is missing"@),
        size > 0 ==> (file_name matches Some(n) ==> (r matches Ok(x) && x@ == n@)),
{
    if size == 0 {
        let mut m = label.to_owned();
        m.append(" file size is zero");
        return Err(m);
    }
    match file_name {
        None => {
            let mut m = label.to_owned();
            m.append(" file name is missing");
            Err(m)
        },
        Some(n) => Ok(n.clone()),
    }
}

fn concat(a: &str, b: &str) -> (r: String)
    ensures
        r@ == a@ + b@,
{
    let mut r = a.to_owned();
    r.append(b);
    r
}

/// Where an uploaded source file is stored.
pub fn upload_path(file_name: &str) -> (r: String)
    ensures
        r@ == "/tmp/xlsx_merge/upload/"@ + file_name@,
{
    concat("/tmp/xlsx_merge/upload/", file_name)
}

/// Where an uploaded reference file is stored.
pub fn reference_path(file_name: &str) -> (r: String)
    ensures
        r@ == "/tmp/"@ + file_name@,
{
    concat("/tmp/", file_name)
}

/// Where the merged sheet of an uploaded source file is written.
pub fn merge_output_path(file_name: &str) -> (r: String)
    ensures
        r@ == "/tmp/xlsx_merge/output/"@ + file_name@ + "_merge.xlsx"@,
{
    let mut r = concat("/tmp/xlsx_merge/output/", file_name);
    r.append("_merge.xlsx");
    r
}

/// Where the filtered sheet of an uploaded source file is written.
pub fn filter_output_path(file_name: &str) -> (r: String)
    ensures
        r@ == "/tmp/xlsx_merge/output/"@ + file_name@ + "_filtered.xlsx"@,
{
    let mut r = concat("/tmp/xlsx_merge/output/", file_name);
    r.append("_filtered.xlsx");
    r
}

/// The file names of a translation job: where its upload is stored, the name of
/// its output, where the output is written, and the link to download it.
pub struct TranslatePaths {
    pub upload: String,
    pub output_name: String,
    pub output: String,
    pub download_url: String,
}

/// The file names of translation job `job_id` for an uploaded file.
pub fn translate_paths(job_id: &str, file_name: &str) -> (r: TranslatePaths)
    ensures
        r.upload@ == "/tmp/xlsx_merge/upload/"@ + job_id@ + "_"@ + file_name@,
        r.output_name@ == job_id@ + "_"@ + file_name@ + "_ai_translated.xlsx"@,
        r.output@ == "/tmp/xlsx_merge/output/"@ + r.output_name@,
        r.download_url@ == "/output/"@ + r.output_name@,
{
    let mut stem = concat(job_id, "_");
    stem.append(file_name);
    let upload = concat("/tmp/xlsx_merge/upload/", stem.as_str());
    let output_name = concat(stem.as_str(), "_ai_translated.xlsx");
    let output = concat("/tmp/xlsx_merge/output/", output_name.as_str());
    let download_url = concat("/output/", output_name.as_str());
    TranslatePaths { upload, output_name, output, download_url }
}

/// The link to download a written file: `/output/` and the last `/`-separated piece
/// of its path.
pub fn download_url(output_file: &str) -> (r: String)
    ensures
        r@ == "/output/"@ + split_on(output_file@, '/').last(),
{
    let v = chars_of(output_file);
    let ps = split_chars(&v, '/');
    proof {
        lemma_split_on_nonempty(v@, '/');
    }
    let last = &ps[ps.len() - 1];
    assert(views(ps@).last() == last@);
    let name = string_of(last.as_slice());
    concat("/output/", name.as_str())
}

/// Checks the languages of a translation form: both given (after trimming) and
/// different. Yields them trimmed.
pub fn check_translate_languages(source_lang: &str, target_lang: &str) -> (r: Result<
    (String, String),
    String,
>)
    ensures
        trim(source_lang@).len() == 0 ==> (r matches Err(m) && m@ == "Source language is missing"@),
        trim(source_lang@).len() > 0 && trim(target_lang@).len() == 0 ==> (r matches Err(m) && m@
            == "Target language is missing"@),
        trim(source_lang@).len() > 0 && trim(target_lang@).len() > 0 && trim(source_lang@) == trim(
            target_lang@,
        ) ==> (r matches Err(m) && m@ == "Source and target languages cannot be the same"@),
        trim(source_lang@).len() > 0 && trim(target_lang@).len() > 0 && trim(source_lang@) != trim(
            target_lang@,
        ) ==> (r matches Ok(p) && p.0@ == trim(source_lang@) && p.1@ == trim(target_lang@)),
{
    let sv = chars_of(source_lang);
    let (a, b) = trim_bounds(&sv);
    let source = string_of(slice_chars(&sv, a, b).as_slice());
    let tv = chars_of(target_lang);
    let (c, d) = trim_bounds(&tv);
    let target = string_of(slice_chars(&tv, c, d).as_slice());
    if source.as_str().is_empty() {
        return Err(String::from_str("Source language is missing"));
    }
    if target.as_str().is_empty() {
        return Err(String::from_str("Target language is missing"));
    }
    if source == target {
        return Err(String::from_str("Source and target languages cannot be the same"));
    }
    Ok((source, target))
}

} // verus!
