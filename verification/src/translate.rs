//! Machine translation of one language column of a sheet: which rows need a
//! translation, how they are sent in chunks, and how the answers are written back.
//! The requests themselves are made by the caller; this module decides what to
//! send next and what each answer changes.

use vstd::prelude::*;
use crate::number::{decimal, decimal_string};
use crate::sheet::{WorkbookData, grid_view};
use crate::text::{chars_of, str_eq, strs, trim, trim_bounds};

verus! {

/// The most texts sent in one request.
pub const MAX_TRANSLATIONS_PER_REQUEST: usize = 200;

/// Settings of the translation service.
pub struct AiConfig {
    pub api_key: String,
    pub base_url: String,
    pub model: String,
}

impl AiConfig {
    /// Settings from the values of `OPENAI_API_KEY`, `OPENAI_BASE_URL` and
    /// `OPENAI_MODEL`: the key is required, the others have defaults.
    pub fn from_settings(api_key: Option<String>, base_url: Option<String>, model: Option<String>) -> (r:
        Result<AiConfig, String>)
        ensures
            api_key is None ==> (r matches Err(m) && m@
                == "Missing OPENAI_API_KEY environment variable"@),
            api_key matches Some(k) ==> (r matches Ok(c) && c.api_key@ == k@ && c.base_url@ == (
            match base_url {
                Some(u) => u@,
                None => "https://api.openai.com/v1/chat/completions"@,
            }) && c.model@ == (match model {
                Some(m) => m@,
                None => "gpt-5-chat-latest"@,
            })),
    {
        match api_key {
            None => Err(String::from_str("Missing OPENAI_API_KEY environment variable")),
            Some(api_key) => {
                let base_url = match base_url {
                    Some(u) => u,
                    None => String::from_str("https://api.openai.com/v1/chat/completions"),
                };
                let model = match model {
                    Some(m) => m,
                    None => String::from_str("gpt-5-chat-latest"),
                };
                Ok(AiConfig { api_key, base_url, model })
            },
        }
    }
}

/// Refuses the same language as both source and target.
pub fn check_distinct_languages(source_lang: &str, target_lang: &str) -> (r: Result<(), String>)
    ensures
        source_lang@ == target_lang@ ==> (r matches Err(m) && m@
            == "Source language and target language cannot be the same"@),
        source_lang@ != target_lang@ ==> r is Ok,
{
    if str_eq(source_lang, target_lang) {
        Err(String::from_str("Source language and target language cannot be the same"))
    } else {
        Ok(())
    }
}

/// The position of the first header equal to `name`.
pub fn find_column(headers: &Vec<String>, name: &str) -> (r: Option<usize>)
    ensures
        r matches Some(i) ==> i < headers@.len() && headers@[i as int]@ == name@ && forall|j: int|
            0 <= j < i ==> (#[trigger] headers@[j])@ != name@,
        r is None ==> forall|j: int| 0 <= j < headers@.len() ==> (#[trigger] headers@[j])@ != name@,
{
    let n = headers.len();
    for i in 0..n
        invariant
            n == headers@.len(),
            forall|j: int| 0 <= j < i ==> (#[trigger] headers@[j])@ != name@,
    {
        if str_eq(headers[i].as_str(), name) {
            return Some(i);
        }
    }
    None
}

/// A row waits for translation when its source cell has text and its target cell
/// has none (both after trimming).
pub open spec fn is_pending(row: Seq<Seq<char>>, sc: int, tc: int) -> bool {
    trim(row[sc]).len() > 0 && trim(row[tc]).len() == 0
}

/// The indices of the rows that wait for translation, in order.
pub open spec fn pending_indices(rows: Seq<Seq<Seq<char>>>, sc: int, tc: int) -> Seq<int>
    decreases rows.len(),
{
    if rows.len() == 0 {
        Seq::<int>::empty()
    } else {
        let p = pending_indices(rows.drop_last(), sc, tc);
        if is_pending(rows.last(), sc, tc) {
            p.push(rows.len() - 1)
        } else {
            p
        }
    }
}

/// Pending indices are increasing and below the number of rows.
pub proof fn lemma_pending_indices_bounds(rows: Seq<Seq<Seq<char>>>, sc: int, tc: int)
    ensures
        pending_indices(rows, sc, tc).len() <= rows.len(),
        forall|k: int|
            0 <= k < pending_indices(rows, sc, tc).len() ==> 0 <= #[trigger] pending_indices(
                rows,
                sc,
                tc,
            )[k] < rows.len(),
        forall|a: int, b: int|
            0 <= a < b < pending_indices(rows, sc, tc).len() ==> #[trigger] pending_indices(
                rows,
                sc,
                tc,
            )[a] < #[trigger] pending_indices(rows, sc, tc)[b],
    decreases rows.len(),
{
    if rows.len() > 0 {
        lemma_pending_indices_bounds(rows.drop_last(), sc, tc);
    }
}

/// Law: exactly the rows with text in the source cell and none in the target cell
/// wait for translation; all the others are skipped.
pub proof fn lemma_pending_exact(rows: Seq<Seq<Seq<char>>>, sc: int, tc: int)
    ensures
        forall|r: int|
            0 <= r < rows.len() ==> ((trim(#[trigger] rows[r][sc]).len() > 0 && trim(rows[r][tc]).len()
                == 0) <==> pending_indices(rows, sc, tc).contains(r)),
    decreases rows.len(),
{
    if rows.len() > 0 {
        let pre = rows.drop_last();
        lemma_pending_exact(pre, sc, tc);
        lemma_pending_indices_bounds(pre, sc, tc);
        let p = pending_indices(pre, sc, tc);
        assert forall|r: int| 0 <= r < rows.len() implies ((trim(#[trigger] rows[r][sc]).len() > 0
            && trim(rows[r][tc]).len() == 0) <==> pending_indices(rows, sc, tc).contains(r)) by {
            if r < rows.len() - 1 {
                assert(rows[r] == pre[r]);
                if p.contains(r) {
                    let k = choose|k: int| 0 <= k < p.len() && p[k] == r;
                    assert(pending_indices(rows, sc, tc)[k] == r);
                }
                if pending_indices(rows, sc, tc).contains(r) {
                    let k = choose|k: int|
                        0 <= k < pending_indices(rows, sc, tc).len() && pending_indices(
                            rows,
                            sc,
                            tc,
                        )[k] == r;
                    if k < p.len() {
                        assert(p[k] == r);
                    }
                }
            } else {
                if is_pending(rows.last(), sc, tc) {
                    assert(pending_indices(rows, sc, tc)[p.len() as int] == r);
                } else {
                    assert(!p.contains(r));
                }
            }
        }
    }
}

/// A row that waits for translation, with the text to translate.
pub struct PendingRow {
    pub row_index: usize,
    pub text: String,
}

/// How far a translation has come.
#[derive(Clone, Copy)]
pub struct TranslateProgress {
    pub total: usize,
    pub processed: usize,
    pub translated: usize,
    pub skipped: usize,
}

/// The counts of a finished translation.
pub struct TranslateResult {
    pub translated_count: usize,
    pub skipped_count: usize,
}

/// A translation under way: the sheet, the rows that wait, and how many of them
/// have been answered.
pub struct Translation {
    pub data: WorkbookData,
    pub source_column: usize,
    pub target_column: usize,
    pub pending: Vec<PendingRow>,
    pub next: usize,
    pub translated: usize,
    pub skipped: usize,
}

impl Translation {
    /// The rows that wait are distinct rows in increasing order, each row either
    /// waits or was skipped, and every answered row was written.
    pub open spec fn wf(&self) -> bool {
        &&& self.data.wf()
        &&& self.source_column < self.data.headers@.len()
        &&& self.target_column < self.data.headers@.len()
        &&& self.next <= self.pending@.len()
        &&& self.translated == self.next
        &&& self.skipped + self.pending@.len() == self.data.rows@.len()
        &&& forall|k: int|
            0 <= k < self.pending@.len() ==> (#[trigger] self.pending@[k]).row_index
                < self.data.rows@.len()
        &&& forall|a: int, b: int|
            0 <= a < b < self.pending@.len() ==> (#[trigger] self.pending@[a]).row_index
                < (#[trigger] self.pending@[b]).row_index
    }

    /// The number of texts in the next request.
    pub open spec fn chunk_len(&self) -> nat {
        let left = self.pending@.len() - self.next;
        if left < MAX_TRANSLATIONS_PER_REQUEST {
            left as nat
        } else {
            MAX_TRANSLATIONS_PER_REQUEST as nat
        }
    }

    /// The cell texts of the sheet.
    pub open spec fn cells(&self) -> Seq<Seq<Seq<char>>> {
        grid_view(self.data.rows@)
    }
}

/// Finds the language columns of a sheet and the rows whose source cell has text
/// and whose target cell is empty; every other row is skipped.
pub fn plan_translation(data: WorkbookData, source_lang: &str, target_lang: &str) -> (r: Result<
    Translation,
    String,
>)
    requires
        data.wf(),
    ensures
        (forall|j: int|
            0 <= j < data.headers@.len() ==> (#[trigger] data.headers@[j])@ != source_lang@) ==> (r matches Err(
            m,
        ) && m@ == "Source language column not found: "@ + source_lang@),
        (exists|j: int| 0 <= j < data.headers@.len() && (#[trigger] data.headers@[j])@ == source_lang@)
            && (forall|j: int|
            0 <= j < data.headers@.len() ==> (#[trigger] data.headers@[j])@ != target_lang@) ==> (r matches Err(
            m,
        ) && m@ == "Target language column not found: "@ + target_lang@),
        r is Ok <==> ((exists|j: int|
            0 <= j < data.headers@.len() && (#[trigger] data.headers@[j])@ == source_lang@) && (exists|
            j: int,
        | 0 <= j < data.headers@.len() && (#[trigger] data.headers@[j])@ == target_lang@)),
        r matches Ok(t) ==> {
            &&& t.wf()
            &&& t.data == data
            &&& t.next == 0
            &&& t.translated == 0
            &&& data.headers@[t.source_column as int]@ == source_lang@
            &&& data.headers@[t.target_column as int]@ == target_lang@
            &&& forall|j: int| 0 <= j < t.source_column ==> (#[trigger] data.headers@[j])@ != source_lang@
            &&& forall|j: int| 0 <= j < t.target_column ==> (#[trigger] data.headers@[j])@ != target_lang@
            &&& t.pending@.len() == pending_indices(
                grid_view(data.rows@),
                t.source_column as int,
                t.target_column as int,
            ).len()
            &&& forall|k: int|
                0 <= k < t.pending@.len() ==> {
                    &&& (#[trigger] t.pending@[k]).row_index == pending_indices(
                        grid_view(data.rows@),
                        t.source_column as int,
                        t.target_column as int,
                    )[k]
                    &&& t.pending@[k].text@ == grid_view(data.rows@)[t.pending@[k].row_index as int][t.source_column as int]
                }
            &&& forall|r: int|
                0 <= r < data.rows@.len() ==> ((exists|k: int|
                    0 <= k < t.pending@.len() && (#[trigger] t.pending@[k]).row_index == r) <==> (trim(
                    #[trigger] grid_view(data.rows@)[r][t.source_column as int],
                ).len() > 0 && trim(grid_view(data.rows@)[r][t.target_column as int]).len() == 0))
        },
{
    let sc = match find_column(&data.headers, source_lang) {
        Some(i) => i,
        None => {
            let mut m = String::from_str("Source language column not found: ");
            m.append(source_lang);
            return Err(m);
        },
    };
    let tc = match find_column(&data.headers, target_lang) {
        Some(i) => i,
        None => {
            let mut m = String::from_str("Target language column not found: ");
            m.append(target_lang);
            return Err(m);
        },
    };
    let ghost g = grid_view(data.rows@);
    let mut pending: Vec<PendingRow> = Vec::new();
    let mut skipped: usize = 0;
    let n = data.rows.len();
    for i in 0..n
        invariant
            n == data.rows@.len(),
            data.wf(),
            g == grid_view(data.rows@),
            sc < data.headers@.len(),
            tc < data.headers@.len(),
            skipped + pending@.len() == i,
            pending@.len() == pending_indices(g.take(i as int), sc as int, tc as int).len(),
            forall|k: int|
                0 <= k < pending@.len() ==> {
                    &&& (#[trigger] pending@[k]).row_index == pending_indices(
                        g.take(i as int),
                        sc as int,
                        tc as int,
                    )[k]
                    &&& pending@[k].text@ == g[pending@[k].row_index as int][sc as int]
                },
    {
        let row = &data.rows[i];
        assert(g.take(i + 1).drop_last() == g.take(i as int));
        assert(g.take(i + 1).last() == g[i as int]);
        assert(g[i as int] == strs(row@));
        assert(row@.len() == data.headers@.len());
        let sv = chars_of(row[sc].as_str());
        let (a, b) = trim_bounds(&sv);
        let tv = chars_of(row[tc].as_str());
        let (c, d) = trim_bounds(&tv);
        assert(strs(row@)[sc as int] == row@[sc as int]@);
        assert(strs(row@)[tc as int] == row@[tc as int]@);
        if a == b || c != d {
            skipped = skipped + 1;
        } else {
            let p = PendingRow { row_index: i, text: row[sc].clone() };
            pending.push(p);
        }
    }
    assert(g.take(n as int) == g);
    proof {
        lemma_pending_indices_bounds(g, sc as int, tc as int);
        lemma_pending_exact(g, sc as int, tc as int);
        let pi = pending_indices(g, sc as int, tc as int);
        assert forall|r: int| 0 <= r < data.rows@.len() implies ((exists|k: int|
            0 <= k < pending@.len() && (#[trigger] pending@[k]).row_index == r) <==> (trim(
            #[trigger] g[r][sc as int],
        ).len() > 0 && trim(g[r][tc as int]).len() == 0)) by {
            assert(g[r] == g[r]);
            if exists|k: int| 0 <= k < pending@.len() && (#[trigger] pending@[k]).row_index == r {
                let k = choose|k: int| 0 <= k < pending@.len() && (#[trigger] pending@[k]).row_index == r;
                assert(pi[k] == r);
                assert(pi.contains(r));
            }
            if pi.contains(r) {
                let k = choose|k: int| 0 <= k < pi.len() && pi[k] == r;
                assert(pending@[k].row_index == r);
            }
        }
    }
    Ok(Translation {
        data,
        source_column: sc,
        target_column: tc,
        pending,
        next: 0,
        translated: 0,
        skipped,
    })
}

impl Translation {
    /// Whether every waiting row has been answered.
    pub fn is_finished(&self) -> (b: bool)
        ensures
            b == (self.next == self.pending@.len()),
    {
        self.next == self.pending.len()
    }

    /// The progress so far.
    pub fn progress(&self) -> (p: TranslateProgress)
        ensures
            p.total == self.pending@.len(),
            p.processed == self.next,
            p.translated == self.translated,
            p.skipped == self.skipped,
    {
        TranslateProgress {
            total: self.pending.len(),
            processed: self.next,
            translated: self.translated,
            skipped: self.skipped,
        }
    }

    /// The counts of the translation.
    pub fn result(&self) -> (r: TranslateResult)
        ensures
            r.translated_count == self.translated,
            r.skipped_count == self.skipped,
    {
        TranslateResult { translated_count: self.translated, skipped_count: self.skipped }
    }

    /// The texts of the next request: the next waiting rows, at most
    /// `MAX_TRANSLATIONS_PER_REQUEST` of them.
    pub fn next_chunk(&self) -> (texts: Vec<String>)
        requires
            self.wf(),
        ensures
            texts@.len() == self.chunk_len(),
            forall|k: int|
                0 <= k < texts@.len() ==> (#[trigger] texts@[k])@ == self.pending@[self.next + k].text@,
    {
        let left = self.pending.len() - self.next;
        let n = if left < MAX_TRANSLATIONS_PER_REQUEST {
            left
        } else {
            MAX_TRANSLATIONS_PER_REQUEST
        };
        let mut texts: Vec<String> = Vec::new();
        let plen = self.pending.len();
        let mut k: usize = 0;
        while k < n
            invariant
                plen == self.pending@.len(),
                self.wf(),
                n == self.chunk_len(),
                self.next + n <= self.pending@.len(),
                k <= n,
                texts@.len() == k,
                forall|q: int|
                    0 <= q < k ==> (#[trigger] texts@[q])@ == self.pending@[self.next + q].text@,
            decreases n - k,
        {
            let idx = self.next + k;
            texts.push(self.pending[idx].text.clone());
            k = k + 1;
        }
        texts
    }
}

/// The answer to a request that carries no texts: it is not sent, and its answer is
/// empty. A request with texts gets no answer here.
pub fn answer_without_request(texts: &Vec<String>) -> (r: Option<Vec<String>>)
    ensures
        texts@.len() == 0 ==> (r matches Some(v) && v@.len() == 0),
        texts@.len() > 0 ==> r is None,
{
    if texts.len() == 0 {
        Some(Vec::new())
    } else {
        None
    }
}

/// Law: the waiting rows are sent in requests of 200 texts, the last one carrying
/// what is left: a request is never empty while rows wait, never holds more than 200
/// texts, and holds fewer only when fewer are left.
pub proof fn lemma_chunk_len(t: Translation)
    requires
        t.wf(),
        t.next < t.pending@.len(),
    ensures
        0 < t.chunk_len() <= 200,
        t.pending@.len() - t.next >= 200 ==> t.chunk_len() == 200,
        t.pending@.len() - t.next < 200 ==> t.chunk_len() == t.pending@.len() - t.next,
        t.next + t.chunk_len() <= t.pending@.len(),
{
}

/// The error for an answer with the wrong number of texts.
pub open spec fn length_mismatch_message(expected: nat, got: nat) -> Seq<char> {
    "AI output length mismatch, expected "@ + decimal(expected) + ", got "@ + decimal(got)
}

/// Law: every answered row was written, and once every waiting row is answered the
/// translated and skipped rows together are all the rows of the sheet.
pub proof fn lemma_translation_counts(t: Translation)
    requires
        t.wf(),
    ensures
        t.translated == t.next,
        t.next == t.pending@.len() ==> t.translated + t.skipped == t.data.rows@.len(),
{
}

/// What accepting the answer `translated` to the next request of `pre` makes of it:
/// the next request starts after this one, each row of this request holds its
/// answer in the target column, and every other cell is unchanged.
pub open spec fn chunk_written(pre: Translation, post: Translation, translated: Seq<String>) -> bool {
    &&& post.next == pre.next + pre.chunk_len()
    &&& post.skipped == pre.skipped
    &&& post.pending@ == pre.pending@
    &&& post.source_column == pre.source_column
    &&& post.target_column == pre.target_column
    &&& post.data.headers@ == pre.data.headers@
    &&& post.data.rows@.len() == pre.data.rows@.len()
    &&& forall|k: int|
        0 <= k < pre.chunk_len() ==> (#[trigger] post.data.rows@[pre.pending@[pre.next
            + k].row_index as int]@)[pre.target_column as int]@ == translated[k]@
    &&& forall|q: int, c: int|
        0 <= q < pre.data.rows@.len() && 0 <= c < pre.data.headers@.len() && (c
            != pre.target_column || !pre.in_chunk(q)) ==> (#[trigger] post.data.rows@[q]@[c])@
            == pre.data.rows@[q]@[c]@
}

/// The sheet of `t` holds `answers` in the target cells of the rows answered so far,
/// and every other cell as in the rows `init`.
pub open spec fn answered(init: Seq<Vec<String>>, t: Translation, answers: Seq<Seq<char>>) -> bool {
    &&& answers.len() == t.next
    &&& t.data.rows@.len() == init.len()
    &&& forall|k: int|
        0 <= k < t.next ==> (#[trigger] t.data.rows@[t.pending@[k].row_index as int]@)[t.target_column as int]@
            == answers[k]
    &&& forall|q: int, c: int|
        0 <= q < init.len() && 0 <= c < t.data.headers@.len() && (c != t.target_column || !(exists|
            k: int,
        | 0 <= k < t.next && (#[trigger] t.pending@[k]).row_index == q)) ==> (#[trigger] t.data.rows@[q]@[c])@
            == init[q]@[c]@
}

/// Law: before any answer the sheet is as planned.
pub proof fn lemma_run_starts(t: Translation)
    requires
        t.wf(),
        t.next == 0,
    ensures
        answered(t.data.rows@, t, Seq::<Seq<char>>::empty()),
{
}

/// Law: accepting each answer in turn keeps the whole run accounted for: every row
/// answered so far holds its answer in the target column, each written once, and no
/// other cell of the sheet differs from the sheet as planned.
pub proof fn lemma_run_step(
    init: Seq<Vec<String>>,
    pre: Translation,
    post: Translation,
    answers: Seq<Seq<char>>,
    translated: Seq<String>,
)
    requires
        pre.wf(),
        answered(init, pre, answers),
        translated.len() == pre.chunk_len(),
        chunk_written(pre, post, translated),
    ensures
        answered(init, post, answers + crate::text::strs(translated)),
{
    let n = pre.chunk_len() as int;
    let tc = pre.target_column as int;
    let all = answers + crate::text::strs(translated);
    assert forall|k: int| 0 <= k < post.next implies (#[trigger] post.data.rows@[post.pending@[k].row_index as int]@)[post.target_column as int]@
        == all[k] by {
        let q = pre.pending@[k].row_index as int;
        if k < pre.next {
            assert forall|j: int| 0 <= j < n implies (#[trigger] pre.pending@[pre.next
                + j]).row_index != q by {
                assert(pre.pending@[k].row_index < pre.pending@[pre.next + j].row_index);
            }
            assert(!pre.in_chunk(q));
        } else {
            let j = k - pre.next;
            assert(post.data.rows@[pre.pending@[pre.next + j].row_index as int]@[tc]@
                == translated[j]@);
        }
    }
    assert forall|q: int, c: int|
        0 <= q < init.len() && 0 <= c < post.data.headers@.len() && (c != post.target_column
            || !(exists|k: int| 0 <= k < post.next && (#[trigger] post.pending@[k]).row_index == q))
        implies (#[trigger] post.data.rows@[q]@[c])@ == init[q]@[c]@ by {
        if c == tc {
            assert forall|k: int| 0 <= k < pre.next implies (#[trigger] pre.pending@[k]).row_index
                != q by {
                assert(post.pending@[k] == pre.pending@[k]);
            }
            assert forall|j: int| 0 <= j < n implies (#[trigger] pre.pending@[pre.next
                + j]).row_index != q by {
                assert(post.pending@[pre.next + j] == pre.pending@[pre.next + j]);
            }
            assert(!pre.in_chunk(q));
        }
    }
}

impl Translation {
    /// Row `r` is among the rows of the next request.
    pub open spec fn in_chunk(&self, r: int) -> bool {
        exists|k: int|
            0 <= k < self.chunk_len() && (#[trigger] self.pending@[self.next + k]).row_index == r
    }

    /// Writes the answer to the next request into the target column of its rows. An
    /// answer with the wrong number of texts is refused and changes nothing.
    pub fn accept_chunk(&mut self, translated: Vec<String>) -> (r: Result<(), String>)
        requires
            old(self).wf(),
            old(self).next < old(self).pending@.len(),
        ensures
            final(self).wf(),
            translated@.len() != old(self).chunk_len() ==> (r matches Err(m) && m@
                == length_mismatch_message(old(self).chunk_len(), translated@.len())
                && *final(self) == *old(self)),
            translated@.len() == old(self).chunk_len() ==> (r is Ok && chunk_written(
                *old(self),
                *final(self),
                translated@,
            )),
    {
        let left = self.pending.len() - self.next;
        let n = if left < MAX_TRANSLATIONS_PER_REQUEST {
            left
        } else {
            MAX_TRANSLATIONS_PER_REQUEST
        };
        if translated.len() != n {
            let mut m = String::from_str("AI output length mismatch, expected ");
            m.append(decimal_string(n).as_str());
            m.append(", got ");
            m.append(decimal_string(translated.len()).as_str());
            return Err(m);
        }
        let ghost pre = *self;
        let plen = self.pending.len();
        let tc = self.target_column;
        let mut k: usize = 0;
        while k < n
            invariant
                pre.wf(),
                plen == pre.pending@.len(),
                n == pre.chunk_len(),
                pre.next + n <= plen,
                k <= n,
                translated@.len() == n,
                tc == pre.target_column,
                self.next == pre.next,
                self.translated == pre.translated,
                self.skipped == pre.skipped,
                self.pending@ == pre.pending@,
                self.source_column == pre.source_column,
                self.target_column == pre.target_column,
                self.data.headers@ == pre.data.headers@,
                self.data.rows@.len() == pre.data.rows@.len(),
                forall|q: int|
                    0 <= q < self.data.rows@.len() ==> (#[trigger] self.data.rows@[q])@.len()
                        == pre.data.headers@.len(),
                forall|j: int|
                    0 <= j < k ==> (#[trigger] self.data.rows@[pre.pending@[pre.next
                        + j].row_index as int]@)[tc as int]@ == translated@[j]@,
                forall|q: int, c: int|
                    0 <= q < pre.data.rows@.len() && 0 <= c < pre.data.headers@.len() && (c != tc
                        || !(exists|j: int|
                        0 <= j < k && (#[trigger] pre.pending@[pre.next + j]).row_index == q))
                        ==> (#[trigger] self.data.rows@[q]@[c])@ == pre.data.rows@[q]@[c]@,
            decreases n - k,
        {
            let idx = self.pending[self.next + k].row_index;
            let ghost rows_before = self.data.rows@;
            let mut row: Vec<String> = Vec::new();
            self.data.rows.set_and_swap(idx, &mut row);
            assert(row == rows_before[idx as int]);
            row.set(tc, translated[k].clone());
            self.data.rows.set(idx, row);
            assert(self.data.rows@ == rows_before.update(idx as int, row));
            assert forall|j: int|
                0 <= j < k + 1 implies (#[trigger] self.data.rows@[pre.pending@[pre.next
                + j].row_index as int]@)[tc as int]@ == translated@[j]@ by {
                if j < k {
                    assert(pre.pending@[pre.next + j].row_index < pre.pending@[pre.next
                        + k].row_index);
                }
            }
            assert forall|q: int, c: int|
                0 <= q < pre.data.rows@.len() && 0 <= c < pre.data.headers@.len() && (c != tc
                    || !(exists|j: int|
                    0 <= j < k + 1 && (#[trigger] pre.pending@[pre.next + j]).row_index == q))
                    implies (#[trigger] self.data.rows@[q]@[c])@ == pre.data.rows@[q]@[c]@ by {
                if q == idx {
                    if c == tc {
                        assert(pre.pending@[pre.next + k as int].row_index == q);
                    }
                } else {
                    if c == tc {
                        assert forall|j: int| 0 <= j < k implies (#[trigger] pre.pending@[pre.next
                            + j]).row_index != q by {}
                    }
                }
            }
            k = k + 1;
        }
        self.next = self.next + n;
        self.translated = self.translated + n;
        proof {
            assert forall|q: int, c: int|
                0 <= q < pre.data.rows@.len() && 0 <= c < pre.data.headers@.len() && (c != tc
                    || !pre.in_chunk(q)) implies (#[trigger] self.data.rows@[q]@[c])@
                == pre.data.rows@[q]@[c]@ by {
                if c == tc {
                    assert forall|j: int| 0 <= j < n implies (#[trigger] pre.pending@[pre.next
                        + j]).row_index != q by {}
                }
            }
        }
        Ok(())
    }
}

} // verus!
