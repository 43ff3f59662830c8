//! The board of translation jobs: each job's status, counts, download link and
//! message, as the progress endpoint reports them.

use vstd::prelude::*;
use crate::number::{decimal, decimal_string, decimal_u64};
use crate::text::str_eq;
use crate::translate::{TranslateProgress, TranslateResult};

verus! {

/// Where a translation job stands.
#[derive(Clone, Copy, PartialEq, Eq, Structural)]
pub enum TranslateJobStatus {
    Queued,
    Running,
    Completed,
    Failed,
}

/// The name of a status, as reported.
pub open spec fn status_name(s: TranslateJobStatus) -> Seq<char> {
    match s {
        TranslateJobStatus::Queued => "queued"@,
        TranslateJobStatus::Running => "running"@,
        TranslateJobStatus::Completed => "completed"@,
        TranslateJobStatus::Failed => "failed"@,
    }
}

impl TranslateJobStatus {
    /// The name of the status, as reported.
    pub fn as_str(&self) -> (r: &'static str)
        ensures
            r@ == status_name(*self),
    {
        match self {
            TranslateJobStatus::Queued => "queued",
            TranslateJobStatus::Running => "running",
            TranslateJobStatus::Completed => "completed",
            TranslateJobStatus::Failed => "failed",
        }
    }
}

/// A translation job.
pub struct TranslateJob {
    pub status: TranslateJobStatus,
    pub total: usize,
    pub processed: usize,
    pub translated: usize,
    pub skipped: usize,
    pub download_url: Option<String>,
    pub message: String,
}

/// What a job holds, as values.
pub struct JobView {
    pub status: TranslateJobStatus,
    pub total: nat,
    pub processed: nat,
    pub translated: nat,
    pub skipped: nat,
    pub download_url: Option<Seq<char>>,
    pub message: Seq<char>,
}

impl TranslateJob {
    pub open spec fn view(&self) -> JobView {
        JobView {
            status: self.status,
            total: self.total as nat,
            processed: self.processed as nat,
            translated: self.translated as nat,
            skipped: self.skipped as nat,
            download_url: match self.download_url {
                Some(u) => Some(u@),
                None => None,
            },
            message: self.message@,
        }
    }

    /// A job that waits to start.
    pub fn queued() -> (j: TranslateJob)
        ensures
            j@ == queued_job(),
    {
        TranslateJob {
            status: TranslateJobStatus::Queued,
            total: 0,
            processed: 0,
            translated: 0,
            skipped: 0,
            download_url: None,
            message: String::from_str("Job queued"),
        }
    }
}

/// A job that waits to start.
pub open spec fn queued_job() -> JobView {
    JobView {
        status: TranslateJobStatus::Queued,
        total: 0,
        processed: 0,
        translated: 0,
        skipped: 0,
        download_url: None,
        message: "Job queued"@,
    }
}

/// A job once its translation has started.
pub open spec fn started_job(j: JobView) -> JobView {
    JobView { status: TranslateJobStatus::Running, message: "Starting AI translation"@, ..j }
}

/// A job after a progress report.
pub open spec fn progressed_job(j: JobView, p: TranslateProgress) -> JobView {
    JobView {
        status: TranslateJobStatus::Running,
        total: p.total as nat,
        processed: p.processed as nat,
        translated: p.translated as nat,
        skipped: p.skipped as nat,
        message: "Processing "@ + decimal(p.processed as nat) + " / "@ + decimal(p.total as nat),
        ..j
    }
}

/// A job after its translation succeeded.
pub open spec fn completed_job(j: JobView, r: TranslateResult, url: Seq<char>) -> JobView {
    JobView {
        status: TranslateJobStatus::Completed,
        total: j.total,
        processed: j.total,
        translated: r.translated_count as nat,
        skipped: r.skipped_count as nat,
        download_url: Some(url),
        message: "Translated "@ + decimal(r.translated_count as nat) + " entries, skipped "@
            + decimal(r.skipped_count as nat) + " entries"@,
    }
}

/// A job after its translation failed.
pub open spec fn failed_job(j: JobView, error: Seq<char>) -> JobView {
    JobView { status: TranslateJobStatus::Failed, message: error, ..j }
}

/// Law: jobs numbered differently have different ids, so a new job never takes the
/// place of another.
pub proof fn lemma_job_ids_distinct(a: nat, b: nat)
    requires
        a != b,
    ensures
        "translate-"@ + decimal(a) != "translate-"@ + decimal(b),
{
    let p = "translate-"@;
    if p + decimal(a) == p + decimal(b) {
        assert((p + decimal(a)).skip(p.len() as int) == decimal(a));
        assert((p + decimal(b)).skip(p.len() as int) == decimal(b));
        crate::number::lemma_decimal_injective(a, b);
    }
}

/// How far a job has come: waiting, running, or ended (completed or failed).
pub open spec fn stage(s: TranslateJobStatus) -> nat {
    match s {
        TranslateJobStatus::Queued => 0,
        TranslateJobStatus::Running => 1,
        TranslateJobStatus::Completed => 2,
        TranslateJobStatus::Failed => 2,
    }
}

/// A job has a download link exactly when it has completed.
pub open spec fn link_iff_completed(j: JobView) -> bool {
    j.download_url.is_some() <==> j.status == TranslateJobStatus::Completed
}

/// What a board operation may do to a job: its stage never goes back, an ended
/// job stays as it is, and a job that has a link exactly when completed keeps so.
pub open spec fn job_step(before: JobView, after: JobView) -> bool {
    &&& stage(after.status) >= stage(before.status)
    &&& stage(before.status) == 2 ==> after == before
    &&& link_iff_completed(before) ==> link_iff_completed(after)
}

/// The id of the `n`-th job handed out.
pub open spec fn job_id_of(n: nat) -> Seq<char> {
    "translate-"@ + decimal(n)
}

fn has_ended(s: &TranslateJobStatus) -> (b: bool)
    ensures
        b == (stage(*s) == 2),
{
    match s {
        TranslateJobStatus::Completed => true,
        TranslateJobStatus::Failed => true,
        _ => false,
    }
}

/// Law: a new job waits and has no link; from a job that has not ended, starting and
/// reporting progress keep it running (starting keeps its counts), and finishing ends
/// it, so its stage never goes back; a job has a link exactly when it completed; a
/// completed job has processed all its rows and reports the counts of the finished run,
/// not those of the last progress report; a failed job keeps its counts and reports the
/// error; a progress report sets the counts it reports.
pub proof fn lemma_job_lifecycle(
    j: JobView,
    p: TranslateProgress,
    r: TranslateResult,
    url: Seq<char>,
    error: Seq<char>,
)
    ensures
        queued_job().status == TranslateJobStatus::Queued,
        link_iff_completed(queued_job()),
        stage(j.status) < 2 && link_iff_completed(j) ==> {
            &&& stage(started_job(j).status) >= stage(j.status)
            &&& started_job(j).status == TranslateJobStatus::Running
            &&& link_iff_completed(started_job(j))
            &&& started_job(j).total == j.total && started_job(j).processed == j.processed
                && started_job(j).translated == j.translated && started_job(j).skipped == j.skipped
            &&& started_job(j).download_url == j.download_url
            &&& stage(progressed_job(j, p).status) >= stage(j.status)
            &&& progressed_job(j, p).status == TranslateJobStatus::Running
            &&& link_iff_completed(progressed_job(j, p))
            &&& progressed_job(j, p).total == p.total && progressed_job(j, p).processed
                == p.processed && progressed_job(j, p).translated == p.translated && progressed_job(
                j,
                p,
            ).skipped == p.skipped
            &&& progressed_job(j, p).download_url == j.download_url
            &&& stage(completed_job(j, r, url).status) == 2
            &&& link_iff_completed(completed_job(j, r, url))
            &&& completed_job(j, r, url).processed == completed_job(j, r, url).total
            &&& completed_job(j, r, url).total == j.total
            &&& completed_job(j, r, url).translated == r.translated_count
            &&& completed_job(j, r, url).skipped == r.skipped_count
            &&& completed_job(j, r, url).download_url == Some(url)
            &&& failed_job(j, error).message == error
            &&& failed_job(j, error).translated == j.translated && failed_job(j, error).skipped
                == j.skipped && failed_job(j, error).processed == j.processed
                && failed_job(j, error).total == j.total
            &&& stage(failed_job(j, error).status) == 2
            &&& link_iff_completed(failed_job(j, error))
        },
{
}

/// A job under its id.
pub struct JobEntry {
    pub job_id: String,
    pub job: TranslateJob,
}

/// The jobs by id, and the number of jobs handed out so far.
pub struct JobBoard {
    pub next_job_id: u64,
    pub jobs: Vec<JobEntry>,
}

/// The map that a sequence of entries with distinct ids stands for.
pub open spec fn jobs_map(e: Seq<JobEntry>) -> Map<Seq<char>, JobView>
    decreases e.len(),
{
    if e.len() == 0 {
        Map::empty()
    } else {
        jobs_map(e.drop_last()).insert(e.last().job_id@, e.last().job@)
    }
}

/// No two entries have the same id.
pub open spec fn distinct_ids(e: Seq<JobEntry>) -> bool {
    forall|i: int, j: int| 0 <= i < j < e.len() ==> #[trigger] e[i].job_id@ != #[trigger] e[j].job_id@
}

proof fn lemma_jobs_map_at(e: Seq<JobEntry>, j: int)
    requires
        0 <= j < e.len(),
        distinct_ids(e),
    ensures
        jobs_map(e).dom().contains(e[j].job_id@),
        jobs_map(e)[e[j].job_id@] == e[j].job@,
    decreases e.len(),
{
    if j < e.len() - 1 {
        assert(e.drop_last()[j] == e[j]);
        lemma_jobs_map_at(e.drop_last(), j);
    }
}

proof fn lemma_jobs_map_absent(e: Seq<JobEntry>, k: Seq<char>)
    requires
        forall|j: int| 0 <= j < e.len() ==> (#[trigger] e[j]).job_id@ != k,
    ensures
        !jobs_map(e).dom().contains(k),
    decreases e.len(),
{
    if e.len() > 0 {
        assert forall|j: int| 0 <= j < e.len() - 1 implies (#[trigger] e.drop_last()[j]).job_id@
            != k by {
            assert(e.drop_last()[j] == e[j]);
        }
        lemma_jobs_map_absent(e.drop_last(), k);
    }
}

proof fn lemma_jobs_map_replace(e: Seq<JobEntry>, j: int, x: JobEntry)
    requires
        0 <= j < e.len(),
        e[j].job_id@ == x.job_id@,
        distinct_ids(e),
    ensures
        jobs_map(e.update(j, x)) == jobs_map(e).insert(x.job_id@, x.job@),
        distinct_ids(e.update(j, x)),
    decreases e.len(),
{
    let e2 = e.update(j, x);
    if j == e.len() - 1 {
        assert(e2.drop_last() == e.drop_last());
        assert forall|q: int| 0 <= q < e.drop_last().len() implies (#[trigger] e.drop_last()[q]).job_id@
            != x.job_id@ by {
            assert(e.drop_last()[q] == e[q]);
        }
        lemma_jobs_map_absent(e.drop_last(), x.job_id@);
        assert(jobs_map(e2) =~= jobs_map(e).insert(x.job_id@, x.job@));
    } else {
        assert(e2.drop_last() == e.drop_last().update(j, x));
        assert forall|a: int, b: int| 0 <= a < b < e.drop_last().len() implies #[trigger] e.drop_last()[a].job_id@
            != #[trigger] e.drop_last()[b].job_id@ by {
            assert(e.drop_last()[a] == e[a]);
            assert(e.drop_last()[b] == e[b]);
        }
        assert(e.drop_last()[j] == e[j]);
        lemma_jobs_map_replace(e.drop_last(), j, x);
        assert(e2.last() == e.last());
        assert(jobs_map(e2) =~= jobs_map(e).insert(x.job_id@, x.job@));
    }
    assert forall|a: int, b: int| 0 <= a < b < e2.len() implies #[trigger] e2[a].job_id@
        != #[trigger] e2[b].job_id@ by {
        if a != j && b != j {
            assert(e2[a] == e[a] && e2[b] == e[b]);
        }
    }
}

fn find_job(jobs: &Vec<JobEntry>, job_id: &str) -> (r: Option<usize>)
    ensures
        r matches Some(j) ==> j < jobs@.len() && jobs@[j as int].job_id@ == job_id@,
        r is None ==> forall|q: int| 0 <= q < jobs@.len() ==> (#[trigger] jobs@[q]).job_id@ != job_id@,
{
    let n = jobs.len();
    for j in 0..n
        invariant
            n == jobs@.len(),
            forall|q: int| 0 <= q < j ==> (#[trigger] jobs@[q]).job_id@ != job_id@,
    {
        if str_eq(jobs[j].job_id.as_str(), job_id) {
            return Some(j);
        }
    }
    None
}

/// What the progress endpoint reports of a job.
pub struct JobReport {
    pub job_id: String,
    pub status: String,
    pub total: usize,
    pub processed: usize,
    pub translated: usize,
    pub skipped: usize,
    pub download_url: Option<String>,
    pub message: String,
}

impl JobBoard {
    pub open spec fn wf(&self) -> bool {
        distinct_ids(self.jobs@)
    }

    /// Every job on the board is under an id that was handed out.
    pub open spec fn ids_issued(&self) -> bool {
        forall|k: Seq<char>|
            #[trigger] self@.dom().contains(k) ==> exists|n: nat|
                1 <= n <= self.next_job_id && k == #[trigger] job_id_of(n)
    }

    /// The jobs by id.
    pub open spec fn view(&self) -> Map<Seq<char>, JobView> {
        jobs_map(self.jobs@)
    }

    /// An empty board.
    pub fn new() -> (b: JobBoard)
        ensures
            b.wf(),
            b@ == Map::<Seq<char>, JobView>::empty(),
            b.next_job_id == 0,
            b.ids_issued(),
    {
        JobBoard { next_job_id: 0, jobs: Vec::new() }
    }

    /// Hands out the id of a new job: `translate-` and the number of jobs handed out,
    /// this one included.
    pub fn allocate_job_id(&mut self) -> (id: String)
        requires
            old(self).next_job_id < u64::MAX,
        ensures
            final(self).next_job_id == old(self).next_job_id + 1,
            final(self).jobs@ == old(self).jobs@,
            id@ == job_id_of(final(self).next_job_id as nat),
            old(self).ids_issued() ==> final(self).ids_issued() && !final(self)@.dom().contains(
                id@,
            ),
    {
        proof {
            if old(self).ids_issued() && old(self)@.dom().contains(
                job_id_of((old(self).next_job_id + 1) as nat),
            ) {
                let n = choose|n: nat|
                    1 <= n <= old(self).next_job_id && job_id_of(
                        (old(self).next_job_id + 1) as nat,
                    ) == #[trigger] job_id_of(n);
                lemma_job_ids_distinct(n, (old(self).next_job_id + 1) as nat);
            }
        }
        self.next_job_id = self.next_job_id + 1;
        let mut id = String::from_str("translate-");
        id.append(decimal_u64(self.next_job_id).as_str());
        id
    }

    /// Puts `job` under `job_id`, in place of any job there.
    pub fn insert(&mut self, job_id: String, job: TranslateJob)
        requires
            old(self).wf(),
        ensures
            forall|k: Seq<char>| old(self)@.dom().contains(k) ==> #[trigger] final(self)@.dom().contains(k),
            final(self).wf(),
            final(self)@ == old(self)@.insert(job_id@, job@),
            final(self).next_job_id == old(self).next_job_id,
            old(self).ids_issued() && (exists|n: nat|
                1 <= n <= old(self).next_job_id && job_id@ == #[trigger] job_id_of(n))
                ==> final(self).ids_issued(),
    {
        let entry = JobEntry { job_id, job };
        match find_job(&self.jobs, entry.job_id.as_str()) {
            Some(j) => {
                proof {
                    lemma_jobs_map_replace(self.jobs@, j as int, entry);
                }
                self.jobs.set(j, entry);
            },
            None => {
                proof {
                    lemma_jobs_map_absent(self.jobs@, entry.job_id@);
                }
                let ghost before = self.jobs@;
                self.jobs.push(entry);
                assert(self.jobs@.drop_last() == before);
            },
        }
    }

    /// Replaces the job under `job_id` by `job`, if there is one.
    fn replace_existing(&mut self, job_id: &str, j: usize, job: TranslateJob)
        requires
            old(self).wf(),
            j < old(self).jobs@.len(),
            old(self).jobs@[j as int].job_id@ == job_id@,
        ensures
            final(self).wf(),
            final(self)@ == old(self)@.insert(job_id@, job@),
            final(self).next_job_id == old(self).next_job_id,
    {
        let entry = JobEntry { job_id: job_id.to_owned(), job };
        proof {
            lemma_jobs_map_replace(self.jobs@, j as int, entry);
        }
        self.jobs.set(j, entry);
    }

    /// Marks the job under `job_id` as started.
    pub fn mark_running(&mut self, job_id: &str)
        requires
            old(self).wf(),
        ensures
            forall|k: Seq<char>| old(self)@.dom().contains(k) ==> #[trigger] final(self)@.dom().contains(k),
            final(self).wf(),
            final(self).next_job_id == old(self).next_job_id,
            old(self)@.dom().contains(job_id@) && stage(old(self)@[job_id@].status) < 2 ==> final(self)@ == old(self)@.insert(job_id@, started_job(old(self)@[job_id@])),
            !(old(self)@.dom().contains(job_id@) && stage(old(self)@[job_id@].status) < 2) ==> final(self)@ == old(self)@,
            old(self).ids_issued() ==> final(self).ids_issued(),
            forall|k: Seq<char>| #[trigger]
                old(self)@.dom().contains(k) ==> job_step(old(self)@[k], final(self)@[k]),
    {
        match find_job(&self.jobs, job_id) {
            None => {
                proof {
                    lemma_jobs_map_absent(self.jobs@, job_id@);
                }
            },
            Some(j) => {
                proof {
                    lemma_jobs_map_at(self.jobs@, j as int);
                }
                if has_ended(&self.jobs[j].job.status) {
                    return;
                }
                let old_job = &self.jobs[j].job;
                let job = TranslateJob {
                    status: TranslateJobStatus::Running,
                    total: old_job.total,
                    processed: old_job.processed,
                    translated: old_job.translated,
                    skipped: old_job.skipped,
                    download_url: old_job.download_url.clone(),
                    message: String::from_str("Starting AI translation"),
                };
                assert(job@ == started_job(old_job@));
                self.replace_existing(job_id, j, job);
            },
        }
    }

    /// Records the progress of the job under `job_id`.
    pub fn record_progress(&mut self, job_id: &str, progress: TranslateProgress)
        requires
            old(self).wf(),
        ensures
            forall|k: Seq<char>| old(self)@.dom().contains(k) ==> #[trigger] final(self)@.dom().contains(k),
            final(self).wf(),
            final(self).next_job_id == old(self).next_job_id,
            old(self)@.dom().contains(job_id@) && stage(old(self)@[job_id@].status) < 2 ==> final(self)@ == old(self)@.insert(job_id@, progressed_job(old(self)@[job_id@], progress)),
            !(old(self)@.dom().contains(job_id@) && stage(old(self)@[job_id@].status) < 2) ==> final(self)@ == old(self)@,
            old(self).ids_issued() ==> final(self).ids_issued(),
            forall|k: Seq<char>| #[trigger]
                old(self)@.dom().contains(k) ==> job_step(old(self)@[k], final(self)@[k]),
    {
        match find_job(&self.jobs, job_id) {
            None => {
                proof {
                    lemma_jobs_map_absent(self.jobs@, job_id@);
                }
            },
            Some(j) => {
                proof {
                    lemma_jobs_map_at(self.jobs@, j as int);
                }
                if has_ended(&self.jobs[j].job.status) {
                    return;
                }
                let old_job = &self.jobs[j].job;
                let mut message = String::from_str("Processing ");
                message.append(decimal_string(progress.processed).as_str());
                message.append(" / ");
                message.append(decimal_string(progress.total).as_str());
                let job = TranslateJob {
                    status: TranslateJobStatus::Running,
                    total: progress.total,
                    processed: progress.processed,
                    translated: progress.translated,
                    skipped: progress.skipped,
                    download_url: old_job.download_url.clone(),
                    message,
                };
                assert(job@ == progressed_job(old_job@, progress));
                self.replace_existing(job_id, j, job);
            },
        }
    }

    /// Records how the translation of the job under `job_id` ended.
    pub fn finish(&mut self, job_id: &str, outcome: Result<TranslateResult, String>, download_url: &str)
        requires
            old(self).wf(),
        ensures
            forall|k: Seq<char>| old(self)@.dom().contains(k) ==> #[trigger] final(self)@.dom().contains(k),
            final(self).wf(),
            final(self).next_job_id == old(self).next_job_id,
            !(old(self)@.dom().contains(job_id@) && stage(old(self)@[job_id@].status) < 2) ==> final(self)@ == old(self)@,
            old(self).ids_issued() ==> final(self).ids_issued(),
            forall|k: Seq<char>| #[trigger]
                old(self)@.dom().contains(k) ==> job_step(old(self)@[k], final(self)@[k]),
            old(self)@.dom().contains(job_id@) && stage(old(self)@[job_id@].status) < 2 ==> final(self)@ == old(self)@.insert(
                job_id@,
                match outcome {
                    Ok(r) => completed_job(old(self)@[job_id@], r, download_url@),
                    Err(e) => failed_job(old(self)@[job_id@], e@),
                },
            ),
            old(self)@.dom().contains(job_id@) && stage(old(self)@[job_id@].status) < 2 ==> (match outcome {
                Ok(r) => {
                    &&& final(self)@[job_id@].status == TranslateJobStatus::Completed
                    &&& final(self)@[job_id@].translated == r.translated_count
                    &&& final(self)@[job_id@].skipped == r.skipped_count
                    &&& final(self)@[job_id@].total == old(self)@[job_id@].total
                    &&& final(self)@[job_id@].processed == old(self)@[job_id@].total
                    &&& final(self)@[job_id@].download_url == Some(download_url@)
                },
                Err(e) => {
                    &&& final(self)@[job_id@].status == TranslateJobStatus::Failed
                    &&& final(self)@[job_id@].message == e@
                    &&& final(self)@[job_id@].translated == old(self)@[job_id@].translated
                    &&& final(self)@[job_id@].skipped == old(self)@[job_id@].skipped
                    &&& final(self)@[job_id@].total == old(self)@[job_id@].total
                    &&& final(self)@[job_id@].processed == old(self)@[job_id@].processed
                    &&& final(self)@[job_id@].download_url == old(self)@[job_id@].download_url
                },
            }),
    {
        match find_job(&self.jobs, job_id) {
            None => {
                proof {
                    lemma_jobs_map_absent(self.jobs@, job_id@);
                }
            },
            Some(j) => {
                proof {
                    lemma_jobs_map_at(self.jobs@, j as int);
                }
                if has_ended(&self.jobs[j].job.status) {
                    return;
                }
                let old_job = &self.jobs[j].job;
                let job = match outcome {
                    Ok(r) => {
                        let mut message = String::from_str("Translated ");
                        message.append(decimal_string(r.translated_count).as_str());
                        message.append(" entries, skipped ");
                        message.append(decimal_string(r.skipped_count).as_str());
                        message.append(" entries");
                        TranslateJob {
                            status: TranslateJobStatus::Completed,
                            total: old_job.total,
                            processed: old_job.total,
                            translated: r.translated_count,
                            skipped: r.skipped_count,
                            download_url: Some(download_url.to_owned()),
                            message,
                        }
                    },
                    Err(e) => TranslateJob {
                        status: TranslateJobStatus::Failed,
                        total: old_job.total,
                        processed: old_job.processed,
                        translated: old_job.translated,
                        skipped: old_job.skipped,
                        download_url: old_job.download_url.clone(),
                        message: e,
                    },
                };
                self.replace_existing(job_id, j, job);
            },
        }
    }

    /// The report of the job under `job_id`, if there is one.
    pub fn report(&self, job_id: &str) -> (r: Option<JobReport>)
        requires
            self.wf(),
        ensures
            !self@.dom().contains(job_id@) ==> r is None,
            self@.dom().contains(job_id@) ==> (r matches Some(rep) && {
                let j = self@[job_id@];
                &&& rep.job_id@ == job_id@
                &&& rep.status@ == status_name(j.status)
                &&& rep.total == j.total
                &&& rep.processed == j.processed
                &&& rep.translated == j.translated
                &&& rep.skipped == j.skipped
                &&& rep.download_url.is_some() == j.download_url.is_some()
                &&& (rep.download_url matches Some(u) ==> Some(u@) == j.download_url)
                &&& rep.message@ == j.message
            }),
    {
        match find_job(&self.jobs, job_id) {
            None => {
                proof {
                    lemma_jobs_map_absent(self.jobs@, job_id@);
                }
                None
            },
            Some(j) => {
                proof {
                    lemma_jobs_map_at(self.jobs@, j as int);
                }
                let job = &self.jobs[j].job;
                Some(
                    JobReport {
                        job_id: job_id.to_owned(),
                        status: job.status.as_str().to_owned(),
                        total: job.total,
                        processed: job.processed,
                        translated: job.translated,
                        skipped: job.skipped,
                        download_url: job.download_url.clone(),
                        message: job.message.clone(),
                    },
                )
            },
        }
    }
}

} // verus!
