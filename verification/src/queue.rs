//! The life of a job: it is claimed, done, tried again after a failure, and
//! given up after the third.
use vstd::prelude::*;

use crate::error::{
    bad_request, error_text, missing_row, outcome, row_not_found, AppError, AppErrorView,
};
use crate::events::{
    event_views, int_json, no_members, segment_failed, tell_segment_failed, EventView, MeetingEvent,
};
use crate::ids::{is_id, new_id};
use crate::jobs::{job_is, or_unchanged, requeue, requeued, summary_enqueued};
use crate::json::{
    integer_json, json_number, opt_str_json, opt_string_json, string_json, Json, JsonView,
};
use crate::meetings::answered;
use crate::rows::{
    any, any_row, change_rows, find_row, first, json_of_rows, law_sorted_by, lemma_first_holds,
    lemma_first_of_map, lemma_kept_are_rows, select_rows, sort_rows, sorted_by, views,
};
use crate::store::{
    job_status_name, job_type_name, segment_is, Clock, ClockView, Job, JobStatus, JobType,
    JobTypeView, JobView, MeetingStatus, Segment, SegmentStatus, SegmentView, Store, StoreView,
    RETRY_DELAY_SECONDS,
};
use crate::text::{concat2, copy_opt, opt_str, opt_text, text_eq};

verus! {

/// How many jobs are taken up at once.
pub const JOBS_PER_ROUND: usize = 10;

/// How many jobs are listed.
pub const JOBS_LISTED: usize = 100;

/// How often a job may have failed to be tried once more.
pub const MAX_RETRIES: i64 = 2;

/// A job that waits and may run now.
pub open spec fn job_due(clock: ClockView) -> spec_fn(JobView) -> bool {
    |j: JobView| j.status == JobStatus::Pending && j.available_at.seconds <= clock.now.seconds
}

/// From when on a job may run.
pub open spec fn available_from() -> spec_fn(JobView) -> i64 {
    |j: JobView| j.available_at.seconds
}

/// The first rows, as many as there may be.
pub open spec fn at_most<V>(rows: Seq<V>, n: usize) -> Seq<V> {
    if rows.len() > n {
        rows.take(n as int)
    } else {
        rows
    }
}

/// The jobs to do next, those first that may run longest.
pub open spec fn due_jobs(s: StoreView, clock: ClockView) -> Seq<JobView> {
    at_most(sorted_by(s.jobs.filter(job_due(clock)), available_from()), JOBS_PER_ROUND)
}

/// A job that runs.
pub open spec fn running(j: JobView) -> JobView {
    JobView { status: JobStatus::Running, error_message: None, ..j }
}

/// Lets the job with an id run where it may.
pub open spec fn claiming(id: Seq<char>, clock: ClockView) -> spec_fn(JobView) -> JobView {
    |j: JobView|
        if j.id == id && job_due(clock)(j) {
            running(j)
        } else {
            j
        }
}

/// A job with an id that may run.
pub open spec fn claimable(id: Seq<char>, clock: ClockView) -> spec_fn(JobView) -> bool {
    |j: JobView| j.id == id && job_due(clock)(j)
}

/// The store once a job was asked to run, and whether it does.
pub open spec fn job_claimed(s: StoreView, id: Seq<char>, clock: ClockView) -> (StoreView, bool) {
    (
        StoreView { jobs: s.jobs.map_values(claiming(id, clock)), ..s },
        any(s.jobs, claimable(id, clock)),
    )
}

/// A job after one more failure. Up to two failures are followed by another try,
/// after a delay.
pub open spec fn after_failure(j: JobView, message: Seq<char>, clock: ClockView) -> JobView {
    JobView {
        status: if j.retry_count < MAX_RETRIES {
            JobStatus::Pending
        } else {
            JobStatus::Failed
        },
        retry_count: (j.retry_count + 1) as i64,
        available_at: clock.retry,
        error_message: Some(message),
        ..j
    }
}

/// Notes a failure of the job with an id.
pub open spec fn failing(id: Seq<char>, message: Seq<char>, clock: ClockView) -> spec_fn(
    JobView,
) -> JobView {
    |j: JobView|
        if j.id == id {
            after_failure(j, message, clock)
        } else {
            j
        }
}

/// Notes that the job with an id is done.
pub open spec fn completing(id: Seq<char>) -> spec_fn(JobView) -> JobView {
    |j: JobView|
        if j.id == id {
            JobView { status: JobStatus::Completed, ..j }
        } else {
            j
        }
}

/// Puts the segment with an id into a status.
pub open spec fn segment_put(id: Seq<char>, status: SegmentStatus) -> spec_fn(
    SegmentView,
) -> SegmentView {
    |g: SegmentView|
        if g.id == id {
            SegmentView { status, ..g }
        } else {
            g
        }
}

/// What a job is about, or a stand-in where it says nothing.
pub open spec fn target_or(target: Option<Seq<char>>, fallback: Seq<char>) -> Seq<char> {
    match target {
        Some(t) => t,
        None => fallback,
    }
}

/// Whether the failures of every job with an id can be counted on.
pub open spec fn countable(s: StoreView, id: Seq<char>) -> bool {
    forall|i: int|
        0 <= i < s.jobs.len() && (#[trigger] s.jobs[i]).id == id ==> s.jobs[i].retry_count
            < i64::MAX
}

/// A job with an id whose failures cannot be counted on.
pub open spec fn uncountable(id: Seq<char>) -> spec_fn(JobView) -> bool {
    |j: JobView| j.id == id && j.retry_count == i64::MAX
}

/// The store, the events and the outcome of noting that a job failed.
///
/// Where the job was a transcription, its segment is put back; where the job was
/// given up, the segment has failed, which is told, and no longer holds up the
/// next summary.
pub open spec fn job_failed(
    s: StoreView,
    job: JobView,
    message: Seq<char>,
    summary_job: Seq<char>,
    clock: ClockView,
) -> (StoreView, Seq<EventView>, Result<(), AppErrorView>) {
    let noted = StoreView { jobs: s.jobs.map_values(failing(job.id, message, clock)), ..s };
    let target = target_or(job.target_id, ""@);
    if job.job_type != JobTypeView::Transcribe || !any(s.jobs, job_is(job.id)) {
        (noted, Seq::empty(), Ok(()))
    } else if first(noted.jobs, job_is(job.id)).unwrap().status != JobStatus::Failed {
        let retried = StoreView {
            segments: s.segments.map_values(segment_put(target, SegmentStatus::Transcribing)),
            ..noted
        };
        (retried, Seq::empty(), Ok(()))
    } else {
        let given_up = StoreView {
            segments: s.segments.map_values(segment_put(target, SegmentStatus::Failed)),
            ..noted
        };
        let number = match first(given_up.segments, segment_is(target)) {
            Some(g) => Some(g.sequence_no),
            None => None,
        };
        let told = seq![segment_failed(job.meeting_id, target, number)];
        match s.meeting(job.meeting_id) {
            None => (given_up, told, Err(row_not_found())),
            Some(m) => (
                or_unchanged(
                    summary_enqueued(
                        given_up,
                        job.meeting_id,
                        m.status == MeetingStatus::Ended,
                        summary_job,
                        clock,
                    ),
                    given_up,
                ),
                told,
                Ok(()),
            ),
        }
    }
}

/// The store, the events and the outcome of noting how a job came out.
pub open spec fn job_finished(
    s: StoreView,
    job: JobView,
    result: Result<(), AppErrorView>,
    summary_job: Seq<char>,
    clock: ClockView,
) -> (StoreView, Seq<EventView>, Result<(), AppErrorView>) {
    match result {
        Ok(_) => (
            StoreView { jobs: s.jobs.map_values(completing(job.id)), ..s },
            Seq::empty(),
            Ok(()),
        ),
        Err(e) => job_failed(s, job, error_text(e), summary_job, clock),
    }
}

/// What a job asks for.
#[derive(Debug, PartialEq)]
pub enum Task {
    /// To transcribe a segment.
    Transcribe(String),
    /// To summarize a window.
    Summarize(String),
    /// To make summaries again, from a window on.
    Rebuild(String),
}

/// The model of a [`Task`].
pub enum TaskView {
    Transcribe(Seq<char>),
    Summarize(Seq<char>),
    Rebuild(Seq<char>),
}

impl View for Task {
    type V = TaskView;

    open spec fn view(&self) -> TaskView {
        match self {
            Task::Transcribe(t) => TaskView::Transcribe(t@),
            Task::Summarize(t) => TaskView::Summarize(t@),
            Task::Rebuild(t) => TaskView::Rebuild(t@),
        }
    }
}

/// What a job asks for; an error where this service does not know it.
pub open spec fn planned(j: JobView) -> Result<TaskView, AppErrorView> {
    match j.job_type {
        JobTypeView::Transcribe => Ok(TaskView::Transcribe(target_or(j.target_id, ""@))),
        JobTypeView::Summary => Ok(TaskView::Summarize(target_or(j.target_id, "0"@))),
        JobTypeView::Rebuild => Ok(TaskView::Rebuild(target_or(j.target_id, ""@))),
        JobTypeView::Other(name) => Err(AppErrorView::Processing("unknown job type: "@ + name)),
    }
}

fn target_text(target: &Option<String>, fallback: &str) -> (text: String)
    ensures
        text@ == target_or(opt_text(*target), fallback@),
{
    match target {
        Some(t) => t.clone(),
        None => fallback.to_owned(),
    }
}

/// What a job asks for; an error where this service does not know it.
pub fn plan_job(job: &Job) -> (task: Result<Task, AppError>)
    ensures
        planned(job@) == match task {
            Ok(task) => Ok(task@),
            Err(e) => Err(e@),
        },
{
    match &job.job_type {
        JobType::Transcribe => Ok(Task::Transcribe(target_text(&job.target_id, ""))),
        JobType::Summary => Ok(Task::Summarize(target_text(&job.target_id, "0"))),
        JobType::Rebuild => Ok(Task::Rebuild(target_text(&job.target_id, ""))),
        JobType::Other(name) => Err(
            AppError::Processing(concat2("unknown job type: ", name.as_str())),
        ),
    }
}

fn copy_type(t: &JobType) -> (out: JobType)
    ensures
        out@ == t@,
{
    match t {
        JobType::Transcribe => JobType::Transcribe,
        JobType::Summary => JobType::Summary,
        JobType::Rebuild => JobType::Rebuild,
        JobType::Other(name) => JobType::Other(name.clone()),
    }
}

fn copy_job(j: &Job) -> (out: Job)
    ensures
        out@ == j@,
{
    Job {
        id: j.id.clone(),
        job_type: copy_type(&j.job_type),
        meeting_id: j.meeting_id.clone(),
        target_id: copy_opt(&j.target_id),
        status: j.status,
        retry_count: j.retry_count,
        available_at: j.available_at.copy(),
        error_message: copy_opt(&j.error_message),
    }
}

fn is_due(j: &Job, clock: &Clock) -> (b: bool)
    ensures
        b == job_due(clock@)(j@),
{
    j.status == JobStatus::Pending && j.available_at.seconds <= clock.now().seconds
}

impl Store {
    /// The jobs to do next, those first that may run longest.
    pub fn due_jobs(&self, clock: &Clock) -> (due: Vec<Job>)
        ensures
            views(due@) == due_jobs(self@, clock@),
    {
        let waiting = select_rows(
            &self.jobs,
            |j: &Job| -> (b: bool)
                ensures b == job_due(clock@)(j@)
                { is_due(j, clock) },
            Ghost(job_due(clock@)),
        );
        let sorted = sort_rows(
            waiting,
            |j: &&Job| -> (k: i64)
                ensures k == available_from()(j@)
                { j.available_at.seconds },
            Ghost(available_from()),
        );
        let mut due: Vec<Job> = Vec::new();
        let mut i: usize = 0;
        while i < sorted.len() && i < JOBS_PER_ROUND
            invariant
                i <= sorted@.len(),
                i <= JOBS_PER_ROUND,
                due@.len() == i,
                forall|k: int| 0 <= k < i ==> (#[trigger] due@[k])@ == sorted@[k]@,
            decreases sorted@.len() - i,
        {
            due.push(copy_job(sorted[i]));
            i += 1;
        }
        assert(views(due@) =~= at_most(views(sorted@), JOBS_PER_ROUND));
        due
    }

    /// Lets a job run where it may; tells whether it does.
    pub fn claim_job(&mut self, id: &str, clock: &Clock) -> (claimed: bool)
        ensures
            (final(self)@, claimed) == job_claimed(old(self)@, id@, clock@),
    {
        let claimed = any_row(
            &self.jobs,
            |j: &Job| -> (b: bool)
                ensures b == claimable(id@, clock@)(j@)
                { text_eq(j.id.as_str(), id) && is_due(j, clock) },
            Ghost(claimable(id@, clock@)),
        );
        change_rows(
            &mut self.jobs,
            |j: Job| -> (out: Job)
                ensures out@ == claiming(id@, clock@)(j@)
                {
                    if text_eq(j.id.as_str(), id) && is_due(&j, clock) {
                        Job { status: JobStatus::Running, error_message: None, ..j }
                    } else {
                        j
                    }
                },
            Ghost(claiming(id@, clock@)),
        );
        claimed
    }

    /// Notes that a job is done.
    fn complete_job(&mut self, id: &str)
        ensures
            final(self)@ == (StoreView {
                jobs: old(self)@.jobs.map_values(completing(id@)),
                ..old(self)@
            }),
    {
        change_rows(
            &mut self.jobs,
            |j: Job| -> (out: Job)
                ensures out@ == completing(id@)(j@)
                {
                    if text_eq(j.id.as_str(), id) {
                        Job { status: JobStatus::Completed, ..j }
                    } else {
                        j
                    }
                },
            Ghost(completing(id@)),
        );
    }

    fn note_failure(&mut self, id: &str, message: &str, clock: &Clock)
        requires
            countable(old(self)@, id@),
        ensures
            final(self)@ == (StoreView {
                jobs: old(self)@.jobs.map_values(failing(id@, message@, clock@)),
                ..old(self)@
            }),
    {
        assert forall|j: Job| self.jobs@.contains(j) && j@.id == id@ implies j.retry_count
            < i64::MAX by {
            let i = choose|i: int| 0 <= i < self.jobs@.len() && self.jobs@[i] == j;
            assert(self@.jobs[i] == j@);
        }
        change_rows(
            &mut self.jobs,
            |j: Job| -> (out: Job)
                requires j@.id == id@ ==> j.retry_count < i64::MAX
                ensures out@ == failing(id@, message@, clock@)(j@)
                {
                    if text_eq(j.id.as_str(), id) {
                        Job {
                            status: if j.retry_count < MAX_RETRIES {
                                JobStatus::Pending
                            } else {
                                JobStatus::Failed
                            },
                            retry_count: j.retry_count + 1,
                            available_at: clock.retry().copy(),
                            error_message: Some(message.to_owned()),
                            ..j
                        }
                    } else {
                        j
                    }
                },
            Ghost(failing(id@, message@, clock@)),
        );
    }

    fn put_segment(&mut self, id: &str, status: SegmentStatus)
        ensures
            final(self)@ == (StoreView {
                segments: old(self)@.segments.map_values(segment_put(id@, status)),
                ..old(self)@
            }),
    {
        change_rows(
            &mut self.segments,
            |g: Segment| -> (out: Segment)
                ensures out@ == segment_put(id@, status)(g@)
                {
                    if text_eq(g.id.as_str(), id) {
                        Segment { status, ..g }
                    } else {
                        g
                    }
                },
            Ghost(segment_put(id@, status)),
        );
    }

    /// The job with an id.
    fn job(&self, id: &str) -> (found: Option<&Job>)
        ensures
            first(self@.jobs, job_is(id@)) == match found {
                Some(j) => Some(j@),
                None => None,
            },
    {
        find_row(
            &self.jobs,
            |j: &Job| -> (b: bool)
                ensures b == (j@.id == id@)
                { text_eq(j.id.as_str(), id) },
            Ghost(job_is(id@)),
        )
    }

    /// Notes how a job came out. `summary_job` is the id of the job for the next
    /// summary, where one is needed.
    pub fn finish_job_as(
        &mut self,
        job: &Job,
        result: Result<(), AppError>,
        summary_job: String,
        clock: &Clock,
    ) -> (noted: (Vec<MeetingEvent>, Result<(), AppError>))
        requires
            result is Err ==> countable(old(self)@, job@.id),
        ensures
            (final(self)@, event_views(noted.0@), outcome(noted.1)) == job_finished(
                old(self)@,
                job@,
                outcome(result),
                summary_job@,
                clock@,
            ),
    {
        let mut events: Vec<MeetingEvent> = Vec::new();
        proof {
            assert(event_views(events@) =~= Seq::empty());
        }
        let id = job.id.as_str();
        let error = match result {
            Ok(()) => {
                self.complete_job(id);
                return (events, Ok(()));
            },
            Err(e) => e,
        };
        let known = self.job(id).is_some();
        let ghost before = self@;
        self.note_failure(id, error.message().as_str(), clock);
        proof {
            lemma_change_keeps_job(before.jobs, id@, error_text(error@), clock@);
            lemma_first_holds(before.jobs, job_is(id@));
            lemma_first_holds(self@.jobs, job_is(id@));
        }
        if !known || !job.job_type.same(&JobType::Transcribe) {
            return (events, Ok(()));
        }
        let given_up = match self.job(id) {
            Some(j) => j.status == JobStatus::Failed,
            None => false,
        };
        let target = target_text(&job.target_id, "");
        if !given_up {
            self.put_segment(target.as_str(), SegmentStatus::Transcribing);
            return (events, Ok(()));
        }
        self.put_segment(target.as_str(), SegmentStatus::Failed);
        let number: Option<i64> = match self.segment(target.as_str()) {
            Some(g) => Some(g.sequence_no),
            None => None,
        };
        events.push(tell_segment_failed(job.meeting_id.as_str(), target.as_str(), number));
        proof {
            assert(event_views(events@) =~= seq![
                segment_failed(job@.meeting_id, target@, number),
            ]);
        }
        let ended = match self.meeting(job.meeting_id.as_str()) {
            Some(m) => m.status == MeetingStatus::Ended,
            None => return (events, Err(missing_row())),
        };
        match self.enqueue_summary_as(job.meeting_id.as_str(), ended, summary_job, clock) {
            Ok(()) => {},
            Err(_) => {},
        }
        (events, Ok(()))
    }

    /// Notes how a job came out.
    pub fn finish_job(&mut self, job: &Job, result: Result<(), AppError>, clock: &Clock) -> (
    noted: (Vec<MeetingEvent>, Result<(), AppError>))
        requires
            result is Err ==> countable(old(self)@, job@.id),
        ensures
            exists|id: Seq<char>|
                #[trigger] is_id(id) && (final(self)@, event_views(noted.0@), outcome(noted.1))
                    == job_finished(old(self)@, job@, outcome(result), id, clock@),
    {
        let id = new_id();
        assert(is_id(id@));
        self.finish_job_as(job, result, id, clock)
    }

    /// Whether the failures of a job can be counted on.
    pub fn is_countable(&self, id: &str) -> (b: bool)
        ensures
            b == countable(self@, id@),
    {
        let ghost p = uncountable(id@);
        let found = any_row(
            &self.jobs,
            |j: &Job| -> (b: bool)
                ensures b == uncountable(id@)(j@)
                { text_eq(j.id.as_str(), id) && j.retry_count == i64::MAX },
            Ghost(uncountable(id@)),
        );
        proof {
            if any(self@.jobs, p) {
                let i = choose|i: int| 0 <= i < self@.jobs.len() && p(#[trigger] self@.jobs[i]);
                assert(!countable(self@, id@));
            } else {
                assert forall|i: int|
                    0 <= i < self@.jobs.len() && (#[trigger] self@.jobs[i]).id
                        == id@ implies self@.jobs[i].retry_count < i64::MAX by {
                    assert(!p(self@.jobs[i]));
                }
            }
        }
        !found
    }

    /// The segment with an id.
    fn segment(&self, id: &str) -> (found: Option<&Segment>)
        ensures
            first(self@.segments, segment_is(id@)) == match found {
                Some(g) => Some(g@),
                None => None,
            },
    {
        find_row(
            &self.segments,
            |g: &Segment| -> (b: bool)
                ensures b == (g@.id == id@)
                { text_eq(g.id.as_str(), id) },
            Ghost(segment_is(id@)),
        )
    }
}

/// A job that was interrupted.
pub open spec fn interrupted() -> spec_fn(JobView) -> bool {
    |j: JobView| j.status == JobStatus::Running
}

/// Lets a job that was interrupted wait again.
pub open spec fn recovering(clock: ClockView) -> spec_fn(JobView) -> JobView {
    |j: JobView|
        if j.status == JobStatus::Running {
            JobView {
                status: JobStatus::Pending,
                available_at: clock.now,
                error_message: Some("recovered after service restart"@),
                ..j
            }
        } else {
            j
        }
}

/// The store in which every job that was interrupted waits again, and how many there
/// were.
pub open spec fn jobs_recovered(s: StoreView, clock: ClockView) -> (StoreView, nat) {
    (
        StoreView { jobs: s.jobs.map_values(recovering(clock)), ..s },
        s.jobs.filter(interrupted()).len(),
    )
}

/// A job with an id that was given up.
pub open spec fn given_up(id: Seq<char>) -> spec_fn(JobView) -> bool {
    |j: JobView| j.id == id && j.status == JobStatus::Failed
}

/// Lets the job with an id wait again where it was given up.
pub open spec fn retrying(id: Seq<char>, clock: ClockView) -> spec_fn(JobView) -> JobView {
    |j: JobView|
        if given_up(id)(j) {
            requeued(j, clock)
        } else {
            j
        }
}

/// The store in which a job that was given up waits again, and what is answered to who
/// asked for that.
pub open spec fn job_retried(s: StoreView, id: Seq<char>, clock: ClockView) -> (
    StoreView,
    Result<JsonView, AppErrorView>,
) {
    (
        StoreView { jobs: s.jobs.map_values(retrying(id, clock)), ..s },
        if any(s.jobs, given_up(id)) {
            Ok(
                JsonView::Object(
                    no_members().insert("id"@, JsonView::Str(id)).insert(
                        "status"@,
                        JsonView::Str("pending"@),
                    ),
                ),
            )
        } else {
            Err(AppErrorView::BadRequest("job does not exist or is not failed"@))
        },
    )
}

/// A job of a status.
pub open spec fn job_with(status: JobStatus) -> spec_fn(JobView) -> bool {
    |j: JobView| j.status == status
}

/// A job of a meeting and of a status, where these are given.
pub open spec fn job_listed(meeting_id: Option<Seq<char>>, status: Option<Seq<char>>) -> spec_fn(
    JobView,
) -> bool {
    |j: JobView|
        (meeting_id is None || meeting_id == Some(j.meeting_id)) && (status is None || status
            == Some(job_status_name(j.status)))
}

/// Whether this is the name of a job's status.
pub open spec fn is_job_status(name: Seq<char>) -> bool {
    exists|status: JobStatus| #[trigger] job_status_name(status) == name
}

/// A number that is the lower the later a job may run.
pub open spec fn latest_first() -> spec_fn(JobView) -> i64 {
    |j: JobView| (-1 - j.available_at.seconds) as i64
}

/// A job, as a client sees it.
pub open spec fn job_value() -> spec_fn(JobView) -> JsonView {
    |j: JobView|
        JsonView::Object(
            no_members().insert("id"@, JsonView::Str(j.id)).insert(
                "job_type"@,
                JsonView::Str(job_type_name(j.job_type)),
            ).insert("meeting_id"@, JsonView::Str(j.meeting_id)).insert(
                "target_id"@,
                opt_str_json(j.target_id),
            ).insert("status"@, JsonView::Str(job_status_name(j.status))).insert(
                "retry_count"@,
                int_json(j.retry_count),
            ).insert("available_at"@, JsonView::Str(j.available_at.text)).insert(
                "error_message"@,
                opt_str_json(j.error_message),
            ),
        )
}

/// The jobs that a client sees, the latest first.
pub open spec fn jobs_listed(
    s: StoreView,
    meeting_id: Option<Seq<char>>,
    status: Option<Seq<char>>,
) -> Seq<JobView> {
    at_most(
        sorted_by(s.jobs.filter(job_listed(meeting_id, status)), latest_first()),
        JOBS_LISTED,
    )
}

/// The jobs of a meeting and of a status, where these are given, as a client sees them.
pub open spec fn job_list(
    s: StoreView,
    meeting_id: Option<Seq<char>>,
    status: Option<Seq<char>>,
) -> Result<JsonView, AppErrorView> {
    if status is Some && !is_job_status(status.unwrap()) {
        Err(AppErrorView::BadRequest("invalid job status"@))
    } else {
        Ok(JsonView::Array(jobs_listed(s, meeting_id, status).map_values(job_value())))
    }
}

fn job_json(j: &Job) -> (json: Json)
    ensures
        json@ == job_value()(j@),
{
    let mut json = Json::Null;
    json.set("id", string_json(j.id.as_str()));
    json.set("job_type", string_json(j.job_type.as_str()));
    json.set("meeting_id", string_json(j.meeting_id.as_str()));
    json.set("target_id", opt_string_json(&j.target_id));
    json.set("status", string_json(j.status.as_str()));
    json.set("retry_count", integer_json(j.retry_count));
    json.set("available_at", string_json(j.available_at.text.as_str()));
    json.set("error_message", opt_string_json(&j.error_message));
    json
}

fn admits(wanted: Option<&str>, value: &str) -> (b: bool)
    ensures
        b == (wanted is None || opt_str(wanted) == Some(value@)),
{
    match wanted {
        Some(w) => text_eq(w, value),
        None => true,
    }
}

/// How many jobs wait and how many were given up, for a client that asks whether
/// the service is well.
pub open spec fn health_value(pending: int, failed: int) -> JsonView {
    JsonView::Object(
        no_members().insert("status"@, JsonView::Str("ok"@)).insert(
            "database"@,
            JsonView::Str("ok"@),
        ).insert(
            "jobs"@,
            JsonView::Object(
                no_members().insert("pending"@, int_json(pending as i64)).insert(
                    "failed"@,
                    int_json(failed as i64),
                ),
            ),
        ),
    )
}

/// Whether the service is well, as a client sees it.
pub open spec fn health_of(s: StoreView) -> JsonView {
    health_value(
        s.jobs.filter(job_with(JobStatus::Pending)).len() as int,
        s.jobs.filter(job_with(JobStatus::Failed)).len() as int,
    )
}

impl Store {
    /// Lets every job that was interrupted wait again; tells how many there were.
    pub fn recover_jobs(&mut self, clock: &Clock) -> (recovered: usize)
        ensures
            (final(self)@, recovered as nat) == jobs_recovered(old(self)@, clock@),
    {
        let recovered: usize = self.count_jobs(JobStatus::Running);
        proof {
            assert(job_with(JobStatus::Running) =~= interrupted());
        }
        change_rows(
            &mut self.jobs,
            |j: Job| -> (out: Job)
                ensures out@ == recovering(clock@)(j@)
                {
                    if j.status == JobStatus::Running {
                        Job {
                            status: JobStatus::Pending,
                            available_at: clock.now().copy(),
                            error_message: Some("recovered after service restart".to_owned()),
                            ..j
                        }
                    } else {
                        j
                    }
                },
            Ghost(recovering(clock@)),
        );
        recovered
    }

    fn count_jobs(&self, status: JobStatus) -> (count: usize)
        ensures
            count == self@.jobs.filter(job_with(status)).len(),
    {
        let found = select_rows(
            &self.jobs,
            |j: &Job| -> (b: bool)
                ensures b == (j@.status == status)
                { j.status == status },
            Ghost(job_with(status)),
        );
        assert(views(found@).len() == found@.len());
        found.len()
    }

    /// Lets a job that was given up wait again.
    pub fn retry_job(&mut self, id: &str, clock: &Clock) -> (answer: Result<Json, AppError>)
        ensures
            (final(self)@, answered(answer)) == job_retried(old(self)@, id@, clock@),
    {
        let found = any_row(
            &self.jobs,
            |j: &Job| -> (b: bool)
                ensures b == given_up(id@)(j@)
                { text_eq(j.id.as_str(), id) && j.status == JobStatus::Failed },
            Ghost(given_up(id@)),
        );
        change_rows(
            &mut self.jobs,
            |j: Job| -> (out: Job)
                ensures out@ == retrying(id@, clock@)(j@)
                {
                    if text_eq(j.id.as_str(), id) && j.status == JobStatus::Failed {
                        requeue(j, clock)
                    } else {
                        j
                    }
                },
            Ghost(retrying(id@, clock@)),
        );
        if !found {
            return Err(bad_request("job does not exist or is not failed"));
        }
        let mut json = Json::Null;
        json.set("id", string_json(id));
        json.set("status", string_json("pending"));
        Ok(json)
    }

    /// The latest jobs of a meeting and of a status, where these are given.
    pub fn list_jobs(&self, meeting_id: Option<&str>, status: Option<&str>) -> (answer: Result<
        Json,
        AppError,
    >)
        ensures
            answered(answer) == job_list(self@, opt_str(meeting_id), opt_str(status)),
    {
        if let Some(name) = status {
            if JobStatus::parse(name).is_none() {
                return Err(bad_request("invalid job status"));
            }
        }
        let found = select_rows(
            &self.jobs,
            |j: &Job| -> (b: bool)
                ensures b == job_listed(opt_str(meeting_id), opt_str(status))(j@)
                {
                    admits(meeting_id, j.meeting_id.as_str()) && admits(status, j.status.as_str())
                },
            Ghost(job_listed(opt_str(meeting_id), opt_str(status))),
        );
        let mut sorted = sort_rows(
            found,
            |j: &&Job| -> (k: i64)
                ensures k == latest_first()(j@)
                { -1 - j.available_at.seconds },
            Ghost(latest_first()),
        );
        let ghost all = sorted@;
        sorted.truncate(JOBS_LISTED);
        assert(views(sorted@) =~= at_most(views(all), JOBS_LISTED));
        Ok(
            json_of_rows(
                &sorted,
                |j: &&Job| -> (out: Json)
                    ensures out@ == job_value()(j@)
                    { job_json(j) },
                Ghost(job_value()),
            ),
        )
    }

    /// Whether the jobs can be counted.
    pub fn can_count_jobs(&self) -> (b: bool)
        ensures
            b == (self@.jobs.len() <= i64::MAX),
    {
        self.jobs.len() as u128 <= i64::MAX as u128
    }

    /// How many jobs wait and how many were given up.
    pub fn health(&self) -> (json: Json)
        requires
            self@.jobs.len() <= i64::MAX,
        ensures
            json@ == health_of(self@),
    {
        let pending: usize = self.count_jobs(JobStatus::Pending);
        let failed: usize = self.count_jobs(JobStatus::Failed);
        proof {
            self@.jobs.lemma_filter_len(job_with(JobStatus::Pending));
            self@.jobs.lemma_filter_len(job_with(JobStatus::Failed));
        }
        let mut jobs = Json::Null;
        jobs.set("pending", integer_json(pending as i64));
        jobs.set("failed", integer_json(failed as i64));
        let mut json = Json::Null;
        json.set("status", string_json("ok"));
        json.set("database", string_json("ok"));
        json.set("jobs", jobs);
        json
    }
}

/// What the worker does after it has gone through the jobs once.
#[derive(Debug, Clone, Copy, PartialEq, Eq, Structural)]
pub enum AfterRound {
    /// Looks for jobs again at once, since a job that was done may have led to another.
    Again,
    /// Waits until it is told of a job, or for a while.
    Wait,
}

/// What the worker does after a round in which it took up so many jobs, or failed.
pub open spec fn what_follows(claimed: Option<usize>) -> AfterRound {
    match claimed {
        Some(claimed) => if claimed > 0 {
            AfterRound::Again
        } else {
            AfterRound::Wait
        },
        None => AfterRound::Wait,
    }
}

/// What the worker does after a round in which it took up so many jobs, or failed.
pub fn after_round(round: &Result<usize, AppError>) -> (next: AfterRound)
    ensures
        next == what_follows(
            match round {
                Ok(claimed) => Some(*claimed),
                Err(_) => None,
            },
        ),
{
    match round {
        Ok(claimed) => if *claimed > 0 {
            AfterRound::Again
        } else {
            AfterRound::Wait
        },
        Err(_) => AfterRound::Wait,
    }
}

proof fn lemma_change_keeps_job(
    jobs: Seq<JobView>,
    id: Seq<char>,
    message: Seq<char>,
    clock: ClockView,
)
    ensures
        any(jobs.map_values(failing(id, message, clock)), job_is(id)) == any(jobs, job_is(id)),
{
    let new = jobs.map_values(failing(id, message, clock));
    if any(jobs, job_is(id)) {
        let i = choose|i: int| 0 <= i < jobs.len() && job_is(id)(#[trigger] jobs[i]);
        assert(job_is(id)(new[i]));
    }
    if any(new, job_is(id)) {
        let i = choose|i: int| 0 <= i < new.len() && job_is(id)(#[trigger] new[i]);
        assert(job_is(id)(jobs[i]));
    }
}

/// A job is tried three times: after its first and second failure it waits, after
/// the third it is given up.
pub proof fn law_third_failure_is_final(
    j: JobView,
    first_reason: Seq<char>,
    second_reason: Seq<char>,
    third_reason: Seq<char>,
    first_clock: ClockView,
    second_clock: ClockView,
    third_clock: ClockView,
)
    requires
        j.retry_count == 0,
    ensures
        ({
            let once = after_failure(j, first_reason, first_clock);
            let twice = after_failure(once, second_reason, second_clock);
            let thrice = after_failure(twice, third_reason, third_clock);
            &&& once.status == JobStatus::Pending
            &&& twice.status == JobStatus::Pending
            &&& thrice.status == JobStatus::Failed
            &&& thrice.retry_count == 3
            &&& thrice.error_message == Some(third_reason)
        }),
{
}

/// A job that failed does not run again before the delay is over.
pub proof fn law_failed_job_waits(
    j: JobView,
    reason: Seq<char>,
    clock: ClockView,
    later: ClockView,
)
    requires
        clock.retry.seconds == clock.now.seconds + RETRY_DELAY_SECONDS,
        later.now.seconds < clock.now.seconds + RETRY_DELAY_SECONDS,
    ensures
        !job_due(later)(after_failure(j, reason, clock)),
{
}

/// A job is claimed once: when it was, no one else can claim it.
pub proof fn law_job_is_claimed_once(s: StoreView, id: Seq<char>, clock: ClockView, later: ClockView)
    ensures
        !any(s.jobs.map_values(claiming(id, clock)), claimable(id, clock)),
        any(s.jobs, claimable(id, clock)) && has_one_job(s, id) ==> !any(
            s.jobs.map_values(claiming(id, clock)),
            claimable(id, later),
        ),
{
    let new = s.jobs.map_values(claiming(id, clock));
    assert forall|i: int| 0 <= i < new.len() implies !claimable(id, clock)(#[trigger] new[i]) by {
        assert(new[i] == claiming(id, clock)(s.jobs[i]));
    }
    if any(s.jobs, claimable(id, clock)) && has_one_job(s, id) {
        let k = choose|k: int|
            0 <= k < s.jobs.len() && claimable(id, clock)(#[trigger] s.jobs[k]);
        assert forall|i: int| 0 <= i < new.len() implies !claimable(id, later)(
            #[trigger] new[i],
        ) by {
            assert(new[i] == claiming(id, clock)(s.jobs[i]));
            if s.jobs[i].id == id {
                assert(i == k);
            }
        }
    }
}

/// Whether no two jobs have this id.
pub open spec fn has_one_job(s: StoreView, id: Seq<char>) -> bool {
    forall|i: int, j: int|
        0 <= i < s.jobs.len() && 0 <= j < s.jobs.len() && (#[trigger] s.jobs[i]).id == id && (
        #[trigger] s.jobs[j]).id == id ==> i == j
}

/// After a restart no job is left that counts as running, and no other job has changed.
pub proof fn law_recovery_leaves_none_running(s: StoreView, clock: ClockView, i: int)
    requires
        0 <= i < s.jobs.len(),
    ensures
        ({
            let new = s.jobs.map_values(recovering(clock));
            &&& new.len() == s.jobs.len()
            &&& new[i].status != JobStatus::Running
            &&& s.jobs[i].status != JobStatus::Running ==> new[i] == s.jobs[i]
            &&& s.jobs[i].status == JobStatus::Running ==> job_due(clock)(new[i])
                && new[i].retry_count == s.jobs[i].retry_count
        }),
{
}

/// A job that was given up and is retried can run at once, and has all its tries again.
pub proof fn law_retried_job_starts_over(j: JobView, clock: ClockView)
    requires
        j.status == JobStatus::Failed,
    ensures
        job_due(clock)(retrying(j.id, clock)(j)),
        retrying(j.id, clock)(j).retry_count == 0,
{
}

/// The jobs to do next are all due, are no more than a round takes, and come in
/// the order in which they may run.
pub proof fn law_due_jobs_are_due(s: StoreView, clock: ClockView, i: int)
    requires
        0 <= i < due_jobs(s, clock).len(),
    ensures
        due_jobs(s, clock).len() <= JOBS_PER_ROUND,
        job_due(clock)(due_jobs(s, clock)[i]),
        s.jobs.contains(due_jobs(s, clock)[i]),
        i > 0 ==> due_jobs(s, clock)[i - 1].available_at.seconds <= due_jobs(
            s,
            clock,
        )[i].available_at.seconds,
{
    let kept = s.jobs.filter(job_due(clock));
    let sorted = sorted_by(kept, available_from());
    law_sorted_by(kept, available_from());
    kept.to_multiset_ensures();
    sorted.to_multiset_ensures();
    let due = due_jobs(s, clock);
    assert(due[i] == sorted[i]);
    assert(sorted.contains(sorted[i]));
    assert(kept.to_multiset().count(sorted[i]) > 0);
    let k = choose|k: int| 0 <= k < kept.len() && kept[k] == sorted[i];
    lemma_kept_are_rows(s.jobs, job_due(clock), k);
    if i > 0 {
        assert(due[i - 1] == sorted[i - 1]);
        assert(available_from()(sorted[i - 1]) <= available_from()(sorted[i]));
    }
}

/// A transcription that is given up leaves its segment failed, and says so; one
/// that is tried again leaves it waiting, and says nothing.
pub proof fn law_given_up_segment_has_failed(
    s: StoreView,
    job: JobView,
    message: Seq<char>,
    summary_job: Seq<char>,
    clock: ClockView,
    i: int,
)
    requires
        s.jobs.contains(job),
        has_one_job(s, job.id),
        job.job_type == JobTypeView::Transcribe,
        0 <= i < s.segments.len(),
        job.target_id == Some(s.segments[i].id),
    ensures
        ({
            let (new, told, _) = job_failed(s, job, message, summary_job, clock);
            &&& new.segments.len() == s.segments.len()
            &&& job.retry_count >= MAX_RETRIES ==> new.segments[i].status == SegmentStatus::Failed
                && told.len() == 1 && told[0].kind == "segment.failed"@ && told[0].meeting_id
                == job.meeting_id
            &&& job.retry_count < MAX_RETRIES ==> new.segments[i].status
                == SegmentStatus::Transcribing && told.len() == 0
        }),
{
    let p = job_is(job.id);
    let g = failing(job.id, message, clock);
    let k = choose|k: int| 0 <= k < s.jobs.len() && s.jobs[k] == job;
    assert(p(s.jobs[k]));
    lemma_first_holds(s.jobs, p);
    let found = first(s.jobs, p).unwrap();
    let n = choose|n: int| 0 <= n < s.jobs.len() && s.jobs[n] == found;
    assert(n == k);
    lemma_first_of_map(s.jobs, p, g);
}

/// A job that came out does not run any more: it is done, or waits for another
/// try, or was given up.
pub proof fn law_finished_job_does_not_run(
    s: StoreView,
    job: JobView,
    result: Result<(), AppErrorView>,
    summary_job: Seq<char>,
    clock: ClockView,
    i: int,
)
    requires
        0 <= i < s.jobs.len(),
        s.jobs[i].id == job.id,
    ensures
        ({
            let new = job_finished(s, job, result, summary_job, clock).0;
            &&& i < new.jobs.len()
            &&& new.jobs[i].id == job.id
            &&& result is Ok <==> new.jobs[i].status == JobStatus::Completed
            &&& new.jobs[i].status != JobStatus::Running
        }),
{
}

/// A job can be claimed exactly if it waits and may run by now. It then runs, and what was
/// said of its last failure is forgotten; all else of it, all other jobs and all other
/// rows stay as they are.
pub proof fn law_claiming_lets_one_job_run(s: StoreView, id: Seq<char>, clock: ClockView)
    ensures
        ({
            let (new, claimed) = job_claimed(s, id, clock);
            &&& claimed <==> exists|i: int|
                0 <= i < s.jobs.len() && (#[trigger] s.jobs[i]).id == id && s.jobs[i].status
                    == JobStatus::Pending && s.jobs[i].available_at.seconds <= clock.now.seconds
            &&& new.jobs.len() == s.jobs.len()
            &&& forall|i: int|
                0 <= i < s.jobs.len() ==> if (#[trigger] s.jobs[i]).id == id && s.jobs[i].status
                    == JobStatus::Pending && s.jobs[i].available_at.seconds <= clock.now.seconds {
                    let was = s.jobs[i];
                    let is = new.jobs[i];
                    &&& is.status == JobStatus::Running
                    &&& is.error_message is None
                    &&& is.id == was.id && is.job_type == was.job_type && is.meeting_id
                        == was.meeting_id && is.target_id == was.target_id && is.retry_count
                        == was.retry_count && is.available_at == was.available_at
                } else {
                    new.jobs[i] == s.jobs[i]
                }
            &&& new.meetings == s.meetings && new.speakers == s.speakers && new.segments
                == s.segments && new.summaries == s.summaries && new.boards == s.boards
                && new.board_versions == s.board_versions
        }),
{
    let p = claimable(id, clock);
    if any(s.jobs, p) {
        let i = choose|i: int| 0 <= i < s.jobs.len() && p(#[trigger] s.jobs[i]);
        assert(s.jobs[i].id == id);
    }
    if exists|i: int|
        0 <= i < s.jobs.len() && (#[trigger] s.jobs[i]).id == id && s.jobs[i].status
            == JobStatus::Pending && s.jobs[i].available_at.seconds <= clock.now.seconds {
        let i = choose|i: int|
            0 <= i < s.jobs.len() && (#[trigger] s.jobs[i]).id == id && s.jobs[i].status
                == JobStatus::Pending && s.jobs[i].available_at.seconds <= clock.now.seconds;
        assert(p(s.jobs[i]));
    }
}

/// A job that came out well is done; all else of it, all other jobs and all other rows stay
/// as they are, and nothing is told.
pub proof fn law_finishing_completes_one_job(
    s: StoreView,
    job: JobView,
    summary_job: Seq<char>,
    clock: ClockView,
)
    ensures
        ({
            let (new, told, noted) = job_finished(s, job, Ok(()), summary_job, clock);
            &&& noted is Ok
            &&& told.len() == 0
            &&& new.jobs.len() == s.jobs.len()
            &&& forall|i: int|
                0 <= i < s.jobs.len() ==> if (#[trigger] s.jobs[i]).id == job.id {
                    let was = s.jobs[i];
                    let is = new.jobs[i];
                    &&& is.status == JobStatus::Completed
                    &&& is.id == was.id && is.job_type == was.job_type && is.meeting_id
                        == was.meeting_id && is.target_id == was.target_id && is.retry_count
                        == was.retry_count && is.available_at == was.available_at
                        && is.error_message == was.error_message
                } else {
                    new.jobs[i] == s.jobs[i]
                }
            &&& new.meetings == s.meetings && new.speakers == s.speakers && new.segments
                == s.segments && new.summaries == s.summaries && new.boards == s.boards
                && new.board_versions == s.board_versions
        }),
{
}

/// A job that failed has failed once more, for this reason, and waits for the delay; after
/// its third failure it is given up. Of a segment nothing changes but the status, and only
/// of the one that a transcription was about: it waits again, or has failed where the job
/// was given up. All other rows stay as they are; a job for a summary may be added, and
/// only where a transcription was given up.
pub proof fn law_failure_is_noted(
    s: StoreView,
    job: JobView,
    error: AppErrorView,
    summary_job: Seq<char>,
    clock: ClockView,
)
    requires
        countable(s, job.id),
    ensures
        ({
            let (new, told, _) = job_finished(s, job, Err(error), summary_job, clock);
            &&& s.jobs.len() <= new.jobs.len() <= s.jobs.len() + 1
            &&& forall|i: int|
                0 <= i < s.jobs.len() ==> if (#[trigger] s.jobs[i]).id == job.id {
                    let was = s.jobs[i];
                    let is = new.jobs[i];
                    &&& is.retry_count == was.retry_count + 1
                    &&& is.status == if was.retry_count < 2 {
                        JobStatus::Pending
                    } else {
                        JobStatus::Failed
                    }
                    &&& is.available_at == clock.retry
                    &&& is.error_message == Some(error_text(error))
                    &&& is.id == was.id && is.job_type == was.job_type && is.meeting_id
                        == was.meeting_id && is.target_id == was.target_id
                } else {
                    new.jobs[i] == s.jobs[i]
                }
            &&& new.jobs.len() > s.jobs.len() ==> job.job_type == JobTypeView::Transcribe
                && told.len() == 1
            &&& new.segments.len() == s.segments.len()
            &&& forall|i: int|
                0 <= i < s.segments.len() ==> {
                    let was = #[trigger] s.segments[i];
                    let is = new.segments[i];
                    &&& is.id == was.id && is.meeting_id == was.meeting_id && is.speaker_id
                        == was.speaker_id && is.sequence_no == was.sequence_no && is.start_ms
                        == was.start_ms && is.end_ms == was.end_ms && is.file_path
                        == was.file_path && is.transcript == was.transcript
                    &&& is.status == was.status || (job.job_type == JobTypeView::Transcribe
                        && was.id == target_or(job.target_id, ""@) && is.status == if told.len()
                        == 1 {
                        SegmentStatus::Failed
                    } else {
                        SegmentStatus::Transcribing
                    })
                }
            &&& job.job_type != JobTypeView::Transcribe ==> told.len() == 0
            &&& new.meetings == s.meetings && new.speakers == s.speakers && new.summaries
                == s.summaries && new.boards == s.boards && new.board_versions == s.board_versions
        }),
{
    let p = job_is(job.id);
    let g = failing(job.id, error_text(error), clock);
    lemma_first_of_map(s.jobs, p, g);
    lemma_first_holds(s.jobs, p);
    let noted = StoreView { jobs: s.jobs.map_values(g), ..s };
    let new = job_finished(s, job, Err(error), summary_job, clock).0;
    assert(new.jobs == noted.jobs || new.jobs == noted.jobs.push(new.jobs.last()));
    assert forall|i: int| 0 <= i < s.jobs.len() implies new.jobs[i] == g(#[trigger] s.jobs[i]) by {
        assert(noted.jobs[i] == g(s.jobs[i]));
    }
}

/// What is told of a transcription that was given up is which segment it was, with the
/// number of that segment, in the meeting of the job.
pub proof fn law_given_up_segment_is_told(
    s: StoreView,
    job: JobView,
    error: AppErrorView,
    summary_job: Seq<char>,
    clock: ClockView,
    at: int,
)
    requires
        job_finished(s, job, Err(error), summary_job, clock).1.len() > 0,
        0 <= at < s.segments.len(),
        job.target_id == Some(s.segments[at].id),
        forall|i: int|
            0 <= i < at ==> (#[trigger] s.segments[i]).id != s.segments[at].id,
    ensures
        job_finished(s, job, Err(error), summary_job, clock).1 == seq![
            segment_failed(job.meeting_id, s.segments[at].id, Some(s.segments[at].sequence_no)),
        ],
{
    let target = s.segments[at].id;
    let q = segment_is(target);
    let f = segment_put(target, SegmentStatus::Failed);
    assert(crate::rows::is_first(s.segments, q, at));
    crate::rows::lemma_first_is(s.segments, q, at);
    lemma_first_holds(s.segments, q);
    lemma_first_of_map(s.segments, q, f);
}

/// After a restart every job that ran waits again and may run at once, with a word on why,
/// and as many are counted; all else of it, all other jobs and all other rows stay as
/// they are.
pub proof fn law_recovery_lets_interrupted_jobs_wait(s: StoreView, clock: ClockView)
    ensures
        ({
            let (new, count) = jobs_recovered(s, clock);
            &&& count == s.jobs.filter(|j: JobView| j.status == JobStatus::Running).len()
            &&& new.jobs.len() == s.jobs.len()
            &&& forall|i: int|
                0 <= i < s.jobs.len() ==> if (#[trigger] s.jobs[i]).status == JobStatus::Running {
                    let was = s.jobs[i];
                    let is = new.jobs[i];
                    &&& is.status == JobStatus::Pending
                    &&& is.available_at == clock.now
                    &&& is.error_message == Some("recovered after service restart"@)
                    &&& is.id == was.id && is.job_type == was.job_type && is.meeting_id
                        == was.meeting_id && is.target_id == was.target_id && is.retry_count
                        == was.retry_count
                } else {
                    new.jobs[i] == s.jobs[i]
                }
            &&& new.meetings == s.meetings && new.speakers == s.speakers && new.segments
                == s.segments && new.summaries == s.summaries && new.boards == s.boards
                && new.board_versions == s.board_versions
        }),
{
    assert((|j: JobView| j.status == JobStatus::Running) =~= interrupted());
}

/// A job can be retried exactly if it was given up. It then waits from now on as if it had
/// never run, which is answered; all else of it, all other jobs and all other rows stay as
/// they are, and so does all where it cannot be retried.
pub proof fn law_retrying_lets_one_job_wait(s: StoreView, id: Seq<char>, clock: ClockView)
    ensures
        ({
            let (new, answer) = job_retried(s, id, clock);
            &&& answer is Ok <==> exists|i: int|
                0 <= i < s.jobs.len() && (#[trigger] s.jobs[i]).id == id && s.jobs[i].status
                    == JobStatus::Failed
            &&& answer matches Ok(v) ==> v is Object && v->Object_0.dom() == set!["id"@, "status"@]
                && v->Object_0["id"@] == JsonView::Str(id) && v->Object_0["status"@]
                == JsonView::Str("pending"@)
            &&& answer matches Err(e) ==> e == AppErrorView::BadRequest(
                "job does not exist or is not failed"@,
            ) && new == s
            &&& new.jobs.len() == s.jobs.len()
            &&& forall|i: int|
                0 <= i < s.jobs.len() ==> if (#[trigger] s.jobs[i]).id == id && s.jobs[i].status
                    == JobStatus::Failed {
                    let was = s.jobs[i];
                    let is = new.jobs[i];
                    &&& is.status == JobStatus::Pending
                    &&& is.retry_count == 0
                    &&& is.available_at == clock.now
                    &&& is.error_message is None
                    &&& is.id == was.id && is.job_type == was.job_type && is.meeting_id
                        == was.meeting_id && is.target_id == was.target_id
                } else {
                    new.jobs[i] == s.jobs[i]
                }
            &&& new.meetings == s.meetings && new.speakers == s.speakers && new.segments
                == s.segments && new.summaries == s.summaries && new.boards == s.boards
                && new.board_versions == s.board_versions
        }),
{
    let (new, answer) = job_retried(s, id, clock);
    let p = given_up(id);
    if any(s.jobs, p) {
        let i = choose|i: int| 0 <= i < s.jobs.len() && p(#[trigger] s.jobs[i]);
        assert(s.jobs[i].id == id);
    } else {
        assert forall|i: int| 0 <= i < s.jobs.len() implies !((#[trigger] s.jobs[i]).id == id
            && s.jobs[i].status == JobStatus::Failed) by {
            assert(!p(s.jobs[i]));
        }
        assert(new.jobs =~= s.jobs);
    }
    reveal_strlit("id");
    reveal_strlit("status");
    assert("id"@.len() == 2 && "status"@.len() == 6);
    if answer is Ok {
        assert(answer->Ok_0->Object_0.dom() =~= set!["id"@, "status"@]);
    }
}

/// The jobs to do next are those that wait and may run by now, at most ten, those first
/// that may run longest. What is returned are the due jobs that are left for later: with
/// the jobs to do next they are all that are due, each once; they come behind them; and
/// there are none unless ten are to be done.
pub proof fn law_due_jobs_come_first(s: StoreView, clock: ClockView) -> (left: Seq<JobView>)
    ensures
        ({
            let due = due_jobs(s, clock);
            let all = due + left;
            &&& due.len() <= 10
            &&& left.len() > 0 ==> due.len() == 10
            &&& all.to_multiset() == s.jobs.filter(
                |j: JobView|
                    j.status == JobStatus::Pending && j.available_at.seconds <= clock.now.seconds,
            ).to_multiset()
            &&& forall|i: int, j: int|
                0 <= i < j < all.len() ==> (#[trigger] all[i]).available_at.seconds <= (
                #[trigger] all[j]).available_at.seconds
        }),
{
    let p = |j: JobView|
        j.status == JobStatus::Pending && j.available_at.seconds <= clock.now.seconds;
    assert(p =~= job_due(clock));
    let kept = s.jobs.filter(p);
    let sorted = sorted_by(kept, available_from());
    law_sorted_by(kept, available_from());
    let due = due_jobs(s, clock);
    let left = if sorted.len() > 10 {
        sorted.skip(10)
    } else {
        Seq::empty()
    };
    assert(due + left =~= sorted);
    assert forall|i: int, j: int| 0 <= i < j < sorted.len() implies (
    #[trigger] sorted[i]).available_at.seconds <= (#[trigger] sorted[j]).available_at.seconds by {
        assert(available_from()(sorted[i]) <= available_from()(sorted[j]));
    }
    left
}

/// The jobs that a client sees are those of the meeting and of the status that it asks for,
/// where it asks for one, at most a hundred, those first that may run last. What is returned
/// are the jobs that are not shown: with those that are they are all such jobs, each once;
/// they come behind them; and there are none unless a hundred are shown.
pub proof fn law_jobs_are_listed(
    s: StoreView,
    meeting_id: Option<Seq<char>>,
    status: Option<JobStatus>,
) -> (left: Seq<JobView>)
    ensures
        ({
            let name = match status {
                Some(JobStatus::Pending) => Some("pending"@),
                Some(JobStatus::Running) => Some("running"@),
                Some(JobStatus::Completed) => Some("completed"@),
                Some(JobStatus::Failed) => Some("failed"@),
                None => None,
            };
            let rows = jobs_listed(s, meeting_id, name);
            let all = rows + left;
            &&& rows.len() <= 100
            &&& left.len() > 0 ==> rows.len() == 100
            &&& all.to_multiset() == s.jobs.filter(
                |j: JobView|
                    (meeting_id matches Some(id) ==> j.meeting_id == id) && (
                    status matches Some(wanted) ==> j.status == wanted),
            ).to_multiset()
            &&& forall|i: int, j: int|
                0 <= i < j < all.len() ==> (#[trigger] all[i]).available_at.seconds >= (
                #[trigger] all[j]).available_at.seconds
            &&& job_list(s, meeting_id, name) matches Ok(v) && v is Array && v->Array_0.len()
                == rows.len() && forall|i: int|
                0 <= i < rows.len() ==> #[trigger] v->Array_0[i] == job_value()(rows[i])
        }),
{
    let name = match status {
        Some(JobStatus::Pending) => Some("pending"@),
        Some(JobStatus::Running) => Some("running"@),
        Some(JobStatus::Completed) => Some("completed"@),
        Some(JobStatus::Failed) => Some("failed"@),
        None => None,
    };
    let p = |j: JobView|
        (meeting_id matches Some(id) ==> j.meeting_id == id) && (
        status matches Some(wanted) ==> j.status == wanted);
    reveal_strlit("pending");
    reveal_strlit("running");
    reveal_strlit("completed");
    reveal_strlit("failed");
    assert("pending"@.len() == 7 && "running"@.len() == 7 && "completed"@.len() == 9
        && "failed"@.len() == 6);
    assert("pending"@[0] == 'p' && "running"@[0] == 'r');
    assert(p =~= job_listed(meeting_id, name));
    if let Some(wanted) = status {
        assert(job_status_name(wanted) == name.unwrap());
    }
    let kept = s.jobs.filter(p);
    let sorted = sorted_by(kept, latest_first());
    law_sorted_by(kept, latest_first());
    let rows = jobs_listed(s, meeting_id, name);
    let left = if sorted.len() > 100 {
        sorted.skip(100)
    } else {
        Seq::empty()
    };
    assert(rows + left =~= sorted);
    assert forall|i: int, j: int| 0 <= i < j < sorted.len() implies (
    #[trigger] sorted[i]).available_at.seconds >= (#[trigger] sorted[j]).available_at.seconds by {
        assert(latest_first()(sorted[i]) <= latest_first()(sorted[j]));
    }
    left
}

/// Jobs of a status that there is not cannot be listed.
pub proof fn law_unknown_status_is_refused(
    s: StoreView,
    meeting_id: Option<Seq<char>>,
    name: Seq<char>,
)
    requires
        name != "pending"@,
        name != "running"@,
        name != "completed"@,
        name != "failed"@,
    ensures
        job_list(s, meeting_id, Some(name)) == Err::<JsonView, AppErrorView>(
            AppErrorView::BadRequest("invalid job status"@),
        ),
{
}

/// A client sees of a job its id, what it does and about what, its meeting, its status, how
/// often it failed and why, and from when on it may run, each the job's own, and nothing
/// else; what the job does not have is null.
pub proof fn law_job_is_shown_as_it_is(j: JobView)
    ensures
        ({
            let o = job_value()(j)->Object_0;
            &&& job_value()(j) is Object
            &&& o.dom() == set![
                "id"@,
                "job_type"@,
                "meeting_id"@,
                "target_id"@,
                "status"@,
                "retry_count"@,
                "available_at"@,
                "error_message"@,
            ]
            &&& o["id"@] == JsonView::Str(j.id)
            &&& o["job_type"@] == JsonView::Str(
                match j.job_type {
                    JobTypeView::Transcribe => "transcribe"@,
                    JobTypeView::Summary => "summary"@,
                    JobTypeView::Rebuild => "rebuild"@,
                    JobTypeView::Other(name) => name,
                },
            )
            &&& o["meeting_id"@] == JsonView::Str(j.meeting_id)
            &&& o["target_id"@] == match j.target_id {
                Some(t) => JsonView::Str(t),
                None => JsonView::Null,
            }
            &&& o["status"@] == JsonView::Str(
                match j.status {
                    JobStatus::Pending => "pending"@,
                    JobStatus::Running => "running"@,
                    JobStatus::Completed => "completed"@,
                    JobStatus::Failed => "failed"@,
                },
            )
            &&& o["retry_count"@] == JsonView::Number(json_number(j.retry_count))
            &&& o["available_at"@] == JsonView::Str(j.available_at.text)
            &&& o["error_message"@] == match j.error_message {
                Some(t) => JsonView::Str(t),
                None => JsonView::Null,
            }
        }),
{
    reveal_strlit("id");
    reveal_strlit("job_type");
    reveal_strlit("meeting_id");
    reveal_strlit("target_id");
    reveal_strlit("status");
    reveal_strlit("retry_count");
    reveal_strlit("available_at");
    reveal_strlit("error_message");
    assert("id"@.len() == 2 && "job_type"@.len() == 8 && "meeting_id"@.len() == 10
        && "target_id"@.len() == 9 && "status"@.len() == 6 && "retry_count"@.len() == 11
        && "available_at"@.len() == 12 && "error_message"@.len() == 13);
    assert(job_value()(j)->Object_0.dom() =~= set![
        "id"@,
        "job_type"@,
        "meeting_id"@,
        "target_id"@,
        "status"@,
        "retry_count"@,
        "available_at"@,
        "error_message"@,
    ]);
}

/// Who asks whether the service is well is told so, and how many jobs wait and how many
/// were given up, each counted for itself.
pub proof fn law_health_counts_jobs(s: StoreView)
    ensures
        ({
            let o = health_of(s)->Object_0;
            let jobs = o["jobs"@]->Object_0;
            &&& health_of(s) is Object
            &&& o.dom() == set!["status"@, "database"@, "jobs"@]
            &&& o["status"@] == JsonView::Str("ok"@)
            &&& o["database"@] == JsonView::Str("ok"@)
            &&& o["jobs"@] is Object
            &&& jobs.dom() == set!["pending"@, "failed"@]
            &&& jobs["pending"@] == JsonView::Number(
                json_number(
                    s.jobs.filter(|j: JobView| j.status == JobStatus::Pending).len() as i64,
                ),
            )
            &&& jobs["failed"@] == JsonView::Number(
                json_number(
                    s.jobs.filter(|j: JobView| j.status == JobStatus::Failed).len() as i64,
                ),
            )
        }),
{
    reveal_strlit("status");
    reveal_strlit("database");
    reveal_strlit("jobs");
    reveal_strlit("pending");
    reveal_strlit("failed");
    assert("status"@.len() == 6 && "database"@.len() == 8 && "jobs"@.len() == 4 && "pending"@.len()
        == 7 && "failed"@.len() == 6);
    assert((|j: JobView| j.status == JobStatus::Pending) =~= job_with(JobStatus::Pending));
    assert((|j: JobView| j.status == JobStatus::Failed) =~= job_with(JobStatus::Failed));
    assert(health_of(s)->Object_0.dom() =~= set!["status"@, "database"@, "jobs"@]);
    assert(health_of(s)->Object_0["jobs"@]->Object_0.dom() =~= set!["pending"@, "failed"@]);
}

/// What a job asks for is what its type says, about its target; a job of another type asks
/// for nothing that this service knows, and its type is named. Where a job has no target, a
/// summary is that of the window which ends at zero, and anything else is about nothing.
pub proof fn law_job_asks_for_its_target(j: JobView, target: Seq<char>)
    ensures
        j.target_id == Some(target) ==> planned(j) == match j.job_type {
            JobTypeView::Transcribe => Ok(TaskView::Transcribe(target)),
            JobTypeView::Summary => Ok(TaskView::Summarize(target)),
            JobTypeView::Rebuild => Ok(TaskView::Rebuild(target)),
            JobTypeView::Other(name) => Err(
                AppErrorView::Processing("unknown job type: "@ + name),
            ),
        },
        j.target_id is None ==> planned(j) == match j.job_type {
            JobTypeView::Transcribe => Ok(TaskView::Transcribe(""@)),
            JobTypeView::Summary => Ok(TaskView::Summarize("0"@)),
            JobTypeView::Rebuild => Ok(TaskView::Rebuild(""@)),
            JobTypeView::Other(name) => Err(
                AppErrorView::Processing("unknown job type: "@ + name),
            ),
        },
{
}

/// The worker goes on at once exactly if it took up a job.
pub proof fn law_worker_goes_on_after_work(claimed: usize)
    ensures
        what_follows(Some(claimed)) == AfterRound::Again <==> claimed >= 1,
        what_follows(None) == AfterRound::Wait,
{
}

/// A failure of a job that is not there is not noted anywhere, and one of a job that is no
/// transcription changes no segment.
pub proof fn law_failure_of_no_job_changes_nothing(
    s: StoreView,
    job: JobView,
    error: AppErrorView,
    summary_job: Seq<char>,
    clock: ClockView,
)
    ensures
        (forall|i: int| 0 <= i < s.jobs.len() ==> (#[trigger] s.jobs[i]).id != job.id)
            ==> job_finished(s, job, Err(error), summary_job, clock) == (
            s,
            Seq::<EventView>::empty(),
            Ok::<(), AppErrorView>(()),
        ),
        job.job_type != JobTypeView::Transcribe ==> job_finished(
            s,
            job,
            Err(error),
            summary_job,
            clock,
        ).0.segments == s.segments,
{
    if forall|i: int| 0 <= i < s.jobs.len() ==> (#[trigger] s.jobs[i]).id != job.id {
        let g = failing(job.id, error_text(error), clock);
        assert(s.jobs.map_values(g) =~= s.jobs);
        assert(!any(s.jobs, job_is(job.id)));
    }
}

/// When a transcription was given up, the next summary of its meeting is asked for, the last
/// one where the meeting is over: its segment holds up no summary any more.
pub proof fn law_given_up_segment_lets_a_summary_follow(
    s: StoreView,
    job: JobView,
    error: AppErrorView,
    summary_job: Seq<char>,
    clock: ClockView,
    at: int,
)
    requires
        job_finished(s, job, Err(error), summary_job, clock).1.len() > 0,
        0 <= at < s.meetings.len(),
        s.meetings[at].id == job.meeting_id,
        forall|i: int| 0 <= i < at ==> (#[trigger] s.meetings[i]).id != job.meeting_id,
    ensures
        ({
            let done = job_finished(s, job, Err(error), summary_job, clock);
            let new = done.0;
            &&& done.2 is Ok
            &&& summary_enqueued(
                StoreView { jobs: new.jobs.take(s.jobs.len() as int), ..new },
                job.meeting_id,
                s.meetings[at].status == MeetingStatus::Ended,
                summary_job,
                clock,
            ) == Ok::<StoreView, AppErrorView>(new)
        }),
{
    let p = crate::store::meeting_is(job.meeting_id);
    assert(crate::rows::is_first(s.meetings, p, at));
    crate::rows::lemma_first_is(s.meetings, p, at);
    assert(any(s.meetings, p));
    let done = job_finished(s, job, Err(error), summary_job, clock);
    let new = done.0;
    let g = failing(job.id, error_text(error), clock);
    let target = target_or(job.target_id, ""@);
    let before = StoreView {
        jobs: s.jobs.map_values(g),
        segments: s.segments.map_values(segment_put(target, SegmentStatus::Failed)),
        ..s
    };
    assert(new.jobs == before.jobs || new.jobs == before.jobs.push(new.jobs.last()));
    assert(new.jobs.take(s.jobs.len() as int) =~= before.jobs);
    assert(before == (StoreView { jobs: new.jobs.take(s.jobs.len() as int), ..new }));
}

/// The failures of a job can be counted on where it did not fail more often than it is tried.
pub proof fn law_ordinary_failures_can_be_counted(s: StoreView, id: Seq<char>)
    requires
        forall|i: int|
            0 <= i < s.jobs.len() && (#[trigger] s.jobs[i]).id == id ==> s.jobs[i].retry_count <= 3,
    ensures
        countable(s, id),
{
}

} // verus!
