//! The queue of jobs: what is put into it, what comes out, and what becomes of a
//! job that fails.
use vstd::prelude::*;

use crate::error::{
    broken_reference, key_taken, missing_row, outcome, reference_broken, row_not_found, taken_key,
    AppError, AppErrorView,
};
use crate::ids::{is_id, new_id};
use crate::number::{decimal, format_i64};
use crate::rows::{
    any, any_row, both, change_rows, greatest, is_first, lemma_any_of_kept, lemma_first_holds,
    lemma_first_is, lemma_greatest, lemma_greatest_of_kept, max_row, restricted,
};
use crate::store::{
    meeting_is, Clock, ClockView, Job, JobStatus, JobType, JobTypeView, JobView, Segment,
    SegmentStatus, SegmentView, Store, StoreView, Summary, SummaryRowView,
};
use crate::text::{concat2, text_eq};

verus! {

/// The job with an id.
pub open spec fn job_is(id: Seq<char>) -> spec_fn(JobView) -> bool {
    |j: JobView| j.id == id
}

/// The job that does something about a target of a meeting.
pub open spec fn job_for(
    job_type: JobTypeView,
    meeting_id: Seq<char>,
    target: Seq<char>,
) -> spec_fn(JobView) -> bool {
    |j: JobView|
        j.job_type == job_type && j.meeting_id == meeting_id && j.target_id == Some(target)
}

/// A job that waits from now on.
pub open spec fn new_job(
    id: Seq<char>,
    job_type: JobTypeView,
    meeting_id: Seq<char>,
    target: Seq<char>,
    clock: ClockView,
) -> JobView {
    JobView {
        id,
        job_type,
        meeting_id,
        target_id: Some(target),
        status: JobStatus::Pending,
        retry_count: 0,
        available_at: clock.now,
        error_message: None,
    }
}

/// The store with a job added, unless there is one for the same, or with the same id.
pub open spec fn with_job_once(s: StoreView, job: JobView) -> StoreView {
    if any(s.jobs, job_is(job.id)) || any(
        s.jobs,
        job_for(job.job_type, job.meeting_id, job.target_id.unwrap()),
    ) {
        s
    } else {
        StoreView { jobs: s.jobs.push(job), ..s }
    }
}

/// A job that waits again, as if it had never run.
pub open spec fn requeued(j: JobView, clock: ClockView) -> JobView {
    JobView {
        status: JobStatus::Pending,
        retry_count: 0,
        available_at: clock.now,
        error_message: None,
        ..j
    }
}

/// Lets the job for a target wait again where it is done or has failed for good.
pub open spec fn requeue_finished(
    job_type: JobTypeView,
    meeting_id: Seq<char>,
    target: Seq<char>,
    clock: ClockView,
) -> spec_fn(JobView) -> JobView {
    |j: JobView|
        if job_for(job_type, meeting_id, target)(j) && (j.status == JobStatus::Completed || j.status
            == JobStatus::Failed) {
            requeued(j, clock)
        } else {
            j
        }
}

/// The store once the summaries of a meeting are to be made again from a window
/// on: one job for that window waits, or runs already.
pub open spec fn rebuild_enqueued(
    s: StoreView,
    meeting_id: Seq<char>,
    window_start: i64,
    id: Seq<char>,
    clock: ClockView,
) -> Result<StoreView, AppErrorView> {
    let target = decimal(window_start as int);
    if any(s.jobs, job_for(JobTypeView::Rebuild, meeting_id, target)) {
        Ok(
            StoreView {
                jobs: s.jobs.map_values(
                    requeue_finished(JobTypeView::Rebuild, meeting_id, target, clock),
                ),
                ..s
            },
        )
    } else if any(s.jobs, job_is(id)) {
        Err(key_taken("jobs.id"@))
    } else if !s.has_meeting(meeting_id) {
        Err(reference_broken())
    } else {
        Ok(
            StoreView {
                jobs: s.jobs.push(new_job(id, JobTypeView::Rebuild, meeting_id, target, clock)),
                ..s
            },
        )
    }
}

/// A segment in a window of a meeting whose transcription is still to come.
pub open spec fn unfinished_in(meeting_id: Seq<char>, start: i64, end: i64) -> spec_fn(
    SegmentView,
) -> bool {
    |g: SegmentView|
        g.meeting_id == meeting_id && g.status != SegmentStatus::Completed && g.status
            != SegmentStatus::Failed && g.start_ms < end && g.end_ms > start
}

/// Where the transcribed segments of a meeting end.
pub open spec fn completed_end(meeting_id: Seq<char>) -> spec_fn(SegmentView) -> Option<i64> {
    |g: SegmentView|
        if g.meeting_id == meeting_id && g.status == SegmentStatus::Completed {
            Some(g.end_ms)
        } else {
            None
        }
}

/// Where the windows of a meeting's summaries end.
pub open spec fn window_end(meeting_id: Seq<char>) -> spec_fn(SummaryRowView) -> Option<i64> {
    |r: SummaryRowView|
        if r.meeting_id == meeting_id {
            Some(r.window_end_ms)
        } else {
            None
        }
}

/// The difference of two numbers, at most as far as the numbers go.
pub open spec fn saturated_difference(a: i64, b: i64) -> i64 {
    if a - b < i64::MIN {
        i64::MIN
    } else if a - b > i64::MAX {
        i64::MAX
    } else {
        (a - b) as i64
    }
}

/// The number, or zero where there is none.
pub open spec fn or_zero(n: Option<i64>) -> i64 {
    match n {
        Some(n) => n,
        None => 0,
    }
}

impl StoreView {
    /// Up to where a meeting is transcribed; zero where nothing is.
    pub open spec fn completed_until(self, meeting_id: Seq<char>) -> i64 {
        or_zero(greatest(self.segments, completed_end(meeting_id)))
    }

    /// Up to where a meeting is summarized; zero where nothing is.
    pub open spec fn summarized_until(self, meeting_id: Seq<char>) -> i64 {
        or_zero(greatest(self.summaries, window_end(meeting_id)))
    }
}

/// Names the last window of a meeting, which ends where its audio does.
pub open spec fn final_target(end: i64) -> Seq<char> {
    "final:"@ + decimal(end as int)
}

/// Which window of a meeting can be summarized now. Nothing can while a segment
/// in the next window is still to be transcribed. The next window can once the
/// meeting is transcribed up to its end; in a meeting that is over, so can what
/// is left.
pub open spec fn summary_target(s: StoreView, meeting_id: Seq<char>, final_window: bool) -> Option<
    Seq<char>,
> {
    let meeting = s.meeting(meeting_id).unwrap();
    let end = meeting.next_summary_end_ms;
    let start = saturated_difference(end, meeting.summary_window_ms);
    let until = s.completed_until(meeting_id);
    if any(s.segments, unfinished_in(meeting_id, start, end)) {
        None
    } else if until >= end {
        Some(decimal(end as int))
    } else if final_window && until > 0 && until > s.summarized_until(meeting_id) {
        Some(final_target(until))
    } else {
        None
    }
}

/// The store once the next summary of a meeting waits to be made, where one can be.
pub open spec fn summary_enqueued(
    s: StoreView,
    meeting_id: Seq<char>,
    final_window: bool,
    id: Seq<char>,
    clock: ClockView,
) -> Result<StoreView, AppErrorView> {
    if s.meeting(meeting_id) is None {
        Err(row_not_found())
    } else {
        match summary_target(s, meeting_id, final_window) {
            Some(target) => Ok(
                with_job_once(s, new_job(id, JobTypeView::Summary, meeting_id, target, clock)),
            ),
            None => Ok(s),
        }
    }
}

/// What an operation that can fail leaves: a new store, or the old one.
pub open spec fn or_unchanged(r: Result<StoreView, AppErrorView>, s: StoreView) -> StoreView {
    match r {
        Ok(new) => new,
        Err(_) => s,
    }
}

/// How an operation that can fail came out.
pub open spec fn came_out(r: Result<StoreView, AppErrorView>) -> Result<(), AppErrorView> {
    match r {
        Ok(_) => Ok(()),
        Err(e) => Err(e),
    }
}

fn difference(a: i64, b: i64) -> (d: i64)
    ensures
        d == saturated_difference(a, b),
{
    match a.checked_sub(b) {
        Some(d) => d,
        None => if b > 0 {
            i64::MIN
        } else {
            i64::MAX
        },
    }
}

impl Store {
    pub(crate) fn has_job_id(&self, id: &str) -> (found: bool)
        ensures
            found == any(self@.jobs, job_is(id@)),
    {
        any_row(
            &self.jobs,
            |j: &Job| -> (b: bool)
                ensures b == (j@.id == id@)
                { text_eq(j.id.as_str(), id) },
            Ghost(job_is(id@)),
        )
    }

    pub(crate) fn has_job_for(&self, job_type: &JobType, meeting_id: &str, target: &str) -> (found: bool)
        ensures
            found == any(self@.jobs, job_for(job_type@, meeting_id@, target@)),
    {
        any_row(
            &self.jobs,
            |j: &Job| -> (b: bool)
                ensures b == job_for(job_type@, meeting_id@, target@)(j@)
                { is_job_for(j, job_type, meeting_id, target) },
            Ghost(job_for(job_type@, meeting_id@, target@)),
        )
    }

    pub(crate) fn push_job(&mut self, id: String, job_type: JobType, meeting_id: &str, target: String, clock: &Clock)
        ensures
            final(self)@ == (StoreView {
                jobs: old(self)@.jobs.push(
                    new_job(id@, job_type@, meeting_id@, target@, clock@),
                ),
                ..old(self)@
            }),
    {
        let job = Job {
            id,
            job_type,
            meeting_id: meeting_id.to_owned(),
            target_id: Some(target),
            status: JobStatus::Pending,
            retry_count: 0,
            available_at: clock.now().copy(),
            error_message: None,
        };
        let ghost before = self@;
        self.jobs.push(job);
        assert(self@.jobs =~= before.jobs.push(job@));
    }

    /// Adds a job, unless there is one for the same, or with the same id.
    pub(crate) fn push_job_once(
        &mut self,
        id: String,
        job_type: JobType,
        meeting_id: &str,
        target: String,
        clock: &Clock,
    )
        ensures
            final(self)@ == with_job_once(
                old(self)@,
                new_job(id@, job_type@, meeting_id@, target@, clock@),
            ),
    {
        if self.has_job_id(id.as_str()) || self.has_job_for(
            &job_type,
            meeting_id,
            target.as_str(),
        ) {
            return ;
        }
        self.push_job(id, job_type, meeting_id, target, clock);
    }

    /// Asks for the summaries of a meeting to be made again from a window on.
    /// `id` is that of the job, where a new one is needed.
    pub fn enqueue_rebuild_as(
        &mut self,
        meeting_id: &str,
        window_start: i64,
        id: String,
        clock: &Clock,
    ) -> (r: Result<(), AppError>)
        ensures
            outcome(r) == came_out(
                rebuild_enqueued(old(self)@, meeting_id@, window_start, id@, clock@),
            ),
            final(self)@ == or_unchanged(
                rebuild_enqueued(old(self)@, meeting_id@, window_start, id@, clock@),
                old(self)@,
            ),
    {
        let target = format_i64(window_start);
        let job_type = JobType::Rebuild;
        if self.has_job_for(&job_type, meeting_id, target.as_str()) {
            let ghost g = requeue_finished(job_type@, meeting_id@, target@, clock@);
            change_rows(
                &mut self.jobs,
                |j: Job| -> (out: Job)
                    ensures out@ == requeue_finished(JobTypeView::Rebuild, meeting_id@, target@, clock@)(j@)
                    {
                        if is_job_for(&j, &JobType::Rebuild, meeting_id, target.as_str()) && (
                        j.status == JobStatus::Completed || j.status == JobStatus::Failed) {
                            requeue(j, clock)
                        } else {
                            j
                        }
                    },
                Ghost(g),
            );
            return Ok(());
        }
        if self.has_job_id(id.as_str()) {
            return Err(taken_key("jobs.id"));
        }
        if !self.has_meeting(meeting_id) {
            return Err(broken_reference());
        }
        self.push_job(id, job_type, meeting_id, target, clock);
        Ok(())
    }

    /// Up to where a meeting is transcribed; zero where nothing is.
    pub fn completed_until(&self, meeting_id: &str) -> (until: i64)
        ensures
            until == self@.completed_until(meeting_id@),
    {
        let max = max_row(
            &self.segments,
            |g: &Segment| -> (k: Option<i64>)
                ensures k == completed_end(meeting_id@)(g@)
                {
                    if text_eq(g.meeting_id.as_str(), meeting_id) && g.status
                        == SegmentStatus::Completed {
                        Some(g.end_ms)
                    } else {
                        None
                    }
                },
            Ghost(completed_end(meeting_id@)),
        );
        match max {
            Some(n) => n,
            None => 0,
        }
    }

    /// Up to where a meeting is summarized; zero where nothing is.
    pub fn summarized_until(&self, meeting_id: &str) -> (until: i64)
        ensures
            until == self@.summarized_until(meeting_id@),
    {
        let max = max_row(
            &self.summaries,
            |r: &Summary| -> (k: Option<i64>)
                ensures k == window_end(meeting_id@)(r@)
                {
                    if text_eq(r.meeting_id.as_str(), meeting_id) {
                        Some(r.window_end_ms)
                    } else {
                        None
                    }
                },
            Ghost(window_end(meeting_id@)),
        );
        match max {
            Some(n) => n,
            None => 0,
        }
    }

    /// Asks for the next summary of a meeting, where one can be made. `id` is
    /// that of the job, where a new one is needed.
    pub fn enqueue_summary_as(
        &mut self,
        meeting_id: &str,
        final_window: bool,
        id: String,
        clock: &Clock,
    ) -> (r: Result<(), AppError>)
        ensures
            outcome(r) == came_out(
                summary_enqueued(old(self)@, meeting_id@, final_window, id@, clock@),
            ),
            final(self)@ == or_unchanged(
                summary_enqueued(old(self)@, meeting_id@, final_window, id@, clock@),
                old(self)@,
            ),
    {
        let (end, window): (i64, i64) = match self.meeting(meeting_id) {
            Some(m) => (m.next_summary_end_ms, m.summary_window_ms),
            None => return Err(missing_row()),
        };
        let start = difference(end, window);
        let unfinished = any_row(
            &self.segments,
            |g: &Segment| -> (b: bool)
                ensures b == unfinished_in(meeting_id@, start, end)(g@)
                {
                    text_eq(g.meeting_id.as_str(), meeting_id) && g.status
                        != SegmentStatus::Completed && g.status != SegmentStatus::Failed
                        && g.start_ms < end && g.end_ms > start
                },
            Ghost(unfinished_in(meeting_id@, start, end)),
        );
        if unfinished {
            return Ok(());
        }
        let until = self.completed_until(meeting_id);
        if until >= end {
            self.push_job_once(id, JobType::Summary, meeting_id, format_i64(end), clock);
        } else if final_window && until > 0 && until > self.summarized_until(meeting_id) {
            let target = concat2("final:", format_i64(until).as_str());
            self.push_job_once(id, JobType::Summary, meeting_id, target, clock);
        }
        Ok(())
    }
}

impl Store {
    /// Asks for the summaries of a meeting to be made again from a window on.
    pub fn enqueue_rebuild(&mut self, meeting_id: &str, window_start: i64, clock: &Clock) -> (r:
        Result<(), AppError>)
        ensures
            exists|id: Seq<char>|
                {
                    &&& #[trigger] is_id(id)
                    &&& outcome(r) == came_out(
                        rebuild_enqueued(old(self)@, meeting_id@, window_start, id, clock@),
                    )
                    &&& final(self)@ == or_unchanged(
                        rebuild_enqueued(old(self)@, meeting_id@, window_start, id, clock@),
                        old(self)@,
                    )
                },
    {
        let id = new_id();
        assert(is_id(id@));
        self.enqueue_rebuild_as(meeting_id, window_start, id, clock)
    }

    /// Asks for the next summary of a meeting, where one can be made.
    pub fn enqueue_summary(&mut self, meeting_id: &str, final_window: bool, clock: &Clock) -> (r:
        Result<(), AppError>)
        ensures
            exists|id: Seq<char>|
                {
                    &&& #[trigger] is_id(id)
                    &&& outcome(r) == came_out(
                        summary_enqueued(old(self)@, meeting_id@, final_window, id, clock@),
                    )
                    &&& final(self)@ == or_unchanged(
                        summary_enqueued(old(self)@, meeting_id@, final_window, id, clock@),
                        old(self)@,
                    )
                },
    {
        let id = new_id();
        assert(is_id(id@));
        self.enqueue_summary_as(meeting_id, final_window, id, clock)
    }
}

fn is_job_for(j: &Job, job_type: &JobType, meeting_id: &str, target: &str) -> (b: bool)
    ensures
        b == job_for(job_type@, meeting_id@, target@)(j@),
{
    if !j.job_type.same(job_type) || !text_eq(j.meeting_id.as_str(), meeting_id) {
        return false;
    }
    match &j.target_id {
        Some(t) => text_eq(t.as_str(), target),
        None => false,
    }
}

pub(crate) fn requeue(j: Job, clock: &Clock) -> (out: Job)
    ensures
        out@ == requeued(j@, clock@),
{
    Job {
        status: JobStatus::Pending,
        retry_count: 0,
        available_at: clock.now().copy(),
        error_message: None,
        ..j
    }
}

/// Asked for twice, a rebuild from a window is one job: the second time nothing
/// changes, whatever id and time it comes with.
pub proof fn law_rebuild_is_asked_for_once(
    s: StoreView,
    meeting_id: Seq<char>,
    window_start: i64,
    id: Seq<char>,
    clock: ClockView,
    other_id: Seq<char>,
    other_clock: ClockView,
)
    requires
        rebuild_enqueued(s, meeting_id, window_start, id, clock) is Ok,
    ensures
        ({
            let once = rebuild_enqueued(s, meeting_id, window_start, id, clock)->Ok_0;
            rebuild_enqueued(once, meeting_id, window_start, other_id, other_clock) == Ok::<
                StoreView,
                AppErrorView,
            >(once)
        }),
{
    let target = decimal(window_start as int);
    let once = rebuild_enqueued(s, meeting_id, window_start, id, clock)->Ok_0;
    let p = job_for(JobTypeView::Rebuild, meeting_id, target);
    let first_time = requeue_finished(JobTypeView::Rebuild, meeting_id, target, clock);
    let second_time = requeue_finished(JobTypeView::Rebuild, meeting_id, target, other_clock);
    if any(s.jobs, p) {
        let i = choose|i: int| 0 <= i < s.jobs.len() && p(#[trigger] s.jobs[i]);
        assert(once.jobs[i] == first_time(s.jobs[i]));
        assert(p(once.jobs[i]));
    } else {
        let last = once.jobs.len() - 1;
        assert(p(once.jobs[last]));
    }
    assert forall|i: int| 0 <= i < once.jobs.len() implies second_time(#[trigger] once.jobs[i])
        == once.jobs[i] by {
        if any(s.jobs, p) {
            assert(once.jobs[i] == first_time(s.jobs[i]));
        } else if i < s.jobs.len() {
            assert(!p(s.jobs[i]));
        }
    }
    assert(once.jobs.map_values(second_time) =~= once.jobs);
}

/// Asked for twice, the next summary of a meeting is one job: the second time
/// nothing changes, whatever id and time it comes with.
pub proof fn law_summary_is_asked_for_once(
    s: StoreView,
    meeting_id: Seq<char>,
    final_window: bool,
    id: Seq<char>,
    clock: ClockView,
    other_id: Seq<char>,
    other_clock: ClockView,
)
    requires
        summary_enqueued(s, meeting_id, final_window, id, clock) is Ok,
        !any(s.jobs, job_is(id)),
    ensures
        ({
            let once = summary_enqueued(s, meeting_id, final_window, id, clock)->Ok_0;
            summary_enqueued(once, meeting_id, final_window, other_id, other_clock) == Ok::<
                StoreView,
                AppErrorView,
            >(once)
        }),
{
    let once = summary_enqueued(s, meeting_id, final_window, id, clock)->Ok_0;
    assert(summary_target(once, meeting_id, final_window) == summary_target(
        s,
        meeting_id,
        final_window,
    ));
    match summary_target(s, meeting_id, final_window) {
        Some(target) => {
            let p = job_for(JobTypeView::Summary, meeting_id, target);
            if !any(s.jobs, p) {
                let last = once.jobs.len() - 1;
                assert(p(once.jobs[last]));
            }
        },
        None => {},
    }
}

/// While a segment of the next window is still to be transcribed, no summary is
/// asked for.
pub proof fn law_summary_waits_for_transcription(
    s: StoreView,
    meeting_id: Seq<char>,
    final_window: bool,
    id: Seq<char>,
    clock: ClockView,
    i: int,
)
    requires
        s.meeting(meeting_id) is Some,
        0 <= i < s.segments.len(),
        s.segments[i].meeting_id == meeting_id,
        s.segments[i].status == SegmentStatus::Uploaded || s.segments[i].status
            == SegmentStatus::Transcribing,
        s.segments[i].start_ms < s.meeting(meeting_id).unwrap().next_summary_end_ms,
        s.segments[i].end_ms > saturated_difference(
            s.meeting(meeting_id).unwrap().next_summary_end_ms,
            s.meeting(meeting_id).unwrap().summary_window_ms,
        ),
    ensures
        summary_enqueued(s, meeting_id, final_window, id, clock) == Ok::<StoreView, AppErrorView>(s),
{
    let meeting = s.meeting(meeting_id).unwrap();
    let end = meeting.next_summary_end_ms;
    let start = saturated_difference(end, meeting.summary_window_ms);
    assert(unfinished_in(meeting_id, start, end)(s.segments[i]));
}

/// A segment whose transcription has not failed.
pub open spec fn not_failed() -> spec_fn(SegmentView) -> bool {
    |g: SegmentView| g.status != SegmentStatus::Failed
}

/// Segments that could not be transcribed do not hold up a summary: which window
/// can be summarized is settled as if they were not there.
pub proof fn law_failed_segments_do_not_block(
    s: StoreView,
    meeting_id: Seq<char>,
    final_window: bool,
)
    ensures
        summary_target(
            StoreView { segments: s.segments.filter(not_failed()), ..s },
            meeting_id,
            final_window,
        ) == summary_target(s, meeting_id, final_window),
{
    let meeting = s.meeting(meeting_id).unwrap();
    let end = meeting.next_summary_end_ms;
    let start = saturated_difference(end, meeting.summary_window_ms);
    let q = unfinished_in(meeting_id, start, end);
    let key = completed_end(meeting_id);
    lemma_any_of_kept(s.segments, not_failed(), q);
    assert(both(not_failed(), q) =~= q);
    lemma_greatest_of_kept(s.segments, not_failed(), key);
    assert(restricted(not_failed(), key) =~= key);
}

/// Once a meeting is transcribed up to the end of its next window, with nothing in
/// that window still to come, the summary of that window is asked for; in a
/// meeting that is over, so is that of what is left.
pub proof fn law_summary_is_asked_for_in_time(
    s: StoreView,
    meeting_id: Seq<char>,
    id: Seq<char>,
    clock: ClockView,
)
    requires
        s.meeting(meeting_id) is Some,
        !any(s.jobs, job_is(id)),
        ({
            let meeting = s.meeting(meeting_id).unwrap();
            let end = meeting.next_summary_end_ms;
            !any(
                s.segments,
                unfinished_in(meeting_id, saturated_difference(end, meeting.summary_window_ms), end),
            )
        }),
    ensures
        ({
            let end = s.meeting(meeting_id).unwrap().next_summary_end_ms;
            let until = s.completed_until(meeting_id);
            let early = summary_enqueued(s, meeting_id, false, id, clock)->Ok_0;
            let late = summary_enqueued(s, meeting_id, true, id, clock)->Ok_0;
            &&& until >= end ==> any(
                early.jobs,
                job_for(JobTypeView::Summary, meeting_id, decimal(end as int)),
            )
            &&& until < end && until > 0 && until > s.summarized_until(meeting_id) ==> any(
                late.jobs,
                job_for(JobTypeView::Summary, meeting_id, final_target(until)),
            )
        }),
{
    let end = s.meeting(meeting_id).unwrap().next_summary_end_ms;
    let until = s.completed_until(meeting_id);
    let early = summary_enqueued(s, meeting_id, false, id, clock)->Ok_0;
    let late = summary_enqueued(s, meeting_id, true, id, clock)->Ok_0;
    if until >= end {
        let p = job_for(JobTypeView::Summary, meeting_id, decimal(end as int));
        if !any(s.jobs, p) {
            assert(p(early.jobs[s.jobs.len() as int]));
        }
    } else if until > 0 && until > s.summarized_until(meeting_id) {
        let p = job_for(JobTypeView::Summary, meeting_id, final_target(until));
        if !any(s.jobs, p) {
            assert(p(late.jobs[s.jobs.len() as int]));
        }
    }
}

/// A meeting is summarized up to where the last of its summaries ends; up to zero
/// where it has none.
pub proof fn law_summarized_until(s: StoreView, meeting_id: Seq<char>)
    ensures
        forall|i: int|
            0 <= i < s.summaries.len() && (#[trigger] s.summaries[i]).meeting_id == meeting_id
                ==> s.summaries[i].window_end_ms <= s.summarized_until(meeting_id),
        (exists|i: int|
            0 <= i < s.summaries.len() && (#[trigger] s.summaries[i]).meeting_id == meeting_id
                && s.summaries[i].window_end_ms == s.summarized_until(meeting_id)) || (
        s.summarized_until(meeting_id) == 0 && forall|i: int|
            0 <= i < s.summaries.len() ==> (#[trigger] s.summaries[i]).meeting_id != meeting_id),
{
    let key = window_end(meeting_id);
    lemma_greatest(s.summaries, key);
    assert forall|i: int|
        0 <= i < s.summaries.len() && (#[trigger] s.summaries[i]).meeting_id
            == meeting_id implies key(s.summaries[i]) == Some(s.summaries[i].window_end_ms) by {}
    match greatest(s.summaries, key) {
        Some(n) => {
            let i = choose|i: int|
                0 <= i < s.summaries.len() && key(#[trigger] s.summaries[i]) == Some(n);
            assert(s.summaries[i].meeting_id == meeting_id);
        },
        None => {
            assert forall|i: int| 0 <= i < s.summaries.len() implies (
            #[trigger] s.summaries[i]).meeting_id != meeting_id by {
                assert(key(s.summaries[i]) is None);
            }
        },
    }
}

/// A meeting is transcribed up to where the last of its transcribed segments ends; up
/// to zero where it has none.
pub proof fn law_completed_until(s: StoreView, meeting_id: Seq<char>)
    ensures
        forall|i: int|
            0 <= i < s.segments.len() && (#[trigger] s.segments[i]).meeting_id == meeting_id
                && s.segments[i].status == SegmentStatus::Completed ==> s.segments[i].end_ms
                <= s.completed_until(meeting_id),
        (exists|i: int|
            0 <= i < s.segments.len() && (#[trigger] s.segments[i]).meeting_id == meeting_id
                && s.segments[i].status == SegmentStatus::Completed && s.segments[i].end_ms
                == s.completed_until(meeting_id)) || (s.completed_until(meeting_id) == 0
            && forall|i: int|
            0 <= i < s.segments.len() ==> (#[trigger] s.segments[i]).meeting_id != meeting_id
                || s.segments[i].status != SegmentStatus::Completed),
{
    let key = completed_end(meeting_id);
    lemma_greatest(s.segments, key);
    assert forall|i: int|
        0 <= i < s.segments.len() && (#[trigger] s.segments[i]).meeting_id == meeting_id
            && s.segments[i].status == SegmentStatus::Completed implies key(s.segments[i]) == Some(
        s.segments[i].end_ms,
    ) by {}
    match greatest(s.segments, key) {
        Some(n) => {
            let i = choose|i: int|
                0 <= i < s.segments.len() && key(#[trigger] s.segments[i]) == Some(n);
            assert(s.segments[i].meeting_id == meeting_id);
        },
        None => {
            assert forall|i: int| 0 <= i < s.segments.len() implies (
            #[trigger] s.segments[i]).meeting_id != meeting_id || s.segments[i].status
                != SegmentStatus::Completed by {
                assert(key(s.segments[i]) is None);
            }
        },
    }
}

/// Which summary is asked for: none while a segment that overlaps the next window is
/// neither transcribed nor given up; else that of the next window once the meeting is
/// transcribed up to its end; else, at the end of a meeting, that of what was
/// transcribed behind the summaries.
pub proof fn law_which_summary_is_asked_for(
    s: StoreView,
    meeting_id: Seq<char>,
    final_window: bool,
    at: int,
)
    requires
        0 <= at < s.meetings.len(),
        s.meetings[at].id == meeting_id,
        forall|i: int| 0 <= i < at ==> (#[trigger] s.meetings[i]).id != meeting_id,
        i64::MIN <= s.meetings[at].next_summary_end_ms - s.meetings[at].summary_window_ms
            <= i64::MAX,
    ensures
        ({
            let end = s.meetings[at].next_summary_end_ms;
            let waiting = exists|i: int|
                0 <= i < s.segments.len() && (#[trigger] s.segments[i]).meeting_id == meeting_id && (
                s.segments[i].status == SegmentStatus::Uploaded || s.segments[i].status
                    == SegmentStatus::Transcribing) && s.segments[i].start_ms < end
                    && s.segments[i].end_ms > end - s.meetings[at].summary_window_ms;
            let until = s.completed_until(meeting_id);
            let done = s.summarized_until(meeting_id);
            summary_target(s, meeting_id, final_window) == if waiting {
                None
            } else if until >= end {
                Some(decimal(end as int))
            } else if final_window && until > 0 && until > done {
                Some("final:"@ + decimal(until as int))
            } else {
                None::<Seq<char>>
            }
        }),
{
    let p = meeting_is(meeting_id);
    assert(is_first(s.meetings, p, at));
    lemma_first_is(s.meetings, p, at);
    assert(any(s.meetings, p));
    let end = s.meetings[at].next_summary_end_ms;
    let start = saturated_difference(end, s.meetings[at].summary_window_ms);
    let q = unfinished_in(meeting_id, start, end);
    if any(s.segments, q) {
        let i = choose|i: int| 0 <= i < s.segments.len() && q(#[trigger] s.segments[i]);
        assert(s.segments[i].meeting_id == meeting_id);
    } else {
        assert forall|i: int|
            0 <= i < s.segments.len() && (#[trigger] s.segments[i]).meeting_id == meeting_id && (
            s.segments[i].status == SegmentStatus::Uploaded || s.segments[i].status
                == SegmentStatus::Transcribing) && s.segments[i].start_ms < end
                && s.segments[i].end_ms > end - s.meetings[at].summary_window_ms implies false by {
            assert(q(s.segments[i]));
        }
    }
}

/// Asking for a summary adds at most one job and changes nothing else. The job is for
/// the window that can be summarized now, waits from now on, and has not failed yet;
/// it is added unless there is one for that window, or with that id, already.
pub proof fn law_asking_for_a_summary_adds_a_job(
    s: StoreView,
    meeting_id: Seq<char>,
    final_window: bool,
    id: Seq<char>,
    clock: ClockView,
    at: int,
)
    requires
        0 <= at < s.meetings.len(),
        s.meetings[at].id == meeting_id,
    ensures
        ({
            let asked = summary_enqueued(s, meeting_id, final_window, id, clock);
            let target = summary_target(s, meeting_id, final_window);
            &&& asked is Ok
            &&& if target is Some && forall|i: int|
                0 <= i < s.jobs.len() ==> (#[trigger] s.jobs[i]).id != id && !(s.jobs[i].job_type
                    == JobTypeView::Summary && s.jobs[i].meeting_id == meeting_id
                    && s.jobs[i].target_id == target) {
                let new = asked->Ok_0;
                let job = new.jobs[s.jobs.len() as int];
                &&& new.jobs.len() == s.jobs.len() + 1
                &&& forall|i: int| 0 <= i < s.jobs.len() ==> new.jobs[i] == #[trigger] s.jobs[i]
                &&& job.id == id && job.job_type == JobTypeView::Summary && job.meeting_id
                    == meeting_id && job.target_id == target && job.status == JobStatus::Pending
                    && job.retry_count == 0 && job.available_at == clock.now && job.error_message
                    is None
                &&& new.meetings == s.meetings && new.speakers == s.speakers && new.segments
                    == s.segments && new.summaries == s.summaries && new.boards == s.boards
                    && new.board_versions == s.board_versions
            } else {
                asked->Ok_0 == s
            }
        }),
{
    assert(meeting_is(meeting_id)(s.meetings[at]));
    lemma_first_holds(s.meetings, meeting_is(meeting_id));
    let target = summary_target(s, meeting_id, final_window);
    if target is Some {
        let p = job_for(JobTypeView::Summary, meeting_id, target.unwrap());
        let fresh = forall|i: int|
            0 <= i < s.jobs.len() ==> (#[trigger] s.jobs[i]).id != id && !(s.jobs[i].job_type
                == JobTypeView::Summary && s.jobs[i].meeting_id == meeting_id
                && s.jobs[i].target_id == target);
        if fresh {
            assert(!any(s.jobs, job_is(id)));
            assert(!any(s.jobs, p));
        } else {
            let i = choose|i: int|
                0 <= i < s.jobs.len() && !((#[trigger] s.jobs[i]).id != id && !(s.jobs[i].job_type
                    == JobTypeView::Summary && s.jobs[i].meeting_id == meeting_id
                    && s.jobs[i].target_id == target));
            assert(job_is(id)(s.jobs[i]) || p(s.jobs[i]));
        }
    }
}

/// Asking to go back to a window leaves one job for that window that waits or runs,
/// with the start of the window as its target. A job for it that is done or has failed
/// waits again as if it were new; one that waits or runs stays as it is; where there is
/// none, one is added. All other jobs, and all other rows, stay as they are.
pub proof fn law_asking_to_go_back_leaves_a_job(
    s: StoreView,
    meeting_id: Seq<char>,
    window_start: i64,
    id: Seq<char>,
    clock: ClockView,
)
    requires
        rebuild_enqueued(s, meeting_id, window_start, id, clock) is Ok,
    ensures
        ({
            let new = rebuild_enqueued(s, meeting_id, window_start, id, clock)->Ok_0;
            let target = Some(decimal(window_start as int));
            &&& s.jobs.len() <= new.jobs.len() <= s.jobs.len() + 1
            &&& forall|i: int|
                0 <= i < s.jobs.len() ==> if (#[trigger] s.jobs[i]).job_type == JobTypeView::Rebuild
                    && s.jobs[i].meeting_id == meeting_id && s.jobs[i].target_id == target && (
                s.jobs[i].status == JobStatus::Completed || s.jobs[i].status == JobStatus::Failed) {
                    &&& new.jobs[i].id == s.jobs[i].id
                    &&& new.jobs[i].job_type == JobTypeView::Rebuild
                    &&& new.jobs[i].meeting_id == meeting_id
                    &&& new.jobs[i].target_id == target
                    &&& new.jobs[i].status == JobStatus::Pending
                    &&& new.jobs[i].retry_count == 0
                    &&& new.jobs[i].available_at == clock.now
                    &&& new.jobs[i].error_message is None
                } else {
                    new.jobs[i] == s.jobs[i]
                }
            &&& exists|i: int|
                0 <= i < new.jobs.len() && (#[trigger] new.jobs[i]).job_type == JobTypeView::Rebuild
                    && new.jobs[i].meeting_id == meeting_id && new.jobs[i].target_id == target && (
                new.jobs[i].status == JobStatus::Pending || new.jobs[i].status
                    == JobStatus::Running)
            &&& new.jobs.len() > s.jobs.len() ==> {
                let job = new.jobs[s.jobs.len() as int];
                &&& forall|i: int|
                    0 <= i < s.jobs.len() ==> !((#[trigger] s.jobs[i]).job_type
                        == JobTypeView::Rebuild && s.jobs[i].meeting_id == meeting_id
                        && s.jobs[i].target_id == target)
                &&& job.id == id && job.job_type == JobTypeView::Rebuild && job.meeting_id
                    == meeting_id && job.target_id == target && job.status == JobStatus::Pending
                    && job.retry_count == 0 && job.available_at == clock.now && job.error_message
                    is None
            }
            &&& new.meetings == s.meetings && new.speakers == s.speakers && new.segments
                == s.segments && new.summaries == s.summaries && new.boards == s.boards
                && new.board_versions == s.board_versions
        }),
{
    let new = rebuild_enqueued(s, meeting_id, window_start, id, clock)->Ok_0;
    let target = decimal(window_start as int);
    let p = job_for(JobTypeView::Rebuild, meeting_id, target);
    if any(s.jobs, p) {
        let i = choose|i: int| 0 <= i < s.jobs.len() && p(#[trigger] s.jobs[i]);
        assert(new.jobs[i].job_type == JobTypeView::Rebuild);
    } else {
        let last = s.jobs.len() as int;
        assert(new.jobs[last].job_type == JobTypeView::Rebuild);
        assert forall|i: int| 0 <= i < s.jobs.len() implies !((#[trigger] s.jobs[i]).job_type
            == JobTypeView::Rebuild && s.jobs[i].meeting_id == meeting_id && s.jobs[i].target_id
            == Some(target)) by {
            assert(!p(s.jobs[i]));
        }
    }
}

/// The difference of two numbers is taken as it is where it fits, and the nearest number
/// that fits stands for it where it does not.
pub proof fn law_difference_is_the_nearest_that_fits(a: i64, b: i64)
    ensures
        i64::MIN <= a - b <= i64::MAX ==> saturated_difference(a, b) == a - b,
        a - b < i64::MIN ==> saturated_difference(a, b) == i64::MIN,
        a - b > i64::MAX ==> saturated_difference(a, b) == i64::MAX,
{
}

/// It can be asked to go back to a window of a meeting that is there, where the id for a new
/// job is free.
pub proof fn law_going_back_can_be_asked_for(
    s: StoreView,
    meeting_id: Seq<char>,
    window_start: i64,
    id: Seq<char>,
    clock: ClockView,
    at: int,
)
    requires
        0 <= at < s.meetings.len(),
        s.meetings[at].id == meeting_id,
        forall|i: int| 0 <= i < s.jobs.len() ==> (#[trigger] s.jobs[i]).id != id,
    ensures
        rebuild_enqueued(s, meeting_id, window_start, id, clock) is Ok,
{
    assert(meeting_is(meeting_id)(s.meetings[at]));
}

/// What the database says where it cannot be asked to go back: that the id for the job is
/// taken, or else that the meeting is not there.
pub proof fn law_why_going_back_is_refused(
    s: StoreView,
    meeting_id: Seq<char>,
    window_start: i64,
    id: Seq<char>,
    clock: ClockView,
)
    requires
        rebuild_enqueued(s, meeting_id, window_start, id, clock) is Err,
    ensures
        rebuild_enqueued(s, meeting_id, window_start, id, clock)->Err_0 == if exists|i: int|
            0 <= i < s.jobs.len() && (#[trigger] s.jobs[i]).id == id {
            key_taken("jobs.id"@)
        } else {
            reference_broken()
        },
{
    let p = job_is(id);
    if any(s.jobs, p) {
        let i = choose|i: int| 0 <= i < s.jobs.len() && p(#[trigger] s.jobs[i]);
        assert(s.jobs[i].id == id);
    }
    if exists|i: int| 0 <= i < s.jobs.len() && (#[trigger] s.jobs[i]).id == id {
        let i = choose|i: int| 0 <= i < s.jobs.len() && (#[trigger] s.jobs[i]).id == id;
        assert(p(s.jobs[i]));
    }
}

} // verus!
