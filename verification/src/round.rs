//! One round of the worker: the jobs that are due are gone through once. A job that
//! cannot be claimed is passed over, and one that fails does not hold up the others.
use vstd::prelude::*;

use crate::error::{error_text, outcome, row_not_found, AppError, AppErrorView};
use crate::events::{event_views, EventView, MeetingEvent};
use crate::ids::{is_id, new_id};
use crate::jobs::job_is;
use crate::queue::{
    claimable, claiming, countable, due_jobs, failing, job_claimed, job_finished,
    law_due_jobs_are_due,
    JOBS_PER_ROUND, MAX_RETRIES,
};
use crate::rows::{any, first, lemma_first_holds, lemma_first_of_map, views};
use crate::store::{
    meeting_is, Clock, ClockView, Job, JobTypeView, JobView, Store, StoreView,
};

verus! {

/// How far a round is, which tells what the worker does next.
#[derive(Debug)]
pub enum Round {
    /// This job is to be claimed.
    Claim { job: Job, rest: Vec<Job>, ran: Vec<Job> },
    /// This job was claimed, and is to be run.
    Run { job: Job, rest: Vec<Job>, ran: Vec<Job> },
    /// The round is over, with how many jobs ran, or with why it broke off.
    Over(Result<usize, AppError>),
}

/// The model of a [`Round`].
pub enum RoundView {
    Claim { job: JobView, rest: Seq<JobView>, ran: Seq<JobView> },
    Run { job: JobView, rest: Seq<JobView>, ran: Seq<JobView> },
    Over(Result<nat, AppErrorView>),
}

impl View for Round {
    type V = RoundView;

    open spec fn view(&self) -> RoundView {
        match self {
            Round::Claim { job, rest, ran } => RoundView::Claim {
                job: job@,
                rest: views(rest@),
                ran: views(ran@),
            },
            Round::Run { job, rest, ran } => RoundView::Run {
                job: job@,
                rest: views(rest@),
                ran: views(ran@),
            },
            Round::Over(Ok(n)) => RoundView::Over(Ok(*n as nat)),
            Round::Over(Err(e)) => RoundView::Over(Err(e@)),
        }
    }
}

/// A round in which these jobs are left and those ran.
pub open spec fn going_on(left: Seq<JobView>, ran: Seq<JobView>) -> RoundView {
    if left.len() == 0 {
        RoundView::Over(Ok(ran.len()))
    } else {
        RoundView::Claim { job: left[0], rest: left.skip(1), ran }
    }
}

/// A round at its beginning.
pub open spec fn round_begun(s: StoreView, clock: ClockView) -> RoundView {
    going_on(due_jobs(s, clock), Seq::empty())
}

/// The store and the round after the job that is to be claimed was claimed, if it
/// still could be; else it is passed over.
pub open spec fn round_claimed(s: StoreView, round: RoundView, clock: ClockView) -> (
    StoreView,
    RoundView,
) {
    match round {
        RoundView::Claim { job, rest, ran } => if any(s.jobs, claimable(job.id, clock)) {
            (
                StoreView { jobs: s.jobs.map_values(claiming(job.id, clock)), ..s },
                RoundView::Run { job, rest, ran },
            )
        } else {
            (s, going_on(rest, ran))
        },
        _ => (s, round),
    }
}

/// The store, the events and the round after it was noted how the job that ran came
/// out. The round goes on, unless that could not be noted.
pub open spec fn round_noted(
    s: StoreView,
    round: RoundView,
    result: Result<(), AppErrorView>,
    summary_job: Seq<char>,
    clock: ClockView,
) -> (StoreView, Seq<EventView>, RoundView) {
    match round {
        RoundView::Run { job, rest, ran } => {
            let (new, told, noted) = job_finished(s, job, result, summary_job, clock);
            match noted {
                Ok(_) => (new, told, going_on(rest, ran.push(job))),
                Err(e) => (new, told, RoundView::Over(Err(e))),
            }
        },
        _ => (s, Seq::empty(), round),
    }
}

/// The job that is to be run, where the round is there.
pub open spec fn to_run(round: RoundView) -> Option<JobView> {
    match round {
        RoundView::Run { job, .. } => Some(job),
        _ => None,
    }
}

/// The job that is to be claimed, where the round is there.
pub open spec fn to_claim(round: RoundView) -> Option<JobView> {
    match round {
        RoundView::Claim { job, .. } => Some(job),
        _ => None,
    }
}

fn go_on(left: Vec<Job>, ran: Vec<Job>) -> (round: Round)
    ensures
        round@ == going_on(views(left@), views(ran@)),
{
    if left.len() == 0 {
        return Round::Over(Ok(ran.len()));
    }
    let mut rest = left;
    let job = rest.remove(0);
    assert(views(rest@) =~= views(left@).skip(1));
    Round::Claim { job, rest, ran }
}

proof fn lemma_nothing_is_claimed(s: StoreView, id: Seq<char>, clock: ClockView)
    requires
        !any(s.jobs, claimable(id, clock)),
    ensures
        s.jobs.map_values(claiming(id, clock)) == s.jobs,
{
    assert forall|i: int| 0 <= i < s.jobs.len() implies claiming(id, clock)(#[trigger] s.jobs[i])
        == s.jobs[i] by {
        assert(!claimable(id, clock)(s.jobs[i]));
    }
    assert(s.jobs.map_values(claiming(id, clock)) =~= s.jobs);
}

impl Store {
    /// Begins a round with the jobs that are due now.
    pub fn begin_round(&self, clock: &Clock) -> (round: Round)
        ensures
            round@ == round_begun(self@, clock@),
    {
        let ran: Vec<Job> = Vec::new();
        assert(views(ran@) =~= Seq::<JobView>::empty());
        go_on(self.due_jobs(clock), ran)
    }

    /// Claims the job that is to be claimed next, or passes it over where it cannot
    /// be claimed any more.
    pub fn claim_in_round(&mut self, round: Round, clock: &Clock) -> (next: Round)
        ensures
            (final(self)@, next@) == round_claimed(old(self)@, round@, clock@),
    {
        match round {
            Round::Claim { job, rest, ran } => {
                let ghost before = self@;
                if self.claim_job(job.id.as_str(), clock) {
                    return Round::Run { job, rest, ran };
                }
                proof {
                    lemma_nothing_is_claimed(before, job@.id, clock@);
                }
                go_on(rest, ran)
            },
            other => other,
        }
    }

    /// Notes how the job that ran came out. `summary_job` is the id of the job for
    /// the next summary, where one is needed.
    pub fn finish_in_round_as(
        &mut self,
        round: Round,
        result: Result<(), AppError>,
        summary_job: String,
        clock: &Clock,
    ) -> (noted: (Vec<MeetingEvent>, Round))
        requires
            result is Err && round is Run ==> countable(old(self)@, to_run(round@).unwrap().id),
        ensures
            (final(self)@, event_views(noted.0@), noted.1@) == round_noted(
                old(self)@,
                round@,
                outcome(result),
                summary_job@,
                clock@,
            ),
    {
        match round {
            Round::Run { job, rest, ran } => {
                let (events, noted) = self.finish_job_as(&job, result, summary_job, clock);
                match noted {
                    Ok(()) => {
                        let ghost before = ran@;
                        let mut ran = ran;
                        ran.push(job);
                        assert(views(ran@) =~= views(before).push(job@));
                        (events, go_on(rest, ran))
                    },
                    Err(e) => (events, Round::Over(Err(e))),
                }
            },
            other => {
                let events: Vec<MeetingEvent> = Vec::new();
                assert(event_views(events@) =~= Seq::<EventView>::empty());
                (events, other)
            },
        }
    }

    /// Notes how the job that ran came out.
    pub fn finish_in_round(
        &mut self,
        round: Round,
        result: Result<(), AppError>,
        clock: &Clock,
    ) -> (noted: (Vec<MeetingEvent>, Round))
        requires
            result is Err && round is Run ==> countable(old(self)@, to_run(round@).unwrap().id),
        ensures
            exists|id: Seq<char>|
                #[trigger] is_id(id) && (final(self)@, event_views(noted.0@), noted.1@)
                    == round_noted(old(self)@, round@, outcome(result), id, clock@),
    {
        let id = new_id();
        assert(is_id(id@));
        self.finish_in_round_as(round, result, id, clock)
    }
}

/// Something that happens in a round, with the store as it is then: others may have
/// changed it meanwhile.
pub enum RoundStep {
    /// The next job is claimed, or passed over.
    Claim { s: StoreView, clock: ClockView },
    /// It is noted how the job that ran came out.
    Note {
        s: StoreView,
        result: Result<(), AppErrorView>,
        summary_job: Seq<char>,
        clock: ClockView,
    },
}

/// A round after one more step.
pub open spec fn stepped(round: RoundView, step: RoundStep) -> RoundView {
    match step {
        RoundStep::Claim { s, clock } => round_claimed(s, round, clock).1,
        RoundStep::Note { s, result, summary_job, clock } => round_noted(
            s,
            round,
            result,
            summary_job,
            clock,
        ).2,
    }
}

/// A round after these steps.
pub open spec fn round_after(round: RoundView, steps: Seq<RoundStep>) -> RoundView
    decreases steps.len(),
{
    if steps.len() == 0 {
        round
    } else {
        stepped(round_after(round, steps.drop_last()), steps.last())
    }
}

/// The jobs that ran, and of which it was noted how they came out, in these steps of
/// a round.
pub open spec fn executed(round: RoundView, steps: Seq<RoundStep>) -> Seq<JobView>
    decreases steps.len(),
{
    if steps.len() == 0 {
        Seq::empty()
    } else {
        let before = executed(round, steps.drop_last());
        match (to_run(round_after(round, steps.drop_last())), steps.last()) {
            (Some(job), RoundStep::Note { .. }) => before.push(job),
            _ => before,
        }
    }
}

/// Whether a step comes upon a job that can be claimed.
pub open spec fn can_claim(step: RoundStep, job: JobView) -> bool {
    match step {
        RoundStep::Claim { s, clock } => any(s.jobs, claimable(job.id, clock)),
        _ => false,
    }
}

/// Whether a step comes upon a job that cannot be claimed.
pub open spec fn cannot_claim(step: RoundStep, job: JobView) -> bool {
    match step {
        RoundStep::Claim { s, clock } => !any(s.jobs, claimable(job.id, clock)),
        _ => false,
    }
}

/// Whether a job was claimed in one of these steps of a round: it could be when it
/// was up.
pub open spec fn was_claimed(job: JobView, round: RoundView, steps: Seq<RoundStep>) -> bool {
    exists|k: int|
        0 <= k < steps.len() && to_claim(round_after(round, steps.take(k))) == Some(job)
            && can_claim(#[trigger] steps[k], job)
}

/// Whether a job was passed over in one of these steps of a round: it could not be
/// claimed when it was up.
pub open spec fn was_passed(job: JobView, round: RoundView, steps: Seq<RoundStep>) -> bool {
    exists|k: int|
        0 <= k < steps.len() && to_claim(round_after(round, steps.take(k))) == Some(job)
            && cannot_claim(#[trigger] steps[k], job)
}

/// Whether the parts stand at these places of the whole, one after the other.
pub open spec fn stand_at(part: Seq<JobView>, whole: Seq<JobView>, places: Seq<int>) -> bool {
    &&& places.len() == part.len()
    &&& forall|i: int|
        0 <= i < part.len() ==> 0 <= #[trigger] places[i] < whole.len() && part[i]
            == whole[places[i]]
    &&& forall|i: int, j: int|
        0 <= i < j < part.len() ==> #[trigger] places[i] < #[trigger] places[j]
}

/// Whether jobs are some of these, in the same order, none of them twice.
pub open spec fn are_some_of(part: Seq<JobView>, whole: Seq<JobView>) -> bool {
    exists|places: Seq<int>| stand_at(part, whole, places)
}

/// Whether these jobs ran, and the other ones of the first `k` were passed over.
spec fn have_history(
    ran: Seq<JobView>,
    due: Seq<JobView>,
    start: RoundView,
    steps: Seq<RoundStep>,
    k: int,
) -> bool {
    &&& forall|i: int| 0 <= i < ran.len() ==> was_claimed(#[trigger] ran[i], start, steps)
    &&& forall|i: int|
        0 <= i < k ==> ran.contains(#[trigger] due[i]) || was_passed(due[i], start, steps)
}

/// How far a round is: the first `k` of its jobs are dealt with.
spec fn dealt_with(
    round: RoundView,
    start: RoundView,
    ran: Seq<JobView>,
    due: Seq<JobView>,
    steps: Seq<RoundStep>,
    k: int,
) -> bool {
    &&& 0 <= k <= due.len()
    &&& ran.len() <= k
    &&& are_some_of(ran, due.take(k))
    &&& have_history(ran, due, start, steps, k)
    &&& match round {
        RoundView::Claim { job, rest, ran: noted } => k < due.len() && job == due[k] && rest
            == due.skip(k + 1) && noted == ran,
        RoundView::Run { job, rest, ran: noted } => k < due.len() && job == due[k] && rest
            == due.skip(k + 1) && noted == ran && was_claimed(job, start, steps),
        RoundView::Over(Ok(n)) => k == due.len() && n == ran.len(),
        RoundView::Over(Err(_)) => true,
    }
}

proof fn lemma_one_more(part: Seq<JobView>, whole: Seq<JobView>, k: int)
    requires
        0 <= k < whole.len(),
        are_some_of(part, whole.take(k)),
    ensures
        are_some_of(part, whole.take(k + 1)),
        are_some_of(part.push(whole[k]), whole.take(k + 1)),
{
    let places = choose|places: Seq<int>| stand_at(part, whole.take(k), places);
    assert(stand_at(part, whole.take(k + 1), places));
    let more = places.push(k);
    assert(stand_at(part.push(whole[k]), whole.take(k + 1), more));
}

proof fn lemma_skip_one_more(whole: Seq<JobView>, k: int)
    requires
        0 <= k <= whole.len(),
    ensures
        k < whole.len() ==> whole.skip(k).skip(1) == whole.skip(k + 1),
{
    if k < whole.len() {
        assert(whole.skip(k).skip(1) =~= whole.skip(k + 1));
    }
}

proof fn lemma_history_grows(start: RoundView, steps: Seq<RoundStep>, job: JobView)
    requires
        steps.len() > 0,
    ensures
        was_claimed(job, start, steps.drop_last()) ==> was_claimed(job, start, steps),
        was_passed(job, start, steps.drop_last()) ==> was_passed(job, start, steps),
{
    let earlier = steps.drop_last();
    if was_claimed(job, start, earlier) {
        let n = choose|n: int|
            0 <= n < earlier.len() && to_claim(round_after(start, earlier.take(n))) == Some(job)
                && can_claim(#[trigger] earlier[n], job);
        assert(steps.take(n) =~= earlier.take(n));
        assert(can_claim(steps[n], job));
    }
    if was_passed(job, start, earlier) {
        let n = choose|n: int|
            0 <= n < earlier.len() && to_claim(round_after(start, earlier.take(n))) == Some(job)
                && cannot_claim(#[trigger] earlier[n], job);
        assert(steps.take(n) =~= earlier.take(n));
        assert(cannot_claim(steps[n], job));
    }
}

proof fn lemma_last_step(start: RoundView, steps: Seq<RoundStep>, job: JobView)
    requires
        steps.len() > 0,
        to_claim(round_after(start, steps.drop_last())) == Some(job),
    ensures
        can_claim(steps.last(), job) ==> was_claimed(job, start, steps),
        cannot_claim(steps.last(), job) ==> was_passed(job, start, steps),
{
    let last = steps.len() - 1;
    assert(steps.take(last) =~= steps.drop_last());
    assert(steps[last] == steps.last());
}

proof fn lemma_history(
    ran: Seq<JobView>,
    due: Seq<JobView>,
    start: RoundView,
    steps: Seq<RoundStep>,
    k: int,
)
    requires
        steps.len() > 0,
        have_history(ran, due, start, steps.drop_last(), k),
    ensures
        have_history(ran, due, start, steps, k),
{
    assert forall|i: int| 0 <= i < ran.len() implies was_claimed(
        #[trigger] ran[i],
        start,
        steps,
    ) by {
        lemma_history_grows(start, steps, ran[i]);
    }
    assert forall|i: int| 0 <= i < k implies ran.contains(#[trigger] due[i]) || was_passed(
        due[i],
        start,
        steps,
    ) by {
        lemma_history_grows(start, steps, due[i]);
    }
}

proof fn lemma_job_ran(
    ran: Seq<JobView>,
    due: Seq<JobView>,
    start: RoundView,
    steps: Seq<RoundStep>,
    k: int,
)
    requires
        0 <= k < due.len(),
        have_history(ran, due, start, steps, k),
        was_claimed(due[k], start, steps),
    ensures
        have_history(ran.push(due[k]), due, start, steps, k + 1),
{
    let more = ran.push(due[k]);
    assert(more[ran.len() as int] == due[k]);
    assert forall|i: int| 0 <= i < more.len() implies was_claimed(
        #[trigger] more[i],
        start,
        steps,
    ) by {
        if i < ran.len() {
            assert(more[i] == ran[i]);
        }
    }
    assert forall|i: int| 0 <= i < k + 1 implies more.contains(#[trigger] due[i]) || was_passed(
        due[i],
        start,
        steps,
    ) by {
        if i < k && ran.contains(due[i]) {
            let n = choose|n: int| 0 <= n < ran.len() && ran[n] == due[i];
            assert(more[n] == due[i]);
        }
    }
}

proof fn lemma_round(due: Seq<JobView>, steps: Seq<RoundStep>) -> (k: int)
    ensures
        ({
            let start = going_on(due, Seq::empty());
            dealt_with(round_after(start, steps), start, executed(start, steps), due, steps, k)
        }),
    decreases steps.len(),
{
    let start = going_on(due, Seq::empty());
    if steps.len() == 0 {
        let none = Seq::<JobView>::empty();
        assert(stand_at(none, due.take(0), Seq::empty()));
        assert(are_some_of(none, due.take(0)));
        assert(due.skip(0) =~= due);
        assert(executed(start, steps) == none);
        0
    } else {
        let earlier = steps.drop_last();
        let step = steps.last();
        let k = lemma_round(due, earlier);
        let before = round_after(start, earlier);
        let ran = executed(start, earlier);
        assert(round_after(start, steps) == stepped(before, step));
        lemma_history(ran, due, start, steps, k);
        if k < due.len() {
            lemma_history_grows(start, steps, due[k]);
            lemma_one_more(ran, due, k);
            lemma_skip_one_more(due, k + 1);
        }
        match (before, step) {
            (RoundView::Claim { job, rest, .. }, RoundStep::Claim { s, clock }) => {
                assert(executed(start, steps) == ran);
                lemma_last_step(start, steps, job);
                if any(s.jobs, claimable(job.id, clock)) {
                    k
                } else {
                    assert(have_history(ran, due, start, steps, k + 1));
                    k + 1
                }
            },
            (RoundView::Run { job, rest, .. }, RoundStep::Note { .. }) => {
                assert(executed(start, steps) == ran.push(job));
                lemma_job_ran(ran, due, start, steps, k);
                k + 1
            },
            _ => {
                assert(executed(start, steps) == ran);
                k
            },
        }
    }
}

/// Whatever happens in a round, and whatever others do meanwhile: the jobs that ran
/// are jobs that were due when it began, in the order in which they may run, none of
/// them twice and no more than a round takes, and each of them was claimed. When the
/// round is over, it tells how many ran, and every job that was due ran or was passed
/// over.
pub proof fn law_round_runs_what_it_claims(s: StoreView, clock: ClockView, steps: Seq<RoundStep>)
    ensures
        ({
            let due = due_jobs(s, clock);
            let start = round_begun(s, clock);
            let ran = executed(start, steps);
            let at = round_after(start, steps);
            &&& are_some_of(ran, due)
            &&& ran.len() <= JOBS_PER_ROUND
            &&& forall|i: int, j: int|
                0 <= i < j < ran.len() ==> (#[trigger] ran[i]).available_at.seconds <= (
                #[trigger] ran[j]).available_at.seconds
            &&& forall|i: int| 0 <= i < ran.len() ==> was_claimed(#[trigger] ran[i], start, steps)
            &&& at matches RoundView::Over(Ok(n)) ==> n == ran.len() && forall|i: int|
                0 <= i < due.len() ==> ran.contains(#[trigger] due[i]) || was_passed(due[i], start, steps)
        }),
{
    let due = due_jobs(s, clock);
    let ran = executed(round_begun(s, clock), steps);
    let k = lemma_round(due, steps);
    let places = choose|places: Seq<int>| stand_at(ran, due.take(k), places);
    assert(stand_at(ran, due, places));
    if due.len() > 0 {
        law_due_jobs_are_due(s, clock, 0);
    }
    assert forall|i: int, j: int| 0 <= i < j < ran.len() implies (
    #[trigger] ran[i]).available_at.seconds <= (#[trigger] ran[j]).available_at.seconds by {
        assert(places[i] < places[j]);
        lemma_due_in_order(s, clock, places[i], places[j]);
    }
}

proof fn lemma_due_in_order(s: StoreView, clock: ClockView, i: int, j: int)
    requires
        0 <= i <= j < due_jobs(s, clock).len(),
    ensures
        due_jobs(s, clock)[i].available_at.seconds <= due_jobs(s, clock)[j].available_at.seconds,
    decreases j - i,
{
    if i < j {
        lemma_due_in_order(s, clock, i, j - 1);
        law_due_jobs_are_due(s, clock, j);
    }
}

/// Whether it can be noted that a job failed. It cannot where the job was the last try
/// of a transcription whose meeting is missing.
pub open spec fn can_be_noted(s: StoreView, job: JobView) -> bool {
    ||| job.job_type != JobTypeView::Transcribe
    ||| s.has_meeting(job.meeting_id)
    ||| match first(s.jobs, job_is(job.id)) {
        Some(j) => j.retry_count < MAX_RETRIES,
        None => true,
    }
}

/// Whether it can be noted in a step that any of these jobs failed.
pub open spec fn can_note(step: RoundStep, due: Seq<JobView>) -> bool {
    match step {
        RoundStep::Note { s, .. } => forall|i: int|
            0 <= i < due.len() ==> can_be_noted(s, #[trigger] due[i]),
        _ => true,
    }
}

/// A round does not break off, however many jobs fail, where their failures can be
/// noted.
pub proof fn law_round_does_not_break_off(s: StoreView, clock: ClockView, steps: Seq<RoundStep>)
    requires
        forall|k: int|
            0 <= k < steps.len() ==> can_note(#[trigger] steps[k], due_jobs(s, clock)),
    ensures
        !(round_after(round_begun(s, clock), steps) matches RoundView::Over(Err(_))),
    decreases steps.len(),
{
    if steps.len() > 0 {
        let due = due_jobs(s, clock);
        let earlier = steps.drop_last();
        assert forall|k: int| 0 <= k < earlier.len() implies can_note(
            #[trigger] earlier[k],
            due,
        ) by {
            assert(earlier[k] == steps[k]);
        }
        law_round_does_not_break_off(s, clock, earlier);
        let k = lemma_round(due, earlier);
        let before = round_after(round_begun(s, clock), earlier);
        let step = steps[steps.len() - 1];
        assert(can_note(step, due));
        match (before, step) {
            (RoundView::Run { job, rest, ran }, RoundStep::Note { s, result, summary_job, clock }) => {
                assert(job == due[k]);
                if result is Err {
                    law_failed_job_does_not_end_the_round(
                        s,
                        job,
                        rest,
                        ran,
                        result->Err_0,
                        summary_job,
                        clock,
                    );
                }
            },
            _ => {},
        }
    }
}

/// Where no job is due, a round is over at once, and none ran.
pub proof fn law_nothing_due_is_nothing_done(s: StoreView, clock: ClockView)
    ensures
        due_jobs(s, clock).len() == 0 <==> round_begun(s, clock) == RoundView::Over(
            Ok::<nat, AppErrorView>(0),
        ),
{
}

/// A job that cannot be claimed is passed over: nothing changes, and the next one is
/// up.
pub proof fn law_unclaimed_job_is_passed_over(
    s: StoreView,
    job: JobView,
    rest: Seq<JobView>,
    ran: Seq<JobView>,
    clock: ClockView,
)
    requires
        !any(s.jobs, claimable(job.id, clock)),
    ensures
        round_claimed(s, RoundView::Claim { job, rest, ran }, clock) == (s, going_on(rest, ran)),
{
}

/// A job that fails does not end the round: the round goes on as if the job had been
/// done, and counts it. It breaks off only where the failure cannot be noted.
pub proof fn law_failed_job_does_not_end_the_round(
    s: StoreView,
    job: JobView,
    rest: Seq<JobView>,
    ran: Seq<JobView>,
    reason: AppErrorView,
    summary_job: Seq<char>,
    clock: ClockView,
)
    ensures
        ({
            let round = RoundView::Run { job, rest, ran };
            let failed = round_noted(s, round, Err(reason), summary_job, clock).2;
            &&& can_be_noted(s, job) ==> failed == going_on(rest, ran.push(job)) && failed
                == round_noted(s, round, Ok(()), summary_job, clock).2
            &&& !can_be_noted(s, job) ==> failed == RoundView::Over(
                Err::<nat, AppErrorView>(row_not_found()),
            )
        }),
{
    lemma_first_holds(s.meetings, meeting_is(job.meeting_id));
    lemma_first_holds(s.jobs, job_is(job.id));
    lemma_first_of_map(s.jobs, job_is(job.id), failing(job.id, error_text(reason), clock));
}

/// How many steps a round takes at most.
pub open spec fn steps_left(round: RoundView) -> nat {
    match round {
        RoundView::Claim { rest, .. } => 2 * rest.len() + 2,
        RoundView::Run { rest, .. } => 2 * rest.len() + 1,
        RoundView::Over(_) => 0,
    }
}

/// A round comes to an end: each step brings it nearer to that.
pub proof fn law_round_gets_on(
    s: StoreView,
    round: RoundView,
    result: Result<(), AppErrorView>,
    summary_job: Seq<char>,
    clock: ClockView,
)
    ensures
        round is Claim ==> steps_left(round_claimed(s, round, clock).1) < steps_left(round),
        round is Run ==> steps_left(round_noted(s, round, result, summary_job, clock).2)
            < steps_left(round),
{
}

/// A round takes the jobs in turn: it begins with the first that is due and has the others
/// before it; a job that is up is claimed, as any job is, and run where that succeeds; when
/// it ran, it is noted how it came out, as of any job; then the next one is up, and the
/// round is over when none is left. Nothing is told but what is told of that job.
pub proof fn law_round_takes_jobs_in_turn(
    s: StoreView,
    job: JobView,
    rest: Seq<JobView>,
    ran: Seq<JobView>,
    result: Result<(), AppErrorView>,
    summary_job: Seq<char>,
    clock: ClockView,
)
    ensures
        due_jobs(s, clock).len() > 0 ==> round_begun(s, clock) == (RoundView::Claim {
            job: due_jobs(s, clock)[0],
            rest: due_jobs(s, clock).skip(1),
            ran: Seq::empty(),
        }),
        ({
            let up = RoundView::Claim { job, rest, ran };
            let (new, next) = round_claimed(s, up, clock);
            let (claimed_store, claimed) = job_claimed(s, job.id, clock);
            &&& claimed ==> new == claimed_store && next == (RoundView::Run { job, rest, ran })
            &&& !claimed ==> new == s && next != up && to_run(next) is None
            &&& !claimed && rest.len() > 0 ==> next == (RoundView::Claim {
                job: rest[0],
                rest: rest.skip(1),
                ran,
            })
            &&& !claimed && rest.len() == 0 ==> next == RoundView::Over(
                Ok::<nat, AppErrorView>(ran.len()),
            )
        }),
        ({
            let (new, told, next) = round_noted(
                s,
                RoundView::Run { job, rest, ran },
                result,
                summary_job,
                clock,
            );
            let noted = job_finished(s, job, result, summary_job, clock);
            &&& new == noted.0
            &&& told == noted.1
            &&& noted.2 is Ok && rest.len() > 0 ==> next == (RoundView::Claim {
                job: rest[0],
                rest: rest.skip(1),
                ran: ran.push(job),
            })
            &&& noted.2 is Ok && rest.len() == 0 ==> next == RoundView::Over(
                Ok::<nat, AppErrorView>(ran.len() + 1),
            )
            &&& noted.2 matches Err(e) ==> next == RoundView::Over(Err::<nat, AppErrorView>(e))
        }),
{
}

} // verus!
