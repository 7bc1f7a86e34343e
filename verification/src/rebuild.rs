//! Going back to the state before a window, so that its summary and those after
//! it are made again.
use vstd::prelude::*;

use crate::error::{
    broken_reference, missing_row, outcome, processing, reference_broken, row_not_found, AppError,
    AppErrorView,
};
use crate::events::{board_rebuilt, event_views, tell_board_rebuilt, EventView, MeetingEvent};
use crate::ids::{is_id, new_id};
use crate::jobs::{came_out, or_unchanged, summary_enqueued, window_end};
use crate::number::{parse_i64, parsed_i64};
use crate::rows::{
    any, any_row, both, change_rows, find_row, first, greatest, keep_rows, lemma_any_of_kept,
    is_first, lemma_first_holds, lemma_first_is, lemma_first_of_map, lemma_greatest,
    lemma_greatest_of_kept, lemma_kept, lemma_kept_are_rows, max_row, restricted, views,
};
use crate::store::{
    meeting_is, Board, BoardVersion, BoardVersionView, BoardView, Clock, ClockView, Job, JobStatus,
    JobType, JobTypeView, JobView, Meeting, MeetingStatus, MeetingView, Store, StoreView, Summary,
    SummaryRowView,
};
use crate::text::text_eq;
use crate::windows::{
    board_of, boards_with, lemma_board_is_put, lemma_boards_with, version_in,
};

verus! {

/// A summary of a meeting whose window ends after a point in time.
pub open spec fn affected(meeting_id: Seq<char>, from: i64) -> spec_fn(SummaryRowView) -> bool {
    |r: SummaryRowView| r.meeting_id == meeting_id && r.window_end_ms > from
}

/// A summary with an id, of a meeting, whose window ends after a point in time.
pub open spec fn affected_is(meeting_id: Seq<char>, from: i64, id: Seq<char>) -> spec_fn(
    SummaryRowView,
) -> bool {
    |r: SummaryRowView| affected(meeting_id, from)(r) && r.id == id
}

/// A summary that stays.
pub open spec fn summary_stays(meeting_id: Seq<char>, from: i64) -> spec_fn(SummaryRowView) -> bool {
    |r: SummaryRowView| !affected(meeting_id, from)(r)
}

/// A version of a board that stays: its summary does.
pub open spec fn version_stays(
    summaries: Seq<SummaryRowView>,
    meeting_id: Seq<char>,
    from: i64,
) -> spec_fn(BoardVersionView) -> bool {
    |v: BoardVersionView| !any(summaries, affected_is(meeting_id, from, v.source_summary_id))
}

/// A job that stays: all but the summaries of a meeting, and even those while they run.
pub open spec fn job_stays(meeting_id: Seq<char>) -> spec_fn(JobView) -> bool {
    |j: JobView|
        !(j.meeting_id == meeting_id && j.job_type == JobTypeView::Summary && j.status
            != JobStatus::Running)
}

/// A board that stays: all but that of a meeting.
pub open spec fn board_stays(meeting_id: Seq<char>) -> spec_fn(BoardView) -> bool {
    |b: BoardView| b.meeting_id != meeting_id
}

/// A version of a meeting's board, with a number.
pub open spec fn version_numbered(meeting_id: Seq<char>, version: i64) -> spec_fn(
    BoardVersionView,
) -> bool {
    |v: BoardVersionView| v.meeting_id == meeting_id && v.version == version
}

/// The latest version of a meeting's board.
pub open spec fn latest(versions: Seq<BoardVersionView>, meeting_id: Seq<char>) -> Option<
    BoardVersionView,
> {
    match greatest(versions, version_in(meeting_id)) {
        Some(n) => first(versions, version_numbered(meeting_id, n)),
        None => None,
    }
}

/// Notes the version of a meeting's board, and where its next summary ends.
pub open spec fn setting_back(meeting_id: Seq<char>, version: i64, next_end: i64) -> spec_fn(
    MeetingView,
) -> MeetingView {
    |m: MeetingView|
        if m.id == meeting_id {
            MeetingView { board_version: version, next_summary_end_ms: next_end, ..m }
        } else {
            m
        }
}

/// The store without the summaries of a meeting after a point in time, without
/// the versions of the board that came from them, and without its jobs for summaries.
pub open spec fn cut_back(s: StoreView, meeting_id: Seq<char>, from: i64) -> StoreView {
    StoreView {
        jobs: s.jobs.filter(job_stays(meeting_id)),
        board_versions: s.board_versions.filter(version_stays(s.summaries, meeting_id, from)),
        summaries: s.summaries.filter(summary_stays(meeting_id, from)),
        ..s
    }
}

/// Where the next summary ends once a meeting was set back.
pub open spec fn next_end_after(s: StoreView, meeting_id: Seq<char>, from: i64) -> int {
    cut_back(s, meeting_id, from).summarized_until(meeting_id) + s.meeting(
        meeting_id,
    ).unwrap().summary_window_ms
}

/// Whether the end of the next summary can be reckoned once a meeting was set back.
pub open spec fn rebuild_fits(s: StoreView, meeting_id: Seq<char>, target: Seq<char>) -> bool {
    parsed_i64(target) is Some && s.meeting(meeting_id) is Some ==> i64::MIN <= next_end_after(
        s,
        meeting_id,
        parsed_i64(target).unwrap(),
    ) <= i64::MAX
}

/// The version of a meeting's board after it was set back; zero where none is left.
pub open spec fn version_after(s: StoreView, meeting_id: Seq<char>, from: i64) -> i64 {
    match latest(cut_back(s, meeting_id, from).board_versions, meeting_id) {
        Some(v) => v.version,
        None => 0,
    }
}

/// The store in which a meeting is set back to the state before a window.
pub open spec fn set_back(
    s: StoreView,
    meeting_id: Seq<char>,
    from: i64,
    clock: ClockView,
) -> Result<StoreView, AppErrorView> {
    let cut = cut_back(s, meeting_id, from);
    let previous = latest(cut.board_versions, meeting_id);
    if previous is Some && !any(s.boards, board_of(meeting_id)) && !s.has_meeting(meeting_id) {
        Err(reference_broken())
    } else if s.meeting(meeting_id) is None {
        Err(row_not_found())
    } else {
        Ok(
            StoreView {
                boards: match previous {
                    Some(v) => boards_with(s.boards, meeting_id, v.version, v.content_json, clock),
                    None => s.boards.filter(board_stays(meeting_id)),
                },
                meetings: s.meetings.map_values(
                    setting_back(
                        meeting_id,
                        version_after(s, meeting_id, from),
                        next_end_after(s, meeting_id, from) as i64,
                    ),
                ),
                ..cut
            },
        )
    }
}

/// The store, the events and the outcome of setting a meeting back to the state
/// before a window and asking for its summary again.
pub open spec fn rebuilt(
    s: StoreView,
    meeting_id: Seq<char>,
    target: Seq<char>,
    job_id: Seq<char>,
    clock: ClockView,
) -> (StoreView, Seq<EventView>, Result<(), AppErrorView>) {
    match parsed_i64(target) {
        None => (s, Seq::empty(), Err(AppErrorView::Processing("invalid rebuild target"@))),
        Some(from) => match set_back(s, meeting_id, from, clock) {
            Err(e) => (s, Seq::empty(), Err(e)),
            Ok(back) => {
                let next = summary_enqueued(
                    back,
                    meeting_id,
                    s.meeting_ended(meeting_id),
                    job_id,
                    clock,
                );
                (
                    or_unchanged(next, back),
                    seq![board_rebuilt(meeting_id, version_after(s, meeting_id, from))],
                    came_out(next),
                )
            },
        },
    }
}

fn is_affected(summaries: &Vec<Summary>, meeting_id: &str, from: i64, id: &str) -> (b: bool)
    ensures
        b == any(views(summaries@), affected_is(meeting_id@, from, id@)),
{
    any_row(
        summaries,
        |r: &Summary| -> (b: bool)
            ensures b == affected_is(meeting_id@, from, id@)(r@)
            {
                text_eq(r.meeting_id.as_str(), meeting_id) && r.window_end_ms > from && text_eq(
                    r.id.as_str(),
                    id,
                )
            },
        Ghost(affected_is(meeting_id@, from, id@)),
    )
}

fn latest_of<'a>(versions: &'a Vec<BoardVersion>, meeting_id: &str) -> (found: Option<
    &'a BoardVersion,
>)
    ensures
        latest(views(versions@), meeting_id@) == match found {
            Some(v) => Some(v@),
            None => None,
        },
{
    let max = max_row(
        versions,
        |v: &BoardVersion| -> (k: Option<i64>)
            ensures k == version_in(meeting_id@)(v@)
            {
                if text_eq(v.meeting_id.as_str(), meeting_id) {
                    Some(v.version)
                } else {
                    None
                }
            },
        Ghost(version_in(meeting_id@)),
    );
    match max {
        Some(n) => find_row(
            versions,
            |v: &BoardVersion| -> (b: bool)
                ensures b == version_numbered(meeting_id@, n)(v@)
                { text_eq(v.meeting_id.as_str(), meeting_id) && v.version == n },
            Ghost(version_numbered(meeting_id@, n)),
        ),
        None => None,
    }
}

impl Store {
    fn cut_back(&mut self, meeting_id: &str, from: i64)
        ensures
            final(self)@ == cut_back(old(self)@, meeting_id@, from),
    {
        keep_rows(
            &mut self.jobs,
            |j: &Job| -> (b: bool)
                ensures b == job_stays(meeting_id@)(j@)
                {
                    !(text_eq(j.meeting_id.as_str(), meeting_id) && j.job_type.same(
                        &JobType::Summary,
                    ) && j.status != JobStatus::Running)
                },
            Ghost(job_stays(meeting_id@)),
        );
        let summaries = &self.summaries;
        let ghost all = views(summaries@);
        keep_rows(
            &mut self.board_versions,
            |v: &BoardVersion| -> (b: bool)
                ensures b == version_stays(all, meeting_id@, from)(v@)
                { !is_affected(summaries, meeting_id, from, v.source_summary_id.as_str()) },
            Ghost(version_stays(all, meeting_id@, from)),
        );
        keep_rows(
            &mut self.summaries,
            |r: &Summary| -> (b: bool)
                ensures b == summary_stays(meeting_id@, from)(r@)
                { !(text_eq(r.meeting_id.as_str(), meeting_id) && r.window_end_ms > from) },
            Ghost(summary_stays(meeting_id@, from)),
        );
    }

    /// Whether the end of the next summary can be reckoned once a meeting was set back.
    pub fn rebuild_fits(&self, meeting_id: &str, target: &str) -> (fits: bool)
        ensures
            fits == rebuild_fits(self@, meeting_id@, target@),
    {
        let from: i64 = match parse_i64(target) {
            Some(from) => from,
            None => return true,
        };
        let window: i64 = match self.meeting(meeting_id) {
            Some(m) => m.summary_window_ms,
            None => return true,
        };
        let ghost p = summary_stays(meeting_id@, from);
        let ghost key = window_end(meeting_id@);
        let max = max_row(
            &self.summaries,
            |r: &Summary| -> (k: Option<i64>)
                ensures k == restricted(p, key)(r@)
                {
                    if text_eq(r.meeting_id.as_str(), meeting_id) && r.window_end_ms <= from {
                        Some(r.window_end_ms)
                    } else {
                        None
                    }
                },
            Ghost(restricted(p, key)),
        );
        proof {
            lemma_greatest_of_kept(self@.summaries, p, key);
        }
        let last: i64 = match max {
            Some(n) => n,
            None => 0,
        };
        last.checked_add(window).is_some()
    }

    fn board_would_be_refused(&self, meeting_id: &str, from: i64) -> (refused: bool)
        ensures
            refused == (latest(
                cut_back(self@, meeting_id@, from).board_versions,
                meeting_id@,
            ) is Some && !any(self@.boards, board_of(meeting_id@)) && !self@.has_meeting(
                meeting_id@,
            )),
    {
        let summaries = &self.summaries;
        let ghost p = version_stays(self@.summaries, meeting_id@, from);
        let ghost q = version_of(meeting_id@);
        let left = any_row(
            &self.board_versions,
            |v: &BoardVersion| -> (b: bool)
                ensures b == both(p, q)(v@)
                {
                    !is_affected(summaries, meeting_id, from, v.source_summary_id.as_str())
                        && text_eq(v.meeting_id.as_str(), meeting_id)
                },
            Ghost(both(p, q)),
        );
        proof {
            lemma_any_of_kept(self@.board_versions, p, q);
            lemma_latest_is_there(self@.board_versions.filter(p), meeting_id@);
            lemma_first_holds(self@.boards, board_of(meeting_id@));
        }
        left && self.board_row(meeting_id).is_none() && !self.has_meeting(meeting_id)
    }

    /// Sets a meeting back to the state before a window, and asks for the summary
    /// of that window again. `job_id` is that of the job for it.
    pub fn process_rebuild_as(
        &mut self,
        meeting_id: &str,
        target: &str,
        job_id: String,
        clock: &Clock,
    ) -> (done: (Vec<MeetingEvent>, Result<(), AppError>))
        requires
            rebuild_fits(old(self)@, meeting_id@, target@),
        ensures
            (final(self)@, event_views(done.0@), outcome(done.1)) == rebuilt(
                old(self)@,
                meeting_id@,
                target@,
                job_id@,
                clock@,
            ),
    {
        let mut events: Vec<MeetingEvent> = Vec::new();
        proof {
            assert(event_views(events@) =~= Seq::empty());
        }
        let from: i64 = match parse_i64(target) {
            Some(from) => from,
            None => return (events, Err(processing("invalid rebuild target"))),
        };
        if self.board_would_be_refused(meeting_id, from) {
            return (events, Err(broken_reference()));
        }
        let window: i64 = match self.meeting(meeting_id) {
            Some(m) => m.summary_window_ms,
            None => return (events, Err(missing_row())),
        };
        let ended = self.meeting_ended(meeting_id);
        self.cut_back(meeting_id, from);
        let previous: Option<(i64, String)> = match latest_of(&self.board_versions, meeting_id) {
            Some(v) => Some((v.version, v.content_json.clone())),
            None => None,
        };
        let version: i64 = match previous {
            Some((version, content)) => {
                self.put_board(meeting_id, version, content.as_str(), clock);
                version
            },
            None => {
                keep_rows(
                    &mut self.boards,
                    |b: &Board| -> (stays: bool)
                        ensures stays == board_stays(meeting_id@)(b@)
                        { !text_eq(b.meeting_id.as_str(), meeting_id) },
                    Ghost(board_stays(meeting_id@)),
                );
                0
            },
        };
        let next_end: i64 = self.summarized_until(meeting_id) + window;
        change_rows(
            &mut self.meetings,
            |m: Meeting| -> (out: Meeting)
                ensures out@ == setting_back(meeting_id@, version, next_end)(m@)
                {
                    if text_eq(m.id.as_str(), meeting_id) {
                        Meeting { board_version: version, next_summary_end_ms: next_end, ..m }
                    } else {
                        m
                    }
                },
            Ghost(setting_back(meeting_id@, version, next_end)),
        );
        let told = tell_board_rebuilt(meeting_id, version);
        events.push(told);
        assert(event_views(events@) =~= seq![told@]);
        let queued = self.enqueue_summary_as(meeting_id, ended, job_id, clock);
        (events, queued)
    }

    /// Sets a meeting back to the state before a window, and asks for the summary
    /// of that window again.
    pub fn process_rebuild(&mut self, meeting_id: &str, target: &str, clock: &Clock) -> (done: (
        Vec<MeetingEvent>,
        Result<(), AppError>,
    ))
        requires
            rebuild_fits(old(self)@, meeting_id@, target@),
        ensures
            exists|id: Seq<char>|
                #[trigger] is_id(id) && (final(self)@, event_views(done.0@), outcome(done.1))
                    == rebuilt(old(self)@, meeting_id@, target@, id, clock@),
    {
        let id = new_id();
        assert(is_id(id@));
        self.process_rebuild_as(meeting_id, target, id, clock)
    }
}

/// A version of a meeting's board.
pub open spec fn version_of(meeting_id: Seq<char>) -> spec_fn(BoardVersionView) -> bool {
    |v: BoardVersionView| v.meeting_id == meeting_id
}

proof fn lemma_latest_is_there(versions: Seq<BoardVersionView>, meeting_id: Seq<char>)
    ensures
        latest(versions, meeting_id) is Some == any(versions, version_of(meeting_id)),
{
    lemma_greatest(versions, version_in(meeting_id));
    match greatest(versions, version_in(meeting_id)) {
        Some(n) => {
            let i = choose|i: int|
                0 <= i < versions.len() && version_in(meeting_id)(#[trigger] versions[i]) == Some(n);
            assert(version_numbered(meeting_id, n)(versions[i]));
            assert(version_of(meeting_id)(versions[i]));
            lemma_first_holds(versions, version_numbered(meeting_id, n));
        },
        None => {
            assert forall|i: int| 0 <= i < versions.len() implies !version_of(meeting_id)(
                #[trigger] versions[i],
            ) by {
                assert(version_in(meeting_id)(versions[i]) is None);
            }
        },
    }
}

/// After a meeting was set back to a window, none of its summaries reaches behind
/// the start of that window, no version of its board comes from one that did, and
/// none of its jobs for summaries waits but the one that is asked for anew.
pub proof fn law_rebuild_removes_what_is_affected(
    s: StoreView,
    meeting_id: Seq<char>,
    target: Seq<char>,
    job_id: Seq<char>,
    clock: ClockView,
)
    requires
        rebuilt(s, meeting_id, target, job_id, clock).2 is Ok,
    ensures
        parsed_i64(target) is Some,
        ({
            let from = parsed_i64(target).unwrap();
            let new = rebuilt(s, meeting_id, target, job_id, clock).0;
            &&& forall|i: int|
                0 <= i < new.summaries.len() && (#[trigger] new.summaries[i]).meeting_id
                    == meeting_id ==> new.summaries[i].window_end_ms <= from
            &&& forall|i: int, k: int|
                0 <= i < new.board_versions.len() && 0 <= k < s.summaries.len() && (
                #[trigger] s.summaries[k]).meeting_id == meeting_id && s.summaries[k].window_end_ms
                    > from ==> (#[trigger] new.board_versions[i]).source_summary_id
                    != s.summaries[k].id
            &&& forall|i: int|
                0 <= i < new.jobs.len() && (#[trigger] new.jobs[i]).meeting_id == meeting_id
                    && new.jobs[i].job_type == JobTypeView::Summary && new.jobs[i].status
                    != JobStatus::Running ==> new.jobs[i].id == job_id
        }),
{
    let from = parsed_i64(target).unwrap();
    let new = rebuilt(s, meeting_id, target, job_id, clock).0;
    let cut = cut_back(s, meeting_id, from);
    assert forall|i: int|
        0 <= i < new.summaries.len() && (#[trigger] new.summaries[i]).meeting_id
            == meeting_id implies new.summaries[i].window_end_ms <= from by {
        lemma_kept_are_rows(s.summaries, summary_stays(meeting_id, from), i);
    }
    assert forall|i: int, k: int|
        0 <= i < new.board_versions.len() && 0 <= k < s.summaries.len() && (
        #[trigger] s.summaries[k]).meeting_id == meeting_id && s.summaries[k].window_end_ms
            > from implies (#[trigger] new.board_versions[i]).source_summary_id
        != s.summaries[k].id by {
        lemma_kept_are_rows(s.board_versions, version_stays(s.summaries, meeting_id, from), i);
        let gone = affected_is(meeting_id, from, new.board_versions[i].source_summary_id);
        assert(!gone(s.summaries[k]));
    }
    assert forall|i: int|
        0 <= i < new.jobs.len() && (#[trigger] new.jobs[i]).meeting_id == meeting_id
            && new.jobs[i].job_type == JobTypeView::Summary && new.jobs[i].status
            != JobStatus::Running implies new.jobs[i].id == job_id by {
        if i < cut.jobs.len() {
            assert(new.jobs[i] == cut.jobs[i]);
            lemma_kept_are_rows(s.jobs, job_stays(meeting_id), i);
        }
    }
}

/// After a meeting was set back, its next summary ends one window behind those
/// that are left, and its board is the newest version that is left.
pub proof fn law_rebuild_restores_the_board(
    s: StoreView,
    meeting_id: Seq<char>,
    target: Seq<char>,
    job_id: Seq<char>,
    clock: ClockView,
)
    requires
        rebuild_fits(s, meeting_id, target),
        rebuilt(s, meeting_id, target, job_id, clock).2 is Ok,
    ensures
        ({
            let from = parsed_i64(target).unwrap();
            let new = rebuilt(s, meeting_id, target, job_id, clock).0;
            &&& new.meeting(meeting_id) is Some
            &&& new.meeting(meeting_id).unwrap().next_summary_end_ms == new.summarized_until(
                meeting_id,
            ) + s.meeting(meeting_id).unwrap().summary_window_ms
            &&& new.meeting(meeting_id).unwrap().board_version == version_after(s, meeting_id, from)
            &&& match latest(new.board_versions, meeting_id) {
                Some(v) => first(new.boards, board_of(meeting_id)) matches Some(b) && b.version
                    == v.version && b.content_json == v.content_json,
                None => first(new.boards, board_of(meeting_id)) is None,
            }
        }),
{
    let from = parsed_i64(target).unwrap();
    let new = rebuilt(s, meeting_id, target, job_id, clock).0;
    let cut = cut_back(s, meeting_id, from);
    let g = setting_back(
        meeting_id,
        version_after(s, meeting_id, from),
        next_end_after(s, meeting_id, from) as i64,
    );
    lemma_first_of_map(s.meetings, meeting_is(meeting_id), g);
    lemma_first_holds(s.meetings, meeting_is(meeting_id));
    match latest(cut.board_versions, meeting_id) {
        Some(v) => lemma_board_is_put(s.boards, meeting_id, v.version, v.content_json, clock),
        None => {
            let p = board_of(meeting_id);
            lemma_first_holds(new.boards, p);
            if any(new.boards, p) {
                let i = choose|i: int| 0 <= i < new.boards.len() && p(#[trigger] new.boards[i]);
                lemma_kept_are_rows(s.boards, board_stays(meeting_id), i);
            }
        },
    }
}

/// Going back to a window takes away no more than what follows from it. Every
/// summary of another meeting stays, and so does every one of this meeting whose
/// window ends at or before the point; a version of a board stays unless it came
/// from a summary of this meeting that ends after the point; a job stays unless it
/// is for a summary of this meeting and is not running. What stays is unchanged,
/// and nothing is made up.
pub proof fn law_rebuild_keeps_what_is_not_affected(
    s: StoreView,
    meeting_id: Seq<char>,
    target: Seq<char>,
    job_id: Seq<char>,
    clock: ClockView,
    from: i64,
)
    requires
        parsed_i64(target) == Some(from),
    ensures
        ({
            let new = rebuilt(s, meeting_id, target, job_id, clock).0;
            &&& forall|i: int|
                0 <= i < s.summaries.len() && ((#[trigger] s.summaries[i]).meeting_id != meeting_id
                    || s.summaries[i].window_end_ms <= from) ==> new.summaries.contains(
                    s.summaries[i],
                )
            &&& forall|i: int|
                0 <= i < new.summaries.len() ==> s.summaries.contains(#[trigger] new.summaries[i])
            &&& forall|i: int|
                0 <= i < s.board_versions.len() && (forall|k: int|
                    0 <= k < s.summaries.len() && (#[trigger] s.summaries[k]).meeting_id
                        == meeting_id && s.summaries[k].window_end_ms > from ==> s.summaries[k].id
                        != s.board_versions[i].source_summary_id)
                    ==> new.board_versions.contains(#[trigger] s.board_versions[i])
            &&& forall|i: int|
                0 <= i < new.board_versions.len() ==> s.board_versions.contains(
                    #[trigger] new.board_versions[i],
                )
            &&& forall|i: int|
                0 <= i < s.jobs.len() && ((#[trigger] s.jobs[i]).meeting_id != meeting_id
                    || s.jobs[i].job_type != JobTypeView::Summary || s.jobs[i].status
                    == JobStatus::Running) ==> new.jobs.contains(s.jobs[i])
            &&& forall|i: int|
                0 <= i < new.jobs.len() ==> s.jobs.contains(#[trigger] new.jobs[i]) || (
                new.jobs[i].id == job_id && new.jobs[i].meeting_id == meeting_id
                    && new.jobs[i].job_type == JobTypeView::Summary && new.jobs[i].status
                    == JobStatus::Pending)
            &&& new.segments == s.segments
            &&& new.speakers == s.speakers
        }),
{
    let new = rebuilt(s, meeting_id, target, job_id, clock).0;
    lemma_kept(s.summaries, summary_stays(meeting_id, from));
    lemma_kept(s.board_versions, version_stays(s.summaries, meeting_id, from));
    lemma_kept(s.jobs, job_stays(meeting_id));
    match set_back(s, meeting_id, from, clock) {
        Ok(back) => {
            assert(new.summaries == s.summaries.filter(summary_stays(meeting_id, from)));
            assert(new.board_versions == s.board_versions.filter(
                version_stays(s.summaries, meeting_id, from),
            ));
            let left = s.jobs.filter(job_stays(meeting_id));
            assert(new.jobs == left || new.jobs == left.push(new.jobs.last()));
            assert forall|i: int|
                0 <= i < s.summaries.len() && ((#[trigger] s.summaries[i]).meeting_id != meeting_id
                    || s.summaries[i].window_end_ms <= from) implies new.summaries.contains(
                s.summaries[i],
            ) by {
                assert(summary_stays(meeting_id, from)(s.summaries[i]));
            }
            assert forall|i: int|
                0 <= i < s.board_versions.len() && (forall|k: int|
                    0 <= k < s.summaries.len() && (#[trigger] s.summaries[k]).meeting_id
                        == meeting_id && s.summaries[k].window_end_ms > from ==> s.summaries[k].id
                        != s.board_versions[i].source_summary_id) implies new.board_versions.contains(
                #[trigger] s.board_versions[i],
            ) by {
                assert(version_stays(s.summaries, meeting_id, from)(s.board_versions[i]));
            }
            assert forall|i: int|
                0 <= i < s.jobs.len() && ((#[trigger] s.jobs[i]).meeting_id != meeting_id
                    || s.jobs[i].job_type != JobTypeView::Summary || s.jobs[i].status
                    == JobStatus::Running) implies new.jobs.contains(s.jobs[i]) by {
                assert(job_stays(meeting_id)(s.jobs[i]));
                let k = choose|k: int| 0 <= k < left.len() && left[k] == s.jobs[i];
                assert(new.jobs[k] == s.jobs[i]);
            }
            assert forall|i: int| 0 <= i < new.jobs.len() implies s.jobs.contains(
                #[trigger] new.jobs[i],
            ) || (new.jobs[i].id == job_id && new.jobs[i].meeting_id == meeting_id
                && new.jobs[i].job_type == JobTypeView::Summary && new.jobs[i].status
                == JobStatus::Pending) by {
                if i < left.len() {
                    assert(new.jobs[i] == left[i]);
                }
            }
        },
        Err(_) => {
            assert forall|i: int| 0 <= i < s.summaries.len() implies new.summaries.contains(
                #[trigger] s.summaries[i],
            ) by {
                assert(new.summaries[i] == s.summaries[i]);
            }
            assert forall|i: int| 0 <= i < s.board_versions.len() implies new.board_versions.contains(
                #[trigger] s.board_versions[i],
            ) by {
                assert(new.board_versions[i] == s.board_versions[i]);
            }
            assert forall|i: int| 0 <= i < s.jobs.len() implies new.jobs.contains(
                #[trigger] s.jobs[i],
            ) by {
                assert(new.jobs[i] == s.jobs[i]);
            }
        },
    }
}

/// Going back to a window of a meeting that is there takes away all that follows
/// from it: no summary of the meeting that is left ends after the point, and no
/// version of a board that is left came from one that did.
pub proof fn law_rebuild_takes_away_what_is_affected(
    s: StoreView,
    meeting_id: Seq<char>,
    target: Seq<char>,
    job_id: Seq<char>,
    clock: ClockView,
    from: i64,
    at: int,
)
    requires
        parsed_i64(target) == Some(from),
        0 <= at < s.meetings.len(),
        s.meetings[at].id == meeting_id,
    ensures
        ({
            let done = rebuilt(s, meeting_id, target, job_id, clock);
            let new = done.0;
            &&& done.1.len() == 1
            &&& done.2 is Ok
            &&& forall|i: int|
                0 <= i < new.summaries.len() ==> (#[trigger] new.summaries[i]).meeting_id
                    != meeting_id || new.summaries[i].window_end_ms <= from
            &&& forall|i: int, k: int|
                0 <= i < new.board_versions.len() && 0 <= k < s.summaries.len() && (
                #[trigger] s.summaries[k]).meeting_id == meeting_id && s.summaries[k].window_end_ms
                    > from ==> (#[trigger] new.board_versions[i]).source_summary_id
                    != s.summaries[k].id
        }),
{
    assert(meeting_is(meeting_id)(s.meetings[at]));
    lemma_first_holds(s.meetings, meeting_is(meeting_id));
    let g = setting_back(
        meeting_id,
        version_after(s, meeting_id, from),
        next_end_after(s, meeting_id, from) as i64,
    );
    lemma_first_of_map(s.meetings, meeting_is(meeting_id), g);
    law_rebuild_removes_what_is_affected(s, meeting_id, target, job_id, clock);
}

/// A meeting that was set back goes on from what is left of it. Its next summary
/// ends one window behind the last summary that is left, or behind the start where
/// none is. Its board is that of the version with the highest number that is left,
/// and where none is left it has no board and version zero. All else of it, and
/// every other meeting and board, stays as it was. The version is told, and the next
/// summary is asked for, the last one where the meeting is over.
pub proof fn law_rebuild_goes_back_to_what_is_left(
    s: StoreView,
    meeting_id: Seq<char>,
    target: Seq<char>,
    job_id: Seq<char>,
    clock: ClockView,
    from: i64,
    at: int,
)
    requires
        rebuild_fits(s, meeting_id, target),
        parsed_i64(target) == Some(from),
        0 <= at < s.meetings.len(),
        s.meetings[at].id == meeting_id,
        forall|i: int| 0 <= i < at ==> (#[trigger] s.meetings[i]).id != meeting_id,
    ensures
        ({
            let done = rebuilt(s, meeting_id, target, job_id, clock);
            let new = done.0;
            let was = s.meetings[at];
            let is = new.meetings[at];
            let jobs = s.jobs.filter(
                |j: JobView|
                    j.meeting_id != meeting_id || j.job_type != JobTypeView::Summary || j.status
                        == JobStatus::Running,
            );
            &&& done.1 == seq![board_rebuilt(meeting_id, is.board_version)]
            &&& done.2 is Ok
            &&& summary_enqueued(
                StoreView { jobs, ..new },
                meeting_id,
                was.status == MeetingStatus::Ended,
                job_id,
                clock,
            ) == Ok::<StoreView, AppErrorView>(new)
            &&& new.meetings.len() == s.meetings.len()
            &&& forall|i: int|
                0 <= i < s.meetings.len() && (#[trigger] s.meetings[i]).id != meeting_id
                    ==> new.meetings[i] == s.meetings[i]
            &&& is.id == was.id && is.title == was.title && is.status == was.status
                && is.started_at == was.started_at && is.ended_at == was.ended_at
                && is.summary_window_ms == was.summary_window_ms
            &&& forall|i: int|
                0 <= i < new.summaries.len() && (#[trigger] new.summaries[i]).meeting_id
                    == meeting_id ==> new.summaries[i].window_end_ms + was.summary_window_ms
                    <= is.next_summary_end_ms
            &&& (exists|i: int|
                0 <= i < new.summaries.len() && (#[trigger] new.summaries[i]).meeting_id
                    == meeting_id && new.summaries[i].window_end_ms + was.summary_window_ms
                    == is.next_summary_end_ms) || (is.next_summary_end_ms == was.summary_window_ms
                && forall|i: int|
                0 <= i < new.summaries.len() ==> (#[trigger] new.summaries[i]).meeting_id
                    != meeting_id)
            &&& forall|i: int|
                0 <= i < new.board_versions.len() && (#[trigger] new.board_versions[i]).meeting_id
                    == meeting_id ==> new.board_versions[i].version <= is.board_version
            &&& forall|i: int|
                0 <= i < s.boards.len() && (#[trigger] s.boards[i]).meeting_id != meeting_id
                    ==> new.boards.contains(s.boards[i])
            &&& forall|i: int|
                0 <= i < new.boards.len() && (#[trigger] new.boards[i]).meeting_id != meeting_id
                    ==> s.boards.contains(new.boards[i])
            &&& if (exists|i: int|
                0 <= i < new.board_versions.len() && (#[trigger] new.board_versions[i]).meeting_id
                    == meeting_id) {
                &&& exists|b: int|
                    0 <= b < new.boards.len() && (#[trigger] new.boards[b]).meeting_id == meeting_id
                &&& forall|b: int|
                    0 <= b < new.boards.len() && (#[trigger] new.boards[b]).meeting_id == meeting_id
                        ==> new.boards[b].version == is.board_version && new.boards[b].updated_at
                        == clock.now.text && exists|i: int|
                        0 <= i < new.board_versions.len() && (
                        #[trigger] new.board_versions[i]).meeting_id == meeting_id
                            && new.board_versions[i].version == new.boards[b].version
                            && new.board_versions[i].content_json == new.boards[b].content_json
            } else {
                &&& is.board_version == 0
                &&& forall|b: int|
                    0 <= b < new.boards.len() ==> (#[trigger] new.boards[b]).meeting_id
                        != meeting_id
            }
        }),
{
    let done = rebuilt(s, meeting_id, target, job_id, clock);
    let new = done.0;
    let p = meeting_is(meeting_id);
    assert(is_first(s.meetings, p, at));
    lemma_first_is(s.meetings, p, at);
    assert(any(s.meetings, p));
    let cut = cut_back(s, meeting_id, from);
    let g = setting_back(
        meeting_id,
        version_after(s, meeting_id, from),
        next_end_after(s, meeting_id, from) as i64,
    );
    lemma_first_of_map(s.meetings, p, g);
    let stays = |j: JobView|
        j.meeting_id != meeting_id || j.job_type != JobTypeView::Summary || j.status
            == JobStatus::Running;
    assert(stays =~= job_stays(meeting_id));
    let back = set_back(s, meeting_id, from, clock)->Ok_0;
    assert(back == (StoreView { jobs: s.jobs.filter(stays), ..new }));
    assert(new.meetings == s.meetings.map_values(g));
    assert(new.summaries == cut.summaries && new.board_versions == cut.board_versions);
    let key = window_end(meeting_id);
    lemma_greatest(new.summaries, key);
    assert forall|i: int|
        0 <= i < new.summaries.len() && (#[trigger] new.summaries[i]).meeting_id
            == meeting_id implies key(new.summaries[i]) == Some(new.summaries[i].window_end_ms) by {}
    match greatest(new.summaries, key) {
        Some(end) => {
            let i = choose|i: int|
                0 <= i < new.summaries.len() && key(#[trigger] new.summaries[i]) == Some(end);
            assert(new.summaries[i].meeting_id == meeting_id);
        },
        None => {
            assert forall|i: int| 0 <= i < new.summaries.len() implies (
            #[trigger] new.summaries[i]).meeting_id != meeting_id by {
                assert(key(new.summaries[i]) is None);
            }
        },
    }
    let number = version_in(meeting_id);
    lemma_greatest(new.board_versions, number);
    assert forall|i: int|
        0 <= i < new.board_versions.len() && (#[trigger] new.board_versions[i]).meeting_id
            == meeting_id implies number(new.board_versions[i]) == Some(
        new.board_versions[i].version,
    ) by {}
    match greatest(new.board_versions, number) {
        Some(n) => {
            let i = choose|i: int|
                0 <= i < new.board_versions.len() && number(#[trigger] new.board_versions[i])
                    == Some(n);
            let q = version_numbered(meeting_id, n);
            assert(q(new.board_versions[i]));
            lemma_first_holds(new.board_versions, q);
            let v = first(new.board_versions, q).unwrap();
            let j = choose|j: int|
                0 <= j < new.board_versions.len() && new.board_versions[j] == v;
            assert(new.board_versions[j].meeting_id == meeting_id);
            lemma_boards_with(s.boards, meeting_id, v.version, v.content_json, clock);
            assert(new.boards == boards_with(s.boards, meeting_id, v.version, v.content_json, clock));
        },
        None => {
            assert forall|i: int| 0 <= i < new.board_versions.len() implies (
            #[trigger] new.board_versions[i]).meeting_id != meeting_id by {
                assert(number(new.board_versions[i]) is None);
            }
            lemma_kept(s.boards, board_stays(meeting_id));
            assert(new.boards == s.boards.filter(board_stays(meeting_id)));
            assert forall|i: int|
                0 <= i < s.boards.len() && (#[trigger] s.boards[i]).meeting_id
                    != meeting_id implies new.boards.contains(s.boards[i]) by {
                assert(board_stays(meeting_id)(s.boards[i]));
            }
        },
    }
}

/// Nothing is set back for a target that is no number, or in a meeting that is not
/// there: the store stays as it is, and nobody is told of anything.
pub proof fn law_refused_rebuild_changes_nothing(
    s: StoreView,
    meeting_id: Seq<char>,
    target: Seq<char>,
    job_id: Seq<char>,
    clock: ClockView,
)
    requires
        parsed_i64(target) is None || forall|i: int|
            0 <= i < s.meetings.len() ==> (#[trigger] s.meetings[i]).id != meeting_id,
    ensures
        ({
            let done = rebuilt(s, meeting_id, target, job_id, clock);
            done.0 == s && done.1.len() == 0 && done.2 is Err
        }),
{
    lemma_first_holds(s.meetings, meeting_is(meeting_id));
}

/// The end of the next summary can be reckoned once a meeting was set back, wherever the ends
/// of its summaries and the length of its windows are not at the very end of what can be
/// counted.
pub proof fn law_ordinary_rebuilds_can_be_reckoned(
    s: StoreView,
    meeting_id: Seq<char>,
    target: Seq<char>,
    at: int,
)
    requires
        0 <= at < s.meetings.len(),
        s.meetings[at].id == meeting_id,
        forall|i: int| 0 <= i < at ==> (#[trigger] s.meetings[i]).id != meeting_id,
        0 <= s.meetings[at].summary_window_ms,
        forall|i: int|
            0 <= i < s.summaries.len() && (#[trigger] s.summaries[i]).meeting_id == meeting_id
                ==> 0 <= s.summaries[i].window_end_ms && s.summaries[i].window_end_ms
                + s.meetings[at].summary_window_ms <= i64::MAX,
    ensures
        rebuild_fits(s, meeting_id, target),
{
    let p = meeting_is(meeting_id);
    assert(is_first(s.meetings, p, at));
    lemma_first_is(s.meetings, p, at);
    assert(any(s.meetings, p));
    if let Some(from) = parsed_i64(target) {
        let kept = s.summaries.filter(summary_stays(meeting_id, from));
        let key = window_end(meeting_id);
        lemma_greatest(kept, key);
        lemma_kept(s.summaries, summary_stays(meeting_id, from));
        if let Some(n) = greatest(kept, key) {
            let i = choose|i: int| 0 <= i < kept.len() && key(#[trigger] kept[i]) == Some(n);
            assert(s.summaries.contains(kept[i]));
            let k = choose|k: int| 0 <= k < s.summaries.len() && s.summaries[k] == kept[i];
            assert(s.summaries[k].meeting_id == meeting_id);
        }
    }
}

/// Where there is nothing to set back, nothing can go wrong in reckoning it: for a target
/// that is no number, and in a meeting that is not there.
pub proof fn law_nothing_to_set_back(
    s: StoreView,
    meeting_id: Seq<char>,
    target: Seq<char>,
    job_id: Seq<char>,
    clock: ClockView,
)
    ensures
        parsed_i64(target) is None ==> rebuild_fits(s, meeting_id, target) && rebuilt(
            s,
            meeting_id,
            target,
            job_id,
            clock,
        ).2 == Err::<(), AppErrorView>(AppErrorView::Processing("invalid rebuild target"@)),
        (forall|i: int| 0 <= i < s.meetings.len() ==> (#[trigger] s.meetings[i]).id != meeting_id)
            ==> rebuild_fits(s, meeting_id, target),
{
    lemma_first_holds(s.meetings, meeting_is(meeting_id));
}

} // verus!
