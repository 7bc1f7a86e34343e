//! Meetings: how they are opened, closed, shown and deleted.
use vstd::prelude::*;

use crate::error::{
    bad_request, broken_reference, key_taken, outcome, reference_broken, taken_key, AppError,
    AppErrorView,
};
use crate::events::{event_views, int_json, no_members, tell_meeting_ended, EventView, MeetingEvent};
use crate::ids::{is_id, new_id};
use crate::jobs::{came_out, or_unchanged, summary_enqueued};
use crate::json::{
    integer_json, json_number, opt_str_json, opt_string_json, string_json, Json, JsonView,
};
use crate::rows::{
    any, any_row, change_rows, is_first, keep_rows, lemma_first_holds, lemma_first_is,
    lemma_first_of_map, lemma_kept, views,
};
use crate::store::{
    meeting_is, meeting_status_name, Board, BoardVersion, BoardVersionView, BoardView, Clock,
    ClockView, Job, JobView, Meeting, MeetingStatus, MeetingView, Segment, SegmentView, Speaker,
    SpeakerView, Store, StoreView, Summary, SummaryRowView,
};
use crate::text::{opt_text, text_eq, trim, trimmed};

verus! {

/// How long the window of a summary is where nothing else is asked for.
pub const DEFAULT_SUMMARY_WINDOW_MS: i64 = 300_000;

/// How short the window of a summary may be.
pub const MIN_SUMMARY_WINDOW_MS: i64 = 10_000;

/// How long the window of a summary may be.
pub const MAX_SUMMARY_WINDOW_MS: i64 = 3_600_000;

/// How long the window of a meeting's summaries is to be.
pub open spec fn window_or_default(window: Option<i64>) -> i64 {
    match window {
        Some(window) => window,
        None => DEFAULT_SUMMARY_WINDOW_MS,
    }
}

/// The store with a new meeting, which goes on from now.
pub open spec fn meeting_created(
    s: StoreView,
    title: Seq<char>,
    window: Option<i64>,
    id: Seq<char>,
    clock: ClockView,
) -> Result<StoreView, AppErrorView> {
    let length = window_or_default(window);
    if trimmed(title).len() == 0 {
        Err(AppErrorView::BadRequest("title is required"@))
    } else if !(MIN_SUMMARY_WINDOW_MS <= length <= MAX_SUMMARY_WINDOW_MS) {
        Err(
            AppErrorView::BadRequest("summary_window_ms must be between 10000 and 3600000"@),
        )
    } else if s.has_meeting(id) {
        Err(key_taken("meetings.id"@))
    } else {
        Ok(
            StoreView {
                meetings: s.meetings.push(
                    MeetingView {
                        id,
                        title: trimmed(title),
                        status: MeetingStatus::Running,
                        started_at: Some(clock.now.text),
                        ended_at: None,
                        next_summary_end_ms: length,
                        summary_window_ms: length,
                        board_version: 0,
                    },
                ),
                ..s
            },
        )
    }
}

/// Ends a meeting; when it ended first is kept.
pub open spec fn ending(id: Seq<char>, clock: ClockView) -> spec_fn(MeetingView) -> MeetingView {
    |m: MeetingView|
        if m.id == id {
            MeetingView {
                status: MeetingStatus::Ended,
                ended_at: match m.ended_at {
                    Some(at) => Some(at),
                    None => Some(clock.now.text),
                },
                ..m
            }
        } else {
            m
        }
}

/// The store, the events and the outcome of ending a meeting. Its last window may
/// then be summarized.
pub open spec fn ended(s: StoreView, id: Seq<char>, job_id: Seq<char>, clock: ClockView) -> (
    StoreView,
    Seq<EventView>,
    Result<(), AppErrorView>,
) {
    if !s.has_meeting(id) {
        (s, Seq::empty(), Err(AppErrorView::NotFound))
    } else {
        let over = StoreView { meetings: s.meetings.map_values(ending(id, clock)), ..s };
        let next = summary_enqueued(over, id, true, job_id, clock);
        (
            or_unchanged(next, over),
            if next is Ok {
                seq![crate::events::meeting_ended(id)]
            } else {
                Seq::empty()
            },
            came_out(next),
        )
    }
}

/// What a client is answered who ends a meeting.
pub open spec fn end_answer(r: Result<(), AppErrorView>) -> Result<JsonView, AppErrorView> {
    match r {
        Ok(_) => Ok(JsonView::Object(no_members().insert("status"@, JsonView::Str("ended"@)))),
        Err(e) => Err(e),
    }
}

/// A meeting other than one.
pub open spec fn other_meeting(id: Seq<char>) -> spec_fn(MeetingView) -> bool {
    |m: MeetingView| m.id != id
}

/// A speaker of another meeting.
pub open spec fn speaker_elsewhere(id: Seq<char>) -> spec_fn(SpeakerView) -> bool {
    |r: SpeakerView| r.meeting_id != id
}

/// A segment of another meeting.
pub open spec fn segment_elsewhere(id: Seq<char>) -> spec_fn(SegmentView) -> bool {
    |r: SegmentView| r.meeting_id != id
}

/// A summary of another meeting.
pub open spec fn summary_elsewhere(id: Seq<char>) -> spec_fn(SummaryRowView) -> bool {
    |r: SummaryRowView| r.meeting_id != id
}

/// A board of another meeting.
pub open spec fn board_elsewhere(id: Seq<char>) -> spec_fn(BoardView) -> bool {
    |r: BoardView| r.meeting_id != id
}

/// A version of the board of another meeting.
pub open spec fn version_elsewhere(id: Seq<char>) -> spec_fn(BoardVersionView) -> bool {
    |r: BoardVersionView| r.meeting_id != id
}

/// A job of another meeting.
pub open spec fn job_elsewhere(id: Seq<char>) -> spec_fn(JobView) -> bool {
    |r: JobView| r.meeting_id != id
}

/// The store without a meeting and all that belongs to it.
pub open spec fn without_meeting(s: StoreView, id: Seq<char>) -> StoreView {
    StoreView {
        meetings: s.meetings.filter(other_meeting(id)),
        speakers: s.speakers.filter(speaker_elsewhere(id)),
        segments: s.segments.filter(segment_elsewhere(id)),
        summaries: s.summaries.filter(summary_elsewhere(id)),
        boards: s.boards.filter(board_elsewhere(id)),
        board_versions: s.board_versions.filter(version_elsewhere(id)),
        jobs: s.jobs.filter(job_elsewhere(id)),
    }
}

/// A speaker of a meeting, with an id that something of another meeting refers to.
pub open spec fn speaker_needed(id: Seq<char>, speaker_id: Option<Seq<char>>) -> spec_fn(
    SpeakerView,
) -> bool {
    |r: SpeakerView| r.meeting_id == id && Some(r.id) == speaker_id
}

/// A segment of another meeting that refers to a speaker of this one.
pub open spec fn segment_needs(speakers: Seq<SpeakerView>, id: Seq<char>) -> spec_fn(
    SegmentView,
) -> bool {
    |g: SegmentView| g.meeting_id != id && any(speakers, speaker_needed(id, g.speaker_id))
}

/// A summary of a meeting, with an id that something of another meeting refers to.
pub open spec fn summary_needed(id: Seq<char>, summary_id: Seq<char>) -> spec_fn(
    SummaryRowView,
) -> bool {
    |r: SummaryRowView| r.meeting_id == id && r.id == summary_id
}

/// A version of another meeting's board that refers to a summary of this one.
pub open spec fn version_needs(summaries: Seq<SummaryRowView>, id: Seq<char>) -> spec_fn(
    BoardVersionView,
) -> bool {
    |v: BoardVersionView|
        v.meeting_id != id && any(summaries, summary_needed(id, v.source_summary_id))
}

/// Whether something of another meeting refers to what belongs to this one.
pub open spec fn needed_elsewhere(s: StoreView, id: Seq<char>) -> bool {
    any(s.segments, segment_needs(s.speakers, id)) || any(
        s.board_versions,
        version_needs(s.summaries, id),
    )
}

/// The store once a meeting is deleted.
pub open spec fn meeting_deleted(s: StoreView, id: Seq<char>) -> Result<StoreView, AppErrorView> {
    if !s.has_meeting(id) {
        Err(AppErrorView::NotFound)
    } else if needed_elsewhere(s, id) {
        Err(reference_broken())
    } else {
        Ok(without_meeting(s, id))
    }
}

/// What a client sees of a meeting.
pub open spec fn meeting_members(m: MeetingView) -> Map<Seq<char>, JsonView> {
    no_members().insert("id"@, JsonView::Str(m.id)).insert("title"@, JsonView::Str(m.title)).insert(
        "status"@,
        JsonView::Str(meeting_status_name(m.status)),
    ).insert("started_at"@, opt_str_json(m.started_at)).insert(
        "ended_at"@,
        opt_str_json(m.ended_at),
    ).insert("board_version"@, int_json(m.board_version)).insert(
        "next_summary_end_ms"@,
        int_json(m.next_summary_end_ms),
    ).insert("summary_window_ms"@, int_json(m.summary_window_ms))
}

/// A meeting, as a client sees it.
pub open spec fn meeting_value(m: MeetingView) -> JsonView {
    JsonView::Object(meeting_members(m))
}

/// What is answered to what is about a meeting, if it is not there.
pub open spec fn meeting_required(s: StoreView, id: Seq<char>) -> Result<(), AppErrorView> {
    if s.has_meeting(id) {
        Ok(())
    } else {
        Err(AppErrorView::NotFound)
    }
}

/// The meeting with an id, as a client sees it.
pub open spec fn meeting_shown(s: StoreView, id: Seq<char>) -> Result<JsonView, AppErrorView> {
    match s.meeting(id) {
        Some(m) => Ok(meeting_value(m)),
        None => Err(AppErrorView::NotFound),
    }
}

pub(crate) fn meeting_json(m: &Meeting) -> (json: Json)
    ensures
        json@ == meeting_value(m@),
{
    let mut json = Json::Null;
    json.set("id", string_json(m.id.as_str()));
    json.set("title", string_json(m.title.as_str()));
    json.set("status", string_json(m.status.as_str()));
    json.set("started_at", opt_string_json(&m.started_at));
    json.set("ended_at", opt_string_json(&m.ended_at));
    json.set("board_version", integer_json(m.board_version));
    json.set("next_summary_end_ms", integer_json(m.next_summary_end_ms));
    json.set("summary_window_ms", integer_json(m.summary_window_ms));
    json
}

/// The model of an answer.
pub open spec fn answered(r: Result<Json, AppError>) -> Result<JsonView, AppErrorView> {
    match r {
        Ok(json) => Ok(json@),
        Err(e) => Err(e@),
    }
}

fn needs_speaker(speakers: &Vec<Speaker>, id: &str, speaker_id: &Option<String>) -> (b: bool)
    ensures
        b == any(views(speakers@), speaker_needed(id@, opt_text(*speaker_id))),
{
    any_row(
        speakers,
        |r: &Speaker| -> (b: bool)
            ensures b == speaker_needed(id@, opt_text(*speaker_id))(r@)
            {
                text_eq(r.meeting_id.as_str(), id) && match speaker_id {
                    Some(wanted) => text_eq(r.id.as_str(), wanted.as_str()),
                    None => false,
                }
            },
        Ghost(speaker_needed(id@, opt_text(*speaker_id))),
    )
}

fn needs_summary(summaries: &Vec<Summary>, id: &str, summary_id: &str) -> (b: bool)
    ensures
        b == any(views(summaries@), summary_needed(id@, summary_id@)),
{
    any_row(
        summaries,
        |r: &Summary| -> (b: bool)
            ensures b == summary_needed(id@, summary_id@)(r@)
            { text_eq(r.meeting_id.as_str(), id) && text_eq(r.id.as_str(), summary_id) },
        Ghost(summary_needed(id@, summary_id@)),
    )
}

impl Store {
    /// Opens a meeting with this id.
    pub fn create_meeting_as(
        &mut self,
        title: &str,
        window: Option<i64>,
        id: &str,
        clock: &Clock,
    ) -> (r: Result<(), AppError>)
        ensures
            outcome(r) == came_out(meeting_created(old(self)@, title@, window, id@, clock@)),
            final(self)@ == or_unchanged(
                meeting_created(old(self)@, title@, window, id@, clock@),
                old(self)@,
            ),
    {
        let title = trim(title);
        if title.as_str().is_empty() {
            return Err(bad_request("title is required"));
        }
        let length: i64 = match window {
            Some(window) => window,
            None => DEFAULT_SUMMARY_WINDOW_MS,
        };
        if length < MIN_SUMMARY_WINDOW_MS || length > MAX_SUMMARY_WINDOW_MS {
            return Err(bad_request("summary_window_ms must be between 10000 and 3600000"));
        }
        if self.has_meeting(id) {
            return Err(taken_key("meetings.id"));
        }
        let ghost before = self@;
        let meeting = Meeting {
            id: id.to_owned(),
            title,
            status: MeetingStatus::Running,
            started_at: Some(clock.now().text.clone()),
            ended_at: None,
            next_summary_end_ms: length,
            summary_window_ms: length,
            board_version: 0,
        };
        self.meetings.push(meeting);
        assert(self@.meetings =~= before.meetings.push(meeting@));
        Ok(())
    }

    /// Opens a meeting; gives its id.
    pub fn create_meeting(&mut self, title: &str, window: Option<i64>, clock: &Clock) -> (r: Result<
        String,
        AppError,
    >)
        ensures
            exists|id: Seq<char>|
                {
                    &&& #[trigger] is_id(id)
                    &&& final(self)@ == or_unchanged(
                        meeting_created(old(self)@, title@, window, id, clock@),
                        old(self)@,
                    )
                    &&& match r {
                        Ok(given) => given@ == id && meeting_created(
                            old(self)@,
                            title@,
                            window,
                            id,
                            clock@,
                        ) is Ok,
                        Err(e) => meeting_created(old(self)@, title@, window, id, clock@) == Err::<
                            StoreView,
                            AppErrorView,
                        >(e@),
                    }
                },
    {
        let id = new_id();
        assert(is_id(id@));
        match self.create_meeting_as(title, window, id.as_str(), clock) {
            Ok(()) => Ok(id),
            Err(e) => Err(e),
        }
    }

    /// Refuses what is about a meeting that does not exist.
    pub fn ensure_meeting(&self, id: &str) -> (r: Result<(), AppError>)
        ensures
            outcome(r) == meeting_required(self@, id@),
    {
        if self.has_meeting(id) {
            Ok(())
        } else {
            Err(AppError::NotFound)
        }
    }

    /// Ends a meeting. `job_id` is that of the job for its last summary, where one
    /// is needed.
    pub fn end_meeting_as(&mut self, id: &str, job_id: String, clock: &Clock) -> (done: (
        Vec<MeetingEvent>,
        Result<Json, AppError>,
    ))
        ensures
            final(self)@ == ended(old(self)@, id@, job_id@, clock@).0,
            event_views(done.0@) == ended(old(self)@, id@, job_id@, clock@).1,
            answered(done.1) == end_answer(ended(old(self)@, id@, job_id@, clock@).2),
    {
        let mut events: Vec<MeetingEvent> = Vec::new();
        proof {
            assert(event_views(events@) =~= Seq::empty());
        }
        if !self.has_meeting(id) {
            return (events, Err(AppError::NotFound));
        }
        change_rows(
            &mut self.meetings,
            |m: Meeting| -> (out: Meeting)
                ensures out@ == ending(id@, clock@)(m@)
                {
                    if text_eq(m.id.as_str(), id) {
                        let ended_at = match m.ended_at {
                            Some(at) => Some(at),
                            None => Some(clock.now().text.clone()),
                        };
                        Meeting { status: MeetingStatus::Ended, ended_at, ..m }
                    } else {
                        m
                    }
                },
            Ghost(ending(id@, clock@)),
        );
        match self.enqueue_summary_as(id, true, job_id, clock) {
            Ok(()) => {
                let told = tell_meeting_ended(id);
                events.push(told);
                assert(event_views(events@) =~= seq![told@]);
                let mut json = Json::Null;
                json.set("status", string_json("ended"));
                (events, Ok(json))
            },
            Err(e) => (events, Err(e)),
        }
    }

    /// Ends a meeting.
    pub fn end_meeting(&mut self, id: &str, clock: &Clock) -> (done: (
        Vec<MeetingEvent>,
        Result<Json, AppError>,
    ))
        ensures
            exists|job_id: Seq<char>|
                {
                    &&& #[trigger] is_id(job_id)
                    &&& final(self)@ == ended(old(self)@, id@, job_id, clock@).0
                    &&& event_views(done.0@) == ended(old(self)@, id@, job_id, clock@).1
                    &&& answered(done.1) == end_answer(ended(old(self)@, id@, job_id, clock@).2)
                },
    {
        let job_id = new_id();
        assert(is_id(job_id@));
        self.end_meeting_as(id, job_id, clock)
    }

    fn needed_elsewhere(&self, id: &str) -> (b: bool)
        ensures
            b == needed_elsewhere(self@, id@),
    {
        let speakers = &self.speakers;
        let summaries = &self.summaries;
        any_row(
            &self.segments,
            |g: &Segment| -> (b: bool)
                ensures b == segment_needs(views(speakers@), id@)(g@)
                {
                    !text_eq(g.meeting_id.as_str(), id) && needs_speaker(
                        speakers,
                        id,
                        &g.speaker_id,
                    )
                },
            Ghost(segment_needs(views(speakers@), id@)),
        ) || any_row(
            &self.board_versions,
            |v: &BoardVersion| -> (b: bool)
                ensures b == version_needs(views(summaries@), id@)(v@)
                {
                    !text_eq(v.meeting_id.as_str(), id) && needs_summary(
                        summaries,
                        id,
                        v.source_summary_id.as_str(),
                    )
                },
            Ghost(version_needs(views(summaries@), id@)),
        )
    }

    /// Deletes a meeting and all that belongs to it.
    pub fn delete_meeting(&mut self, id: &str) -> (r: Result<(), AppError>)
        ensures
            outcome(r) == came_out(meeting_deleted(old(self)@, id@)),
            final(self)@ == or_unchanged(meeting_deleted(old(self)@, id@), old(self)@),
    {
        if !self.has_meeting(id) {
            return Err(AppError::NotFound);
        }
        if self.needed_elsewhere(id) {
            return Err(broken_reference());
        }
        keep_rows(
            &mut self.jobs,
            |r: &Job| -> (b: bool)
                ensures b == job_elsewhere(id@)(r@)
                { !text_eq(r.meeting_id.as_str(), id) },
            Ghost(job_elsewhere(id@)),
        );
        keep_rows(
            &mut self.board_versions,
            |r: &BoardVersion| -> (b: bool)
                ensures b == version_elsewhere(id@)(r@)
                { !text_eq(r.meeting_id.as_str(), id) },
            Ghost(version_elsewhere(id@)),
        );
        keep_rows(
            &mut self.boards,
            |r: &Board| -> (b: bool)
                ensures b == board_elsewhere(id@)(r@)
                { !text_eq(r.meeting_id.as_str(), id) },
            Ghost(board_elsewhere(id@)),
        );
        keep_rows(
            &mut self.summaries,
            |r: &Summary| -> (b: bool)
                ensures b == summary_elsewhere(id@)(r@)
                { !text_eq(r.meeting_id.as_str(), id) },
            Ghost(summary_elsewhere(id@)),
        );
        keep_rows(
            &mut self.segments,
            |r: &Segment| -> (b: bool)
                ensures b == segment_elsewhere(id@)(r@)
                { !text_eq(r.meeting_id.as_str(), id) },
            Ghost(segment_elsewhere(id@)),
        );
        keep_rows(
            &mut self.speakers,
            |r: &Speaker| -> (b: bool)
                ensures b == speaker_elsewhere(id@)(r@)
                { !text_eq(r.meeting_id.as_str(), id) },
            Ghost(speaker_elsewhere(id@)),
        );
        keep_rows(
            &mut self.meetings,
            |r: &Meeting| -> (b: bool)
                ensures b == other_meeting(id@)(r@)
                { !text_eq(r.id.as_str(), id) },
            Ghost(other_meeting(id@)),
        );
        Ok(())
    }

    /// Shows a meeting.
    pub fn get_meeting(&self, id: &str) -> (answer: Result<Json, AppError>)
        ensures
            answered(answer) == meeting_shown(self@, id@),
    {
        match self.meeting(id) {
            Some(m) => Ok(meeting_json(m)),
            None => Err(AppError::NotFound),
        }
    }
}

/// Ending a meeting again changes nothing, and is answered in the same way.
pub proof fn law_ending_is_idempotent(
    s: StoreView,
    id: Seq<char>,
    job_id: Seq<char>,
    clock: ClockView,
    other_job: Seq<char>,
    other_clock: ClockView,
)
    requires
        s.has_meeting(id),
        !any(s.jobs, crate::jobs::job_is(job_id)),
    ensures
        ended(s, id, job_id, clock).2 is Ok,
        ended(ended(s, id, job_id, clock).0, id, other_job, other_clock) == ended(
            s,
            id,
            job_id,
            clock,
        ),
{
    let over = StoreView { meetings: s.meetings.map_values(ending(id, clock)), ..s };
    let once = ended(s, id, job_id, clock).0;
    lemma_first_of_map(s.meetings, meeting_is(id), ending(id, clock));
    lemma_first_holds(s.meetings, meeting_is(id));
    lemma_first_holds(over.meetings, meeting_is(id));
    assert(once.meetings == over.meetings);
    assert(once.meetings.map_values(ending(id, other_clock)) =~= once.meetings);
    crate::jobs::law_summary_is_asked_for_once(over, id, true, job_id, clock, other_job, other_clock);
}

/// A meeting that was ended is over, and no segment can be uploaded to it.
pub proof fn law_ended_meeting_takes_no_uploads(
    s: StoreView,
    id: Seq<char>,
    job_id: Seq<char>,
    clock: ClockView,
)
    requires
        s.has_meeting(id),
    ensures
        ended(s, id, job_id, clock).0.meeting_ended(id),
        crate::segments::upload_allowed(ended(s, id, job_id, clock).0, id) == Err::<
            (),
            AppErrorView,
        >(AppErrorView::BadRequest("audio can only be uploaded to a running meeting"@)),
{
    lemma_first_of_map(s.meetings, meeting_is(id), ending(id, clock));
    lemma_first_holds(s.meetings, meeting_is(id));
}

/// A meeting that was opened is there, goes on, and has windows of an allowed length.
pub proof fn law_new_meeting_goes_on(
    s: StoreView,
    title: Seq<char>,
    window: Option<i64>,
    id: Seq<char>,
    clock: ClockView,
)
    requires
        meeting_created(s, title, window, id, clock) is Ok,
    ensures
        ({
            let new = meeting_created(s, title, window, id, clock)->Ok_0;
            &&& new.meeting(id) is Some
            &&& new.meeting(id).unwrap().title == trimmed(title)
            &&& MIN_SUMMARY_WINDOW_MS <= new.meeting(id).unwrap().summary_window_ms
                <= MAX_SUMMARY_WINDOW_MS
            &&& new.meeting(id).unwrap().next_summary_end_ms == new.meeting(
                id,
            ).unwrap().summary_window_ms
            &&& !new.meeting_ended(id)
            &&& crate::segments::upload_allowed(new, id) is Ok
        }),
{
    let new = meeting_created(s, title, window, id, clock)->Ok_0;
    let last = s.meetings.len() as int;
    let p = meeting_is(id);
    assert(p(new.meetings[last]));
    assert forall|j: int| 0 <= j < last implies !p(#[trigger] new.meetings[j]) by {
        assert(new.meetings[j] == s.meetings[j]);
    }
    lemma_first_is(new.meetings, p, last);
}

/// Ending a meeting asks for the summary of what is left of it: of what was
/// transcribed behind its last summary, where nothing of the next window is still
/// to come and it is not over already.
pub proof fn law_end_asks_for_the_last_summary(
    s: StoreView,
    id: Seq<char>,
    job_id: Seq<char>,
    clock: ClockView,
)
    requires
        s.has_meeting(id),
        !any(s.jobs, crate::jobs::job_is(job_id)),
        ({
            let m = s.meeting(id).unwrap();
            let end = m.next_summary_end_ms;
            &&& !any(
                s.segments,
                crate::jobs::unfinished_in(
                    id,
                    crate::jobs::saturated_difference(end, m.summary_window_ms),
                    end,
                ),
            )
            &&& 0 < s.completed_until(id) < end
            &&& s.completed_until(id) > s.summarized_until(id)
        }),
    ensures
        any(
            ended(s, id, job_id, clock).0.jobs,
            crate::jobs::job_for(
                crate::store::JobTypeView::Summary,
                id,
                crate::jobs::final_target(s.completed_until(id)),
            ),
        ),
{
    let over = StoreView { meetings: s.meetings.map_values(ending(id, clock)), ..s };
    lemma_first_of_map(s.meetings, meeting_is(id), ending(id, clock));
    lemma_first_holds(s.meetings, meeting_is(id));
    crate::jobs::law_summary_is_asked_for_in_time(over, id, job_id, clock);
}

/// A meeting is opened exactly if its title is not blank, its windows are at least ten
/// seconds and at most an hour long, and its id is free; windows are five minutes long
/// where no length is given. It is then one more row with the trimmed title, goes on from
/// now, has no board yet, and its first summary ends one window after its start. Nothing
/// else changes.
pub proof fn law_meeting_is_opened(
    s: StoreView,
    title: Seq<char>,
    window: Option<i64>,
    id: Seq<char>,
    clock: ClockView,
)
    ensures
        ({
            let length = if window is Some {
                window.unwrap()
            } else {
                300_000
            };
            let done = meeting_created(s, title, window, id, clock);
            &&& done is Ok <==> trimmed(title).len() > 0 && 10_000 <= length <= 3_600_000
                && forall|i: int| 0 <= i < s.meetings.len() ==> (#[trigger] s.meetings[i]).id != id
            &&& trimmed(title).len() == 0 ==> done == Err::<StoreView, AppErrorView>(
                AppErrorView::BadRequest("title is required"@),
            )
            &&& trimmed(title).len() > 0 && !(10_000 <= length <= 3_600_000) ==> done == Err::<
                StoreView,
                AppErrorView,
            >(AppErrorView::BadRequest("summary_window_ms must be between 10000 and 3600000"@))
            &&& done matches Ok(new) ==> {
                let m = new.meetings[s.meetings.len() as int];
                &&& new.meetings.len() == s.meetings.len() + 1
                &&& forall|i: int|
                    0 <= i < s.meetings.len() ==> new.meetings[i] == #[trigger] s.meetings[i]
                &&& m.id == id
                &&& m.title == trimmed(title)
                &&& m.status == MeetingStatus::Running
                &&& m.started_at == Some(clock.now.text)
                &&& m.ended_at is None
                &&& m.next_summary_end_ms == length
                &&& m.summary_window_ms == length
                &&& m.board_version == 0
                &&& new.speakers == s.speakers && new.segments == s.segments && new.summaries
                    == s.summaries && new.boards == s.boards && new.board_versions
                    == s.board_versions && new.jobs == s.jobs
            }
        }),
{
    let p = meeting_is(id);
    if any(s.meetings, p) {
        let i = choose|i: int| 0 <= i < s.meetings.len() && p(#[trigger] s.meetings[i]);
        assert(s.meetings[i].id == id);
    } else {
        assert forall|i: int| 0 <= i < s.meetings.len() implies (#[trigger] s.meetings[i]).id
            != id by {
            assert(!p(s.meetings[i]));
        }
    }
}

/// A meeting that is there can be ended: it is then over, since now or since it was over
/// first, and all else of it stays; so does every other meeting and every other row, but
/// that its last summary is asked for. One thing is told, that this meeting ended. A
/// meeting that is not there cannot be ended, and nothing changes.
pub proof fn law_meeting_is_ended(s: StoreView, id: Seq<char>, job_id: Seq<char>, clock: ClockView)
    ensures
        ({
            let done = ended(s, id, job_id, clock);
            let new = done.0;
            if exists|i: int| 0 <= i < s.meetings.len() && (#[trigger] s.meetings[i]).id == id {
                &&& done.2 is Ok
                &&& done.1 == seq![crate::events::meeting_ended(id)]
                &&& end_answer(done.2) matches Ok(v) && v is Object && v->Object_0.dom()
                    == set!["status"@] && v->Object_0["status"@] == JsonView::Str("ended"@)
                &&& new.meetings.len() == s.meetings.len()
                &&& forall|i: int|
                    0 <= i < s.meetings.len() ==> if (#[trigger] s.meetings[i]).id == id {
                        let was = s.meetings[i];
                        let is = new.meetings[i];
                        &&& is.status == MeetingStatus::Ended
                        &&& is.ended_at == if was.ended_at is Some {
                            was.ended_at
                        } else {
                            Some(clock.now.text)
                        }
                        &&& is.id == was.id && is.title == was.title && is.started_at
                            == was.started_at && is.next_summary_end_ms
                            == was.next_summary_end_ms && is.summary_window_ms
                            == was.summary_window_ms && is.board_version == was.board_version
                    } else {
                        new.meetings[i] == s.meetings[i]
                    }
                &&& s.jobs.len() <= new.jobs.len() <= s.jobs.len() + 1
                &&& forall|i: int| 0 <= i < s.jobs.len() ==> new.jobs[i] == #[trigger] s.jobs[i]
                &&& summary_enqueued(StoreView { jobs: s.jobs, ..new }, id, true, job_id, clock)
                    == Ok::<StoreView, AppErrorView>(new)
                &&& new.speakers == s.speakers && new.segments == s.segments && new.summaries
                    == s.summaries && new.boards == s.boards && new.board_versions
                    == s.board_versions
            } else {
                &&& new == s
                &&& done.1.len() == 0
                &&& done.2 == Err::<(), AppErrorView>(AppErrorView::NotFound)
                &&& end_answer(done.2) == Err::<JsonView, AppErrorView>(AppErrorView::NotFound)
            }
        }),
{
    let p = meeting_is(id);
    let done = ended(s, id, job_id, clock);
    lemma_first_holds(s.meetings, p);
    if exists|i: int| 0 <= i < s.meetings.len() && (#[trigger] s.meetings[i]).id == id {
        let i = choose|i: int| 0 <= i < s.meetings.len() && (#[trigger] s.meetings[i]).id == id;
        assert(p(s.meetings[i]));
        lemma_first_of_map(s.meetings, p, ending(id, clock));
        let over = StoreView { meetings: s.meetings.map_values(ending(id, clock)), ..s };
        assert(over.meeting(id) is Some);
        let new = done.0;
        assert(new.meetings == over.meetings);
        assert(new.jobs == s.jobs || new.jobs == s.jobs.push(new.jobs.last()));
        assert(over == (StoreView { jobs: s.jobs, ..new }));
        assert(end_answer(done.2)->Ok_0->Object_0.dom() =~= set!["status"@]);
    }
}

/// Deleting a meeting takes it away with all that belongs to it, and leaves all that
/// belongs to another as it is: a row is there afterwards exactly if it was there before
/// and is not of this meeting.
pub proof fn law_deleting_takes_what_belongs_to_the_meeting(s: StoreView, id: Seq<char>)
    requires
        meeting_deleted(s, id) is Ok,
    ensures
        ({
            let new = meeting_deleted(s, id)->Ok_0;
            &&& forall|i: int|
                0 <= i < new.meetings.len() ==> (#[trigger] new.meetings[i]).id != id
                    && s.meetings.contains(new.meetings[i])
            &&& forall|i: int|
                0 <= i < s.meetings.len() && (#[trigger] s.meetings[i]).id != id
                    ==> new.meetings.contains(s.meetings[i])
            &&& forall|i: int|
                0 <= i < new.speakers.len() ==> (#[trigger] new.speakers[i]).meeting_id != id
                    && s.speakers.contains(new.speakers[i])
            &&& forall|i: int|
                0 <= i < s.speakers.len() && (#[trigger] s.speakers[i]).meeting_id != id
                    ==> new.speakers.contains(s.speakers[i])
            &&& forall|i: int|
                0 <= i < new.segments.len() ==> (#[trigger] new.segments[i]).meeting_id != id
                    && s.segments.contains(new.segments[i])
            &&& forall|i: int|
                0 <= i < s.segments.len() && (#[trigger] s.segments[i]).meeting_id != id
                    ==> new.segments.contains(s.segments[i])
            &&& forall|i: int|
                0 <= i < new.summaries.len() ==> (#[trigger] new.summaries[i]).meeting_id != id
                    && s.summaries.contains(new.summaries[i])
            &&& forall|i: int|
                0 <= i < s.summaries.len() && (#[trigger] s.summaries[i]).meeting_id != id
                    ==> new.summaries.contains(s.summaries[i])
            &&& forall|i: int|
                0 <= i < new.boards.len() ==> (#[trigger] new.boards[i]).meeting_id != id
                    && s.boards.contains(new.boards[i])
            &&& forall|i: int|
                0 <= i < s.boards.len() && (#[trigger] s.boards[i]).meeting_id != id
                    ==> new.boards.contains(s.boards[i])
            &&& forall|i: int|
                0 <= i < new.board_versions.len() ==> (#[trigger] new.board_versions[i]).meeting_id
                    != id && s.board_versions.contains(new.board_versions[i])
            &&& forall|i: int|
                0 <= i < s.board_versions.len() && (#[trigger] s.board_versions[i]).meeting_id != id
                    ==> new.board_versions.contains(s.board_versions[i])
            &&& forall|i: int|
                0 <= i < new.jobs.len() ==> (#[trigger] new.jobs[i]).meeting_id != id
                    && s.jobs.contains(new.jobs[i])
            &&& forall|i: int|
                0 <= i < s.jobs.len() && (#[trigger] s.jobs[i]).meeting_id != id
                    ==> new.jobs.contains(s.jobs[i])
        }),
{
    lemma_kept(s.meetings, other_meeting(id));
    lemma_kept(s.speakers, speaker_elsewhere(id));
    lemma_kept(s.segments, segment_elsewhere(id));
    lemma_kept(s.summaries, summary_elsewhere(id));
    lemma_kept(s.boards, board_elsewhere(id));
    lemma_kept(s.board_versions, version_elsewhere(id));
    lemma_kept(s.jobs, job_elsewhere(id));
    let new = meeting_deleted(s, id)->Ok_0;
    assert forall|i: int| 0 <= i < s.meetings.len() && (#[trigger] s.meetings[i]).id
        != id implies new.meetings.contains(s.meetings[i]) by {
        assert(other_meeting(id)(s.meetings[i]));
    }
    assert forall|i: int| 0 <= i < s.speakers.len() && (#[trigger] s.speakers[i]).meeting_id
        != id implies new.speakers.contains(s.speakers[i]) by {
        assert(speaker_elsewhere(id)(s.speakers[i]));
    }
    assert forall|i: int| 0 <= i < s.segments.len() && (#[trigger] s.segments[i]).meeting_id
        != id implies new.segments.contains(s.segments[i]) by {
        assert(segment_elsewhere(id)(s.segments[i]));
    }
    assert forall|i: int| 0 <= i < s.summaries.len() && (#[trigger] s.summaries[i]).meeting_id
        != id implies new.summaries.contains(s.summaries[i]) by {
        assert(summary_elsewhere(id)(s.summaries[i]));
    }
    assert forall|i: int| 0 <= i < s.boards.len() && (#[trigger] s.boards[i]).meeting_id
        != id implies new.boards.contains(s.boards[i]) by {
        assert(board_elsewhere(id)(s.boards[i]));
    }
    assert forall|i: int|
        0 <= i < s.board_versions.len() && (#[trigger] s.board_versions[i]).meeting_id
            != id implies new.board_versions.contains(s.board_versions[i]) by {
        assert(version_elsewhere(id)(s.board_versions[i]));
    }
    assert forall|i: int| 0 <= i < s.jobs.len() && (#[trigger] s.jobs[i]).meeting_id
        != id implies new.jobs.contains(s.jobs[i]) by {
        assert(job_elsewhere(id)(s.jobs[i]));
    }
}

/// A meeting can be deleted exactly if it is there, no segment of another meeting has one
/// of its speakers, and no version of another meeting's board comes from one of its
/// summaries.
pub proof fn law_when_a_meeting_can_be_deleted(s: StoreView, id: Seq<char>)
    ensures
        meeting_deleted(s, id) is Ok <==> {
            &&& exists|i: int| 0 <= i < s.meetings.len() && (#[trigger] s.meetings[i]).id == id
            &&& forall|i: int, k: int|
                0 <= i < s.segments.len() && 0 <= k < s.speakers.len() && (
                #[trigger] s.segments[i]).meeting_id != id && (#[trigger] s.speakers[k]).meeting_id
                    == id ==> s.segments[i].speaker_id != Some(s.speakers[k].id)
            &&& forall|i: int, k: int|
                0 <= i < s.board_versions.len() && 0 <= k < s.summaries.len() && (
                #[trigger] s.board_versions[i]).meeting_id != id && (
                #[trigger] s.summaries[k]).meeting_id == id
                    ==> s.board_versions[i].source_summary_id != s.summaries[k].id
        },
        (forall|i: int| 0 <= i < s.meetings.len() ==> (#[trigger] s.meetings[i]).id != id)
            ==> meeting_deleted(s, id) == Err::<StoreView, AppErrorView>(AppErrorView::NotFound),
{
    let p = meeting_is(id);
    if any(s.meetings, p) {
        let i = choose|i: int| 0 <= i < s.meetings.len() && p(#[trigger] s.meetings[i]);
        assert(s.meetings[i].id == id);
    }
    if exists|i: int| 0 <= i < s.meetings.len() && (#[trigger] s.meetings[i]).id == id {
        let i = choose|i: int| 0 <= i < s.meetings.len() && (#[trigger] s.meetings[i]).id == id;
        assert(p(s.meetings[i]));
    }
    let g = segment_needs(s.speakers, id);
    if any(s.segments, g) {
        let i = choose|i: int| 0 <= i < s.segments.len() && g(#[trigger] s.segments[i]);
        let q = speaker_needed(id, s.segments[i].speaker_id);
        let k = choose|k: int| 0 <= k < s.speakers.len() && q(#[trigger] s.speakers[k]);
        assert(s.segments[i].meeting_id != id && s.speakers[k].meeting_id == id);
    } else {
        assert forall|i: int, k: int|
            0 <= i < s.segments.len() && 0 <= k < s.speakers.len() && (
            #[trigger] s.segments[i]).meeting_id != id && (#[trigger] s.speakers[k]).meeting_id
                == id implies s.segments[i].speaker_id != Some(s.speakers[k].id) by {
            assert(!g(s.segments[i]));
            assert(!speaker_needed(id, s.segments[i].speaker_id)(s.speakers[k]));
        }
    }
    let h = version_needs(s.summaries, id);
    if any(s.board_versions, h) {
        let i = choose|i: int| 0 <= i < s.board_versions.len() && h(#[trigger] s.board_versions[i]);
        let q = summary_needed(id, s.board_versions[i].source_summary_id);
        let k = choose|k: int| 0 <= k < s.summaries.len() && q(#[trigger] s.summaries[k]);
        assert(s.board_versions[i].meeting_id != id && s.summaries[k].meeting_id == id);
    } else {
        assert forall|i: int, k: int|
            0 <= i < s.board_versions.len() && 0 <= k < s.summaries.len() && (
            #[trigger] s.board_versions[i]).meeting_id != id && (
            #[trigger] s.summaries[k]).meeting_id
                == id implies s.board_versions[i].source_summary_id != s.summaries[k].id by {
            assert(!h(s.board_versions[i]));
            assert(!summary_needed(id, s.board_versions[i].source_summary_id)(s.summaries[k]));
        }
    }
}

/// Whether an object shows a meeting: what it shows under each name is the meeting's own,
/// and null where the meeting has none.
pub open spec fn shows_meeting(map: Map<Seq<char>, JsonView>, m: MeetingView) -> bool {
    &&& map["id"@] == JsonView::Str(m.id)
    &&& map["title"@] == JsonView::Str(m.title)
    &&& map["status"@] == JsonView::Str(
        match m.status {
            MeetingStatus::Running => "running"@,
            MeetingStatus::Ended => "ended"@,
        },
    )
    &&& map["started_at"@] == match m.started_at {
        Some(t) => JsonView::Str(t),
        None => JsonView::Null,
    }
    &&& map["ended_at"@] == match m.ended_at {
        Some(t) => JsonView::Str(t),
        None => JsonView::Null,
    }
    &&& map["board_version"@] == JsonView::Number(json_number(m.board_version))
    &&& map["next_summary_end_ms"@] == JsonView::Number(json_number(m.next_summary_end_ms))
    &&& map["summary_window_ms"@] == JsonView::Number(json_number(m.summary_window_ms))
}

/// A client sees of a meeting its id, its title, its status, when it began and ended, the
/// version of its board, and where its next summary ends and how long its windows are, each
/// the meeting's own, and nothing else.
pub proof fn law_meeting_is_shown_as_it_is(m: MeetingView)
    ensures
        meeting_members(m).dom() == set![
            "id"@,
            "title"@,
            "status"@,
            "started_at"@,
            "ended_at"@,
            "board_version"@,
            "next_summary_end_ms"@,
            "summary_window_ms"@,
        ],
        shows_meeting(meeting_members(m), m),
{
    reveal_strlit("id");
    reveal_strlit("title");
    reveal_strlit("status");
    reveal_strlit("started_at");
    reveal_strlit("ended_at");
    reveal_strlit("board_version");
    reveal_strlit("next_summary_end_ms");
    reveal_strlit("summary_window_ms");
    assert("id"@.len() == 2 && "title"@.len() == 5 && "status"@.len() == 6 && "started_at"@.len()
        == 10 && "ended_at"@.len() == 8 && "board_version"@.len() == 13
        && "next_summary_end_ms"@.len() == 19 && "summary_window_ms"@.len() == 17);
    assert(meeting_members(m).dom() =~= set![
        "id"@,
        "title"@,
        "status"@,
        "started_at"@,
        "ended_at"@,
        "board_version"@,
        "next_summary_end_ms"@,
        "summary_window_ms"@,
    ]);
}

/// Who asks for a meeting that is there is shown that meeting, as it is; who asks for one
/// that is not there is told so.
pub proof fn law_asked_for_meeting_is_shown(s: StoreView, id: Seq<char>, at: int)
    requires
        0 <= at <= s.meetings.len(),
        forall|i: int| 0 <= i < at ==> (#[trigger] s.meetings[i]).id != id,
        at < s.meetings.len() ==> s.meetings[at].id == id,
    ensures
        at < s.meetings.len() ==> (meeting_shown(s, id) matches Ok(v) && v is Object
            && v->Object_0.len() == 8 && shows_meeting(v->Object_0, s.meetings[at]))
            && meeting_required(s, id) is Ok,
        at == s.meetings.len() ==> meeting_shown(s, id) == Err::<JsonView, AppErrorView>(
            AppErrorView::NotFound,
        ) && meeting_required(s, id) == Err::<(), AppErrorView>(AppErrorView::NotFound),
{
    let p = meeting_is(id);
    lemma_first_holds(s.meetings, p);
    if at < s.meetings.len() {
        assert(is_first(s.meetings, p, at));
        lemma_first_is(s.meetings, p, at);
        assert(any(s.meetings, p));
        law_meeting_is_shown_as_it_is(s.meetings[at]);
        reveal_strlit("id");
        reveal_strlit("title");
        reveal_strlit("status");
        reveal_strlit("started_at");
        reveal_strlit("ended_at");
        reveal_strlit("board_version");
        reveal_strlit("next_summary_end_ms");
        reveal_strlit("summary_window_ms");
        assert("id"@.len() == 2 && "title"@.len() == 5 && "status"@.len() == 6
            && "started_at"@.len() == 10 && "ended_at"@.len() == 8 && "board_version"@.len() == 13
            && "next_summary_end_ms"@.len() == 19 && "summary_window_ms"@.len() == 17);
    }
}

} // verus!
