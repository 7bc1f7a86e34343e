//! What always holds of the store: nothing that must differ is the same twice,
//! and what a row refers to is there, in the same meeting.
use vstd::prelude::*;

use crate::error::AppErrorView;
use crate::jobs::{
    job_for, job_is, new_job, or_unchanged, rebuild_enqueued, requeue_finished, summary_enqueued,
    summary_target, with_job_once,
};
use crate::json::JsonView;
use crate::meetings::{
    board_elsewhere, ended, ending, job_elsewhere, meeting_created, meeting_deleted, other_meeting,
    segment_elsewhere, speaker_elsewhere, summary_elsewhere, version_elsewhere, without_meeting,
};
use crate::queue::{
    claiming, completing, failing, job_finished, recovering, retrying, segment_put, target_or,
};
use crate::rebuild::{
    board_stays, cut_back, job_stays, latest, rebuilt, set_back, setting_back, summary_stays,
    version_stays,
};
use crate::round::{round_claimed, round_noted, RoundView};
use crate::rows::{any, first, lemma_first_holds, lemma_kept_are_rows};
use crate::segments::{
    reassigning, reworded, rewording, segment_edited, segment_inserted, upload_admitted,
};
use crate::speakers::{speaker_created, speaker_ensured, store_of};
use crate::store::{
    meeting_is, segment_in, segment_is, segment_numbered, speaker_in, speaker_is, speaker_named,
    BoardVersionView, BoardView, ClockView, JobTypeView, JobView, MeetingView, SegmentStatus,
    SegmentView, SpeakerView, StoreView, SummaryRowView,
};
use crate::summary::SummaryView;
use crate::transcription::{
    starting, transcribing, transcription_begun, transcription_completed, TranscriptionView,
};
use crate::uploads::UploadView;
use crate::windows::{
    advancing, board_of, board_put, boards_with, is_added, summary_at, summary_completed,
    summary_is, version_in, version_row_is, with_summary, SummaryIdsView, WindowView,
};

verus! {

/// Whether every row satisfies `p`.
pub open spec fn all<V>(rows: Seq<V>, p: spec_fn(V) -> bool) -> bool {
    forall|i: int| 0 <= i < rows.len() ==> p(#[trigger] rows[i])
}

/// Whether no two rows have the same key. A row without a key is like no other.
pub open spec fn unique<V, K>(rows: Seq<V>, key: spec_fn(V) -> Option<K>) -> bool {
    forall|i: int, j: int|
        0 <= i < j < rows.len() && key(#[trigger] rows[i]) is Some ==> key(rows[i]) != key(
            #[trigger] rows[j],
        )
}

proof fn lemma_unique_push<V, K>(rows: Seq<V>, key: spec_fn(V) -> Option<K>, row: V)
    requires
        unique(rows, key),
        forall|i: int| 0 <= i < rows.len() && key(row) is Some ==> key(#[trigger] rows[i]) != key(row),
    ensures
        unique(rows.push(row), key),
{
    let new = rows.push(row);
    assert forall|i: int, j: int|
        0 <= i < j < new.len() && key(#[trigger] new[i]) is Some implies key(new[i]) != key(
        #[trigger] new[j],
    ) by {
        assert(new[i] == rows[i]);
        if j < rows.len() {
            assert(new[j] == rows[j]);
        }
    }
}

proof fn lemma_unique_map<V, K>(rows: Seq<V>, key: spec_fn(V) -> Option<K>, g: spec_fn(V) -> V)
    requires
        unique(rows, key),
        forall|r: V| key(#[trigger] g(r)) == key(r),
    ensures
        unique(rows.map_values(g), key),
{
    let new = rows.map_values(g);
    assert forall|i: int, j: int|
        0 <= i < j < new.len() && key(#[trigger] new[i]) is Some implies key(new[i]) != key(
        #[trigger] new[j],
    ) by {
        assert(new[i] == g(rows[i]));
        assert(new[j] == g(rows[j]));
    }
}

proof fn lemma_unique_filter<V, K>(rows: Seq<V>, key: spec_fn(V) -> Option<K>, p: spec_fn(V) -> bool)
    requires
        unique(rows, key),
    ensures
        unique(rows.filter(p), key),
    decreases rows.len(),
{
    reveal(Seq::filter);
    if rows.len() > 0 {
        let front = rows.drop_last();
        assert forall|i: int, j: int|
            0 <= i < j < front.len() && key(#[trigger] front[i]) is Some implies key(front[i])
            != key(#[trigger] front[j]) by {
            assert(front[i] == rows[i]);
            assert(front[j] == rows[j]);
        }
        lemma_unique_filter(front, key, p);
        if p(rows.last()) {
            assert forall|i: int|
                0 <= i < front.filter(p).len() && key(rows.last()) is Some implies key(
                #[trigger] front.filter(p)[i],
            ) != key(rows.last()) by {
                lemma_kept_are_rows(front, p, i);
                let k = choose|k: int| 0 <= k < front.len() && front[k] == front.filter(p)[i];
                assert(front[k] == rows[k]);
                assert(rows[rows.len() - 1] == rows.last());
            }
            lemma_unique_push(front.filter(p), key, rows.last());
        }
    }
}

proof fn lemma_all_filter<V>(rows: Seq<V>, q: spec_fn(V) -> bool, p: spec_fn(V) -> bool)
    requires
        all(rows, q),
    ensures
        all(rows.filter(p), q),
{
    assert forall|i: int| 0 <= i < rows.filter(p).len() implies q(#[trigger] rows.filter(p)[i]) by {
        lemma_kept_are_rows(rows, p, i);
        let k = choose|k: int| 0 <= k < rows.len() && rows[k] == rows.filter(p)[i];
        assert(q(rows[k]));
    }
}

proof fn lemma_all_map<V>(rows: Seq<V>, q: spec_fn(V) -> bool, g: spec_fn(V) -> V)
    requires
        all(rows, q),
        forall|r: V| q(r) ==> #[trigger] q(g(r)),
    ensures
        all(rows.map_values(g), q),
{
    let new = rows.map_values(g);
    assert forall|i: int| 0 <= i < new.len() implies q(#[trigger] new[i]) by {
        assert(q(rows[i]));
        assert(q(g(rows[i])));
    }
}

proof fn lemma_any_map<V>(rows: Seq<V>, q: spec_fn(V) -> bool, g: spec_fn(V) -> V)
    requires
        any(rows, q),
        forall|r: V| q(r) ==> #[trigger] q(g(r)),
    ensures
        any(rows.map_values(g), q),
{
    let i = choose|i: int| 0 <= i < rows.len() && q(#[trigger] rows[i]);
    assert(q(g(rows[i])));
    assert(rows.map_values(g)[i] == g(rows[i]));
}

proof fn lemma_any_push<V>(rows: Seq<V>, q: spec_fn(V) -> bool, row: V)
    ensures
        any(rows, q) ==> any(rows.push(row), q),
        q(row) ==> any(rows.push(row), q),
{
    let new = rows.push(row);
    if any(rows, q) {
        let i = choose|i: int| 0 <= i < rows.len() && q(#[trigger] rows[i]);
        assert(q(new[i]));
    }
    if q(row) {
        assert(q(new[rows.len() as int]));
    }
}

proof fn lemma_all_push<V>(rows: Seq<V>, q: spec_fn(V) -> bool, row: V)
    requires
        all(rows, q),
        q(row),
    ensures
        all(rows.push(row), q),
{
    let new = rows.push(row);
    assert forall|i: int| 0 <= i < new.len() implies q(#[trigger] new[i]) by {
        if i < rows.len() {
            assert(new[i] == rows[i]);
        }
    }
}

proof fn lemma_all_weaker<V>(rows: Seq<V>, q: spec_fn(V) -> bool, weaker: spec_fn(V) -> bool)
    requires
        all(rows, q),
        forall|r: V| q(r) ==> #[trigger] weaker(r),
    ensures
        all(rows, weaker),
{
    assert forall|i: int| 0 <= i < rows.len() implies weaker(#[trigger] rows[i]) by {
        assert(q(rows[i]));
    }
}

/// The id of a meeting.
pub open spec fn meeting_id() -> spec_fn(MeetingView) -> Option<Seq<char>> {
    |m: MeetingView| Some(m.id)
}

/// The id of a speaker.
pub open spec fn speaker_id() -> spec_fn(SpeakerView) -> Option<Seq<char>> {
    |r: SpeakerView| Some(r.id)
}

/// The id of a segment.
pub open spec fn segment_id() -> spec_fn(SegmentView) -> Option<Seq<char>> {
    |r: SegmentView| Some(r.id)
}

/// The meeting and the number of a segment.
pub open spec fn segment_place() -> spec_fn(SegmentView) -> Option<(Seq<char>, i64)> {
    |r: SegmentView| Some((r.meeting_id, r.sequence_no))
}

/// The id of a summary.
pub open spec fn summary_id() -> spec_fn(SummaryRowView) -> Option<Seq<char>> {
    |r: SummaryRowView| Some(r.id)
}

/// The meeting and the end of the window of a summary.
pub open spec fn summary_place() -> spec_fn(SummaryRowView) -> Option<(Seq<char>, i64)> {
    |r: SummaryRowView| Some((r.meeting_id, r.window_end_ms))
}

/// The meeting of a board.
pub open spec fn board_place() -> spec_fn(BoardView) -> Option<Seq<char>> {
    |r: BoardView| Some(r.meeting_id)
}

/// The id of a version.
pub open spec fn version_id() -> spec_fn(BoardVersionView) -> Option<Seq<char>> {
    |r: BoardVersionView| Some(r.id)
}

/// The meeting and the number of a version.
pub open spec fn version_place() -> spec_fn(BoardVersionView) -> Option<(Seq<char>, i64)> {
    |r: BoardVersionView| Some((r.meeting_id, r.version))
}

/// The id of a job.
pub open spec fn job_id() -> spec_fn(JobView) -> Option<Seq<char>> {
    |r: JobView| Some(r.id)
}

/// What a job does, for which meeting, about what.
pub open spec fn job_place() -> spec_fn(JobView) -> Option<(JobTypeView, Seq<char>, Seq<char>)> {
    |r: JobView|
        match r.target_id {
            Some(target) => Some((r.job_type, r.meeting_id, target)),
            None => None,
        }
}

/// Whether there is a meeting with an id among these.
pub open spec fn is_there(meetings: Seq<MeetingView>, id: Seq<char>) -> bool {
    any(meetings, meeting_is(id))
}

/// A speaker whose meeting is there.
pub open spec fn speaker_fits(meetings: Seq<MeetingView>) -> spec_fn(SpeakerView) -> bool {
    |r: SpeakerView| is_there(meetings, r.meeting_id)
}

/// A segment whose meeting is there, and whose speaker is one of that meeting's.
pub open spec fn segment_fits(meetings: Seq<MeetingView>, speakers: Seq<SpeakerView>) -> spec_fn(
    SegmentView,
) -> bool {
    |r: SegmentView|
        is_there(meetings, r.meeting_id) && (r.speaker_id matches Some(id) ==> any(
            speakers,
            speaker_in(id, r.meeting_id),
        ))
}

/// A summary whose meeting is there.
pub open spec fn summary_fits(meetings: Seq<MeetingView>) -> spec_fn(SummaryRowView) -> bool {
    |r: SummaryRowView| is_there(meetings, r.meeting_id)
}

/// A board whose meeting is there.
pub open spec fn board_fits(meetings: Seq<MeetingView>) -> spec_fn(BoardView) -> bool {
    |r: BoardView| is_there(meetings, r.meeting_id)
}

/// The summary with an id, in a meeting.
pub open spec fn summary_in(id: Seq<char>, meeting_id: Seq<char>) -> spec_fn(
    SummaryRowView,
) -> bool {
    |r: SummaryRowView| r.id == id && r.meeting_id == meeting_id
}

/// A version of a board whose meeting is there, and whose summary is one of that
/// meeting's.
pub open spec fn version_fits(meetings: Seq<MeetingView>, summaries: Seq<SummaryRowView>) -> spec_fn(
    BoardVersionView,
) -> bool {
    |r: BoardVersionView|
        is_there(meetings, r.meeting_id) && any(
            summaries,
            summary_in(r.source_summary_id, r.meeting_id),
        )
}

/// A job whose meeting is there, and whose segment, if it is to transcribe one, is
/// one of that meeting's.
pub open spec fn job_fits(meetings: Seq<MeetingView>, segments: Seq<SegmentView>) -> spec_fn(
    JobView,
) -> bool {
    |r: JobView|
        is_there(meetings, r.meeting_id) && (r.job_type == JobTypeView::Transcribe ==> r.target_id
            is Some && any(segments, segment_in(r.target_id.unwrap(), r.meeting_id)))
}

/// Whether nothing that must differ is the same twice, and whether what a row
/// refers to is there, in the same meeting.
pub open spec fn sound(s: StoreView) -> bool {
    &&& unique(s.meetings, meeting_id())
    &&& unique(s.speakers, speaker_id())
    &&& all(s.speakers, speaker_fits(s.meetings))
    &&& unique(s.segments, segment_id())
    &&& unique(s.segments, segment_place())
    &&& all(s.segments, segment_fits(s.meetings, s.speakers))
    &&& unique(s.summaries, summary_id())
    &&& unique(s.summaries, summary_place())
    &&& all(s.summaries, summary_fits(s.meetings))
    &&& unique(s.boards, board_place())
    &&& all(s.boards, board_fits(s.meetings))
    &&& unique(s.board_versions, version_id())
    &&& unique(s.board_versions, version_place())
    &&& all(s.board_versions, version_fits(s.meetings, s.summaries))
    &&& unique(s.jobs, job_id())
    &&& unique(s.jobs, job_place())
    &&& all(s.jobs, job_fits(s.meetings, s.segments))
}

/// Whether every meeting that was there is there still.
pub open spec fn keeps_meetings(before: Seq<MeetingView>, after: Seq<MeetingView>) -> bool {
    forall|id: Seq<char>| #[trigger] is_there(before, id) ==> is_there(after, id)
}

proof fn lemma_map_keeps_meetings(meetings: Seq<MeetingView>, g: spec_fn(MeetingView) -> MeetingView)
    requires
        forall|m: MeetingView| (#[trigger] g(m)).id == m.id,
    ensures
        keeps_meetings(meetings, meetings.map_values(g)),
{
    let after = meetings.map_values(g);
    assert forall|id: Seq<char>| #[trigger] is_there(meetings, id) implies is_there(after, id) by {
        let i = choose|i: int| 0 <= i < meetings.len() && meeting_is(id)(#[trigger] meetings[i]);
        assert(after[i] == g(meetings[i]));
        assert(meeting_is(id)(after[i]));
    }
}

/// What the other tables say of meetings holds on where the meetings are there still.
proof fn lemma_other_meetings(s: StoreView, meetings: Seq<MeetingView>)
    requires
        sound(s),
        keeps_meetings(s.meetings, meetings),
        unique(meetings, meeting_id()),
    ensures
        sound(StoreView { meetings, ..s }),
{
    lemma_all_weaker(s.speakers, speaker_fits(s.meetings), speaker_fits(meetings));
    lemma_all_weaker(
        s.segments,
        segment_fits(s.meetings, s.speakers),
        segment_fits(meetings, s.speakers),
    );
    lemma_all_weaker(s.summaries, summary_fits(s.meetings), summary_fits(meetings));
    lemma_all_weaker(s.boards, board_fits(s.meetings), board_fits(meetings));
    lemma_all_weaker(
        s.board_versions,
        version_fits(s.meetings, s.summaries),
        version_fits(meetings, s.summaries),
    );
    lemma_all_weaker(
        s.jobs,
        job_fits(s.meetings, s.segments),
        job_fits(meetings, s.segments),
    );
}

proof fn lemma_meetings_map(s: StoreView, g: spec_fn(MeetingView) -> MeetingView)
    requires
        sound(s),
        forall|m: MeetingView| (#[trigger] g(m)).id == m.id,
    ensures
        sound(StoreView { meetings: s.meetings.map_values(g), ..s }),
{
    lemma_map_keeps_meetings(s.meetings, g);
    lemma_unique_map(s.meetings, meeting_id(), g);
    lemma_other_meetings(s, s.meetings.map_values(g));
}

/// Whether a change to a job keeps what the job is.
pub open spec fn keeps_job(g: spec_fn(JobView) -> JobView) -> bool {
    forall|j: JobView|
        (#[trigger] g(j)).id == j.id && g(j).job_type == j.job_type && g(j).meeting_id
            == j.meeting_id && g(j).target_id == j.target_id
}

proof fn lemma_jobs_map(s: StoreView, g: spec_fn(JobView) -> JobView)
    requires
        sound(s),
        keeps_job(g),
    ensures
        sound(StoreView { jobs: s.jobs.map_values(g), ..s }),
{
    lemma_unique_map(s.jobs, job_id(), g);
    lemma_unique_map(s.jobs, job_place(), g);
    lemma_all_map(s.jobs, job_fits(s.meetings, s.segments), g);
}

proof fn lemma_jobs_filter(s: StoreView, p: spec_fn(JobView) -> bool)
    requires
        sound(s),
    ensures
        sound(StoreView { jobs: s.jobs.filter(p), ..s }),
{
    lemma_unique_filter(s.jobs, job_id(), p);
    lemma_unique_filter(s.jobs, job_place(), p);
    lemma_all_filter(s.jobs, job_fits(s.meetings, s.segments), p);
}

proof fn lemma_jobs_push(s: StoreView, job: JobView)
    requires
        sound(s),
        job.target_id is Some,
        job_fits(s.meetings, s.segments)(job),
        !any(s.jobs, job_is(job.id)),
        !any(s.jobs, job_for(job.job_type, job.meeting_id, job.target_id.unwrap())),
    ensures
        sound(StoreView { jobs: s.jobs.push(job), ..s }),
{
    assert forall|i: int| 0 <= i < s.jobs.len() implies job_id()(#[trigger] s.jobs[i]) != job_id()(
        job,
    ) by {
        assert(!job_is(job.id)(s.jobs[i]));
    }
    assert forall|i: int| 0 <= i < s.jobs.len() implies job_place()(#[trigger] s.jobs[i])
        != job_place()(job) by {
        assert(!job_for(job.job_type, job.meeting_id, job.target_id.unwrap())(s.jobs[i]));
    }
    lemma_unique_push(s.jobs, job_id(), job);
    lemma_unique_push(s.jobs, job_place(), job);
    lemma_all_push(s.jobs, job_fits(s.meetings, s.segments), job);
}

/// Whether a change to a segment keeps what the segment is.
pub open spec fn keeps_segment(g: spec_fn(SegmentView) -> SegmentView) -> bool {
    forall|r: SegmentView|
        (#[trigger] g(r)).id == r.id && g(r).meeting_id == r.meeting_id && g(r).sequence_no
            == r.sequence_no
}

proof fn lemma_segments_map(s: StoreView, g: spec_fn(SegmentView) -> SegmentView)
    requires
        sound(s),
        keeps_segment(g),
        all(s.segments.map_values(g), segment_fits(s.meetings, s.speakers)),
    ensures
        sound(StoreView { segments: s.segments.map_values(g), ..s }),
{
    let new = s.segments.map_values(g);
    lemma_unique_map(s.segments, segment_id(), g);
    lemma_unique_map(s.segments, segment_place(), g);
    assert forall|j: JobView| job_fits(s.meetings, s.segments)(j) implies #[trigger] job_fits(
        s.meetings,
        new,
    )(j) by {
        if j.job_type == JobTypeView::Transcribe {
            lemma_any_map(s.segments, segment_in(j.target_id.unwrap(), j.meeting_id), g);
        }
    }
    lemma_all_weaker(s.jobs, job_fits(s.meetings, s.segments), job_fits(s.meetings, new));
}

proof fn lemma_segments_map_plain(s: StoreView, g: spec_fn(SegmentView) -> SegmentView)
    requires
        sound(s),
        keeps_segment(g),
        forall|r: SegmentView| (#[trigger] g(r)).speaker_id == r.speaker_id,
    ensures
        sound(StoreView { segments: s.segments.map_values(g), ..s }),
{
    lemma_all_map(s.segments, segment_fits(s.meetings, s.speakers), g);
    lemma_segments_map(s, g);
}

/// Opening a meeting keeps the store sound.
pub proof fn law_sound_after_create_meeting(
    s: StoreView,
    title: Seq<char>,
    window: Option<i64>,
    id: Seq<char>,
    clock: ClockView,
)
    requires
        sound(s),
    ensures
        sound(or_unchanged(meeting_created(s, title, window, id, clock), s)),
{
    match meeting_created(s, title, window, id, clock) {
        Ok(new) => {
            let row = new.meetings.last();
            assert(new.meetings == s.meetings.push(row));
            assert forall|i: int| 0 <= i < s.meetings.len() implies meeting_id()(
                #[trigger] s.meetings[i],
            ) != meeting_id()(row) by {
                assert(!meeting_is(id)(s.meetings[i]));
            }
            lemma_unique_push(s.meetings, meeting_id(), row);
            assert forall|other: Seq<char>| #[trigger] is_there(s.meetings, other) implies is_there(
                new.meetings,
                other,
            ) by {
                lemma_any_push(s.meetings, meeting_is(other), row);
            }
            lemma_other_meetings(s, new.meetings);
        },
        Err(_) => {},
    }
}

/// Asking for a rebuild keeps the store sound.
pub proof fn law_sound_after_enqueue_rebuild(
    s: StoreView,
    meeting: Seq<char>,
    window_start: i64,
    id: Seq<char>,
    clock: ClockView,
)
    requires
        sound(s),
    ensures
        sound(or_unchanged(rebuild_enqueued(s, meeting, window_start, id, clock), s)),
{
    let target = crate::number::decimal(window_start as int);
    if any(s.jobs, job_for(JobTypeView::Rebuild, meeting, target)) {
        lemma_jobs_map(s, requeue_finished(JobTypeView::Rebuild, meeting, target, clock));
    } else if s.has_meeting(meeting) && !any(s.jobs, job_is(id)) {
        lemma_jobs_push(s, new_job(id, JobTypeView::Rebuild, meeting, target, clock));
    }
}

/// Asking for a summary keeps the store sound.
pub proof fn law_sound_after_enqueue_summary(
    s: StoreView,
    meeting: Seq<char>,
    final_window: bool,
    id: Seq<char>,
    clock: ClockView,
)
    requires
        sound(s),
    ensures
        sound(or_unchanged(summary_enqueued(s, meeting, final_window, id, clock), s)),
{
    lemma_first_holds(s.meetings, meeting_is(meeting));
    match summary_target(s, meeting, final_window) {
        Some(target) => {
            let job = new_job(id, JobTypeView::Summary, meeting, target, clock);
            if s.has_meeting(meeting) && with_job_once(s, job) != s {
                lemma_jobs_push(s, job);
            }
        },
        None => {},
    }
}

/// Ending a meeting keeps the store sound.
pub proof fn law_sound_after_end_meeting(
    s: StoreView,
    id: Seq<char>,
    job: Seq<char>,
    clock: ClockView,
)
    requires
        sound(s),
    ensures
        sound(ended(s, id, job, clock).0),
{
    if s.has_meeting(id) {
        lemma_meetings_map(s, ending(id, clock));
        let over = StoreView { meetings: s.meetings.map_values(ending(id, clock)), ..s };
        law_sound_after_enqueue_summary(over, id, true, job, clock);
    }
}

proof fn lemma_speakers_push(s: StoreView, speaker: SpeakerView)
    requires
        sound(s),
        s.has_meeting(speaker.meeting_id),
        !any(s.speakers, speaker_is(speaker.id)),
    ensures
        sound(StoreView { speakers: s.speakers.push(speaker), ..s }),
{
    let new = s.speakers.push(speaker);
    assert forall|i: int| 0 <= i < s.speakers.len() implies speaker_id()(#[trigger] s.speakers[i])
        != speaker_id()(speaker) by {
        assert(!speaker_is(speaker.id)(s.speakers[i]));
    }
    lemma_unique_push(s.speakers, speaker_id(), speaker);
    lemma_all_push(s.speakers, speaker_fits(s.meetings), speaker);
    assert forall|g: SegmentView|
        segment_fits(s.meetings, s.speakers)(g) implies #[trigger] segment_fits(s.meetings, new)(
        g,
    ) by {
        if g.speaker_id is Some {
            lemma_any_push(s.speakers, speaker_in(g.speaker_id.unwrap(), g.meeting_id), speaker);
        }
    }
    lemma_all_weaker(
        s.segments,
        segment_fits(s.meetings, s.speakers),
        segment_fits(s.meetings, new),
    );
}

/// Adding a speaker keeps the store sound.
pub proof fn law_sound_after_create_speaker(
    s: StoreView,
    meeting: Seq<char>,
    name: Seq<char>,
    id: Seq<char>,
)
    requires
        sound(s),
    ensures
        sound(or_unchanged(speaker_created(s, meeting, name, id), s)),
{
    match speaker_created(s, meeting, name, id) {
        Ok(new) => {
            lemma_speakers_push(s, new.speakers.last());
            assert(new.speakers == s.speakers.push(new.speakers.last()));
        },
        Err(_) => {},
    }
}

/// Asking for the speaker of a name keeps the store sound, and gives a speaker of
/// that meeting.
pub proof fn law_sound_after_ensure_speaker(
    s: StoreView,
    meeting: Seq<char>,
    name: Seq<char>,
    id: Seq<char>,
)
    requires
        sound(s),
    ensures
        sound(store_of(speaker_ensured(s, meeting, name, id), s)),
        speaker_ensured(s, meeting, name, id) matches Ok((new, given)) ==> any(
            new.speakers,
            speaker_in(given, meeting),
        ),
{
    lemma_first_holds(s.speakers, speaker_named(meeting, name));
    match first(s.speakers, speaker_named(meeting, name)) {
        Some(speaker) => {
            let i = choose|i: int| 0 <= i < s.speakers.len() && s.speakers[i] == speaker;
            assert(speaker_in(speaker.id, meeting)(s.speakers[i]));
        },
        None => {
            match speaker_ensured(s, meeting, name, id) {
                Ok((new, given)) => {
                    let row = SpeakerView { id, meeting_id: meeting, name };
                    lemma_speakers_push(s, row);
                    lemma_any_push(s.speakers, speaker_in(id, meeting), row);
                },
                Err(_) => {},
            }
        },
    }
}

/// Settling whether an upload is taken in keeps the store sound, and the speaker
/// who is settled on is one of that meeting's.
pub proof fn law_sound_after_admit_upload(
    s: StoreView,
    meeting: Seq<char>,
    upload: UploadView,
    new_speaker: Seq<char>,
)
    requires
        sound(s),
    ensures
        sound(upload_admitted(s, meeting, upload, new_speaker).0),
        upload_admitted(s, meeting, upload, new_speaker).1 matches Ok(Some(id)) ==> any(
            upload_admitted(s, meeting, upload, new_speaker).0.speakers,
            speaker_in(id, meeting),
        ),
{
    match crate::text::cleaned(upload.speaker_name) {
        Some(name) => law_sound_after_ensure_speaker(s, meeting, name, new_speaker),
        None => {},
    }
}

/// Adding a segment whose speaker is one of its meeting's keeps the store sound.
pub proof fn law_sound_after_insert_segment(
    s: StoreView,
    segment: SegmentView,
    job: Seq<char>,
    clock: ClockView,
)
    requires
        sound(s),
        segment.speaker_id matches Some(id) ==> any(s.speakers, speaker_in(id, segment.meeting_id)),
    ensures
        sound(or_unchanged(segment_inserted(s, segment, job, clock), s)),
{
    match segment_inserted(s, segment, job, clock) {
        Ok(new) => {
            let with = StoreView { segments: s.segments.push(segment), ..s };
            assert forall|i: int| 0 <= i < s.segments.len() implies segment_id()(
                #[trigger] s.segments[i],
            ) != segment_id()(segment) && segment_place()(s.segments[i]) != segment_place()(
                segment,
            ) by {
                assert(!segment_is(segment.id)(s.segments[i]));
                assert(!segment_numbered(segment.meeting_id, segment.sequence_no)(s.segments[i]));
            }
            lemma_unique_push(s.segments, segment_id(), segment);
            lemma_unique_push(s.segments, segment_place(), segment);
            lemma_all_push(s.segments, segment_fits(s.meetings, s.speakers), segment);
            assert forall|j: JobView|
                job_fits(s.meetings, s.segments)(j) implies #[trigger] job_fits(
                s.meetings,
                with.segments,
            )(j) by {
                if j.job_type == JobTypeView::Transcribe {
                    lemma_any_push(
                        s.segments,
                        segment_in(j.target_id.unwrap(), j.meeting_id),
                        segment,
                    );
                }
            }
            lemma_all_weaker(
                s.jobs,
                job_fits(s.meetings, s.segments),
                job_fits(s.meetings, with.segments),
            );
            assert(sound(with));
            let row = new_job(job, JobTypeView::Transcribe, segment.meeting_id, segment.id, clock);
            lemma_any_push(s.segments, segment_in(segment.id, segment.meeting_id), segment);
            lemma_jobs_push(with, row);
        },
        Err(_) => {},
    }
}

/// Editing a segment keeps the store sound.
pub proof fn law_sound_after_update_segment(
    s: StoreView,
    meeting: Seq<char>,
    id: Seq<char>,
    transcript: Option<Seq<char>>,
    speaker_name: Option<Seq<char>>,
    new_speaker: Seq<char>,
)
    requires
        sound(s),
    ensures
        sound(segment_edited(s, meeting, id, transcript, speaker_name, new_speaker).0),
{
    let text = crate::text::cleaned(transcript);
    let name = crate::text::cleaned(speaker_name);
    let kept = reworded(s, meeting, id, text);
    if text is Some {
        lemma_segments_map_plain(s, rewording(id, meeting, text.unwrap()));
    }
    if name is Some {
        law_sound_after_ensure_speaker(kept, meeting, name.unwrap(), new_speaker);
        match speaker_ensured(kept, meeting, name.unwrap(), new_speaker) {
            Ok((new, given)) => {
                let g = reassigning(id, meeting, given);
                lemma_all_map(new.segments, segment_fits(new.meetings, new.speakers), g);
                lemma_segments_map(new, g);
            },
            Err(_) => {},
        }
    }
}

/// Claiming a job, taking interrupted jobs up again and retrying a job keep the
/// store sound.
pub proof fn law_sound_after_job_changes(s: StoreView, id: Seq<char>, clock: ClockView)
    requires
        sound(s),
    ensures
        sound(StoreView { jobs: s.jobs.map_values(claiming(id, clock)), ..s }),
        sound(StoreView { jobs: s.jobs.map_values(recovering(clock)), ..s }),
        sound(StoreView { jobs: s.jobs.map_values(retrying(id, clock)), ..s }),
{
    lemma_jobs_map(s, claiming(id, clock));
    lemma_jobs_map(s, recovering(clock));
    lemma_jobs_map(s, retrying(id, clock));
}

/// What a round of the worker does keeps the store sound.
pub proof fn law_sound_after_round_step(
    s: StoreView,
    round: RoundView,
    result: Result<(), AppErrorView>,
    summary_job: Seq<char>,
    clock: ClockView,
)
    requires
        sound(s),
    ensures
        sound(round_claimed(s, round, clock).0),
        sound(round_noted(s, round, result, summary_job, clock).0),
{
    match round {
        RoundView::Claim { job, .. } => law_sound_after_job_changes(s, job.id, clock),
        RoundView::Run { job, .. } => law_sound_after_finish_job(
            s,
            job,
            result,
            summary_job,
            clock,
        ),
        RoundView::Over(_) => {},
    }
}

/// Noting how a job came out keeps the store sound.
pub proof fn law_sound_after_finish_job(
    s: StoreView,
    job: JobView,
    result: Result<(), AppErrorView>,
    summary_job: Seq<char>,
    clock: ClockView,
)
    requires
        sound(s),
    ensures
        sound(job_finished(s, job, result, summary_job, clock).0),
{
    match result {
        Ok(_) => lemma_jobs_map(s, completing(job.id)),
        Err(e) => {
            let message = crate::error::error_text(e);
            let noted = StoreView { jobs: s.jobs.map_values(failing(job.id, message, clock)), ..s };
            lemma_jobs_map(s, failing(job.id, message, clock));
            let target = target_or(job.target_id, ""@);
            lemma_segments_map_plain(noted, segment_put(target, SegmentStatus::Transcribing));
            lemma_segments_map_plain(noted, segment_put(target, SegmentStatus::Failed));
            let given_up = StoreView {
                segments: s.segments.map_values(segment_put(target, SegmentStatus::Failed)),
                ..noted
            };
            match s.meeting(job.meeting_id) {
                Some(m) => law_sound_after_enqueue_summary(
                    given_up,
                    job.meeting_id,
                    m.status == crate::store::MeetingStatus::Ended,
                    summary_job,
                    clock,
                ),
                None => {},
            }
        },
    }
}

/// Transcribing a segment keeps the store sound.
pub proof fn law_sound_after_transcription(
    s: StoreView,
    segment: Seq<char>,
    meeting: Seq<char>,
    work: TranscriptionView,
    result: Result<Seq<char>, Seq<char>>,
    job: Seq<char>,
    clock: ClockView,
)
    requires
        sound(s),
    ensures
        sound(transcription_begun(s, segment, meeting)),
        sound(transcription_completed(s, work, result, job, clock).0),
{
    lemma_segments_map_plain(s, starting(segment, meeting));
    match result {
        Ok(text) => {
            let g = transcribing(work.segment_id, work.meeting_id, text);
            lemma_segments_map_plain(s, g);
            let kept = StoreView { segments: s.segments.map_values(g), ..s };
            match crate::rows::least(
                s.summaries,
                crate::transcription::window_start_over(
                    work.meeting_id,
                    work.start_ms,
                    work.end_ms,
                ),
            ) {
                Some(start) => law_sound_after_enqueue_rebuild(
                    kept,
                    work.meeting_id,
                    start,
                    job,
                    clock,
                ),
                None => match s.meeting(work.meeting_id) {
                    Some(m) => law_sound_after_enqueue_summary(
                        kept,
                        work.meeting_id,
                        m.status == crate::store::MeetingStatus::Ended,
                        job,
                        clock,
                    ),
                    None => {},
                },
            }
        },
        Err(_) => {},
    }
}

proof fn lemma_boards_with(
    s: StoreView,
    meeting: Seq<char>,
    version: i64,
    content: Seq<char>,
    clock: ClockView,
)
    requires
        sound(s),
        s.has_meeting(meeting),
    ensures
        sound(
            StoreView { boards: boards_with(s.boards, meeting, version, content, clock), ..s },
        ),
{
    if any(s.boards, board_of(meeting)) {
        let g = board_put(meeting, version, content, clock);
        lemma_unique_map(s.boards, board_place(), g);
        lemma_all_map(s.boards, board_fits(s.meetings), g);
    } else {
        let row = BoardView {
            meeting_id: meeting,
            version,
            content_json: content,
            updated_at: clock.now.text,
        };
        assert forall|i: int| 0 <= i < s.boards.len() implies board_place()(#[trigger] s.boards[i])
            != board_place()(row) by {
            assert(!board_of(meeting)(s.boards[i]));
        }
        lemma_unique_push(s.boards, board_place(), row);
        lemma_all_push(s.boards, board_fits(s.meetings), row);
    }
}

proof fn lemma_summaries_push(s: StoreView, row: SummaryRowView)
    requires
        sound(s),
        s.has_meeting(row.meeting_id),
        !any(s.summaries, summary_at(row.meeting_id, row.window_end_ms)),
        !any(s.summaries, summary_is(row.id)),
    ensures
        sound(StoreView { summaries: s.summaries.push(row), ..s }),
{
    let new = s.summaries.push(row);
    assert forall|i: int| 0 <= i < s.summaries.len() implies summary_id()(
        #[trigger] s.summaries[i],
    ) != summary_id()(row) && summary_place()(s.summaries[i]) != summary_place()(row) by {
        assert(!summary_at(row.meeting_id, row.window_end_ms)(s.summaries[i]));
        assert(!summary_is(row.id)(s.summaries[i]));
    }
    lemma_unique_push(s.summaries, summary_id(), row);
    lemma_unique_push(s.summaries, summary_place(), row);
    lemma_all_push(s.summaries, summary_fits(s.meetings), row);
    assert forall|v: BoardVersionView|
        version_fits(s.meetings, s.summaries)(v) implies #[trigger] version_fits(s.meetings, new)(
        v,
    ) by {
        lemma_any_push(s.summaries, summary_in(v.source_summary_id, v.meeting_id), row);
    }
    lemma_all_weaker(
        s.board_versions,
        version_fits(s.meetings, s.summaries),
        version_fits(s.meetings, new),
    );
}

proof fn lemma_versions_push(s: StoreView, row: BoardVersionView)
    requires
        sound(s),
        version_fits(s.meetings, s.summaries)(row),
        !any(s.board_versions, version_row_is(row.id)),
        row.version > s.latest_version(row.meeting_id),
    ensures
        sound(StoreView { board_versions: s.board_versions.push(row), ..s }),
{
    crate::rows::lemma_greatest(s.board_versions, version_in(row.meeting_id));
    assert forall|i: int| 0 <= i < s.board_versions.len() implies version_id()(
        #[trigger] s.board_versions[i],
    ) != version_id()(row) && version_place()(s.board_versions[i]) != version_place()(row) by {
        assert(!version_row_is(row.id)(s.board_versions[i]));
        if s.board_versions[i].meeting_id == row.meeting_id {
            assert(version_in(row.meeting_id)(s.board_versions[i]) == Some(
                s.board_versions[i].version,
            ));
        }
    }
    lemma_unique_push(s.board_versions, version_id(), row);
    lemma_unique_push(s.board_versions, version_place(), row);
    lemma_all_push(s.board_versions, version_fits(s.meetings, s.summaries), row);
}

/// Keeping the document of a window keeps the store sound.
pub proof fn law_sound_after_summary(
    s: StoreView,
    meeting: Seq<char>,
    work: WindowView,
    result: Result<SummaryView, Seq<char>>,
    board: JsonView,
    ids: SummaryIdsView,
    clock: ClockView,
)
    requires
        sound(s),
        s.latest_version(meeting) < i64::MAX,
    ensures
        sound(summary_completed(s, meeting, work, result, board, ids, clock).0),
{
    match result {
        Ok(given) => {
            if is_added(s, meeting, work.end_ms, ids) {
                let document = crate::summary::cleaned_summary(given);
                let kept = with_summary(s, meeting, work, document, board, ids, clock);
                let version = (s.latest_version(meeting) + 1) as i64;
                let content = crate::json::json_text(
                    crate::board::merged_board(board, document),
                );
                let s1 = StoreView { summaries: kept.summaries, ..s };
                let summary = kept.summaries.last();
                assert(kept.summaries == s.summaries.push(summary));
                lemma_summaries_push(s, summary);
                lemma_any_push(s.summaries, summary_in(ids.summary, meeting), summary);
                lemma_boards_with(s1, meeting, version, content, clock);
                let s2 = StoreView { boards: kept.boards, ..s1 };
                let row = kept.board_versions.last();
                assert(kept.board_versions == s.board_versions.push(row));
                lemma_versions_push(s2, row);
                let s3 = StoreView { board_versions: kept.board_versions, ..s2 };
                lemma_meetings_map(
                    s3,
                    advancing(meeting, version, (work.end_ms + work.window_ms) as i64),
                );
                law_sound_after_enqueue_summary(
                    kept,
                    meeting,
                    s.meeting_ended(meeting),
                    ids.job,
                    clock,
                );
            }
        },
        Err(_) => {},
    }
}

proof fn lemma_cut_back(s: StoreView, meeting: Seq<char>, from: i64)
    requires
        sound(s),
    ensures
        sound(cut_back(s, meeting, from)),
{
    let cut = cut_back(s, meeting, from);
    let p = version_stays(s.summaries, meeting, from);
    let q = summary_stays(meeting, from);
    lemma_jobs_filter(s, job_stays(meeting));
    lemma_unique_filter(s.board_versions, version_id(), p);
    lemma_unique_filter(s.board_versions, version_place(), p);
    lemma_unique_filter(s.summaries, summary_id(), q);
    lemma_unique_filter(s.summaries, summary_place(), q);
    lemma_all_filter(s.summaries, summary_fits(s.meetings), q);
    assert forall|i: int| 0 <= i < cut.board_versions.len() implies version_fits(
        s.meetings,
        cut.summaries,
    )(#[trigger] cut.board_versions[i]) by {
        let v = cut.board_versions[i];
        lemma_kept_are_rows(s.board_versions, p, i);
        let k = choose|k: int| 0 <= k < s.board_versions.len() && s.board_versions[k] == v;
        assert(version_fits(s.meetings, s.summaries)(s.board_versions[k]));
        let r = summary_in(v.source_summary_id, v.meeting_id);
        let n = choose|n: int| 0 <= n < s.summaries.len() && r(#[trigger] s.summaries[n]);
        assert(!crate::rebuild::affected_is(meeting, from, v.source_summary_id)(s.summaries[n]));
        assert(crate::rows::both(q, r)(s.summaries[n]));
        crate::rows::lemma_any_of_kept(s.summaries, q, r);
    }
}

/// Setting a meeting back keeps the store sound.
pub proof fn law_sound_after_rebuild(
    s: StoreView,
    meeting: Seq<char>,
    target: Seq<char>,
    job: Seq<char>,
    clock: ClockView,
)
    requires
        sound(s),
    ensures
        sound(rebuilt(s, meeting, target, job, clock).0),
{
    lemma_first_holds(s.meetings, meeting_is(meeting));
    match crate::number::parsed_i64(target) {
        Some(from) => {
            match set_back(s, meeting, from, clock) {
                Ok(back) => {
                    let cut = cut_back(s, meeting, from);
                    lemma_cut_back(s, meeting, from);
                    match latest(cut.board_versions, meeting) {
                        Some(v) => lemma_boards_with(cut, meeting, v.version, v.content_json, clock),
                        None => {
                            lemma_unique_filter(s.boards, board_place(), board_stays(meeting));
                            lemma_all_filter(
                                s.boards,
                                board_fits(s.meetings),
                                board_stays(meeting),
                            );
                        },
                    }
                    let s1 = StoreView { boards: back.boards, ..cut };
                    lemma_meetings_map(
                        s1,
                        setting_back(
                            meeting,
                            crate::rebuild::version_after(s, meeting, from),
                            crate::rebuild::next_end_after(s, meeting, from) as i64,
                        ),
                    );
                    law_sound_after_enqueue_summary(
                        back,
                        meeting,
                        s.meeting_ended(meeting),
                        job,
                        clock,
                    );
                },
                Err(_) => {},
            }
        },
        None => {},
    }
}

/// An empty store is sound.
pub proof fn law_empty_store_is_sound(s: StoreView)
    requires
        s.meetings.len() == 0,
        s.speakers.len() == 0,
        s.segments.len() == 0,
        s.summaries.len() == 0,
        s.boards.len() == 0,
        s.board_versions.len() == 0,
        s.jobs.len() == 0,
    ensures
        sound(s),
{
}

/// Nothing that another meeting has refers to what a meeting has.
proof fn lemma_not_needed_elsewhere(s: StoreView, id: Seq<char>)
    requires
        sound(s),
    ensures
        !crate::meetings::needed_elsewhere(s, id),
{
    assert forall|i: int| 0 <= i < s.segments.len() implies !crate::meetings::segment_needs(
        s.speakers,
        id,
    )(#[trigger] s.segments[i]) by {
        let g = s.segments[i];
        assert(segment_fits(s.meetings, s.speakers)(g));
        let needed = crate::meetings::speaker_needed(id, g.speaker_id);
        if g.meeting_id != id && any(s.speakers, needed) {
            let a = choose|a: int| 0 <= a < s.speakers.len() && needed(#[trigger] s.speakers[a]);
            let q = speaker_in(g.speaker_id.unwrap(), g.meeting_id);
            let b = choose|b: int| 0 <= b < s.speakers.len() && q(#[trigger] s.speakers[b]);
            assert(speaker_id()(s.speakers[a]) == speaker_id()(s.speakers[b]));
        }
    }
    assert forall|i: int| 0 <= i < s.board_versions.len() implies !crate::meetings::version_needs(
        s.summaries,
        id,
    )(#[trigger] s.board_versions[i]) by {
        let v = s.board_versions[i];
        assert(version_fits(s.meetings, s.summaries)(v));
        let needed = crate::meetings::summary_needed(id, v.source_summary_id);
        if v.meeting_id != id && any(s.summaries, needed) {
            let a = choose|a: int| 0 <= a < s.summaries.len() && needed(#[trigger] s.summaries[a]);
            let q = summary_in(v.source_summary_id, v.meeting_id);
            let b = choose|b: int| 0 <= b < s.summaries.len() && q(#[trigger] s.summaries[b]);
            assert(summary_id()(s.summaries[a]) == summary_id()(s.summaries[b]));
        }
    }
}

proof fn lemma_meeting_stays(s: StoreView, id: Seq<char>, other: Seq<char>)
    requires
        other != id,
        is_there(s.meetings, other),
    ensures
        is_there(s.meetings.filter(other_meeting(id)), other),
{
    let i = choose|i: int| 0 <= i < s.meetings.len() && meeting_is(other)(#[trigger] s.meetings[i]);
    assert(crate::rows::both(other_meeting(id), meeting_is(other))(s.meetings[i]));
    crate::rows::lemma_any_of_kept(s.meetings, other_meeting(id), meeting_is(other));
}

/// A meeting of a sound store can be deleted, and the store stays sound.
pub proof fn law_sound_after_delete_meeting(s: StoreView, id: Seq<char>)
    requires
        sound(s),
    ensures
        s.has_meeting(id) ==> meeting_deleted(s, id) is Ok,
        sound(or_unchanged(meeting_deleted(s, id), s)),
{
    lemma_not_needed_elsewhere(s, id);
    let t = without_meeting(s, id);
    lemma_unique_filter(s.meetings, meeting_id(), other_meeting(id));
    lemma_unique_filter(s.speakers, speaker_id(), speaker_elsewhere(id));
    lemma_unique_filter(s.segments, segment_id(), segment_elsewhere(id));
    lemma_unique_filter(s.segments, segment_place(), segment_elsewhere(id));
    lemma_unique_filter(s.summaries, summary_id(), summary_elsewhere(id));
    lemma_unique_filter(s.summaries, summary_place(), summary_elsewhere(id));
    lemma_unique_filter(s.boards, board_place(), board_elsewhere(id));
    lemma_unique_filter(s.board_versions, version_id(), version_elsewhere(id));
    lemma_unique_filter(s.board_versions, version_place(), version_elsewhere(id));
    lemma_unique_filter(s.jobs, job_id(), job_elsewhere(id));
    lemma_unique_filter(s.jobs, job_place(), job_elsewhere(id));
    assert forall|i: int| 0 <= i < t.speakers.len() implies speaker_fits(t.meetings)(
        #[trigger] t.speakers[i],
    ) by {
        lemma_kept_are_rows(s.speakers, speaker_elsewhere(id), i);
        let k = choose|k: int| 0 <= k < s.speakers.len() && s.speakers[k] == t.speakers[i];
        assert(speaker_fits(s.meetings)(s.speakers[k]));
        lemma_meeting_stays(s, id, t.speakers[i].meeting_id);
    }
    assert forall|i: int| 0 <= i < t.segments.len() implies segment_fits(t.meetings, t.speakers)(
        #[trigger] t.segments[i],
    ) by {
        let g = t.segments[i];
        lemma_kept_are_rows(s.segments, segment_elsewhere(id), i);
        let k = choose|k: int| 0 <= k < s.segments.len() && s.segments[k] == g;
        assert(segment_fits(s.meetings, s.speakers)(s.segments[k]));
        lemma_meeting_stays(s, id, g.meeting_id);
        if g.speaker_id is Some {
            let q = speaker_in(g.speaker_id.unwrap(), g.meeting_id);
            let n = choose|n: int| 0 <= n < s.speakers.len() && q(#[trigger] s.speakers[n]);
            assert(crate::rows::both(speaker_elsewhere(id), q)(s.speakers[n]));
            crate::rows::lemma_any_of_kept(s.speakers, speaker_elsewhere(id), q);
        }
    }
    assert forall|i: int| 0 <= i < t.summaries.len() implies summary_fits(t.meetings)(
        #[trigger] t.summaries[i],
    ) by {
        lemma_kept_are_rows(s.summaries, summary_elsewhere(id), i);
        let k = choose|k: int| 0 <= k < s.summaries.len() && s.summaries[k] == t.summaries[i];
        assert(summary_fits(s.meetings)(s.summaries[k]));
        lemma_meeting_stays(s, id, t.summaries[i].meeting_id);
    }
    assert forall|i: int| 0 <= i < t.boards.len() implies board_fits(t.meetings)(
        #[trigger] t.boards[i],
    ) by {
        lemma_kept_are_rows(s.boards, board_elsewhere(id), i);
        let k = choose|k: int| 0 <= k < s.boards.len() && s.boards[k] == t.boards[i];
        assert(board_fits(s.meetings)(s.boards[k]));
        lemma_meeting_stays(s, id, t.boards[i].meeting_id);
    }
    assert forall|i: int| 0 <= i < t.board_versions.len() implies version_fits(
        t.meetings,
        t.summaries,
    )(#[trigger] t.board_versions[i]) by {
        let v = t.board_versions[i];
        lemma_kept_are_rows(s.board_versions, version_elsewhere(id), i);
        let k = choose|k: int| 0 <= k < s.board_versions.len() && s.board_versions[k] == v;
        assert(version_fits(s.meetings, s.summaries)(s.board_versions[k]));
        lemma_meeting_stays(s, id, v.meeting_id);
        let q = summary_in(v.source_summary_id, v.meeting_id);
        let n = choose|n: int| 0 <= n < s.summaries.len() && q(#[trigger] s.summaries[n]);
        assert(crate::rows::both(summary_elsewhere(id), q)(s.summaries[n]));
        crate::rows::lemma_any_of_kept(s.summaries, summary_elsewhere(id), q);
    }
    assert forall|i: int| 0 <= i < t.jobs.len() implies job_fits(t.meetings, t.segments)(
        #[trigger] t.jobs[i],
    ) by {
        let j = t.jobs[i];
        lemma_kept_are_rows(s.jobs, job_elsewhere(id), i);
        let k = choose|k: int| 0 <= k < s.jobs.len() && s.jobs[k] == j;
        assert(job_fits(s.meetings, s.segments)(s.jobs[k]));
        lemma_meeting_stays(s, id, j.meeting_id);
        if j.job_type == JobTypeView::Transcribe {
            let q = segment_in(j.target_id.unwrap(), j.meeting_id);
            let n = choose|n: int| 0 <= n < s.segments.len() && q(#[trigger] s.segments[n]);
            assert(crate::rows::both(segment_elsewhere(id), q)(s.segments[n]));
            crate::rows::lemma_any_of_kept(s.segments, segment_elsewhere(id), q);
        }
    }
}

} // verus!
