//! What is done to one meeting leaves all others as they are.
use vstd::prelude::*;

use crate::boards::summary_of;
use crate::error::AppErrorView;
use crate::jobs::{
    new_job, or_unchanged, rebuild_enqueued, requeue_finished, summary_enqueued, summary_target,
};
use crate::json::JsonView;
use crate::meetings::{
    board_elsewhere, ended, ending, job_elsewhere, meeting_created, meeting_deleted, other_meeting,
    segment_elsewhere, speaker_elsewhere, summary_elsewhere, version_elsewhere, without_meeting,
};
use crate::queue::{claiming, completing, failing, job_finished, retrying, segment_put, target_or};
use crate::rebuild::{
    affected_is, board_stays, cut_back, job_stays, latest, rebuilt, set_back, setting_back,
    summary_stays, version_of, version_stays,
};
use crate::rows::any;
use crate::segments::{
    reassigning, reworded, rewording, segment_edited, segment_inserted, segment_of, upload_admitted,
};
use crate::soundness::{job_fits, job_id, segment_id, sound, summary_id, summary_in, version_fits};
use crate::speakers::{speaker_created, speaker_ensured, speaker_of, store_of};
use crate::store::{
    meeting_is, segment_in, BoardView, ClockView, JobTypeView, JobView, MeetingStatus,
    SegmentStatus, SegmentView, SpeakerView, StoreView,
};
use crate::summary::SummaryView;
use crate::transcription::{
    starting, transcribing, transcription_begun, transcription_completed, window_start_over,
    TranscriptionView,
};
use crate::uploads::UploadView;
use crate::windows::{
    advancing, board_of, board_put, boards_with, summary_completed, with_summary, SummaryIdsView,
    WindowView,
};

verus! {

/// A job of a meeting.
pub open spec fn job_of(meeting_id: Seq<char>) -> spec_fn(JobView) -> bool {
    |j: JobView| j.meeting_id == meeting_id
}

/// What of a store belongs to one meeting.
pub open spec fn part(s: StoreView, id: Seq<char>) -> StoreView {
    StoreView {
        meetings: s.meetings.filter(meeting_is(id)),
        speakers: s.speakers.filter(speaker_of(id)),
        segments: s.segments.filter(segment_of(id)),
        summaries: s.summaries.filter(summary_of(id)),
        boards: s.boards.filter(board_of(id)),
        board_versions: s.board_versions.filter(version_of(id)),
        jobs: s.jobs.filter(job_of(id)),
    }
}

proof fn lemma_part_push<V>(rows: Seq<V>, q: spec_fn(V) -> bool, row: V)
    requires
        !q(row),
    ensures
        rows.push(row).filter(q) == rows.filter(q),
{
    reveal(Seq::filter);
    assert(rows.push(row).drop_last() =~= rows);
}

proof fn lemma_part_map<V>(rows: Seq<V>, q: spec_fn(V) -> bool, g: spec_fn(V) -> V)
    requires
        forall|i: int|
            0 <= i < rows.len() ==> q(g(#[trigger] rows[i])) == q(rows[i]) && (q(rows[i]) ==> g(
                rows[i],
            ) == rows[i]),
    ensures
        rows.map_values(g).filter(q) == rows.filter(q),
    decreases rows.len(),
{
    reveal(Seq::filter);
    if rows.len() > 0 {
        let front = rows.drop_last();
        assert forall|i: int| 0 <= i < front.len() implies q(g(#[trigger] front[i])) == q(front[i])
            && (q(front[i]) ==> g(front[i]) == front[i]) by {
            assert(front[i] == rows[i]);
        }
        lemma_part_map(front, q, g);
        assert(rows.map_values(g).drop_last() =~= front.map_values(g));
        assert(rows[rows.len() - 1] == rows.last());
    }
}

proof fn lemma_part_filter<V>(rows: Seq<V>, q: spec_fn(V) -> bool, p: spec_fn(V) -> bool)
    requires
        forall|i: int| 0 <= i < rows.len() && q(#[trigger] rows[i]) ==> p(rows[i]),
    ensures
        rows.filter(p).filter(q) == rows.filter(q),
    decreases rows.len(),
{
    reveal(Seq::filter);
    if rows.len() > 0 {
        let front = rows.drop_last();
        assert forall|i: int| 0 <= i < front.len() && q(#[trigger] front[i]) implies p(
            front[i],
        ) by {
            assert(front[i] == rows[i]);
        }
        lemma_part_filter(front, q, p);
        assert(rows[rows.len() - 1] == rows.last());
        if p(rows.last()) {
            assert(rows.filter(p).drop_last() =~= front.filter(p));
            assert(rows.filter(p).last() == rows.last());
        }
    }
}

/// Opening a meeting leaves the others alone.
pub proof fn law_create_meeting_leaves_others(
    s: StoreView,
    title: Seq<char>,
    window: Option<i64>,
    id: Seq<char>,
    clock: ClockView,
    other: Seq<char>,
)
    requires
        other != id,
    ensures
        part(or_unchanged(meeting_created(s, title, window, id, clock), s), other) == part(s, other),
{
    match meeting_created(s, title, window, id, clock) {
        Ok(new) => {
            assert(new.meetings == s.meetings.push(new.meetings.last()));
            lemma_part_push(s.meetings, meeting_is(other), new.meetings.last());
        },
        Err(_) => {},
    }
}

/// Deleting a meeting leaves the others alone, and leaves nothing of it.
pub proof fn law_delete_meeting_leaves_others(s: StoreView, id: Seq<char>, other: Seq<char>)
    requires
        other != id,
        meeting_deleted(s, id) is Ok,
    ensures
        part(without_meeting(s, id), other) == part(s, other),
        meeting_deleted(s, id) == Ok::<StoreView, AppErrorView>(without_meeting(s, id)),
        part(without_meeting(s, id), id) == (StoreView {
            meetings: Seq::empty(),
            speakers: Seq::empty(),
            segments: Seq::empty(),
            summaries: Seq::empty(),
            boards: Seq::empty(),
            board_versions: Seq::empty(),
            jobs: Seq::empty(),
        }),
{
    lemma_part_filter(s.meetings, meeting_is(other), other_meeting(id));
    lemma_part_filter(s.speakers, speaker_of(other), speaker_elsewhere(id));
    lemma_part_filter(s.segments, segment_of(other), segment_elsewhere(id));
    lemma_part_filter(s.summaries, summary_of(other), summary_elsewhere(id));
    lemma_part_filter(s.boards, board_of(other), board_elsewhere(id));
    lemma_part_filter(s.board_versions, version_of(other), version_elsewhere(id));
    lemma_part_filter(s.jobs, job_of(other), job_elsewhere(id));
    lemma_none_left(s.meetings, meeting_is(id), other_meeting(id));
    lemma_none_left(s.speakers, speaker_of(id), speaker_elsewhere(id));
    lemma_none_left(s.segments, segment_of(id), segment_elsewhere(id));
    lemma_none_left(s.summaries, summary_of(id), summary_elsewhere(id));
    lemma_none_left(s.boards, board_of(id), board_elsewhere(id));
    lemma_none_left(s.board_versions, version_of(id), version_elsewhere(id));
    lemma_none_left(s.jobs, job_of(id), job_elsewhere(id));
}

proof fn lemma_none_left<V>(rows: Seq<V>, q: spec_fn(V) -> bool, p: spec_fn(V) -> bool)
    requires
        forall|r: V| #[trigger] p(r) ==> !q(r),
    ensures
        rows.filter(p).filter(q) == Seq::<V>::empty(),
    decreases rows.len(),
{
    reveal(Seq::filter);
    if rows.len() > 0 {
        let front = rows.drop_last();
        lemma_none_left(front, q, p);
        if p(rows.last()) {
            assert(rows.filter(p).drop_last() =~= front.filter(p));
            assert(rows.filter(p).last() == rows.last());
        }
    }
}

/// Adding a speaker leaves other meetings alone.
pub proof fn law_create_speaker_leaves_others(
    s: StoreView,
    meeting: Seq<char>,
    name: Seq<char>,
    id: Seq<char>,
    other: Seq<char>,
)
    requires
        other != meeting,
    ensures
        part(or_unchanged(speaker_created(s, meeting, name, id), s), other) == part(s, other),
        part(store_of(speaker_ensured(s, meeting, name, id), s), other) == part(s, other),
{
    let row = SpeakerView { id, meeting_id: meeting, name: crate::text::trimmed(name) };
    lemma_part_push(s.speakers, speaker_of(other), row);
    lemma_part_push(s.speakers, speaker_of(other), SpeakerView { id, meeting_id: meeting, name });
}

/// Settling whether an upload is taken in leaves other meetings alone.
pub proof fn law_admit_upload_leaves_others(
    s: StoreView,
    meeting: Seq<char>,
    upload: UploadView,
    new_speaker: Seq<char>,
    other: Seq<char>,
)
    requires
        other != meeting,
    ensures
        part(upload_admitted(s, meeting, upload, new_speaker).0, other) == part(s, other),
{
    match crate::text::cleaned(upload.speaker_name) {
        Some(name) => law_create_speaker_leaves_others(s, meeting, name, new_speaker, other),
        None => {},
    }
}

/// Adding a segment leaves other meetings alone.
pub proof fn law_insert_segment_leaves_others(
    s: StoreView,
    segment: SegmentView,
    job: Seq<char>,
    clock: ClockView,
    other: Seq<char>,
)
    requires
        other != segment.meeting_id,
    ensures
        part(or_unchanged(segment_inserted(s, segment, job, clock), s), other) == part(s, other),
{
    lemma_part_push(s.segments, segment_of(other), segment);
    lemma_part_push(
        s.jobs,
        job_of(other),
        new_job(job, JobTypeView::Transcribe, segment.meeting_id, segment.id, clock),
    );
}

/// Editing a segment leaves other meetings alone.
pub proof fn law_update_segment_leaves_others(
    s: StoreView,
    meeting: Seq<char>,
    id: Seq<char>,
    transcript: Option<Seq<char>>,
    speaker_name: Option<Seq<char>>,
    new_speaker: Seq<char>,
    other: Seq<char>,
)
    requires
        other != meeting,
    ensures
        part(segment_edited(s, meeting, id, transcript, speaker_name, new_speaker).0, other)
            == part(s, other),
{
    let text = crate::text::cleaned(transcript);
    let name = crate::text::cleaned(speaker_name);
    let kept = reworded(s, meeting, id, text);
    if text is Some {
        lemma_part_map(s.segments, segment_of(other), rewording(id, meeting, text.unwrap()));
    }
    if name is Some {
        law_create_speaker_leaves_others(kept, meeting, name.unwrap(), new_speaker, other);
        match speaker_ensured(kept, meeting, name.unwrap(), new_speaker) {
            Ok((new, given)) => {
                lemma_part_map(new.segments, segment_of(other), reassigning(id, meeting, given));
            },
            Err(_) => {},
        }
    }
}

/// Asking for a rebuild or a summary leaves other meetings alone.
pub proof fn law_enqueue_leaves_others(
    s: StoreView,
    meeting: Seq<char>,
    window_start: i64,
    final_window: bool,
    id: Seq<char>,
    clock: ClockView,
    other: Seq<char>,
)
    requires
        other != meeting,
    ensures
        part(or_unchanged(rebuild_enqueued(s, meeting, window_start, id, clock), s), other) == part(
            s,
            other,
        ),
        part(or_unchanged(summary_enqueued(s, meeting, final_window, id, clock), s), other) == part(
            s,
            other,
        ),
{
    let target = crate::number::decimal(window_start as int);
    lemma_part_map(
        s.jobs,
        job_of(other),
        requeue_finished(JobTypeView::Rebuild, meeting, target, clock),
    );
    lemma_part_push(
        s.jobs,
        job_of(other),
        new_job(id, JobTypeView::Rebuild, meeting, target, clock),
    );
    match summary_target(s, meeting, final_window) {
        Some(wanted) => lemma_part_push(
            s.jobs,
            job_of(other),
            new_job(id, JobTypeView::Summary, meeting, wanted, clock),
        ),
        None => {},
    }
}

/// Ending a meeting leaves the others alone.
pub proof fn law_end_meeting_leaves_others(
    s: StoreView,
    id: Seq<char>,
    job: Seq<char>,
    clock: ClockView,
    other: Seq<char>,
)
    requires
        other != id,
    ensures
        part(ended(s, id, job, clock).0, other) == part(s, other),
{
    lemma_part_map(s.meetings, meeting_is(other), ending(id, clock));
    let over = StoreView { meetings: s.meetings.map_values(ending(id, clock)), ..s };
    law_enqueue_leaves_others(over, id, 0, true, job, clock, other);
}

/// Transcribing a segment leaves other meetings alone.
pub proof fn law_transcription_leaves_others(
    s: StoreView,
    segment: Seq<char>,
    work: TranscriptionView,
    result: Result<Seq<char>, Seq<char>>,
    job: Seq<char>,
    clock: ClockView,
    other: Seq<char>,
)
    requires
        other != work.meeting_id,
    ensures
        part(transcription_begun(s, segment, work.meeting_id), other) == part(s, other),
        part(transcription_completed(s, work, result, job, clock).0, other) == part(s, other),
{
    lemma_part_map(s.segments, segment_of(other), starting(segment, work.meeting_id));
    match result {
        Ok(text) => {
            let g = transcribing(work.segment_id, work.meeting_id, text);
            lemma_part_map(s.segments, segment_of(other), g);
            let kept = StoreView { segments: s.segments.map_values(g), ..s };
            let start = match crate::rows::least(
                s.summaries,
                window_start_over(work.meeting_id, work.start_ms, work.end_ms),
            ) {
                Some(start) => start,
                None => 0,
            };
            let over = match s.meeting(work.meeting_id) {
                Some(m) => m.status == MeetingStatus::Ended,
                None => false,
            };
            law_enqueue_leaves_others(kept, work.meeting_id, start, over, job, clock, other);
        },
        Err(_) => {},
    }
}

proof fn lemma_boards_leave_others(
    boards: Seq<BoardView>,
    meeting: Seq<char>,
    version: i64,
    content: Seq<char>,
    clock: ClockView,
    other: Seq<char>,
)
    requires
        other != meeting,
    ensures
        boards_with(boards, meeting, version, content, clock).filter(board_of(other))
            == boards.filter(board_of(other)),
{
    lemma_part_map(boards, board_of(other), board_put(meeting, version, content, clock));
    lemma_part_push(
        boards,
        board_of(other),
        BoardView {
            meeting_id: meeting,
            version,
            content_json: content,
            updated_at: clock.now.text,
        },
    );
}

/// Keeping the document of a window leaves other meetings alone.
pub proof fn law_summary_leaves_others(
    s: StoreView,
    meeting: Seq<char>,
    work: WindowView,
    result: Result<SummaryView, Seq<char>>,
    board: JsonView,
    ids: SummaryIdsView,
    clock: ClockView,
    other: Seq<char>,
)
    requires
        other != meeting,
    ensures
        part(summary_completed(s, meeting, work, result, board, ids, clock).0, other) == part(
            s,
            other,
        ),
{
    match result {
        Ok(given) => {
            let document = crate::summary::cleaned_summary(given);
            let kept = with_summary(s, meeting, work, document, board, ids, clock);
            let version = (s.latest_version(meeting) + 1) as i64;
            let content = crate::json::json_text(crate::board::merged_board(board, document));
            assert(kept.summaries == s.summaries.push(kept.summaries.last()));
            lemma_part_push(s.summaries, summary_of(other), kept.summaries.last());
            lemma_boards_leave_others(s.boards, meeting, version, content, clock, other);
            assert(kept.board_versions == s.board_versions.push(kept.board_versions.last()));
            lemma_part_push(s.board_versions, version_of(other), kept.board_versions.last());
            lemma_part_map(
                s.meetings,
                meeting_is(other),
                advancing(meeting, version, (work.end_ms + work.window_ms) as i64),
            );
            law_enqueue_leaves_others(
                kept,
                meeting,
                0,
                s.meeting_ended(meeting),
                ids.job,
                clock,
                other,
            );
        },
        Err(_) => {},
    }
}

/// Setting a meeting back leaves the others alone.
pub proof fn law_rebuild_leaves_others(
    s: StoreView,
    meeting: Seq<char>,
    target: Seq<char>,
    job: Seq<char>,
    clock: ClockView,
    other: Seq<char>,
)
    requires
        sound(s),
        other != meeting,
    ensures
        part(rebuilt(s, meeting, target, job, clock).0, other) == part(s, other),
{
    match crate::number::parsed_i64(target) {
        Some(from) => {
            match set_back(s, meeting, from, clock) {
                Ok(back) => {
                    let p = version_stays(s.summaries, meeting, from);
                    assert forall|i: int|
                        0 <= i < s.board_versions.len() && version_of(other)(
                            #[trigger] s.board_versions[i],
                        ) implies p(s.board_versions[i]) by {
                        let v = s.board_versions[i];
                        assert(version_fits(s.meetings, s.summaries)(v));
                        let q = summary_in(v.source_summary_id, v.meeting_id);
                        let n = choose|n: int|
                            0 <= n < s.summaries.len() && q(#[trigger] s.summaries[n]);
                        let gone = affected_is(meeting, from, v.source_summary_id);
                        if any(s.summaries, gone) {
                            let k = choose|k: int|
                                0 <= k < s.summaries.len() && gone(#[trigger] s.summaries[k]);
                            assert(summary_id()(s.summaries[k]) == summary_id()(s.summaries[n]));
                        }
                    }
                    lemma_part_filter(s.board_versions, version_of(other), p);
                    lemma_part_filter(s.jobs, job_of(other), job_stays(meeting));
                    lemma_part_filter(s.summaries, summary_of(other), summary_stays(meeting, from));
                    let cut = cut_back(s, meeting, from);
                    match latest(cut.board_versions, meeting) {
                        Some(v) => lemma_boards_leave_others(
                            s.boards,
                            meeting,
                            v.version,
                            v.content_json,
                            clock,
                            other,
                        ),
                        None => lemma_part_filter(s.boards, board_of(other), board_stays(meeting)),
                    }
                    lemma_part_map(
                        s.meetings,
                        meeting_is(other),
                        setting_back(
                            meeting,
                            crate::rebuild::version_after(s, meeting, from),
                            crate::rebuild::next_end_after(s, meeting, from) as i64,
                        ),
                    );
                    law_enqueue_leaves_others(
                        back,
                        meeting,
                        0,
                        s.meeting_ended(meeting),
                        job,
                        clock,
                        other,
                    );
                },
                Err(_) => {},
            }
        },
        None => {},
    }
}

proof fn lemma_same_job(s: StoreView, job: JobView, i: int)
    requires
        sound(s),
        s.jobs.contains(job),
        0 <= i < s.jobs.len(),
        s.jobs[i].id == job.id,
    ensures
        s.jobs[i] == job,
{
    let k = choose|k: int| 0 <= k < s.jobs.len() && s.jobs[k] == job;
    assert(job_id()(s.jobs[i]) == job_id()(s.jobs[k]));
}

/// Claiming a job, retrying it and noting how it came out leave the meetings
/// alone that it is not about.
pub proof fn law_job_leaves_others(
    s: StoreView,
    job: JobView,
    result: Result<(), AppErrorView>,
    summary_job: Seq<char>,
    clock: ClockView,
    other: Seq<char>,
)
    requires
        sound(s),
        s.jobs.contains(job),
        other != job.meeting_id,
    ensures
        part(StoreView { jobs: s.jobs.map_values(claiming(job.id, clock)), ..s }, other) == part(
            s,
            other,
        ),
        part(StoreView { jobs: s.jobs.map_values(retrying(job.id, clock)), ..s }, other) == part(
            s,
            other,
        ),
        part(job_finished(s, job, result, summary_job, clock).0, other) == part(s, other),
{
    assert forall|i: int| 0 <= i < s.jobs.len() && (#[trigger] s.jobs[i]).id
        == job.id implies s.jobs[i].meeting_id == job.meeting_id by {
        lemma_same_job(s, job, i);
    }
    lemma_part_map(s.jobs, job_of(other), claiming(job.id, clock));
    lemma_part_map(s.jobs, job_of(other), retrying(job.id, clock));
    match result {
        Ok(_) => lemma_part_map(s.jobs, job_of(other), completing(job.id)),
        Err(e) => {
            let message = crate::error::error_text(e);
            lemma_part_map(s.jobs, job_of(other), failing(job.id, message, clock));
            let target = target_or(job.target_id, ""@);
            if job.job_type == JobTypeView::Transcribe {
                assert forall|i: int| 0 <= i < s.segments.len() && (#[trigger] s.segments[i]).id
                    == target implies s.segments[i].meeting_id == job.meeting_id by {
                    let k = choose|k: int| 0 <= k < s.jobs.len() && s.jobs[k] == job;
                    assert(job_fits(s.meetings, s.segments)(s.jobs[k]));
                    let q = segment_in(target, job.meeting_id);
                    let n = choose|n: int|
                        0 <= n < s.segments.len() && q(#[trigger] s.segments[n]);
                    assert(segment_id()(s.segments[i]) == segment_id()(s.segments[n]));
                }
                lemma_part_map(
                    s.segments,
                    segment_of(other),
                    segment_put(target, SegmentStatus::Transcribing),
                );
                lemma_part_map(
                    s.segments,
                    segment_of(other),
                    segment_put(target, SegmentStatus::Failed),
                );
                let given_up = StoreView {
                    jobs: s.jobs.map_values(failing(job.id, message, clock)),
                    segments: s.segments.map_values(segment_put(target, SegmentStatus::Failed)),
                    ..s
                };
                match s.meeting(job.meeting_id) {
                    Some(m) => law_enqueue_leaves_others(
                        given_up,
                        job.meeting_id,
                        0,
                        m.status == MeetingStatus::Ended,
                        summary_job,
                        clock,
                        other,
                    ),
                    None => {},
                }
            }
        },
    }
}

} // verus!
