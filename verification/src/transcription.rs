//! Transcribing a segment: what is handed to the transcriber, and what becomes of
//! its text.
use vstd::prelude::*;

use crate::error::{missing_row, outcome, row_not_found, AppError, AppErrorView};
use crate::events::{
    event_views, segment_transcribed, tell_segment_transcribed, EventView, MeetingEvent,
};
use crate::ids::{is_id, new_id};
use crate::jobs::{came_out, job_for, job_is, or_unchanged, rebuild_enqueued, summary_enqueued};
use crate::number::decimal;
use crate::rows::{
    any, change_rows, find_row, first, is_first, least, lemma_first_holds, lemma_first_is,
    lemma_first_of_map, lemma_least, min_row,
};
use crate::store::{
    meeting_is, segment_in, speaker_is, Clock, ClockView, JobTypeView, MeetingStatus, Segment,
    SegmentStatus, SegmentView, Speaker, SpeakerView, Store, StoreView, Summary, SummaryRowView,
};
use crate::text::{copy_opt, opt_text, text_eq};

verus! {

/// A segment that is being transcribed.
#[derive(Debug, PartialEq)]
pub struct Transcription {
    pub segment_id: String,
    pub meeting_id: String,
    pub file_path: String,
    /// The text that the segment came with.
    pub existing: Option<String>,
    pub start_ms: i64,
    pub end_ms: i64,
    pub sequence_no: i64,
    pub speaker_id: Option<String>,
    pub speaker_name: Option<String>,
}

/// The model of a [`Transcription`].
pub struct TranscriptionView {
    pub segment_id: Seq<char>,
    pub meeting_id: Seq<char>,
    pub file_path: Seq<char>,
    pub existing: Option<Seq<char>>,
    pub start_ms: i64,
    pub end_ms: i64,
    pub sequence_no: i64,
    pub speaker_id: Option<Seq<char>>,
    pub speaker_name: Option<Seq<char>>,
}

impl View for Transcription {
    type V = TranscriptionView;

    open spec fn view(&self) -> TranscriptionView {
        TranscriptionView {
            segment_id: self.segment_id@,
            meeting_id: self.meeting_id@,
            file_path: self.file_path@,
            existing: opt_text(self.existing),
            start_ms: self.start_ms,
            end_ms: self.end_ms,
            sequence_no: self.sequence_no,
            speaker_id: opt_text(self.speaker_id),
            speaker_name: opt_text(self.speaker_name),
        }
    }
}

/// The name of a speaker, where there is such a speaker.
pub open spec fn name_of(speakers: Seq<SpeakerView>, id: Option<Seq<char>>) -> Option<Seq<char>> {
    match id {
        Some(id) => match first(speakers, speaker_is(id)) {
            Some(speaker) => Some(speaker.name),
            None => None,
        },
        None => None,
    }
}

/// Starts on a segment of a meeting.
pub open spec fn starting(id: Seq<char>, meeting_id: Seq<char>) -> spec_fn(
    SegmentView,
) -> SegmentView {
    |g: SegmentView|
        if segment_in(id, meeting_id)(g) {
            SegmentView { status: SegmentStatus::Transcribing, ..g }
        } else {
            g
        }
}

/// Gives a segment of a meeting its text.
pub open spec fn transcribing(id: Seq<char>, meeting_id: Seq<char>, text: Seq<char>) -> spec_fn(
    SegmentView,
) -> SegmentView {
    |g: SegmentView|
        if segment_in(id, meeting_id)(g) {
            SegmentView { status: SegmentStatus::Completed, transcript: Some(text), ..g }
        } else {
            g
        }
}

/// The store in which a segment is being transcribed.
pub open spec fn transcription_begun(
    s: StoreView,
    segment_id: Seq<char>,
    meeting_id: Seq<char>,
) -> StoreView {
    StoreView { segments: s.segments.map_values(starting(segment_id, meeting_id)), ..s }
}

/// What is known of a segment of a meeting that is to be transcribed.
pub open spec fn to_transcribe(
    s: StoreView,
    segment_id: Seq<char>,
    meeting_id: Seq<char>,
) -> Result<TranscriptionView, AppErrorView> {
    match first(s.segments, segment_in(segment_id, meeting_id)) {
        Some(g) => Ok(
            TranscriptionView {
                segment_id,
                meeting_id,
                file_path: g.file_path,
                existing: g.transcript,
                start_ms: g.start_ms,
                end_ms: g.end_ms,
                sequence_no: g.sequence_no,
                speaker_id: g.speaker_id,
                speaker_name: name_of(s.speakers, g.speaker_id),
            },
        ),
        None => Err(AppErrorView::NotFound),
    }
}

/// Where the windows of a meeting's summaries start that overlap a span of time.
pub open spec fn window_start_over(meeting_id: Seq<char>, start: i64, end: i64) -> spec_fn(
    SummaryRowView,
) -> Option<i64> {
    |r: SummaryRowView|
        if r.meeting_id == meeting_id && r.window_start_ms < end && r.window_end_ms > start {
            Some(r.window_start_ms)
        } else {
            None
        }
}

/// The store, the events and the outcome of what the transcriber gave for a segment.
///
/// A text is kept. Where the meeting is summarized there already, the summaries
/// are to be made again from the first window that the segment is in; else the
/// next summary may be due.
pub open spec fn transcription_completed(
    s: StoreView,
    work: TranscriptionView,
    result: Result<Seq<char>, Seq<char>>,
    job_id: Seq<char>,
    clock: ClockView,
) -> (StoreView, Seq<EventView>, Result<(), AppErrorView>) {
    match result {
        Err(reason) => (s, Seq::empty(), Err(AppErrorView::Processing(reason))),
        Ok(text) => {
            let kept = StoreView {
                segments: s.segments.map_values(
                    transcribing(work.segment_id, work.meeting_id, text),
                ),
                ..s
            };
            let told = seq![
                segment_transcribed(
                    work.meeting_id,
                    work.segment_id,
                    work.sequence_no,
                    work.speaker_id,
                    work.speaker_name,
                    work.start_ms,
                    work.end_ms,
                    text,
                ),
            ];
            match least(
                s.summaries,
                window_start_over(work.meeting_id, work.start_ms, work.end_ms),
            ) {
                Some(start) => {
                    let next = rebuild_enqueued(kept, work.meeting_id, start, job_id, clock);
                    (or_unchanged(next, kept), told, came_out(next))
                },
                None => match s.meeting(work.meeting_id) {
                    None => (kept, told, Err(row_not_found())),
                    Some(m) => {
                        let next = summary_enqueued(
                            kept,
                            work.meeting_id,
                            m.status == MeetingStatus::Ended,
                            job_id,
                            clock,
                        );
                        (or_unchanged(next, kept), told, came_out(next))
                    },
                },
            }
        },
    }
}

/// What a provider gave: a text, or why it failed.
pub open spec fn reply(r: Result<String, String>) -> Result<Seq<char>, Seq<char>> {
    match r {
        Ok(text) => Ok(text@),
        Err(reason) => Err(reason@),
    }
}

impl Store {
    /// The name of a speaker, where there is such a speaker.
    pub(crate) fn speaker_name(&self, id: &Option<String>) -> (name: Option<String>)
        ensures
            opt_text(name) == name_of(self@.speakers, opt_text(*id)),
    {
        match id {
            Some(id) => match find_row(
                &self.speakers,
                |s: &Speaker| -> (b: bool)
                    ensures b == (s@.id == id@)
                    { text_eq(s.id.as_str(), id.as_str()) },
                Ghost(speaker_is(id@)),
            ) {
                Some(speaker) => Some(speaker.name.clone()),
                None => None,
            },
            None => None,
        }
    }

    /// The segment with an id, in a meeting.
    pub(crate) fn segment_of(&self, id: &str, meeting_id: &str) -> (found: Option<&Segment>)
        ensures
            first(self@.segments, segment_in(id@, meeting_id@)) == match found {
                Some(g) => Some(g@),
                None => None,
            },
    {
        find_row(
            &self.segments,
            |g: &Segment| -> (b: bool)
                ensures b == segment_in(id@, meeting_id@)(g@)
                { text_eq(g.id.as_str(), id) && text_eq(g.meeting_id.as_str(), meeting_id) },
            Ghost(segment_in(id@, meeting_id@)),
        )
    }

    /// Starts on the transcription of a segment.
    pub fn begin_transcription(&mut self, segment_id: &str, meeting_id: &str) -> (work: Result<
        Transcription,
        AppError,
    >)
        ensures
            final(self)@ == transcription_begun(old(self)@, segment_id@, meeting_id@),
            to_transcribe(final(self)@, segment_id@, meeting_id@) == match work {
                Ok(work) => Ok(work@),
                Err(e) => Err(e@),
            },
    {
        change_rows(
            &mut self.segments,
            |g: Segment| -> (out: Segment)
                ensures out@ == starting(segment_id@, meeting_id@)(g@)
                {
                    if text_eq(g.id.as_str(), segment_id) && text_eq(
                        g.meeting_id.as_str(),
                        meeting_id,
                    ) {
                        Segment { status: SegmentStatus::Transcribing, ..g }
                    } else {
                        g
                    }
                },
            Ghost(starting(segment_id@, meeting_id@)),
        );
        match self.segment_of(segment_id, meeting_id) {
            Some(g) => Ok(
                Transcription {
                    segment_id: segment_id.to_owned(),
                    meeting_id: meeting_id.to_owned(),
                    file_path: g.file_path.clone(),
                    existing: copy_opt(&g.transcript),
                    start_ms: g.start_ms,
                    end_ms: g.end_ms,
                    sequence_no: g.sequence_no,
                    speaker_id: copy_opt(&g.speaker_id),
                    speaker_name: self.speaker_name(&g.speaker_id),
                },
            ),
            None => Err(AppError::NotFound),
        }
    }

    /// Keeps the text that the transcriber gave for a segment, or notes why it
    /// gave none. `job_id` is that of the job that follows, where there is one.
    pub fn complete_transcription_as(
        &mut self,
        work: &Transcription,
        result: Result<String, String>,
        job_id: String,
        clock: &Clock,
    ) -> (done: (Vec<MeetingEvent>, Result<(), AppError>))
        ensures
            (final(self)@, event_views(done.0@), outcome(done.1)) == transcription_completed(
                old(self)@,
                work@,
                reply(result),
                job_id@,
                clock@,
            ),
    {
        let mut events: Vec<MeetingEvent> = Vec::new();
        let text = match result {
            Ok(text) => text,
            Err(reason) => {
                assert(event_views(events@) =~= Seq::empty());
                return (events, Err(AppError::Processing(reason)));
            },
        };
        let segment_id = work.segment_id.as_str();
        let meeting_id = work.meeting_id.as_str();
        change_rows(
            &mut self.segments,
            |g: Segment| -> (out: Segment)
                ensures out@ == transcribing(segment_id@, meeting_id@, text@)(g@)
                {
                    if text_eq(g.id.as_str(), segment_id) && text_eq(
                        g.meeting_id.as_str(),
                        meeting_id,
                    ) {
                        Segment {
                            status: SegmentStatus::Completed,
                            transcript: Some(text.clone()),
                            ..g
                        }
                    } else {
                        g
                    }
                },
            Ghost(transcribing(segment_id@, meeting_id@, text@)),
        );
        events.push(
            tell_segment_transcribed(
                meeting_id,
                segment_id,
                work.sequence_no,
                &work.speaker_id,
                &work.speaker_name,
                work.start_ms,
                work.end_ms,
                text.as_str(),
            ),
        );
        proof {
            assert(event_views(events@).len() == 1);
            assert(event_views(events@) =~= seq![event_views(events@)[0]]);
        }
        let (start, end): (i64, i64) = (work.start_ms, work.end_ms);
        let affected = min_row(
            &self.summaries,
            |r: &Summary| -> (k: Option<i64>)
                ensures k == window_start_over(meeting_id@, start, end)(r@)
                {
                    if text_eq(r.meeting_id.as_str(), meeting_id) && r.window_start_ms < end
                        && r.window_end_ms > start {
                        Some(r.window_start_ms)
                    } else {
                        None
                    }
                },
            Ghost(window_start_over(meeting_id@, start, end)),
        );
        if let Some(window_start) = affected {
            let queued = self.enqueue_rebuild_as(meeting_id, window_start, job_id, clock);
            return (events, queued);
        }
        let ended = match self.meeting(meeting_id) {
            Some(m) => m.status == MeetingStatus::Ended,
            None => return (events, Err(missing_row())),
        };
        let queued = self.enqueue_summary_as(meeting_id, ended, job_id, clock);
        (events, queued)
    }

    /// Keeps the text that the transcriber gave for a segment, or notes why it
    /// gave none.
    pub fn complete_transcription(
        &mut self,
        work: &Transcription,
        result: Result<String, String>,
        clock: &Clock,
    ) -> (done: (Vec<MeetingEvent>, Result<(), AppError>))
        ensures
            exists|id: Seq<char>|
                #[trigger] is_id(id) && (final(self)@, event_views(done.0@), outcome(done.1))
                    == transcription_completed(old(self)@, work@, reply(result), id, clock@),
    {
        let id = new_id();
        assert(is_id(id@));
        self.complete_transcription_as(work, result, id, clock)
    }
}

/// A text that comes late, for a time that is summarized already, leads to one job
/// that makes the summaries again, from the first window on that the text is in.
pub proof fn law_late_text_leads_to_rebuild(
    s: StoreView,
    work: TranscriptionView,
    text: Seq<char>,
    job_id: Seq<char>,
    clock: ClockView,
    i: int,
)
    requires
        s.has_meeting(work.meeting_id),
        !any(s.jobs, job_is(job_id)),
        0 <= i < s.summaries.len(),
        s.summaries[i].meeting_id == work.meeting_id,
        s.summaries[i].window_start_ms < work.end_ms,
        s.summaries[i].window_end_ms > work.start_ms,
    ensures
        ({
            let key = window_start_over(work.meeting_id, work.start_ms, work.end_ms);
            let first_start = least(s.summaries, key);
            let done = transcription_completed(s, work, Ok(text), job_id, clock);
            &&& first_start is Some
            &&& first_start.unwrap() <= s.summaries[i].window_start_ms
            &&& done.2 is Ok
            &&& any(
                done.0.jobs,
                job_for(
                    JobTypeView::Rebuild,
                    work.meeting_id,
                    decimal(first_start.unwrap() as int),
                ),
            )
        }),
{
    let key = window_start_over(work.meeting_id, work.start_ms, work.end_ms);
    lemma_least(s.summaries, key);
    assert(key(s.summaries[i]) == Some(s.summaries[i].window_start_ms));
    let start = least(s.summaries, key).unwrap();
    let done = transcription_completed(s, work, Ok(text), job_id, clock);
    let p = job_for(JobTypeView::Rebuild, work.meeting_id, decimal(start as int));
    if any(s.jobs, p) {
        let k = choose|k: int| 0 <= k < s.jobs.len() && p(#[trigger] s.jobs[k]);
        assert(p(done.0.jobs[k]));
    } else {
        assert(p(done.0.jobs[s.jobs.len() as int]));
    }
}

/// A text that the transcriber gave is the text of the segment.
pub proof fn law_text_is_kept(
    s: StoreView,
    work: TranscriptionView,
    text: Seq<char>,
    job_id: Seq<char>,
    clock: ClockView,
    i: int,
)
    requires
        0 <= i < s.segments.len(),
        s.segments[i].id == work.segment_id,
        s.segments[i].meeting_id == work.meeting_id,
    ensures
        ({
            let new = transcription_completed(s, work, Ok(text), job_id, clock).0;
            &&& new.segments.len() == s.segments.len()
            &&& new.segments[i].transcript == Some(text)
            &&& new.segments[i].status == SegmentStatus::Completed
        }),
{
}

/// Starting on a segment notes that it is being transcribed, and changes nothing else: no
/// other field of it, no other segment and no other row. What is then to be transcribed is
/// that segment: its path, the text it came with, its times, its number and who speaks.
pub proof fn law_work_is_about_its_segment(
    s: StoreView,
    segment_id: Seq<char>,
    meeting_id: Seq<char>,
    at: int,
)
    requires
        0 <= at < s.segments.len(),
        s.segments[at].id == segment_id,
        s.segments[at].meeting_id == meeting_id,
        forall|i: int|
            0 <= i < at ==> !((#[trigger] s.segments[i]).id == segment_id
                && s.segments[i].meeting_id == meeting_id),
    ensures
        ({
            let new = transcription_begun(s, segment_id, meeting_id);
            let was = s.segments[at];
            let is = new.segments[at];
            &&& new.segments.len() == s.segments.len()
            &&& forall|i: int|
                0 <= i < s.segments.len() && !((#[trigger] s.segments[i]).id == segment_id
                    && s.segments[i].meeting_id == meeting_id) ==> new.segments[i] == s.segments[i]
            &&& is.status == SegmentStatus::Transcribing
            &&& is.id == was.id && is.meeting_id == was.meeting_id && is.speaker_id
                == was.speaker_id && is.sequence_no == was.sequence_no && is.start_ms
                == was.start_ms && is.end_ms == was.end_ms && is.file_path == was.file_path
                && is.transcript == was.transcript
            &&& new.meetings == s.meetings && new.speakers == s.speakers && new.summaries
                == s.summaries && new.boards == s.boards && new.board_versions
                == s.board_versions && new.jobs == s.jobs
            &&& to_transcribe(new, segment_id, meeting_id) matches Ok(work) && work.segment_id
                == segment_id && work.meeting_id == meeting_id && work.file_path == was.file_path
                && work.existing == was.transcript && work.start_ms == was.start_ms && work.end_ms
                == was.end_ms && work.sequence_no == was.sequence_no && work.speaker_id
                == was.speaker_id
        }),
{
    let p = segment_in(segment_id, meeting_id);
    assert(is_first(s.segments, p, at));
    lemma_first_is(s.segments, p, at);
    lemma_first_holds(s.segments, p);
    assert(any(s.segments, p));
    lemma_first_of_map(s.segments, p, starting(segment_id, meeting_id));
}

/// The name that goes with a segment to be transcribed is that of its speaker, and there is
/// none where the segment has no speaker that is known.
pub proof fn law_work_names_its_speaker(
    s: StoreView,
    segment_id: Seq<char>,
    meeting_id: Seq<char>,
)
    requires
        to_transcribe(s, segment_id, meeting_id) is Ok,
    ensures
        ({
            let work = to_transcribe(s, segment_id, meeting_id)->Ok_0;
            match work.speaker_name {
                Some(name) => exists|k: int|
                    0 <= k < s.speakers.len() && Some((#[trigger] s.speakers[k]).id)
                        == work.speaker_id && s.speakers[k].name == name,
                None => forall|k: int|
                    0 <= k < s.speakers.len() ==> Some((#[trigger] s.speakers[k]).id)
                        != work.speaker_id,
            }
        }),
{
    let work = to_transcribe(s, segment_id, meeting_id)->Ok_0;
    if let Some(id) = work.speaker_id {
        let p = speaker_is(id);
        lemma_first_holds(s.speakers, p);
        match first(s.speakers, p) {
            Some(r) => {
                let k = choose|k: int| 0 <= k < s.speakers.len() && s.speakers[k] == r;
                assert(Some(s.speakers[k].id) == work.speaker_id);
            },
            None => {
                assert forall|k: int| 0 <= k < s.speakers.len() implies Some(
                    (#[trigger] s.speakers[k]).id,
                ) != work.speaker_id by {
                    assert(!p(s.speakers[k]));
                }
            },
        }
    }
}

/// A segment that is not there is not transcribed.
pub proof fn law_no_work_without_a_segment(
    s: StoreView,
    segment_id: Seq<char>,
    meeting_id: Seq<char>,
)
    requires
        forall|i: int|
            0 <= i < s.segments.len() ==> !((#[trigger] s.segments[i]).id == segment_id
                && s.segments[i].meeting_id == meeting_id),
    ensures
        transcription_begun(s, segment_id, meeting_id) == s,
        to_transcribe(s, segment_id, meeting_id) == Err::<TranscriptionView, AppErrorView>(
            AppErrorView::NotFound,
        ),
{
    let p = segment_in(segment_id, meeting_id);
    lemma_first_holds(s.segments, p);
    assert(transcription_begun(s, segment_id, meeting_id).segments =~= s.segments);
}

/// A text that comes for a segment becomes its text, and the segment is transcribed; nothing
/// else of it changes, and no other segment. One thing is told, that this segment was
/// transcribed, with what is known of it and with this text. But for jobs, no other row
/// changes. Where no text comes, nothing changes and nothing is told, and the reason is
/// the outcome. In a meeting that is not there, nothing follows, which is a failure.
pub proof fn law_text_goes_to_its_segment(
    s: StoreView,
    work: TranscriptionView,
    text: Seq<char>,
    reason: Seq<char>,
    job_id: Seq<char>,
    clock: ClockView,
)
    ensures
        ({
            let done = transcription_completed(s, work, Ok(text), job_id, clock);
            let new = done.0;
            &&& done.1 == seq![
                segment_transcribed(
                    work.meeting_id,
                    work.segment_id,
                    work.sequence_no,
                    work.speaker_id,
                    work.speaker_name,
                    work.start_ms,
                    work.end_ms,
                    text,
                ),
            ]
            &&& new.segments.len() == s.segments.len()
            &&& forall|i: int|
                0 <= i < s.segments.len() ==> if (#[trigger] s.segments[i]).id == work.segment_id
                    && s.segments[i].meeting_id == work.meeting_id {
                    let was = s.segments[i];
                    let is = new.segments[i];
                    &&& is.transcript == Some(text)
                    &&& is.status == SegmentStatus::Completed
                    &&& is.id == was.id && is.meeting_id == was.meeting_id && is.speaker_id
                        == was.speaker_id && is.sequence_no == was.sequence_no && is.start_ms
                        == was.start_ms && is.end_ms == was.end_ms && is.file_path == was.file_path
                } else {
                    new.segments[i] == s.segments[i]
                }
            &&& new.meetings == s.meetings && new.speakers == s.speakers && new.summaries
                == s.summaries && new.boards == s.boards && new.board_versions == s.board_versions
        }),
        ({
            let done = transcription_completed(s, work, Err(reason), job_id, clock);
            &&& done.0 == s
            &&& done.1.len() == 0
            &&& done.2 == Err::<(), AppErrorView>(AppErrorView::Processing(reason))
        }),
        (forall|i: int|
            0 <= i < s.meetings.len() ==> (#[trigger] s.meetings[i]).id != work.meeting_id) && (
        forall|i: int|
            0 <= i < s.summaries.len() ==> (#[trigger] s.summaries[i]).meeting_id
                != work.meeting_id) ==> {
            let done = transcription_completed(s, work, Ok(text), job_id, clock);
            done.0.jobs == s.jobs && done.2 is Err
        },
{
    lemma_first_holds(s.meetings, meeting_is(work.meeting_id));
    let key = window_start_over(work.meeting_id, work.start_ms, work.end_ms);
    lemma_least(s.summaries, key);
}

/// What follows when a segment was transcribed. Where a summary of the meeting overlaps the
/// segment, the summaries are made again from the earliest start of such a window on, as if
/// that had been asked for. Where none does, the next summary is asked for, the last one
/// where the meeting is over.
pub proof fn law_what_follows_a_text(
    s: StoreView,
    work: TranscriptionView,
    text: Seq<char>,
    job_id: Seq<char>,
    clock: ClockView,
    at: int,
    early: int,
)
    requires
        0 <= at < s.meetings.len(),
        s.meetings[at].id == work.meeting_id,
        forall|i: int| 0 <= i < at ==> (#[trigger] s.meetings[i]).id != work.meeting_id,
        0 <= early <= s.summaries.len(),
        early < s.summaries.len() ==> s.summaries[early].meeting_id == work.meeting_id
            && s.summaries[early].window_start_ms < work.end_ms && s.summaries[early].window_end_ms
            > work.start_ms,
        forall|i: int|
            0 <= i < s.summaries.len() && (#[trigger] s.summaries[i]).meeting_id == work.meeting_id
                && s.summaries[i].window_start_ms < work.end_ms && s.summaries[i].window_end_ms
                > work.start_ms ==> early < s.summaries.len()
                && s.summaries[early].window_start_ms <= s.summaries[i].window_start_ms,
    ensures
        ({
            let done = transcription_completed(s, work, Ok(text), job_id, clock);
            let kept = StoreView { segments: done.0.segments, ..s };
            let next = if early < s.summaries.len() {
                rebuild_enqueued(
                    kept,
                    work.meeting_id,
                    s.summaries[early].window_start_ms,
                    job_id,
                    clock,
                )
            } else {
                summary_enqueued(
                    kept,
                    work.meeting_id,
                    s.meetings[at].status == MeetingStatus::Ended,
                    job_id,
                    clock,
                )
            };
            &&& next is Ok ==> done.0 == next->Ok_0 && done.2 is Ok
            &&& next is Err ==> done.0 == kept && done.2 == Err::<(), AppErrorView>(next->Err_0)
        }),
{
    let key = window_start_over(work.meeting_id, work.start_ms, work.end_ms);
    lemma_least(s.summaries, key);
    let p = meeting_is(work.meeting_id);
    assert(is_first(s.meetings, p, at));
    lemma_first_is(s.meetings, p, at);
    assert(any(s.meetings, p));
    if early < s.summaries.len() {
        assert(key(s.summaries[early]) == Some(s.summaries[early].window_start_ms));
        let m = least(s.summaries, key).unwrap();
        let i = choose|i: int|
            0 <= i < s.summaries.len() && key(#[trigger] s.summaries[i]) == Some(m);
        assert(s.summaries[i].meeting_id == work.meeting_id);
    } else {
        if let Some(m) = least(s.summaries, key) {
            let i = choose|i: int|
                0 <= i < s.summaries.len() && key(#[trigger] s.summaries[i]) == Some(m);
            assert(s.summaries[i].meeting_id == work.meeting_id);
        }
    }
}

} // verus!
