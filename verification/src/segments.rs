//! The segments of a meeting: how they are taken in, edited and listed.
use vstd::prelude::*;

use crate::error::{
    bad_request, broken_reference, key_taken, outcome, reference_broken, taken_key, taken_values,
    values_taken, AppError, AppErrorView,
};
use crate::events::{
    event_views, int_json, no_members, segment_updated, segment_uploaded, tell_segment_updated,
    tell_segment_uploaded, EventView, MeetingEvent,
};
use crate::ids::{is_id, new_id};
use crate::jobs::{came_out, job_for, job_is, new_job, or_unchanged};
use crate::json::{
    integer_json, json_number, opt_str_json, opt_string_json, string_json, Json, JsonView,
};
use crate::meetings::answered;
use crate::rows::{
    any, any_row, change_rows, first, is_first, json_of_rows, law_sorted_by, lemma_first_holds,
    lemma_first_is, lemma_first_of_map, select_rows, sort_rows, sorted_by,
};
use crate::speakers::{law_speaker_of_a_name, speaker_ensured};
use crate::store::{
    meeting_is, segment_in, segment_is, segment_numbered, segment_status_name, speaker_in,
    speaker_is, Clock, ClockView, JobStatus, JobType, JobTypeView, MeetingStatus, Segment,
    SegmentStatus, SegmentView, Speaker, SpeakerView, Store, StoreView,
};
use crate::text::{clean_option, cleaned, copy_opt, opt_text, text_eq, trimmed};
use crate::transcription::name_of;
use crate::uploads::{Upload, UploadView};
use crate::windows::segment_start;

verus! {

/// Whether a segment can be uploaded to a meeting now.
pub open spec fn upload_allowed(s: StoreView, meeting_id: Seq<char>) -> Result<(), AppErrorView> {
    match s.meeting(meeting_id) {
        None => Err(AppErrorView::NotFound),
        Some(m) => if m.status == MeetingStatus::Running {
            Ok(())
        } else {
            Err(AppErrorView::BadRequest("audio can only be uploaded to a running meeting"@))
        },
    }
}

/// The speaker of an upload, and the store in which there is one: the speaker that
/// it names by id, or the one of a name, or none.
pub open spec fn upload_speaker(
    s: StoreView,
    meeting_id: Seq<char>,
    upload: UploadView,
    new_speaker: Seq<char>,
) -> Result<(StoreView, Option<Seq<char>>), AppErrorView> {
    match upload.speaker_id {
        Some(id) => Ok((s, Some(id))),
        None => match cleaned(upload.speaker_name) {
            Some(name) => match speaker_ensured(s, meeting_id, name, new_speaker) {
                Ok((new, id)) => Ok((new, Some(id))),
                Err(e) => Err(e),
            },
            None => Ok((s, None)),
        },
    }
}

/// The store and the speaker once it is settled that an upload is taken in, or the
/// reason why it is not. A speaker who was added for it stays.
pub open spec fn upload_admitted(
    s: StoreView,
    meeting_id: Seq<char>,
    upload: UploadView,
    new_speaker: Seq<char>,
) -> (StoreView, Result<Option<Seq<char>>, AppErrorView>) {
    match upload_speaker(s, meeting_id, upload, new_speaker) {
        Err(e) => (s, Err(e)),
        Ok((new, speaker)) => if speaker is Some && !any(
            new.speakers,
            speaker_in(speaker.unwrap(), meeting_id),
        ) {
            (new, Err(AppErrorView::BadRequest("speaker_id does not belong to this meeting"@)))
        } else if any(new.segments, segment_numbered(meeting_id, upload.sequence_no)) {
            (new, Err(AppErrorView::BadRequest("sequence_no already exists for this meeting"@)))
        } else {
            (new, Ok(speaker))
        },
    }
}

/// The store with a new segment, and with a job to transcribe it.
pub open spec fn segment_inserted(
    s: StoreView,
    segment: SegmentView,
    job_id: Seq<char>,
    clock: ClockView,
) -> Result<StoreView, AppErrorView> {
    if any(s.segments, segment_numbered(segment.meeting_id, segment.sequence_no)) {
        Err(values_taken("audio_segments.meeting_id, audio_segments.sequence_no"@))
    } else if any(s.segments, segment_is(segment.id)) {
        Err(key_taken("audio_segments.id"@))
    } else if !s.has_meeting(segment.meeting_id) || (segment.speaker_id is Some && !any(
        s.speakers,
        speaker_is(segment.speaker_id.unwrap()),
    )) {
        Err(reference_broken())
    } else if any(s.jobs, job_for(JobTypeView::Transcribe, segment.meeting_id, segment.id)) {
        Err(values_taken("jobs.job_type, jobs.meeting_id, jobs.target_id"@))
    } else if any(s.jobs, job_is(job_id)) {
        Err(key_taken("jobs.id"@))
    } else {
        Ok(
            StoreView {
                segments: s.segments.push(segment),
                jobs: s.jobs.push(
                    new_job(
                        job_id,
                        JobTypeView::Transcribe,
                        segment.meeting_id,
                        segment.id,
                        clock,
                    ),
                ),
                ..s
            },
        )
    }
}

/// What there is to say of a new segment.
#[derive(Debug, PartialEq)]
pub struct NewSegment {
    pub id: String,
    pub meeting_id: String,
    pub speaker_id: Option<String>,
    pub sequence_no: i64,
    pub start_ms: i64,
    pub end_ms: i64,
    /// Where the audio is stored; empty where there is none.
    pub file_path: String,
    pub transcript: Option<String>,
}

impl View for NewSegment {
    type V = SegmentView;

    /// The segment, which is still to be transcribed.
    open spec fn view(&self) -> SegmentView {
        SegmentView {
            id: self.id@,
            meeting_id: self.meeting_id@,
            speaker_id: opt_text(self.speaker_id),
            sequence_no: self.sequence_no,
            start_ms: self.start_ms,
            end_ms: self.end_ms,
            file_path: self.file_path@,
            transcript: opt_text(self.transcript),
            status: SegmentStatus::Uploaded,
        }
    }
}

/// A segment, as a client sees it.
pub open spec fn segment_members(speakers: Seq<SpeakerView>, g: SegmentView) -> Map<
    Seq<char>,
    JsonView,
> {
    no_members().insert("id"@, JsonView::Str(g.id)).insert(
        "speaker_id"@,
        opt_str_json(g.speaker_id),
    ).insert("speaker_name"@, opt_str_json(name_of(speakers, g.speaker_id))).insert(
        "sequence_no"@,
        int_json(g.sequence_no),
    ).insert("start_ms"@, int_json(g.start_ms)).insert("end_ms"@, int_json(g.end_ms)).insert(
        "status"@,
        JsonView::Str(segment_status_name(g.status)),
    ).insert("transcript"@, opt_str_json(g.transcript))
}

/// A segment in a list, as a client sees it.
pub open spec fn segment_value(speakers: Seq<SpeakerView>) -> spec_fn(SegmentView) -> JsonView {
    |g: SegmentView| JsonView::Object(segment_members(speakers, g))
}

/// A segment of a meeting.
pub open spec fn segment_of(meeting_id: Seq<char>) -> spec_fn(SegmentView) -> bool {
    |g: SegmentView| g.meeting_id == meeting_id
}

/// The segments of a meeting by the time at which they start, as a client sees them.
pub open spec fn segments_listed(s: StoreView, meeting_id: Seq<char>) -> Result<
    JsonView,
    AppErrorView,
> {
    if s.has_meeting(meeting_id) {
        Ok(
            JsonView::Array(
                sorted_by(s.segments.filter(segment_of(meeting_id)), segment_start()).map_values(
                    segment_value(s.speakers),
                ),
            ),
        )
    } else {
        Err(AppErrorView::NotFound)
    }
}

/// Gives a segment of a meeting another text.
pub open spec fn rewording(id: Seq<char>, meeting_id: Seq<char>, text: Seq<char>) -> spec_fn(
    SegmentView,
) -> SegmentView {
    |g: SegmentView|
        if segment_in(id, meeting_id)(g) {
            SegmentView { transcript: Some(text), status: SegmentStatus::Completed, ..g }
        } else {
            g
        }
}

/// Gives a segment of a meeting another speaker.
pub open spec fn reassigning(id: Seq<char>, meeting_id: Seq<char>, speaker: Seq<char>) -> spec_fn(
    SegmentView,
) -> SegmentView {
    |g: SegmentView|
        if segment_in(id, meeting_id)(g) {
            SegmentView { speaker_id: Some(speaker), ..g }
        } else {
            g
        }
}

/// The store with another text for a segment, where one is given.
pub open spec fn reworded(
    s: StoreView,
    meeting_id: Seq<char>,
    segment_id: Seq<char>,
    text: Option<Seq<char>>,
) -> StoreView {
    match text {
        Some(text) => StoreView {
            segments: s.segments.map_values(rewording(segment_id, meeting_id, text)),
            ..s
        },
        None => s,
    }
}

/// The store with another speaker for a segment, where a name is given.
pub open spec fn reassigned(
    s: StoreView,
    meeting_id: Seq<char>,
    segment_id: Seq<char>,
    name: Option<Seq<char>>,
    new_speaker: Seq<char>,
) -> Result<StoreView, AppErrorView> {
    match name {
        Some(name) => match speaker_ensured(s, meeting_id, name, new_speaker) {
            Ok((new, id)) => Ok(
                StoreView {
                    segments: new.segments.map_values(reassigning(segment_id, meeting_id, id)),
                    ..new
                },
            ),
            Err(e) => Err(e),
        },
        None => Ok(s),
    }
}

/// An edited segment, as a client sees it.
pub open spec fn edited_value(s: StoreView, meeting_id: Seq<char>, segment_id: Seq<char>) -> JsonView {
    let g = first(s.segments, segment_in(segment_id, meeting_id)).unwrap();
    JsonView::Object(segment_members(s.speakers, g).insert("segment_id"@, JsonView::Str(g.id)))
}

/// The store and the outcome of editing a segment: another text, another speaker,
/// or both.
pub open spec fn segment_edited(
    s: StoreView,
    meeting_id: Seq<char>,
    segment_id: Seq<char>,
    transcript: Option<Seq<char>>,
    speaker_name: Option<Seq<char>>,
    new_speaker: Seq<char>,
) -> (StoreView, Result<JsonView, AppErrorView>) {
    let text = cleaned(transcript);
    let name = cleaned(speaker_name);
    if !s.has_meeting(meeting_id) {
        (s, Err(AppErrorView::NotFound))
    } else if text is None && name is None {
        (s, Err(AppErrorView::BadRequest("transcript or speaker_name is required"@)))
    } else if first(s.segments, segment_in(segment_id, meeting_id)) is None {
        (s, Err(AppErrorView::NotFound))
    } else {
        let kept = reworded(s, meeting_id, segment_id, text);
        match reassigned(kept, meeting_id, segment_id, name, new_speaker) {
            Ok(new) => (new, Ok(edited_value(new, meeting_id, segment_id))),
            Err(e) => (kept, Err(e)),
        }
    }
}

/// What is told of an edited segment: what the client is answered.
pub open spec fn edit_events(meeting_id: Seq<char>, r: Result<JsonView, AppErrorView>) -> Seq<
    EventView,
> {
    match r {
        Ok(value) => seq![segment_updated(meeting_id, value)],
        Err(_) => Seq::empty(),
    }
}

impl Store {
    /// Whether a segment can be uploaded to a meeting now.
    pub fn allow_upload(&self, meeting_id: &str) -> (r: Result<(), AppError>)
        ensures
            outcome(r) == upload_allowed(self@, meeting_id@),
    {
        match self.meeting(meeting_id) {
            None => Err(AppError::NotFound),
            Some(m) => if m.status == MeetingStatus::Running {
                Ok(())
            } else {
                Err(bad_request("audio can only be uploaded to a running meeting"))
            },
        }
    }

    fn number_taken(&self, meeting_id: &str, sequence_no: i64) -> (taken: bool)
        ensures
            taken == any(self@.segments, segment_numbered(meeting_id@, sequence_no)),
    {
        any_row(
            &self.segments,
            |g: &Segment| -> (b: bool)
                ensures b == segment_numbered(meeting_id@, sequence_no)(g@)
                { text_eq(g.meeting_id.as_str(), meeting_id) && g.sequence_no == sequence_no },
            Ghost(segment_numbered(meeting_id@, sequence_no)),
        )
    }

    /// Settles whether an upload is taken in, and who speaks in it. `new_speaker`
    /// is the id of a speaker who is added for it, where one is needed.
    pub fn admit_upload(&mut self, meeting_id: &str, upload: &Upload, new_speaker: &str) -> (
    speaker: Result<Option<String>, AppError>)
        ensures
            final(self)@ == upload_admitted(old(self)@, meeting_id@, upload@, new_speaker@).0,
            upload_admitted(old(self)@, meeting_id@, upload@, new_speaker@).1 == match speaker {
                Ok(id) => Ok(opt_text(id)),
                Err(e) => Err(e@),
            },
    {
        let speaker = match &upload.speaker_id {
            Some(id) => Some(id.clone()),
            None => match clean_option(copy_opt(&upload.speaker_name)) {
                Some(name) => match self.ensure_speaker_by_name_as(
                    meeting_id,
                    name.as_str(),
                    new_speaker,
                ) {
                    Ok(id) => Some(id),
                    Err(e) => return Err(e),
                },
                None => None,
            },
        };
        if let Some(id) = &speaker {
            let belongs = any_row(
                &self.speakers,
                |r: &Speaker| -> (b: bool)
                    ensures b == speaker_in(id@, meeting_id@)(r@)
                    {
                        text_eq(r.id.as_str(), id.as_str()) && text_eq(
                            r.meeting_id.as_str(),
                            meeting_id,
                        )
                    },
                Ghost(speaker_in(id@, meeting_id@)),
            );
            if !belongs {
                return Err(bad_request("speaker_id does not belong to this meeting"));
            }
        }
        if self.number_taken(meeting_id, upload.sequence_no) {
            return Err(bad_request("sequence_no already exists for this meeting"));
        }
        Ok(speaker)
    }

    /// Adds a segment, and a job with this id to transcribe it.
    pub fn insert_segment_as(&mut self, segment: NewSegment, job_id: String, clock: &Clock) -> (r:
        Result<(), AppError>)
        ensures
            outcome(r) == came_out(segment_inserted(old(self)@, segment@, job_id@, clock@)),
            final(self)@ == or_unchanged(
                segment_inserted(old(self)@, segment@, job_id@, clock@),
                old(self)@,
            ),
    {
        let id = segment.id.as_str();
        let meeting_id = segment.meeting_id.as_str();
        let taken = any_row(
            &self.segments,
            |g: &Segment| -> (b: bool)
                ensures b == (g@.id == id@)
                { text_eq(g.id.as_str(), id) },
            Ghost(segment_is(id@)),
        );
        if self.number_taken(meeting_id, segment.sequence_no) {
            return Err(
                taken_values("audio_segments.meeting_id, audio_segments.sequence_no"),
            );
        }
        if taken {
            return Err(taken_key("audio_segments.id"));
        }
        if !self.has_meeting(meeting_id) || !self.speaker_exists(&segment.speaker_id) {
            return Err(broken_reference());
        }
        if self.has_job_for(&JobType::Transcribe, meeting_id, id) {
            return Err(taken_values("jobs.job_type, jobs.meeting_id, jobs.target_id"));
        }
        if self.has_job_id(job_id.as_str()) {
            return Err(taken_key("jobs.id"));
        }
        let ghost before = self@;
        self.push_job(job_id, JobType::Transcribe, meeting_id, segment.id.clone(), clock);
        let row = Segment {
            id: segment.id,
            meeting_id: segment.meeting_id,
            speaker_id: segment.speaker_id,
            sequence_no: segment.sequence_no,
            start_ms: segment.start_ms,
            end_ms: segment.end_ms,
            file_path: segment.file_path,
            transcript: segment.transcript,
            status: SegmentStatus::Uploaded,
        };
        self.segments.push(row);
        assert(self@.segments =~= before.segments.push(row@));
        Ok(())
    }

    /// Adds a segment, and a job to transcribe it.
    pub fn insert_segment(&mut self, segment: NewSegment, clock: &Clock) -> (r: Result<
        (),
        AppError,
    >)
        ensures
            exists|job_id: Seq<char>|
                {
                    &&& #[trigger] is_id(job_id)
                    &&& outcome(r) == came_out(
                        segment_inserted(old(self)@, segment@, job_id, clock@),
                    )
                    &&& final(self)@ == or_unchanged(
                        segment_inserted(old(self)@, segment@, job_id, clock@),
                        old(self)@,
                    )
                },
    {
        let job_id = new_id();
        assert(is_id(job_id@));
        self.insert_segment_as(segment, job_id, clock)
    }

    fn segment_json(&self, g: &Segment) -> (json: Json)
        ensures
            json@ == JsonView::Object(segment_members(self@.speakers, g@)),
    {
        let mut json = Json::Null;
        json.set("id", string_json(g.id.as_str()));
        json.set("speaker_id", opt_string_json(&g.speaker_id));
        json.set("speaker_name", opt_string_json(&self.speaker_name(&g.speaker_id)));
        json.set("sequence_no", integer_json(g.sequence_no));
        json.set("start_ms", integer_json(g.start_ms));
        json.set("end_ms", integer_json(g.end_ms));
        json.set("status", string_json(g.status.as_str()));
        json.set("transcript", opt_string_json(&g.transcript));
        json
    }

    /// Lists the segments of a meeting by the time at which they start.
    pub fn list_segments(&self, meeting_id: &str) -> (answer: Result<Json, AppError>)
        ensures
            answered(answer) == segments_listed(self@, meeting_id@),
    {
        if !self.has_meeting(meeting_id) {
            return Err(AppError::NotFound);
        }
        let found = select_rows(
            &self.segments,
            |g: &Segment| -> (b: bool)
                ensures b == segment_of(meeting_id@)(g@)
                { text_eq(g.meeting_id.as_str(), meeting_id) },
            Ghost(segment_of(meeting_id@)),
        );
        let sorted = sort_rows(
            found,
            |g: &&Segment| -> (k: i64)
                ensures k == segment_start()(g@)
                { g.start_ms },
            Ghost(segment_start()),
        );
        Ok(
            json_of_rows(
                &sorted,
                |g: &&Segment| -> (out: Json)
                    ensures out@ == segment_value(self@.speakers)(g@)
                    { self.segment_json(g) },
                Ghost(segment_value(self@.speakers)),
            ),
        )
    }

    fn reword(&mut self, meeting_id: &str, segment_id: &str, text: &str)
        ensures
            final(self)@ == reworded(old(self)@, meeting_id@, segment_id@, Some(text@)),
    {
        change_rows(
            &mut self.segments,
            |g: Segment| -> (out: Segment)
                ensures out@ == rewording(segment_id@, meeting_id@, text@)(g@)
                {
                    if text_eq(g.id.as_str(), segment_id) && text_eq(
                        g.meeting_id.as_str(),
                        meeting_id,
                    ) {
                        Segment {
                            transcript: Some(text.to_owned()),
                            status: SegmentStatus::Completed,
                            ..g
                        }
                    } else {
                        g
                    }
                },
            Ghost(rewording(segment_id@, meeting_id@, text@)),
        );
    }

    fn reassign(&mut self, meeting_id: &str, segment_id: &str, speaker: &str)
        ensures
            final(self)@ == (StoreView {
                segments: old(self)@.segments.map_values(
                    reassigning(segment_id@, meeting_id@, speaker@),
                ),
                ..old(self)@
            }),
    {
        change_rows(
            &mut self.segments,
            |g: Segment| -> (out: Segment)
                ensures out@ == reassigning(segment_id@, meeting_id@, speaker@)(g@)
                {
                    if text_eq(g.id.as_str(), segment_id) && text_eq(
                        g.meeting_id.as_str(),
                        meeting_id,
                    ) {
                        Segment { speaker_id: Some(speaker.to_owned()), ..g }
                    } else {
                        g
                    }
                },
            Ghost(reassigning(segment_id@, meeting_id@, speaker@)),
        );
    }

    /// Edits a segment. `new_speaker` is the id of a speaker who is added for it,
    /// where one is needed.
    pub fn update_segment_as(
        &mut self,
        meeting_id: &str,
        segment_id: &str,
        transcript: Option<String>,
        speaker_name: Option<String>,
        new_speaker: &str,
    ) -> (done: (Vec<MeetingEvent>, Result<Json, AppError>))
        ensures
            (final(self)@, answered(done.1)) == segment_edited(
                old(self)@,
                meeting_id@,
                segment_id@,
                opt_text(transcript),
                opt_text(speaker_name),
                new_speaker@,
            ),
            event_views(done.0@) == edit_events(meeting_id@, answered(done.1)),
    {
        let mut events: Vec<MeetingEvent> = Vec::new();
        proof {
            assert(event_views(events@) =~= Seq::empty());
        }
        if !self.has_meeting(meeting_id) {
            return (events, Err(AppError::NotFound));
        }
        let text = clean_option(transcript);
        let name = clean_option(speaker_name);
        if text.is_none() && name.is_none() {
            return (events, Err(bad_request("transcript or speaker_name is required")));
        }
        if self.segment_of(segment_id, meeting_id).is_none() {
            return (events, Err(AppError::NotFound));
        }
        let ghost p = segment_in(segment_id@, meeting_id@);
        let ghost start = self@;
        if let Some(text) = &text {
            self.reword(meeting_id, segment_id, text.as_str());
            proof {
                lemma_first_of_map(start.segments, p, rewording(segment_id@, meeting_id@, text@));
            }
        }
        let ghost kept = self@;
        if let Some(name) = &name {
            match self.ensure_speaker_by_name_as(meeting_id, name.as_str(), new_speaker) {
                Ok(id) => {
                    self.reassign(meeting_id, segment_id, id.as_str());
                    proof {
                        lemma_first_of_map(
                            kept.segments,
                            p,
                            reassigning(segment_id@, meeting_id@, id@),
                        );
                    }
                },
                Err(e) => return (events, Err(e)),
            }
        }
        match self.segment_of(segment_id, meeting_id) {
            Some(g) => {
                let mut json = self.segment_json(g);
                json.set("segment_id", string_json(g.id.as_str()));
                let told = tell_segment_updated(meeting_id, json.copy());
                events.push(told);
                assert(event_views(events@) =~= seq![told@]);
                (events, Ok(json))
            },
            None => (events, Err(AppError::NotFound)),
        }
    }

    /// Edits a segment: another text, another speaker, or both.
    pub fn update_segment(
        &mut self,
        meeting_id: &str,
        segment_id: &str,
        transcript: Option<String>,
        speaker_name: Option<String>,
    ) -> (done: (Vec<MeetingEvent>, Result<Json, AppError>))
        ensures
            exists|id: Seq<char>|
                #[trigger] is_id(id) && (final(self)@, answered(done.1)) == segment_edited(
                    old(self)@,
                    meeting_id@,
                    segment_id@,
                    opt_text(transcript),
                    opt_text(speaker_name),
                    id,
                ),
            event_views(done.0@) == edit_events(meeting_id@, answered(done.1)),
    {
        let id = new_id();
        assert(is_id(id@));
        self.update_segment_as(meeting_id, segment_id, transcript, speaker_name, id.as_str())
    }
}

/// Editing a segment changes segments and, where a name is new, speakers: nothing
/// is transcribed again, and no summary that was made is made again.
pub proof fn law_editing_starts_nothing_over(
    s: StoreView,
    meeting_id: Seq<char>,
    segment_id: Seq<char>,
    transcript: Option<Seq<char>>,
    speaker_name: Option<Seq<char>>,
    new_speaker: Seq<char>,
)
    ensures
        ({
            let new = segment_edited(
                s,
                meeting_id,
                segment_id,
                transcript,
                speaker_name,
                new_speaker,
            ).0;
            &&& new.meetings == s.meetings
            &&& new.summaries == s.summaries
            &&& new.boards == s.boards
            &&& new.board_versions == s.board_versions
            &&& new.jobs == s.jobs
            &&& new.segments.len() == s.segments.len()
        }),
{
}

/// A segment that was edited has the text it was given.
pub proof fn law_edited_text_is_kept(
    s: StoreView,
    meeting_id: Seq<char>,
    segment_id: Seq<char>,
    text: Seq<char>,
    speaker_name: Option<Seq<char>>,
    new_speaker: Seq<char>,
)
    requires
        trimmed(text).len() > 0,
        segment_edited(s, meeting_id, segment_id, Some(text), speaker_name, new_speaker).1 is Ok,
    ensures
        ({
            let new = segment_edited(
                s,
                meeting_id,
                segment_id,
                Some(text),
                speaker_name,
                new_speaker,
            ).0;
            first(new.segments, segment_in(segment_id, meeting_id)) matches Some(g)
                && g.transcript == Some(trimmed(text)) && g.status
                == SegmentStatus::Completed
        }),
{
    let p = segment_in(segment_id, meeting_id);
    let words = trimmed(text);
    let kept = reworded(s, meeting_id, segment_id, Some(words));
    lemma_first_of_map(s.segments, p, rewording(segment_id, meeting_id, words));
    lemma_first_holds(s.segments, p);
    match cleaned(speaker_name) {
        Some(name) => {
            match speaker_ensured(kept, meeting_id, name, new_speaker) {
                Ok((new, id)) => lemma_first_of_map(
                    new.segments,
                    p,
                    reassigning(segment_id, meeting_id, id),
                ),
                Err(_) => {},
            }
        },
        None => {},
    }
}

/// The segment of an upload that is taken in.
pub open spec fn uploaded_segment(
    meeting_id: Seq<char>,
    upload: UploadView,
    speaker: Option<Seq<char>>,
    id: Seq<char>,
    file_path: Seq<char>,
) -> SegmentView {
    SegmentView {
        id,
        meeting_id,
        speaker_id: speaker,
        sequence_no: upload.sequence_no,
        start_ms: upload.start_ms,
        end_ms: upload.end_ms,
        file_path,
        transcript: upload.transcript,
        status: SegmentStatus::Uploaded,
    }
}

/// The store, the events and the outcome of adding a segment of which this is told.
pub open spec fn segment_added(
    s: StoreView,
    segment: SegmentView,
    told: EventView,
    job_id: Seq<char>,
    clock: ClockView,
) -> (StoreView, Seq<EventView>, Result<(), AppErrorView>) {
    let next = segment_inserted(s, segment, job_id, clock);
    (
        or_unchanged(next, s),
        if next is Ok {
            seq![told]
        } else {
            Seq::empty()
        },
        came_out(next),
    )
}

/// The store, the events and the outcome of taking in an upload.
pub open spec fn upload_taken_in(
    s: StoreView,
    meeting_id: Seq<char>,
    upload: UploadView,
    speaker: Option<Seq<char>>,
    id: Seq<char>,
    file_path: Seq<char>,
    job_id: Seq<char>,
    clock: ClockView,
) -> (StoreView, Seq<EventView>, Result<(), AppErrorView>) {
    segment_added(
        s,
        uploaded_segment(meeting_id, upload, speaker, id, file_path),
        segment_uploaded(meeting_id, id, upload.sequence_no, upload.start_ms, upload.end_ms),
        job_id,
        clock,
    )
}

impl Store {
    /// Takes in an upload whose audio, if it has any, is stored at a path. `id` is
    /// that of the segment, `job_id` that of the job to transcribe it.
    pub fn take_in_upload_as(
        &mut self,
        meeting_id: &str,
        upload: &Upload,
        speaker: Option<String>,
        id: &str,
        file_path: String,
        job_id: String,
        clock: &Clock,
    ) -> (done: (Vec<MeetingEvent>, Result<(), AppError>))
        ensures
            (final(self)@, event_views(done.0@), outcome(done.1)) == upload_taken_in(
                old(self)@,
                meeting_id@,
                upload@,
                opt_text(speaker),
                id@,
                file_path@,
                job_id@,
                clock@,
            ),
    {
        let mut events: Vec<MeetingEvent> = Vec::new();
        proof {
            assert(event_views(events@) =~= Seq::empty());
        }
        let segment = NewSegment {
            id: id.to_owned(),
            meeting_id: meeting_id.to_owned(),
            speaker_id: speaker,
            sequence_no: upload.sequence_no,
            start_ms: upload.start_ms,
            end_ms: upload.end_ms,
            file_path,
            transcript: copy_opt(&upload.transcript),
        };
        match self.insert_segment_as(segment, job_id, clock) {
            Ok(()) => {
                let told = tell_segment_uploaded(
                    meeting_id,
                    id,
                    upload.sequence_no,
                    upload.start_ms,
                    upload.end_ms,
                );
                events.push(told);
                assert(event_views(events@) =~= seq![told@]);
                (events, Ok(()))
            },
            Err(e) => (events, Err(e)),
        }
    }

    /// Takes in an upload whose audio, if it has any, is stored at a path. `id` is
    /// that of the segment.
    pub fn take_in_upload(
        &mut self,
        meeting_id: &str,
        upload: &Upload,
        speaker: Option<String>,
        id: &str,
        file_path: String,
        clock: &Clock,
    ) -> (done: (Vec<MeetingEvent>, Result<(), AppError>))
        ensures
            exists|job_id: Seq<char>|
                #[trigger] is_id(job_id) && (final(self)@, event_views(done.0@), outcome(done.1))
                    == upload_taken_in(
                    old(self)@,
                    meeting_id@,
                    upload@,
                    opt_text(speaker),
                    id@,
                    file_path@,
                    job_id,
                    clock@,
                ),
    {
        let job_id = new_id();
        assert(is_id(job_id@));
        self.take_in_upload_as(meeting_id, upload, speaker, id, file_path, job_id, clock)
    }
}

/// An upload that was settled on is taken in, where its ids are new.
pub proof fn law_admitted_upload_is_taken_in(
    s: StoreView,
    meeting_id: Seq<char>,
    upload: UploadView,
    new_speaker: Seq<char>,
    id: Seq<char>,
    file_path: Seq<char>,
    job_id: Seq<char>,
    clock: ClockView,
)
    requires
        upload_allowed(s, meeting_id) is Ok,
        upload_admitted(s, meeting_id, upload, new_speaker).1 is Ok,
        !any(s.segments, segment_is(id)),
        !any(s.jobs, job_is(job_id)),
        !any(s.jobs, job_for(JobTypeView::Transcribe, meeting_id, id)),
    ensures
        ({
            let (admitted, speaker) = upload_admitted(s, meeting_id, upload, new_speaker);
            upload_taken_in(
                admitted,
                meeting_id,
                upload,
                speaker->Ok_0,
                id,
                file_path,
                job_id,
                clock,
            ).2 is Ok
        }),
{
    let (admitted, speaker) = upload_admitted(s, meeting_id, upload, new_speaker);
    lemma_first_holds(s.meetings, meeting_is(meeting_id));
    match speaker->Ok_0 {
        Some(found) => {
            let p = speaker_in(found, meeting_id);
            let i = choose|i: int|
                0 <= i < admitted.speakers.len() && p(#[trigger] admitted.speakers[i]);
            assert(speaker_is(found)(admitted.speakers[i]));
        },
        None => {},
    }
}

/// A segment that was added is found, as it was given, and a job waits to
/// transcribe it.
pub proof fn law_added_segment_is_found(
    s: StoreView,
    segment: SegmentView,
    job_id: Seq<char>,
    clock: ClockView,
)
    requires
        segment_inserted(s, segment, job_id, clock) is Ok,
    ensures
        ({
            let new = segment_inserted(s, segment, job_id, clock)->Ok_0;
            &&& first(new.segments, segment_in(segment.id, segment.meeting_id)) == Some(segment)
            &&& first(new.jobs, job_is(job_id)) == Some(
                new_job(
                    job_id,
                    JobTypeView::Transcribe,
                    segment.meeting_id,
                    segment.id,
                    clock,
                ),
            )
        }),
{
    let new = segment_inserted(s, segment, job_id, clock)->Ok_0;
    let p = segment_in(segment.id, segment.meeting_id);
    let last = s.segments.len() as int;
    assert forall|j: int| 0 <= j < last implies !p(#[trigger] new.segments[j]) by {
        assert(new.segments[j] == s.segments[j]);
        assert(!segment_is(segment.id)(s.segments[j]));
    }
    assert(is_first(new.segments, p, last));
    lemma_first_is(new.segments, p, last);
    let q = job_is(job_id);
    let end = s.jobs.len() as int;
    assert forall|j: int| 0 <= j < end implies !q(#[trigger] new.jobs[j]) by {
        assert(new.jobs[j] == s.jobs[j]);
    }
    assert(is_first(new.jobs, q, end));
    lemma_first_is(new.jobs, q, end);
}

/// An upload that is taken in becomes one new segment, as it was sent: of this meeting,
/// under this id, with the speaker that was settled on, and with the sequence number,
/// the times, the path and the text of the upload. It is still to be transcribed: one new
/// job for it waits from now on. One thing is told, and nothing else changes.
pub proof fn law_upload_is_taken_in_as_it_was_sent(
    s: StoreView,
    meeting_id: Seq<char>,
    upload: UploadView,
    speaker: Option<Seq<char>>,
    id: Seq<char>,
    file_path: Seq<char>,
    job_id: Seq<char>,
    clock: ClockView,
)
    requires
        upload_taken_in(s, meeting_id, upload, speaker, id, file_path, job_id, clock).2 is Ok,
    ensures
        ({
            let done = upload_taken_in(
                s,
                meeting_id,
                upload,
                speaker,
                id,
                file_path,
                job_id,
                clock,
            );
            let new = done.0;
            let g = new.segments[s.segments.len() as int];
            let job = new.jobs[s.jobs.len() as int];
            &&& done.1 == seq![
                segment_uploaded(
                    meeting_id,
                    id,
                    upload.sequence_no,
                    upload.start_ms,
                    upload.end_ms,
                ),
            ]
            &&& new.segments.len() == s.segments.len() + 1
            &&& forall|i: int|
                0 <= i < s.segments.len() ==> new.segments[i] == #[trigger] s.segments[i]
            &&& forall|i: int| 0 <= i < s.segments.len() ==> (#[trigger] s.segments[i]).id != id
            &&& g.id == id
            &&& g.meeting_id == meeting_id
            &&& g.speaker_id == speaker
            &&& g.sequence_no == upload.sequence_no
            &&& g.start_ms == upload.start_ms
            &&& g.end_ms == upload.end_ms
            &&& g.file_path == file_path
            &&& g.transcript == upload.transcript
            &&& g.status == SegmentStatus::Uploaded
            &&& new.jobs.len() == s.jobs.len() + 1
            &&& forall|i: int| 0 <= i < s.jobs.len() ==> new.jobs[i] == #[trigger] s.jobs[i]
            &&& job.id == job_id && job.job_type == JobTypeView::Transcribe && job.meeting_id
                == meeting_id && job.target_id == Some(id) && job.status == JobStatus::Pending
                && job.retry_count == 0 && job.available_at == clock.now && job.error_message
                is None
            &&& new.meetings == s.meetings && new.speakers == s.speakers && new.summaries
                == s.summaries && new.boards == s.boards && new.board_versions == s.board_versions
        }),
{
    assert forall|i: int| 0 <= i < s.segments.len() implies (#[trigger] s.segments[i]).id != id by {
        assert(!segment_is(id)(s.segments[i]));
    }
}

/// A segment can be added exactly if its meeting is there, its speaker is, where it has
/// one, its number is not taken in the meeting, its id is not taken, there is no job to
/// transcribe it yet, and the id of that job is not taken. Else nothing changes.
pub proof fn law_when_a_segment_is_added(
    s: StoreView,
    segment: SegmentView,
    told: EventView,
    job_id: Seq<char>,
    clock: ClockView,
)
    ensures
        segment_added(s, segment, told, job_id, clock).2 is Ok <==> {
            &&& exists|i: int|
                0 <= i < s.meetings.len() && (#[trigger] s.meetings[i]).id == segment.meeting_id
            &&& segment.speaker_id matches Some(speaker) ==> exists|i: int|
                0 <= i < s.speakers.len() && (#[trigger] s.speakers[i]).id == speaker
            &&& forall|i: int|
                0 <= i < s.segments.len() ==> (#[trigger] s.segments[i]).id != segment.id && !(
                s.segments[i].meeting_id == segment.meeting_id && s.segments[i].sequence_no
                    == segment.sequence_no)
            &&& forall|i: int|
                0 <= i < s.jobs.len() ==> (#[trigger] s.jobs[i]).id != job_id && !(
                s.jobs[i].job_type == JobTypeView::Transcribe && s.jobs[i].meeting_id
                    == segment.meeting_id && s.jobs[i].target_id == Some(segment.id))
        },
        segment_added(s, segment, told, job_id, clock).2 is Err ==> segment_added(
            s,
            segment,
            told,
            job_id,
            clock,
        ).0 == s && segment_added(s, segment, told, job_id, clock).1.len() == 0,
        segment_added(s, segment, told, job_id, clock).2 is Ok ==> segment_added(
            s,
            segment,
            told,
            job_id,
            clock,
        ).1 == seq![told],
{
    let there = exists|i: int|
        0 <= i < s.meetings.len() && (#[trigger] s.meetings[i]).id == segment.meeting_id;
    if there {
        let i = choose|i: int|
            0 <= i < s.meetings.len() && (#[trigger] s.meetings[i]).id == segment.meeting_id;
        assert(meeting_is(segment.meeting_id)(s.meetings[i]));
    }
    if let Some(speaker) = segment.speaker_id {
        let p = speaker_is(speaker);
        if any(s.speakers, p) {
            let i = choose|i: int| 0 <= i < s.speakers.len() && p(#[trigger] s.speakers[i]);
            assert(s.speakers[i].id == speaker);
        }
        if exists|i: int| 0 <= i < s.speakers.len() && (#[trigger] s.speakers[i]).id == speaker {
            let i = choose|i: int|
                0 <= i < s.speakers.len() && (#[trigger] s.speakers[i]).id == speaker;
            assert(p(s.speakers[i]));
        }
    }
    let q = segment_numbered(segment.meeting_id, segment.sequence_no);
    let free = forall|i: int|
        0 <= i < s.segments.len() ==> (#[trigger] s.segments[i]).id != segment.id && !(
        s.segments[i].meeting_id == segment.meeting_id && s.segments[i].sequence_no
            == segment.sequence_no);
    if !free {
        let i = choose|i: int|
            0 <= i < s.segments.len() && !((#[trigger] s.segments[i]).id != segment.id && !(
            s.segments[i].meeting_id == segment.meeting_id && s.segments[i].sequence_no
                == segment.sequence_no));
        assert(q(s.segments[i]) || segment_is(segment.id)(s.segments[i]));
    }
    let r = job_for(JobTypeView::Transcribe, segment.meeting_id, segment.id);
    let no_job = forall|i: int|
        0 <= i < s.jobs.len() ==> (#[trigger] s.jobs[i]).id != job_id && !(s.jobs[i].job_type
            == JobTypeView::Transcribe && s.jobs[i].meeting_id == segment.meeting_id
            && s.jobs[i].target_id == Some(segment.id));
    if !no_job {
        let i = choose|i: int|
            0 <= i < s.jobs.len() && !((#[trigger] s.jobs[i]).id != job_id && !(s.jobs[i].job_type
                == JobTypeView::Transcribe && s.jobs[i].meeting_id == segment.meeting_id
                && s.jobs[i].target_id == Some(segment.id)));
        assert(r(s.jobs[i]) || job_is(job_id)(s.jobs[i]));
    }
    assert forall|i: int| 0 <= i < s.segments.len() && free implies !q(#[trigger] s.segments[i])
        && !segment_is(segment.id)(s.segments[i]) by {}
    assert forall|i: int| 0 <= i < s.jobs.len() && no_job implies !r(#[trigger] s.jobs[i])
        && !job_is(job_id)(s.jobs[i]) by {}
}

/// Who speaks in an upload that is settled on: the speaker whose id it gives, who belongs
/// to the meeting; else the meeting's speaker of the trimmed name that it gives; else
/// nobody. Its number is not taken in the meeting. Nothing changes but that a speaker of
/// that name may be added.
pub proof fn law_who_speaks_in_an_upload(
    s: StoreView,
    meeting_id: Seq<char>,
    upload: UploadView,
    new_speaker: Seq<char>,
)
    requires
        upload_admitted(s, meeting_id, upload, new_speaker).1 is Ok,
    ensures
        ({
            let new = upload_admitted(s, meeting_id, upload, new_speaker).0;
            let speaker = upload_admitted(s, meeting_id, upload, new_speaker).1->Ok_0;
            let named = upload.speaker_name matches Some(name) && trimmed(name).len() > 0;
            &&& upload.speaker_id matches Some(id) ==> speaker == Some(id) && new == s
            &&& upload.speaker_id is None && named ==> speaker is Some && exists|k: int|
                0 <= k < new.speakers.len() && Some((#[trigger] new.speakers[k]).id) == speaker
                    && new.speakers[k].meeting_id == meeting_id && new.speakers[k].name == trimmed(
                    upload.speaker_name.unwrap(),
                )
            &&& upload.speaker_id is None && !named ==> speaker is None && new == s
            &&& speaker is Some ==> exists|k: int|
                0 <= k < new.speakers.len() && Some((#[trigger] new.speakers[k]).id) == speaker
                    && new.speakers[k].meeting_id == meeting_id
            &&& forall|i: int|
                0 <= i < s.segments.len() ==> !((#[trigger] s.segments[i]).meeting_id == meeting_id
                    && s.segments[i].sequence_no == upload.sequence_no)
            &&& s.speakers.len() <= new.speakers.len() <= s.speakers.len() + 1
            &&& forall|k: int|
                0 <= k < s.speakers.len() ==> new.speakers[k] == #[trigger] s.speakers[k]
            &&& new.meetings == s.meetings && new.segments == s.segments && new.summaries
                == s.summaries && new.boards == s.boards && new.board_versions
                == s.board_versions && new.jobs == s.jobs
        }),
{
    let new = upload_admitted(s, meeting_id, upload, new_speaker).0;
    let speaker = upload_admitted(s, meeting_id, upload, new_speaker).1->Ok_0;
    if upload.speaker_id is None {
        if let Some(name) = cleaned(upload.speaker_name) {
            law_speaker_of_a_name(s, meeting_id, name, new_speaker);
        }
    }
    if let Some(id) = speaker {
        let p = speaker_in(id, meeting_id);
        let k = choose|k: int| 0 <= k < new.speakers.len() && p(#[trigger] new.speakers[k]);
        assert(Some(new.speakers[k].id) == speaker);
    }
    let q = segment_numbered(meeting_id, upload.sequence_no);
    assert forall|i: int| 0 <= i < s.segments.len() implies !((
    #[trigger] s.segments[i]).meeting_id == meeting_id && s.segments[i].sequence_no
        == upload.sequence_no) by {
        assert(!q(new.segments[i]));
    }
}

/// An upload is refused, and nothing changes, where the speaker whose id it gives does not
/// belong to the meeting; and it is refused where its number is taken in the meeting.
pub proof fn law_which_uploads_are_refused(
    s: StoreView,
    meeting_id: Seq<char>,
    upload: UploadView,
    new_speaker: Seq<char>,
)
    ensures
        ({
            let done = upload_admitted(s, meeting_id, upload, new_speaker);
            let foreign = upload.speaker_id matches Some(id) && forall|k: int|
                0 <= k < s.speakers.len() ==> !((#[trigger] s.speakers[k]).id == id
                    && s.speakers[k].meeting_id == meeting_id);
            let taken = exists|i: int|
                0 <= i < s.segments.len() && (#[trigger] s.segments[i]).meeting_id == meeting_id
                    && s.segments[i].sequence_no == upload.sequence_no;
            &&& foreign ==> done.0 == s && done.1 == Err::<Option<Seq<char>>, AppErrorView>(
                AppErrorView::BadRequest("speaker_id does not belong to this meeting"@),
            )
            &&& taken ==> done.1 is Err
            &&& taken && upload.speaker_id is Some && !foreign ==> done.1 == Err::<
                Option<Seq<char>>,
                AppErrorView,
            >(AppErrorView::BadRequest("sequence_no already exists for this meeting"@))
            &&& upload.speaker_id is Some && !foreign && !taken ==> done.1 is Ok
            &&& upload.speaker_id is None && upload.speaker_name is None && !taken ==> done.1
                == Ok::<Option<Seq<char>>, AppErrorView>(None)
        }),
{
    let done = upload_admitted(s, meeting_id, upload, new_speaker);
    let q = segment_numbered(meeting_id, upload.sequence_no);
    if exists|i: int|
        0 <= i < s.segments.len() && (#[trigger] s.segments[i]).meeting_id == meeting_id
            && s.segments[i].sequence_no == upload.sequence_no {
        let i = choose|i: int|
            0 <= i < s.segments.len() && (#[trigger] s.segments[i]).meeting_id == meeting_id
                && s.segments[i].sequence_no == upload.sequence_no;
        assert(q(s.segments[i]));
    }
    if let Some(id) = upload.speaker_id {
        let p = speaker_in(id, meeting_id);
        if any(s.speakers, p) {
            let k = choose|k: int| 0 <= k < s.speakers.len() && p(#[trigger] s.speakers[k]);
            assert(s.speakers[k].id == id && s.speakers[k].meeting_id == meeting_id);
        } else {
            assert forall|k: int| 0 <= k < s.speakers.len() implies !((
            #[trigger] s.speakers[k]).id == id && s.speakers[k].meeting_id == meeting_id) by {
                assert(!p(s.speakers[k]));
            }
        }
    }
}

/// The segment of an upload that was settled on and taken in has the speaker that the
/// upload gives: the one of the given id, or else the meeting's speaker of the given
/// name, trimmed, or else none; and it is the upload's own in number, times, path and text.
pub proof fn law_taken_in_upload_keeps_its_speaker(
    s: StoreView,
    meeting_id: Seq<char>,
    upload: UploadView,
    new_speaker: Seq<char>,
    id: Seq<char>,
    file_path: Seq<char>,
    job_id: Seq<char>,
    clock: ClockView,
    i: int,
)
    requires
        upload_admitted(s, meeting_id, upload, new_speaker).1 is Ok,
        ({
            let (admitted, speaker) = upload_admitted(s, meeting_id, upload, new_speaker);
            let done = upload_taken_in(
                admitted,
                meeting_id,
                upload,
                speaker->Ok_0,
                id,
                file_path,
                job_id,
                clock,
            );
            done.2 is Ok && 0 <= i < done.0.segments.len() && done.0.segments[i].id == id
        }),
    ensures
        ({
            let (admitted, speaker) = upload_admitted(s, meeting_id, upload, new_speaker);
            let new = upload_taken_in(
                admitted,
                meeting_id,
                upload,
                speaker->Ok_0,
                id,
                file_path,
                job_id,
                clock,
            ).0;
            let g = new.segments[i];
            let named = upload.speaker_name matches Some(name) && trimmed(name).len() > 0;
            &&& upload.speaker_id is Some ==> g.speaker_id == upload.speaker_id
            &&& upload.speaker_id is None && named ==> g.speaker_id is Some && exists|k: int|
                0 <= k < new.speakers.len() && Some((#[trigger] new.speakers[k]).id)
                    == g.speaker_id && new.speakers[k].meeting_id == meeting_id
                    && new.speakers[k].name == trimmed(upload.speaker_name.unwrap())
            &&& upload.speaker_id is None && !named ==> g.speaker_id is None
            &&& g.meeting_id == meeting_id
            &&& g.sequence_no == upload.sequence_no
            &&& g.start_ms == upload.start_ms
            &&& g.end_ms == upload.end_ms
            &&& g.file_path == file_path
            &&& g.transcript == upload.transcript
        }),
{
    let (admitted, speaker) = upload_admitted(s, meeting_id, upload, new_speaker);
    law_who_speaks_in_an_upload(s, meeting_id, upload, new_speaker);
    law_upload_is_taken_in_as_it_was_sent(
        admitted,
        meeting_id,
        upload,
        speaker->Ok_0,
        id,
        file_path,
        job_id,
        clock,
    );
    assert(i < admitted.segments.len() ==> admitted.segments[i].id == id);
}

/// Uploads are allowed to a meeting that is there and goes on, and to no other.
pub proof fn law_uploads_go_to_running_meetings(s: StoreView, meeting_id: Seq<char>, at: int)
    requires
        0 <= at <= s.meetings.len(),
        forall|i: int| 0 <= i < at ==> (#[trigger] s.meetings[i]).id != meeting_id,
        at < s.meetings.len() ==> s.meetings[at].id == meeting_id,
    ensures
        upload_allowed(s, meeting_id) is Ok <==> at < s.meetings.len() && s.meetings[at].status
            == MeetingStatus::Running,
        at == s.meetings.len() ==> upload_allowed(s, meeting_id) == Err::<(), AppErrorView>(
            AppErrorView::NotFound,
        ),
        at < s.meetings.len() && s.meetings[at].status != MeetingStatus::Running
            ==> upload_allowed(s, meeting_id) == Err::<(), AppErrorView>(
            AppErrorView::BadRequest("audio can only be uploaded to a running meeting"@),
        ),
{
    let p = meeting_is(meeting_id);
    lemma_first_holds(s.meetings, p);
    if at < s.meetings.len() {
        assert(is_first(s.meetings, p, at));
        lemma_first_is(s.meetings, p, at);
        assert(any(s.meetings, p));
    }
}

/// Editing a segment changes that segment and no other, and of it what was given and
/// nothing else. A text that is not blank becomes its text, trimmed, and the segment counts
/// as transcribed; a name that is not blank makes the meeting's speaker of that name,
/// trimmed, its speaker. What is not given, or blank, stays as it was.
pub proof fn law_edit_changes_what_was_given(
    s: StoreView,
    meeting_id: Seq<char>,
    segment_id: Seq<char>,
    transcript: Option<Seq<char>>,
    speaker_name: Option<Seq<char>>,
    new_speaker: Seq<char>,
)
    requires
        segment_edited(s, meeting_id, segment_id, transcript, speaker_name, new_speaker).1 is Ok,
    ensures
        ({
            let new = segment_edited(
                s,
                meeting_id,
                segment_id,
                transcript,
                speaker_name,
                new_speaker,
            ).0;
            let words = transcript matches Some(text) && trimmed(text).len() > 0;
            let named = speaker_name matches Some(name) && trimmed(name).len() > 0;
            &&& words || named
            &&& new.segments.len() == s.segments.len()
            &&& forall|i: int|
                0 <= i < s.segments.len() && !((#[trigger] s.segments[i]).id == segment_id
                    && s.segments[i].meeting_id == meeting_id) ==> new.segments[i] == s.segments[i]
            &&& forall|i: int|
                0 <= i < s.segments.len() && (#[trigger] s.segments[i]).id == segment_id
                    && s.segments[i].meeting_id == meeting_id ==> {
                    let was = s.segments[i];
                    let is = new.segments[i];
                    &&& is.id == was.id && is.meeting_id == was.meeting_id && is.sequence_no
                        == was.sequence_no && is.start_ms == was.start_ms && is.end_ms
                        == was.end_ms && is.file_path == was.file_path
                    &&& words ==> is.transcript == Some(trimmed(transcript.unwrap()))
                        && is.status == SegmentStatus::Completed
                    &&& !words ==> is.transcript == was.transcript && is.status == was.status
                    &&& named ==> exists|k: int|
                        0 <= k < new.speakers.len() && Some((#[trigger] new.speakers[k]).id)
                            == is.speaker_id && new.speakers[k].meeting_id == meeting_id
                            && new.speakers[k].name == trimmed(speaker_name.unwrap())
                    &&& !named ==> is.speaker_id == was.speaker_id
                }
            &&& s.speakers.len() <= new.speakers.len() <= s.speakers.len() + 1
            &&& forall|k: int|
                0 <= k < s.speakers.len() ==> new.speakers[k] == #[trigger] s.speakers[k]
            &&& !named ==> new.speakers == s.speakers
        }),
{
    let new = segment_edited(
        s,
        meeting_id,
        segment_id,
        transcript,
        speaker_name,
        new_speaker,
    ).0;
    let text = cleaned(transcript);
    let name = cleaned(speaker_name);
    let kept = reworded(s, meeting_id, segment_id, text);
    if let Some(name) = name {
        law_speaker_of_a_name(kept, meeting_id, name, new_speaker);
        let (with_speaker, id) = speaker_ensured(kept, meeting_id, name, new_speaker)->Ok_0;
        let k = choose|k: int|
            0 <= k < with_speaker.speakers.len() && (#[trigger] with_speaker.speakers[k]).id == id
                && with_speaker.speakers[k].meeting_id == meeting_id
                && with_speaker.speakers[k].name == name;
        assert forall|i: int| 0 <= i < s.segments.len() implies new.segments[i] == reassigning(
            segment_id,
            meeting_id,
            id,
        )(#[trigger] kept.segments[i]) by {}
        assert(new.speakers[k].id == id);
    }
    assert forall|i: int| 0 <= i < s.segments.len() implies match text {
        Some(text) => kept.segments[i] == rewording(segment_id, meeting_id, text)(
            #[trigger] s.segments[i],
        ),
        None => kept.segments[i] == s.segments[i],
    } by {}
}

/// An edit that gives neither a text nor a name is refused, and so is one of a segment or a
/// meeting that is not there; nothing changes then. One that gives a text alone, of a
/// segment that is there, is not refused. Where the text is in order and the speaker cannot
/// be had, the text stays.
pub proof fn law_which_edits_are_refused(
    s: StoreView,
    meeting_id: Seq<char>,
    segment_id: Seq<char>,
    transcript: Option<Seq<char>>,
    speaker_name: Option<Seq<char>>,
    new_speaker: Seq<char>,
)
    ensures
        ({
            let done = segment_edited(
                s,
                meeting_id,
                segment_id,
                transcript,
                speaker_name,
                new_speaker,
            );
            let words = transcript matches Some(text) && trimmed(text).len() > 0;
            let named = speaker_name matches Some(name) && trimmed(name).len() > 0;
            let meeting = exists|i: int|
                0 <= i < s.meetings.len() && (#[trigger] s.meetings[i]).id == meeting_id;
            let segment = exists|i: int|
                0 <= i < s.segments.len() && (#[trigger] s.segments[i]).id == segment_id
                    && s.segments[i].meeting_id == meeting_id;
            &&& !meeting || !segment || !(words || named) ==> done.0 == s && done.1 is Err
            &&& !meeting || (words || named) && !segment ==> done.1 == Err::<
                JsonView,
                AppErrorView,
            >(AppErrorView::NotFound)
            &&& meeting && !(words || named) ==> done.1 == Err::<JsonView, AppErrorView>(
                AppErrorView::BadRequest("transcript or speaker_name is required"@),
            )
            &&& meeting && segment && words && !named ==> done.1 is Ok
            &&& meeting && segment && words && named && done.1 is Err ==> done.0 == segment_edited(
                s,
                meeting_id,
                segment_id,
                transcript,
                None,
                new_speaker,
            ).0
        }),
{
    let p = meeting_is(meeting_id);
    let q = segment_in(segment_id, meeting_id);
    lemma_first_holds(s.segments, q);
    if any(s.meetings, p) {
        let i = choose|i: int| 0 <= i < s.meetings.len() && p(#[trigger] s.meetings[i]);
        assert(s.meetings[i].id == meeting_id);
    }
    if exists|i: int| 0 <= i < s.meetings.len() && (#[trigger] s.meetings[i]).id == meeting_id {
        let i = choose|i: int|
            0 <= i < s.meetings.len() && (#[trigger] s.meetings[i]).id == meeting_id;
        assert(p(s.meetings[i]));
    }
    if any(s.segments, q) {
        let i = choose|i: int| 0 <= i < s.segments.len() && q(#[trigger] s.segments[i]);
        assert(s.segments[i].id == segment_id && s.segments[i].meeting_id == meeting_id);
    }
    if exists|i: int|
        0 <= i < s.segments.len() && (#[trigger] s.segments[i]).id == segment_id
            && s.segments[i].meeting_id == meeting_id {
        let i = choose|i: int|
            0 <= i < s.segments.len() && (#[trigger] s.segments[i]).id == segment_id
                && s.segments[i].meeting_id == meeting_id;
        assert(q(s.segments[i]));
    }
}

/// Whether an object shows a segment: what it shows under each name is the segment's own,
/// and null where the segment has none.
pub open spec fn shows_segment(
    map: Map<Seq<char>, JsonView>,
    speakers: Seq<SpeakerView>,
    g: SegmentView,
) -> bool {
    &&& map["id"@] == JsonView::Str(g.id)
    &&& map["speaker_id"@] == match g.speaker_id {
        Some(t) => JsonView::Str(t),
        None => JsonView::Null,
    }
    &&& (map["speaker_name"@] == JsonView::Null && forall|k: int|
        0 <= k < speakers.len() ==> Some((#[trigger] speakers[k]).id) != g.speaker_id) || exists|
        k: int,
    |
        0 <= k < speakers.len() && Some((#[trigger] speakers[k]).id) == g.speaker_id
            && map["speaker_name"@] == JsonView::Str(speakers[k].name)
    &&& map["sequence_no"@] == JsonView::Number(json_number(g.sequence_no))
    &&& map["start_ms"@] == JsonView::Number(json_number(g.start_ms))
    &&& map["end_ms"@] == JsonView::Number(json_number(g.end_ms))
    &&& map["status"@] == JsonView::Str(
        match g.status {
            SegmentStatus::Uploaded => "uploaded"@,
            SegmentStatus::Transcribing => "transcribing"@,
            SegmentStatus::Completed => "completed"@,
            SegmentStatus::Failed => "failed"@,
        },
    )
    &&& map["transcript"@] == match g.transcript {
        Some(t) => JsonView::Str(t),
        None => JsonView::Null,
    }
}

proof fn lemma_segment_names()
    ensures
        "id"@.len() == 2,
        "speaker_id"@.len() == 10,
        "speaker_name"@.len() == 12,
        "sequence_no"@.len() == 11,
        "start_ms"@.len() == 8,
        "end_ms"@.len() == 6,
        "status"@.len() == 6,
        "transcript"@.len() == 10,
        "segment_id"@.len() == 10,
        "speaker_id"@ != "transcript"@,
        "speaker_id"@ != "segment_id"@,
        "transcript"@ != "segment_id"@,
        "end_ms"@ != "status"@,
{
    reveal_strlit("id");
    reveal_strlit("speaker_id");
    reveal_strlit("speaker_name");
    reveal_strlit("sequence_no");
    reveal_strlit("start_ms");
    reveal_strlit("end_ms");
    reveal_strlit("status");
    reveal_strlit("transcript");
    reveal_strlit("segment_id");
    assert("speaker_id"@[1] == 'p' && "segment_id"@[1] == 'e' && "transcript"@[1] == 'r');
    assert("end_ms"@[0] == 'e' && "status"@[0] == 's');
}

/// A client sees of a segment its id, its speaker's id and name, its number, its times, its
/// status and its text, each the segment's own, and nothing else.
pub proof fn law_segment_is_shown_as_it_is(speakers: Seq<SpeakerView>, g: SegmentView)
    ensures
        segment_members(speakers, g).dom() == set![
            "id"@,
            "speaker_id"@,
            "speaker_name"@,
            "sequence_no"@,
            "start_ms"@,
            "end_ms"@,
            "status"@,
            "transcript"@,
        ],
        shows_segment(segment_members(speakers, g), speakers, g),
{
    lemma_segment_names();
    let map = segment_members(speakers, g);
    assert(map.dom() =~= set![
        "id"@,
        "speaker_id"@,
        "speaker_name"@,
        "sequence_no"@,
        "start_ms"@,
        "end_ms"@,
        "status"@,
        "transcript"@,
    ]);
    if let Some(id) = g.speaker_id {
        let p = speaker_is(id);
        lemma_first_holds(speakers, p);
        match first(speakers, p) {
            Some(r) => {
                let k = choose|k: int| 0 <= k < speakers.len() && speakers[k] == r;
                assert(Some(speakers[k].id) == g.speaker_id);
            },
            None => {
                assert forall|k: int| 0 <= k < speakers.len() implies Some(
                    (#[trigger] speakers[k]).id,
                ) != g.speaker_id by {
                    assert(!p(speakers[k]));
                }
            },
        }
    }
}

/// The list of a meeting's segments has every segment of the meeting and no other, each
/// once, as it is, in the order in which they start. The segments in that order are
/// returned.
pub proof fn law_segments_are_listed(s: StoreView, meeting_id: Seq<char>, at: int) -> (order: Seq<
    SegmentView,
>)
    requires
        0 <= at < s.meetings.len(),
        s.meetings[at].id == meeting_id,
    ensures
        order.to_multiset() == s.segments.filter(
            |g: SegmentView| g.meeting_id == meeting_id,
        ).to_multiset(),
        forall|i: int, j: int|
            0 <= i < j < order.len() ==> (#[trigger] order[i]).start_ms <= (
            #[trigger] order[j]).start_ms,
        segments_listed(s, meeting_id) matches Ok(v) && v is Array && v->Array_0.len()
            == order.len() && forall|i: int|
            0 <= i < order.len() ==> (#[trigger] v->Array_0[i]) is Object
                && v->Array_0[i]->Object_0.len() == 8 && shows_segment(
                v->Array_0[i]->Object_0,
                s.speakers,
                order[i],
            ),
{
    assert(meeting_is(meeting_id)(s.meetings[at]));
    let p = |g: SegmentView| g.meeting_id == meeting_id;
    assert(p =~= segment_of(meeting_id));
    let kept = s.segments.filter(p);
    let order = sorted_by(kept, segment_start());
    law_sorted_by(kept, segment_start());
    assert forall|i: int, j: int| 0 <= i < j < order.len() implies (#[trigger] order[i]).start_ms
        <= (#[trigger] order[j]).start_ms by {
        assert(segment_start()(order[i]) <= segment_start()(order[j]));
    }
    let v = segments_listed(s, meeting_id)->Ok_0;
    assert forall|i: int| 0 <= i < order.len() implies (#[trigger] v->Array_0[i]) is Object
        && v->Array_0[i]->Object_0.len() == 8 && shows_segment(
        v->Array_0[i]->Object_0,
        s.speakers,
        order[i],
    ) by {
        assert(v->Array_0[i] == segment_value(s.speakers)(order[i]));
        law_segment_is_shown_as_it_is(s.speakers, order[i]);
        lemma_segment_names();
    }
    order
}

/// What is answered to an edit, and told of it, is the edited segment as it now is, under
/// both names of its id.
pub proof fn law_edit_is_answered_with_the_segment(
    s: StoreView,
    meeting_id: Seq<char>,
    segment_id: Seq<char>,
    transcript: Option<Seq<char>>,
    speaker_name: Option<Seq<char>>,
    new_speaker: Seq<char>,
)
    requires
        segment_edited(s, meeting_id, segment_id, transcript, speaker_name, new_speaker).1 is Ok,
    ensures
        ({
            let done = segment_edited(
                s,
                meeting_id,
                segment_id,
                transcript,
                speaker_name,
                new_speaker,
            );
            let v = done.1->Ok_0;
            let told = edit_events(meeting_id, done.1);
            &&& v is Object
            &&& v->Object_0.dom() == set![
                "id"@,
                "segment_id"@,
                "speaker_id"@,
                "speaker_name"@,
                "sequence_no"@,
                "start_ms"@,
                "end_ms"@,
                "status"@,
                "transcript"@,
            ]
            &&& v->Object_0["segment_id"@] == JsonView::Str(segment_id)
            &&& exists|i: int|
                0 <= i < done.0.segments.len() && (#[trigger] done.0.segments[i]).id == segment_id
                    && done.0.segments[i].meeting_id == meeting_id && shows_segment(
                    v->Object_0,
                    done.0.speakers,
                    done.0.segments[i],
                )
            &&& told.len() == 1
            &&& told[0].meeting_id == meeting_id
            &&& told[0].data == v
        }),
{
    let done = segment_edited(
        s,
        meeting_id,
        segment_id,
        transcript,
        speaker_name,
        new_speaker,
    );
    let v = done.1->Ok_0;
    let p = segment_in(segment_id, meeting_id);
    let text = cleaned(transcript);
    let kept = reworded(s, meeting_id, segment_id, text);
    lemma_first_holds(s.segments, p);
    if let Some(text) = text {
        lemma_first_of_map(s.segments, p, rewording(segment_id, meeting_id, text));
    }
    if let Some(name) = cleaned(speaker_name) {
        let (new, id) = speaker_ensured(kept, meeting_id, name, new_speaker)->Ok_0;
        lemma_first_of_map(new.segments, p, reassigning(segment_id, meeting_id, id));
    }
    lemma_first_holds(done.0.segments, p);
    let g = first(done.0.segments, p).unwrap();
    let i = choose|i: int| 0 <= i < done.0.segments.len() && done.0.segments[i] == g;
    law_segment_is_shown_as_it_is(done.0.speakers, g);
    lemma_segment_names();
    assert(v->Object_0.dom() =~= set![
        "id"@,
        "segment_id"@,
        "speaker_id"@,
        "speaker_name"@,
        "sequence_no"@,
        "start_ms"@,
        "end_ms"@,
        "status"@,
        "transcript"@,
    ]);
    assert(shows_segment(v->Object_0, done.0.speakers, done.0.segments[i]));
}

/// What the database says of a segment whose number or id is taken: that the number is taken
/// in the meeting, or else that the id is.
pub proof fn law_why_a_segment_is_refused(
    s: StoreView,
    segment: SegmentView,
    job_id: Seq<char>,
    clock: ClockView,
    i: int,
)
    requires
        0 <= i < s.segments.len(),
    ensures
        s.segments[i].meeting_id == segment.meeting_id && s.segments[i].sequence_no
            == segment.sequence_no ==> segment_inserted(s, segment, job_id, clock) == Err::<
            StoreView,
            AppErrorView,
        >(values_taken("audio_segments.meeting_id, audio_segments.sequence_no"@)),
        s.segments[i].id == segment.id && (forall|k: int|
            0 <= k < s.segments.len() ==> !((#[trigger] s.segments[k]).meeting_id
                == segment.meeting_id && s.segments[k].sequence_no == segment.sequence_no))
            ==> segment_inserted(s, segment, job_id, clock) == Err::<StoreView, AppErrorView>(
            key_taken("audio_segments.id"@),
        ),
{
    let q = segment_numbered(segment.meeting_id, segment.sequence_no);
    if s.segments[i].meeting_id == segment.meeting_id && s.segments[i].sequence_no
        == segment.sequence_no {
        assert(q(s.segments[i]));
    } else if s.segments[i].id == segment.id {
        assert(segment_is(segment.id)(s.segments[i]));
    }
}

/// Of a segment that is in order but for its references, the database says that they are
/// broken; of one that is in order but for its job, that there is such a job or that its id
/// is taken.
pub proof fn law_why_a_sound_segment_is_refused(
    s: StoreView,
    segment: SegmentView,
    job_id: Seq<char>,
    clock: ClockView,
)
    requires
        forall|k: int|
            0 <= k < s.segments.len() ==> (#[trigger] s.segments[k]).id != segment.id && !(
            s.segments[k].meeting_id == segment.meeting_id && s.segments[k].sequence_no
                == segment.sequence_no),
    ensures
        ({
            let done = segment_inserted(s, segment, job_id, clock);
            let meeting = exists|i: int|
                0 <= i < s.meetings.len() && (#[trigger] s.meetings[i]).id == segment.meeting_id;
            &&& !meeting ==> done == Err::<StoreView, AppErrorView>(reference_broken())
            &&& meeting && segment.speaker_id is None ==> match done {
                Ok(_) => true,
                Err(e) => if exists|k: int|
                    0 <= k < s.jobs.len() && (#[trigger] s.jobs[k]).job_type
                        == JobTypeView::Transcribe && s.jobs[k].meeting_id == segment.meeting_id
                        && s.jobs[k].target_id == Some(segment.id) {
                    e == values_taken("jobs.job_type, jobs.meeting_id, jobs.target_id"@)
                } else {
                    e == key_taken("jobs.id"@)
                },
            }
        }),
{
    let p = meeting_is(segment.meeting_id);
    assert forall|k: int| 0 <= k < s.segments.len() implies !segment_numbered(
        segment.meeting_id,
        segment.sequence_no,
    )(#[trigger] s.segments[k]) && !segment_is(segment.id)(s.segments[k]) by {}
    if exists|i: int|
        0 <= i < s.meetings.len() && (#[trigger] s.meetings[i]).id == segment.meeting_id {
        let i = choose|i: int|
            0 <= i < s.meetings.len() && (#[trigger] s.meetings[i]).id == segment.meeting_id;
        assert(p(s.meetings[i]));
    }
    let r = job_for(JobTypeView::Transcribe, segment.meeting_id, segment.id);
    if any(s.jobs, r) {
        let k = choose|k: int| 0 <= k < s.jobs.len() && r(#[trigger] s.jobs[k]);
        assert(s.jobs[k].job_type == JobTypeView::Transcribe);
    } else {
        assert forall|k: int| 0 <= k < s.jobs.len() implies !((#[trigger] s.jobs[k]).job_type
            == JobTypeView::Transcribe && s.jobs[k].meeting_id == segment.meeting_id
            && s.jobs[k].target_id == Some(segment.id)) by {
            assert(!r(s.jobs[k]));
        }
    }
}

} // verus!
