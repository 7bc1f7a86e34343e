//! What the service remembers: meetings, speakers, audio segments, summaries,
//! boards and jobs.
use vstd::prelude::*;

use crate::rows::{
    any, any_row, find_row, first, greatest, is_first, lemma_first_holds, lemma_first_is,
    lemma_greatest, max_row, views,
};
use crate::text::{opt_text, text_eq};

verus! {

/// Whether a meeting goes on.
#[derive(Debug, Clone, Copy, PartialEq, Eq, Structural)]
pub enum MeetingStatus {
    Running,
    Ended,
}

/// How far the transcription of a segment has come.
#[derive(Debug, Clone, Copy, PartialEq, Eq, Structural)]
pub enum SegmentStatus {
    Uploaded,
    Transcribing,
    Completed,
    Failed,
}

/// How far a job has come.
#[derive(Debug, Clone, Copy, PartialEq, Eq, Structural)]
pub enum JobStatus {
    Pending,
    Running,
    Completed,
    Failed,
}

/// What a job does.
#[derive(Debug, Clone, PartialEq)]
pub enum JobType {
    Transcribe,
    Summary,
    Rebuild,
    /// Something that this service does not know.
    Other(String),
}

/// The model of a [`JobType`].
pub enum JobTypeView {
    Transcribe,
    Summary,
    Rebuild,
    Other(Seq<char>),
}

impl View for JobType {
    type V = JobTypeView;

    open spec fn view(&self) -> JobTypeView {
        match self {
            JobType::Transcribe => JobTypeView::Transcribe,
            JobType::Summary => JobTypeView::Summary,
            JobType::Rebuild => JobTypeView::Rebuild,
            JobType::Other(name) => JobTypeView::Other(name@),
        }
    }
}

/// The name of a meeting's status.
pub open spec fn meeting_status_name(status: MeetingStatus) -> Seq<char> {
    match status {
        MeetingStatus::Running => "running"@,
        MeetingStatus::Ended => "ended"@,
    }
}

/// The name of a segment's status.
pub open spec fn segment_status_name(status: SegmentStatus) -> Seq<char> {
    match status {
        SegmentStatus::Uploaded => "uploaded"@,
        SegmentStatus::Transcribing => "transcribing"@,
        SegmentStatus::Completed => "completed"@,
        SegmentStatus::Failed => "failed"@,
    }
}

/// The name of a job's status.
pub open spec fn job_status_name(status: JobStatus) -> Seq<char> {
    match status {
        JobStatus::Pending => "pending"@,
        JobStatus::Running => "running"@,
        JobStatus::Completed => "completed"@,
        JobStatus::Failed => "failed"@,
    }
}

/// The name of what a job does.
pub open spec fn job_type_name(job_type: JobTypeView) -> Seq<char> {
    match job_type {
        JobTypeView::Transcribe => "transcribe"@,
        JobTypeView::Summary => "summary"@,
        JobTypeView::Rebuild => "rebuild"@,
        JobTypeView::Other(name) => name,
    }
}

impl MeetingStatus {
    /// The name of this status.
    pub fn as_str(self) -> (name: &'static str)
        ensures
            name@ == meeting_status_name(self),
    {
        match self {
            MeetingStatus::Running => "running",
            MeetingStatus::Ended => "ended",
        }
    }

    /// The status of a name, where it is one.
    pub fn parse(name: &str) -> (status: Option<MeetingStatus>)
        ensures
            match status {
                Some(status) => meeting_status_name(status) == name@,
                None => forall|status: MeetingStatus| #[trigger]
                    meeting_status_name(status) != name@,
            },
    {
        if text_eq(name, "running") {
            Some(MeetingStatus::Running)
        } else if text_eq(name, "ended") {
            Some(MeetingStatus::Ended)
        } else {
            None
        }
    }
}

impl SegmentStatus {
    /// The name of this status.
    pub fn as_str(self) -> (name: &'static str)
        ensures
            name@ == segment_status_name(self),
    {
        match self {
            SegmentStatus::Uploaded => "uploaded",
            SegmentStatus::Transcribing => "transcribing",
            SegmentStatus::Completed => "completed",
            SegmentStatus::Failed => "failed",
        }
    }

    /// The status of a name, where it is one.
    pub fn parse(name: &str) -> (status: Option<SegmentStatus>)
        ensures
            match status {
                Some(status) => segment_status_name(status) == name@,
                None => forall|status: SegmentStatus| #[trigger]
                    segment_status_name(status) != name@,
            },
    {
        if text_eq(name, "uploaded") {
            Some(SegmentStatus::Uploaded)
        } else if text_eq(name, "transcribing") {
            Some(SegmentStatus::Transcribing)
        } else if text_eq(name, "completed") {
            Some(SegmentStatus::Completed)
        } else if text_eq(name, "failed") {
            Some(SegmentStatus::Failed)
        } else {
            None
        }
    }
}

impl JobStatus {
    /// The name of this status.
    pub fn as_str(self) -> (name: &'static str)
        ensures
            name@ == job_status_name(self),
    {
        match self {
            JobStatus::Pending => "pending",
            JobStatus::Running => "running",
            JobStatus::Completed => "completed",
            JobStatus::Failed => "failed",
        }
    }

    /// The status of a name, where it is one.
    pub fn parse(name: &str) -> (status: Option<JobStatus>)
        ensures
            match status {
                Some(status) => job_status_name(status) == name@,
                None => forall|status: JobStatus| #[trigger] job_status_name(status) != name@,
            },
    {
        if text_eq(name, "pending") {
            Some(JobStatus::Pending)
        } else if text_eq(name, "running") {
            Some(JobStatus::Running)
        } else if text_eq(name, "completed") {
            Some(JobStatus::Completed)
        } else if text_eq(name, "failed") {
            Some(JobStatus::Failed)
        } else {
            None
        }
    }
}

/// The names of a status are different from one another, so that a status is
/// read back from its name.
pub proof fn law_status_names_differ(
    a: MeetingStatus,
    b: MeetingStatus,
    c: SegmentStatus,
    d: SegmentStatus,
    e: JobStatus,
    f: JobStatus,
)
    ensures
        meeting_status_name(a) == meeting_status_name(b) ==> a == b,
        segment_status_name(c) == segment_status_name(d) ==> c == d,
        job_status_name(e) == job_status_name(f) ==> e == f,
{
    reveal_strlit("running");
    reveal_strlit("ended");
    reveal_strlit("uploaded");
    reveal_strlit("transcribing");
    reveal_strlit("completed");
    reveal_strlit("failed");
    reveal_strlit("pending");
    assert("uploaded"@.len() == 8 && "transcribing"@.len() == 12 && "completed"@.len() == 9
        && "failed"@.len() == 6 && "running"@.len() == 7 && "pending"@.len() == 7 && "ended"@.len()
        == 5);
    assert("pending"@[0] == 'p' && "running"@[0] == 'r');
}

impl JobType {
    /// The name of what this job does.
    pub fn as_str(&self) -> (name: &str)
        ensures
            name@ == job_type_name(self@),
    {
        match self {
            JobType::Transcribe => "transcribe",
            JobType::Summary => "summary",
            JobType::Rebuild => "rebuild",
            JobType::Other(name) => name.as_str(),
        }
    }

    /// What a job of a name does.
    pub fn parse(name: &str) -> (job_type: JobType)
        ensures
            job_type_name(job_type@) == name@,
            job_type@ is Other ==> name@ != "transcribe"@ && name@ != "summary"@ && name@
                != "rebuild"@,
    {
        if text_eq(name, "transcribe") {
            JobType::Transcribe
        } else if text_eq(name, "summary") {
            JobType::Summary
        } else if text_eq(name, "rebuild") {
            JobType::Rebuild
        } else {
            JobType::Other(name.to_owned())
        }
    }

    /// Whether two jobs do the same.
    pub fn same(&self, other: &JobType) -> (b: bool)
        ensures
            b == (self@ == other@),
    {
        match (self, other) {
            (JobType::Transcribe, JobType::Transcribe) => true,
            (JobType::Summary, JobType::Summary) => true,
            (JobType::Rebuild, JobType::Rebuild) => true,
            (JobType::Other(a), JobType::Other(b)) => text_eq(a.as_str(), b.as_str()),
            _ => false,
        }
    }
}

/// A point in time: seconds since 1970, and the text that shows it.
#[derive(Debug, Clone, PartialEq)]
pub struct Moment {
    pub seconds: i64,
    pub text: String,
}

/// The model of a [`Moment`].
pub struct MomentView {
    pub seconds: i64,
    pub text: Seq<char>,
}

impl View for Moment {
    type V = MomentView;

    open spec fn view(&self) -> MomentView {
        MomentView { seconds: self.seconds, text: self.text@ }
    }
}

impl Moment {
    /// The same moment.
    pub fn copy(&self) -> (m: Moment)
        ensures
            m@ == self@,
    {
        Moment { seconds: self.seconds, text: self.text.clone() }
    }
}

/// How many seconds a job waits after it failed.
pub const RETRY_DELAY_SECONDS: i64 = 5;

/// The present, and when a job that fails now may run again.
#[derive(Debug)]
pub struct Clock {
    now: Moment,
    retry: Moment,
}

/// The model of a [`Clock`].
pub struct ClockView {
    pub now: MomentView,
    pub retry: MomentView,
}

impl View for Clock {
    type V = ClockView;

    closed spec fn view(&self) -> ClockView {
        ClockView { now: self.now@, retry: self.retry@ }
    }
}

impl Clock {
    /// The second moment is the retry delay after the first.
    #[verifier::type_invariant]
    spec fn delays(self) -> bool {
        self.retry.seconds == self.now.seconds + RETRY_DELAY_SECONDS
    }

    /// A clock of these two moments, where the second is the retry delay after the first.
    pub fn new(now: Moment, retry: Moment) -> (clock: Option<Clock>)
        ensures
            match clock {
                Some(clock) => clock@ == (ClockView { now: now@, retry: retry@ })
                    && retry.seconds == now.seconds + RETRY_DELAY_SECONDS,
                None => retry.seconds != now.seconds + RETRY_DELAY_SECONDS,
            },
    {
        match now.seconds.checked_add(RETRY_DELAY_SECONDS) {
            Some(at) => if at == retry.seconds {
                Some(Clock { now, retry })
            } else {
                None
            },
            None => None,
        }
    }

    /// The present.
    pub fn now(&self) -> (now: &Moment)
        ensures
            now@ == self@.now,
    {
        &self.now
    }

    /// When a job that fails now may run again.
    pub fn retry(&self) -> (retry: &Moment)
        ensures
            retry@ == self@.retry,
            retry@.seconds == self@.now.seconds + RETRY_DELAY_SECONDS,
    {
        proof {
            use_type_invariant(self);
        }
        &self.retry
    }
}

/// A meeting.
#[derive(Debug, Clone, PartialEq)]
pub struct Meeting {
    pub id: String,
    pub title: String,
    pub status: MeetingStatus,
    pub started_at: Option<String>,
    pub ended_at: Option<String>,
    /// Where the window of the next summary ends.
    pub next_summary_end_ms: i64,
    /// How long the window of a summary is.
    pub summary_window_ms: i64,
    pub board_version: i64,
}

/// The model of a [`Meeting`].
pub struct MeetingView {
    pub id: Seq<char>,
    pub title: Seq<char>,
    pub status: MeetingStatus,
    pub started_at: Option<Seq<char>>,
    pub ended_at: Option<Seq<char>>,
    pub next_summary_end_ms: i64,
    pub summary_window_ms: i64,
    pub board_version: i64,
}

impl View for Meeting {
    type V = MeetingView;

    open spec fn view(&self) -> MeetingView {
        MeetingView {
            id: self.id@,
            title: self.title@,
            status: self.status,
            started_at: opt_text(self.started_at),
            ended_at: opt_text(self.ended_at),
            next_summary_end_ms: self.next_summary_end_ms,
            summary_window_ms: self.summary_window_ms,
            board_version: self.board_version,
        }
    }
}

/// Someone who speaks in a meeting.
#[derive(Debug, Clone, PartialEq)]
pub struct Speaker {
    pub id: String,
    pub meeting_id: String,
    pub name: String,
}

/// The model of a [`Speaker`].
pub struct SpeakerView {
    pub id: Seq<char>,
    pub meeting_id: Seq<char>,
    pub name: Seq<char>,
}

impl View for Speaker {
    type V = SpeakerView;

    open spec fn view(&self) -> SpeakerView {
        SpeakerView { id: self.id@, meeting_id: self.meeting_id@, name: self.name@ }
    }
}

/// A part of a meeting's audio, or of its text where there is no audio.
#[derive(Debug, Clone, PartialEq)]
pub struct Segment {
    pub id: String,
    pub meeting_id: String,
    pub speaker_id: Option<String>,
    pub sequence_no: i64,
    pub start_ms: i64,
    pub end_ms: i64,
    /// Where the audio is stored; empty where there is none.
    pub file_path: String,
    pub transcript: Option<String>,
    pub status: SegmentStatus,
}

/// The model of a [`Segment`].
pub struct SegmentView {
    pub id: Seq<char>,
    pub meeting_id: Seq<char>,
    pub speaker_id: Option<Seq<char>>,
    pub sequence_no: i64,
    pub start_ms: i64,
    pub end_ms: i64,
    pub file_path: Seq<char>,
    pub transcript: Option<Seq<char>>,
    pub status: SegmentStatus,
}

impl View for Segment {
    type V = SegmentView;

    open spec fn view(&self) -> SegmentView {
        SegmentView {
            id: self.id@,
            meeting_id: self.meeting_id@,
            speaker_id: opt_text(self.speaker_id),
            sequence_no: self.sequence_no,
            start_ms: self.start_ms,
            end_ms: self.end_ms,
            file_path: self.file_path@,
            transcript: opt_text(self.transcript),
            status: self.status,
        }
    }
}

/// The summary of one window of a meeting.
#[derive(Debug, Clone, PartialEq)]
pub struct Summary {
    pub id: String,
    pub meeting_id: String,
    pub window_start_ms: i64,
    pub window_end_ms: i64,
    /// The document, as JSON text.
    pub content_json: String,
    pub created_at: String,
}

/// The model of a [`Summary`].
pub struct SummaryRowView {
    pub id: Seq<char>,
    pub meeting_id: Seq<char>,
    pub window_start_ms: i64,
    pub window_end_ms: i64,
    pub content_json: Seq<char>,
    pub created_at: Seq<char>,
}

impl View for Summary {
    type V = SummaryRowView;

    open spec fn view(&self) -> SummaryRowView {
        SummaryRowView {
            id: self.id@,
            meeting_id: self.meeting_id@,
            window_start_ms: self.window_start_ms,
            window_end_ms: self.window_end_ms,
            content_json: self.content_json@,
            created_at: self.created_at@,
        }
    }
}

/// The current board of a meeting.
#[derive(Debug, Clone, PartialEq)]
pub struct Board {
    pub meeting_id: String,
    pub version: i64,
    /// The board, as JSON text.
    pub content_json: String,
    pub updated_at: String,
}

/// The model of a [`Board`].
pub struct BoardView {
    pub meeting_id: Seq<char>,
    pub version: i64,
    pub content_json: Seq<char>,
    pub updated_at: Seq<char>,
}

impl View for Board {
    type V = BoardView;

    open spec fn view(&self) -> BoardView {
        BoardView {
            meeting_id: self.meeting_id@,
            version: self.version,
            content_json: self.content_json@,
            updated_at: self.updated_at@,
        }
    }
}

/// A board as it was after one of its summaries.
#[derive(Debug, Clone, PartialEq)]
pub struct BoardVersion {
    pub id: String,
    pub meeting_id: String,
    pub version: i64,
    pub source_summary_id: String,
    /// The board, as JSON text.
    pub content_json: String,
    pub created_at: String,
}

/// The model of a [`BoardVersion`].
pub struct BoardVersionView {
    pub id: Seq<char>,
    pub meeting_id: Seq<char>,
    pub version: i64,
    pub source_summary_id: Seq<char>,
    pub content_json: Seq<char>,
    pub created_at: Seq<char>,
}

impl View for BoardVersion {
    type V = BoardVersionView;

    open spec fn view(&self) -> BoardVersionView {
        BoardVersionView {
            id: self.id@,
            meeting_id: self.meeting_id@,
            version: self.version,
            source_summary_id: self.source_summary_id@,
            content_json: self.content_json@,
            created_at: self.created_at@,
        }
    }
}

/// Work that waits to be done, is being done, or was done.
#[derive(Debug, Clone, PartialEq)]
pub struct Job {
    pub id: String,
    pub job_type: JobType,
    pub meeting_id: String,
    /// What the job is about: a segment, or a window of the meeting.
    pub target_id: Option<String>,
    pub status: JobStatus,
    /// How often it has failed.
    pub retry_count: i64,
    /// From when on it may run.
    pub available_at: Moment,
    pub error_message: Option<String>,
}

/// The model of a [`Job`].
pub struct JobView {
    pub id: Seq<char>,
    pub job_type: JobTypeView,
    pub meeting_id: Seq<char>,
    pub target_id: Option<Seq<char>>,
    pub status: JobStatus,
    pub retry_count: i64,
    pub available_at: MomentView,
    pub error_message: Option<Seq<char>>,
}

impl View for Job {
    type V = JobView;

    open spec fn view(&self) -> JobView {
        JobView {
            id: self.id@,
            job_type: self.job_type@,
            meeting_id: self.meeting_id@,
            target_id: opt_text(self.target_id),
            status: self.status,
            retry_count: self.retry_count,
            available_at: self.available_at@,
            error_message: opt_text(self.error_message),
        }
    }
}

/// All that the service remembers, or as much of it as an operation is about.
/// The rows of each table stand in the order in which they were made.
#[derive(Debug, Clone, PartialEq)]
pub struct Store {
    pub meetings: Vec<Meeting>,
    pub speakers: Vec<Speaker>,
    pub segments: Vec<Segment>,
    pub summaries: Vec<Summary>,
    pub boards: Vec<Board>,
    pub board_versions: Vec<BoardVersion>,
    pub jobs: Vec<Job>,
}

/// The model of a [`Store`].
pub struct StoreView {
    pub meetings: Seq<MeetingView>,
    pub speakers: Seq<SpeakerView>,
    pub segments: Seq<SegmentView>,
    pub summaries: Seq<SummaryRowView>,
    pub boards: Seq<BoardView>,
    pub board_versions: Seq<BoardVersionView>,
    pub jobs: Seq<JobView>,
}

impl View for Store {
    type V = StoreView;

    open spec fn view(&self) -> StoreView {
        StoreView {
            meetings: views(self.meetings@),
            speakers: views(self.speakers@),
            segments: views(self.segments@),
            summaries: views(self.summaries@),
            boards: views(self.boards@),
            board_versions: views(self.board_versions@),
            jobs: views(self.jobs@),
        }
    }
}

/// The meeting with an id.
pub open spec fn meeting_is(id: Seq<char>) -> spec_fn(MeetingView) -> bool {
    |m: MeetingView| m.id == id
}

/// A speaker of a meeting, with a name.
pub open spec fn speaker_named(meeting_id: Seq<char>, name: Seq<char>) -> spec_fn(
    SpeakerView,
) -> bool {
    |s: SpeakerView| s.meeting_id == meeting_id && s.name == name
}

/// The speaker with an id, in a meeting.
pub open spec fn speaker_in(id: Seq<char>, meeting_id: Seq<char>) -> spec_fn(SpeakerView) -> bool {
    |s: SpeakerView| s.id == id && s.meeting_id == meeting_id
}

/// The speaker with an id.
pub open spec fn speaker_is(id: Seq<char>) -> spec_fn(SpeakerView) -> bool {
    |s: SpeakerView| s.id == id
}

/// The segment with an id, in a meeting.
pub open spec fn segment_in(id: Seq<char>, meeting_id: Seq<char>) -> spec_fn(SegmentView) -> bool {
    |s: SegmentView| s.id == id && s.meeting_id == meeting_id
}

/// The segment with an id.
pub open spec fn segment_is(id: Seq<char>) -> spec_fn(SegmentView) -> bool {
    |s: SegmentView| s.id == id
}

/// A segment of a meeting, with a sequence number.
pub open spec fn segment_numbered(meeting_id: Seq<char>, sequence_no: i64) -> spec_fn(
    SegmentView,
) -> bool {
    |s: SegmentView| s.meeting_id == meeting_id && s.sequence_no == sequence_no
}

/// The sequence numbers of a meeting's segments.
pub open spec fn sequence_no_in(meeting_id: Seq<char>) -> spec_fn(SegmentView) -> Option<i64> {
    |s: SegmentView|
        if s.meeting_id == meeting_id {
            Some(s.sequence_no)
        } else {
            None
        }
}

impl StoreView {
    /// The meeting with an id.
    pub open spec fn meeting(self, id: Seq<char>) -> Option<MeetingView> {
        first(self.meetings, meeting_is(id))
    }

    /// Whether there is a meeting with an id.
    pub open spec fn has_meeting(self, id: Seq<char>) -> bool {
        any(self.meetings, meeting_is(id))
    }

    /// Whether a meeting has ended; one that does not exist counts as ended.
    pub open spec fn meeting_ended(self, id: Seq<char>) -> bool {
        match self.meeting(id) {
            Some(m) => m.status == MeetingStatus::Ended,
            None => true,
        }
    }

    /// The highest sequence number of a meeting's segments; -1 where it has none.
    pub open spec fn max_sequence_no(self, id: Seq<char>) -> i64 {
        match greatest(self.segments, sequence_no_in(id)) {
            Some(n) => n,
            None => (-1) as i64,
        }
    }
}

impl Store {
    /// A store without anything in it.
    pub fn new() -> (store: Store)
        ensures
            store@ == (StoreView {
                meetings: Seq::empty(),
                speakers: Seq::empty(),
                segments: Seq::empty(),
                summaries: Seq::empty(),
                boards: Seq::empty(),
                board_versions: Seq::empty(),
                jobs: Seq::empty(),
            }),
    {
        let store = Store {
            meetings: Vec::new(),
            speakers: Vec::new(),
            segments: Vec::new(),
            summaries: Vec::new(),
            boards: Vec::new(),
            board_versions: Vec::new(),
            jobs: Vec::new(),
        };
        proof {
            assert(store@.meetings =~= Seq::empty());
            assert(store@.speakers =~= Seq::empty());
            assert(store@.segments =~= Seq::empty());
            assert(store@.summaries =~= Seq::empty());
            assert(store@.boards =~= Seq::empty());
            assert(store@.board_versions =~= Seq::empty());
            assert(store@.jobs =~= Seq::empty());
        }
        store
    }

    /// The meeting with an id.
    pub fn meeting(&self, id: &str) -> (found: Option<&Meeting>)
        ensures
            self@.meeting(id@) == match found {
                Some(m) => Some(m@),
                None => None,
            },
    {
        find_row(
            &self.meetings,
            |m: &Meeting| -> (b: bool)
                ensures b == (m@.id == id@)
                { text_eq(m.id.as_str(), id) },
            Ghost(meeting_is(id@)),
        )
    }

    /// Whether there is a meeting with an id.
    pub fn has_meeting(&self, id: &str) -> (found: bool)
        ensures
            found == self@.has_meeting(id@),
    {
        any_row(
            &self.meetings,
            |m: &Meeting| -> (b: bool)
                ensures b == (m@.id == id@)
                { text_eq(m.id.as_str(), id) },
            Ghost(meeting_is(id@)),
        )
    }

    /// Whether a meeting has ended; one that does not exist counts as ended.
    pub fn meeting_ended(&self, id: &str) -> (ended: bool)
        ensures
            ended == self@.meeting_ended(id@),
    {
        match self.meeting(id) {
            Some(m) => match m.status {
                MeetingStatus::Ended => true,
                MeetingStatus::Running => false,
            },
            None => true,
        }
    }

    /// The highest sequence number of a meeting's segments; -1 where it has none.
    pub fn max_sequence_no(&self, id: &str) -> (n: i64)
        ensures
            n == self@.max_sequence_no(id@),
    {
        let max = max_row(
            &self.segments,
            |s: &Segment| -> (k: Option<i64>)
                ensures k == sequence_no_in(id@)(s@)
                {
                    if text_eq(s.meeting_id.as_str(), id) {
                        Some(s.sequence_no)
                    } else {
                        None
                    }
                },
            Ghost(sequence_no_in(id@)),
        );
        match max {
            Some(n) => n,
            None => -1,
        }
    }
}

/// The highest sequence number of a meeting is that of one of its segments, and none of them
/// has a higher one; it is -1 where the meeting has no segment.
pub proof fn law_highest_sequence_no(s: StoreView, id: Seq<char>)
    ensures
        forall|i: int|
            0 <= i < s.segments.len() && (#[trigger] s.segments[i]).meeting_id == id
                ==> s.segments[i].sequence_no <= s.max_sequence_no(id),
        (exists|i: int|
            0 <= i < s.segments.len() && (#[trigger] s.segments[i]).meeting_id == id
                && s.segments[i].sequence_no == s.max_sequence_no(id)) || (s.max_sequence_no(id)
            == -1 && forall|i: int|
            0 <= i < s.segments.len() ==> (#[trigger] s.segments[i]).meeting_id != id),
{
    let key = sequence_no_in(id);
    lemma_greatest(s.segments, key);
    assert forall|i: int|
        0 <= i < s.segments.len() && (#[trigger] s.segments[i]).meeting_id == id implies key(
        s.segments[i],
    ) == Some(s.segments[i].sequence_no) by {}
    match greatest(s.segments, key) {
        Some(n) => {
            let i = choose|i: int|
                0 <= i < s.segments.len() && key(#[trigger] s.segments[i]) == Some(n);
            assert(s.segments[i].meeting_id == id);
        },
        None => {
            assert forall|i: int| 0 <= i < s.segments.len() implies (
            #[trigger] s.segments[i]).meeting_id != id by {
                assert(key(s.segments[i]) is None);
            }
        },
    }
}

/// The meeting with an id is the first that has it, and counts as ended if it was, or if
/// there is none.
pub proof fn law_meeting_with_an_id(s: StoreView, id: Seq<char>, at: int)
    requires
        0 <= at <= s.meetings.len(),
        forall|i: int| 0 <= i < at ==> (#[trigger] s.meetings[i]).id != id,
        at < s.meetings.len() ==> s.meetings[at].id == id,
    ensures
        at < s.meetings.len() ==> s.meeting(id) == Some(s.meetings[at]) && s.has_meeting(id) && (
        s.meeting_ended(id) <==> s.meetings[at].status == MeetingStatus::Ended),
        at == s.meetings.len() ==> s.meeting(id) is None && !s.has_meeting(id) && s.meeting_ended(
            id,
        ),
{
    let p = meeting_is(id);
    lemma_first_holds(s.meetings, p);
    if at < s.meetings.len() {
        assert(is_first(s.meetings, p, at));
        lemma_first_is(s.meetings, p, at);
        assert(any(s.meetings, p));
    }
}

} // verus!
