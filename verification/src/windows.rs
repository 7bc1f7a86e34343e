//! Summarizing a window of a meeting: what is handed to the summarizer, and how
//! its document gets onto the meeting's board.
use vstd::prelude::*;

use crate::board::{
    can_merge, empty_board, empty_board_value, is_mergeable, law_merged_board_is_plain,
    law_summary_is_plain, merge_board, merged_board, summary_json, summary_value,
};
use crate::error::{
    broken_reference, key_taken, missing_row, outcome, reference_broken, row_not_found, taken_key,
    AppError, AppErrorView,
};
use crate::events::{
    board_extended, event_views, summary_created, tell_board_extended, tell_summary_created,
    EventView, MeetingEvent,
};
use crate::ids::{is_id, new_id};
use crate::jobs::{
    came_out, completed_end, final_target, job_for, job_is, law_summarized_until, or_unchanged,
    or_zero, summary_enqueued, summary_target,
};
use crate::json::{json_text, parsed_json, plain, read_json, write_json, Json, JsonView};
use crate::number::{decimal, law_decimal_reads_back, lemma_decimal_start, parse_i64, parsed_i64};
use crate::queue::{claimable, claiming, retrying};
use crate::rows::{
    any, any_row, both, change_rows, find_row, first, greatest, is_first, law_sorted_by, least,
    lemma_first_holds, lemma_first_is, lemma_first_of_map, lemma_greatest, lemma_kept, max_row,
    select_rows, sort_rows, sorted_by, views,
};
use crate::soundness::{segment_fits, segment_id, sound};
use crate::store::{
    meeting_is, segment_in, speaker_is, Board, BoardVersion, BoardVersionView, BoardView, Clock,
    ClockView, JobStatus, JobTypeView, JobView, Meeting, MeetingStatus, MeetingView, Segment,
    SegmentStatus, SegmentView, SpeakerView, Store, StoreView, Summary, SummaryRowView,
};
use crate::summary::{cleaned_summary, normalize_summary, SummaryDocument, SummaryView};
use crate::text::{
    concat2, concat3, has_prefix, join_texts, joined, law_joined_holds_each_piece, piece_start,
    strip_prefix, text_eq, texts,
};
use crate::transcription::{
    name_of, to_transcribe, transcribing, transcription_begun, transcription_completed,
    window_start_over,
};

verus! {

/// A window that is being summarized.
#[derive(Debug, PartialEq)]
pub struct Window {
    pub start_ms: i64,
    pub end_ms: i64,
    /// How long the windows of the meeting are.
    pub window_ms: i64,
    /// What was said in the window, a line for each segment.
    pub transcript: String,
}

/// The model of a [`Window`].
pub struct WindowView {
    pub start_ms: i64,
    pub end_ms: i64,
    pub window_ms: i64,
    pub transcript: Seq<char>,
}

impl View for Window {
    type V = WindowView;

    open spec fn view(&self) -> WindowView {
        WindowView {
            start_ms: self.start_ms,
            end_ms: self.end_ms,
            window_ms: self.window_ms,
            transcript: self.transcript@,
        }
    }
}

/// Whether a target names the last window of a meeting.
pub open spec fn is_final(target: Seq<char>) -> bool {
    has_prefix(target, "final:"@)
}

/// Where the window that a target names ends.
pub open spec fn target_end(target: Seq<char>) -> Option<i64> {
    parsed_i64(
        if is_final(target) {
            target.skip("final:"@.len() as int)
        } else {
            target
        },
    )
}

/// A segment of a meeting that was transcribed, with its text, in a span of time.
pub open spec fn spoken_in(meeting_id: Seq<char>, start: i64, end: i64) -> spec_fn(
    SegmentView,
) -> bool {
    |g: SegmentView|
        g.meeting_id == meeting_id && g.status == SegmentStatus::Completed && g.start_ms < end
            && g.end_ms > start && g.transcript is Some
}

/// Where a segment starts.
pub open spec fn segment_start() -> spec_fn(SegmentView) -> i64 {
    |g: SegmentView| g.start_ms
}

/// Who said what.
pub open spec fn spoken_line(speakers: Seq<SpeakerView>) -> spec_fn(SegmentView) -> Seq<char> {
    |g: SegmentView|
        (match name_of(speakers, g.speaker_id) {
            Some(name) => name,
            None => "Unknown"@,
        }) + ": "@ + g.transcript.unwrap()
}

/// What was said in a span of time of a meeting, a line for each segment.
pub open spec fn spoken_text(s: StoreView, meeting_id: Seq<char>, start: i64, end: i64) -> Seq<
    char,
> {
    joined(
        sorted_by(
            s.segments.filter(spoken_in(meeting_id, start, end)),
            segment_start(),
        ).map_values(spoken_line(s.speakers)),
        "\n"@,
    )
}

/// Where the window that a target names starts: the last one where the summaries
/// end, any other the length of a window before its end.
pub open spec fn window_start(s: StoreView, meeting_id: Seq<char>, target: Seq<char>) -> int {
    if is_final(target) {
        s.summarized_until(meeting_id) as int
    } else {
        target_end(target).unwrap() - s.meeting(meeting_id).unwrap().summary_window_ms
    }
}

/// Whether the start of the window that a target names can be reckoned.
pub open spec fn window_fits(s: StoreView, meeting_id: Seq<char>, target: Seq<char>) -> bool {
    target_end(target) is Some && s.meeting(meeting_id) is Some ==> i64::MIN <= window_start(
        s,
        meeting_id,
        target,
    ) <= i64::MAX
}

/// The window that a target names, and what was said in it.
pub open spec fn to_summarize(s: StoreView, meeting_id: Seq<char>, target: Seq<char>) -> Result<
    WindowView,
    AppErrorView,
> {
    match target_end(target) {
        None => Err(AppErrorView::Processing("invalid summary target: "@ + target)),
        Some(end) => match s.meeting(meeting_id) {
            None => Err(row_not_found()),
            Some(m) => {
                let start = window_start(s, meeting_id, target) as i64;
                Ok(
                    WindowView {
                        start_ms: start,
                        end_ms: end,
                        window_ms: m.summary_window_ms,
                        transcript: spoken_text(s, meeting_id, start, end),
                    },
                )
            },
        },
    }
}

fn end_of(target: &str) -> (end: Option<i64>)
    ensures
        end == target_end(target@),
{
    match strip_prefix(target, "final:") {
        Some(rest) => parse_i64(rest.as_str()),
        None => parse_i64(target),
    }
}

impl Store {
    fn spoken_line(&self, g: &Segment) -> (line: String)
        requires
            g.transcript is Some,
        ensures
            line@ == spoken_line(self@.speakers)(g@),
    {
        let name = match self.speaker_name(&g.speaker_id) {
            Some(name) => name,
            None => "Unknown".to_owned(),
        };
        match &g.transcript {
            Some(text) => concat3(name.as_str(), ": ", text.as_str()),
            None => name,
        }
    }

    /// What was said in a span of time of a meeting, a line for each segment.
    pub fn spoken_text(&self, meeting_id: &str, start: i64, end: i64) -> (text: String)
        ensures
            text@ == spoken_text(self@, meeting_id@, start, end),
    {
        let found = select_rows(
            &self.segments,
            |g: &Segment| -> (b: bool)
                ensures b == spoken_in(meeting_id@, start, end)(g@)
                {
                    text_eq(g.meeting_id.as_str(), meeting_id) && g.status
                        == SegmentStatus::Completed && g.start_ms < end && g.end_ms > start
                        && g.transcript.is_some()
                },
            Ghost(spoken_in(meeting_id@, start, end)),
        );
        let sorted = sort_rows(
            found,
            |g: &&Segment| -> (k: i64)
                ensures k == segment_start()(g@)
                { g.start_ms },
            Ghost(segment_start()),
        );
        proof {
            let kept = self@.segments.filter(spoken_in(meeting_id@, start, end));
            lemma_sorted_keep(kept, segment_start(), spoken_in(meeting_id@, start, end));
        }
        let ghost rows = views(sorted@);
        let mut lines: Vec<String> = Vec::new();
        let mut i: usize = 0;
        while i < sorted.len()
            invariant
                i <= sorted@.len(),
                rows == views(sorted@),
                lines@.len() == i,
                forall|j: int| 0 <= j < rows.len() ==> (#[trigger] rows[j]).transcript is Some,
                forall|j: int|
                    0 <= j < i ==> (#[trigger] lines@[j])@ == spoken_line(self@.speakers)(rows[j]),
            decreases sorted@.len() - i,
        {
            assert(rows[i as int].transcript is Some);
            lines.push(self.spoken_line(sorted[i]));
            i += 1;
        }
        assert(texts(lines@) =~= rows.map_values(spoken_line(self@.speakers)));
        join_texts(&lines, "\n")
    }

    /// Whether the start of the window that a target names can be reckoned.
    pub fn window_fits(&self, meeting_id: &str, target: &str) -> (fits: bool)
        ensures
            fits == window_fits(self@, meeting_id@, target@),
    {
        match (end_of(target), self.meeting(meeting_id)) {
            (Some(end), Some(m)) => strip_prefix(target, "final:").is_some() || end.checked_sub(
                m.summary_window_ms,
            ).is_some(),
            _ => true,
        }
    }

    /// Starts on the summary of a window.
    pub fn begin_summary(&self, meeting_id: &str, target: &str) -> (work: Result<Window, AppError>)
        requires
            window_fits(self@, meeting_id@, target@),
        ensures
            to_summarize(self@, meeting_id@, target@) == match work {
                Ok(work) => Ok(work@),
                Err(e) => Err(e@),
            },
    {
        let end: i64 = match end_of(target) {
            Some(end) => end,
            None => {
                return Err(AppError::Processing(concat2("invalid summary target: ", target)));
            },
        };
        let window_ms: i64 = match self.meeting(meeting_id) {
            Some(m) => m.summary_window_ms,
            None => return Err(missing_row()),
        };
        let start: i64 = if strip_prefix(target, "final:").is_some() {
            self.summarized_until(meeting_id)
        } else {
            end - window_ms
        };
        let transcript = self.spoken_text(meeting_id, start, end);
        Ok(Window { start_ms: start, end_ms: end, window_ms, transcript })
    }
}

/// The ids that a new summary gives away.
#[derive(Debug, PartialEq)]
pub struct SummaryIds {
    /// The summary's own.
    pub summary: String,
    /// That of the version of the board which it leads to.
    pub version: String,
    /// That of the job for the next summary, where one is needed.
    pub job: String,
}

/// The model of [`SummaryIds`].
pub struct SummaryIdsView {
    pub summary: Seq<char>,
    pub version: Seq<char>,
    pub job: Seq<char>,
}

impl View for SummaryIds {
    type V = SummaryIdsView;

    open spec fn view(&self) -> SummaryIdsView {
        SummaryIdsView { summary: self.summary@, version: self.version@, job: self.job@ }
    }
}

/// Whether these are identifiers for new rows.
pub open spec fn are_ids(ids: SummaryIdsView) -> bool {
    is_id(ids.summary) && is_id(ids.version) && is_id(ids.job)
}

impl SummaryIds {
    /// Identifiers for new rows.
    pub fn fresh() -> (ids: SummaryIds)
        ensures
            are_ids(ids@),
    {
        SummaryIds { summary: new_id(), version: new_id(), job: new_id() }
    }
}

/// The summary of a meeting whose window ends there.
pub open spec fn summary_at(meeting_id: Seq<char>, end: i64) -> spec_fn(SummaryRowView) -> bool {
    |r: SummaryRowView| r.meeting_id == meeting_id && r.window_end_ms == end
}

/// The summary with an id.
pub open spec fn summary_is(id: Seq<char>) -> spec_fn(SummaryRowView) -> bool {
    |r: SummaryRowView| r.id == id
}

/// The board of a meeting.
pub open spec fn board_of(meeting_id: Seq<char>) -> spec_fn(BoardView) -> bool {
    |b: BoardView| b.meeting_id == meeting_id
}

/// The version of a board with an id.
pub open spec fn version_row_is(id: Seq<char>) -> spec_fn(BoardVersionView) -> bool {
    |v: BoardVersionView| v.id == id
}

/// The numbers of the versions of a meeting's board.
pub open spec fn version_in(meeting_id: Seq<char>) -> spec_fn(BoardVersionView) -> Option<i64> {
    |v: BoardVersionView|
        if v.meeting_id == meeting_id {
            Some(v.version)
        } else {
            None
        }
}

impl StoreView {
    /// The number of the latest version of a meeting's board; zero where it has none.
    pub open spec fn latest_version(self, meeting_id: Seq<char>) -> i64 {
        or_zero(greatest(self.board_versions, version_in(meeting_id)))
    }

    /// The board of a meeting, to which a summary is added. A meeting without a
    /// board, and one whose board cannot be read, starts out with an empty one.
    pub open spec fn board_to_extend(self, meeting_id: Seq<char>) -> JsonView {
        match first(self.boards, board_of(meeting_id)) {
            Some(b) => match parsed_json(b.content_json) {
                Some(v) => v,
                None => empty_board_value(),
            },
            None => empty_board_value(),
        }
    }
}

/// Replaces the board of a meeting.
pub open spec fn board_put(
    meeting_id: Seq<char>,
    version: i64,
    content: Seq<char>,
    clock: ClockView,
) -> spec_fn(BoardView) -> BoardView {
    |b: BoardView|
        if b.meeting_id == meeting_id {
            BoardView { meeting_id, version, content_json: content, updated_at: clock.now.text }
        } else {
            b
        }
}

/// The boards, of which that of a meeting is replaced, or added where it has none.
pub open spec fn boards_with(
    boards: Seq<BoardView>,
    meeting_id: Seq<char>,
    version: i64,
    content: Seq<char>,
    clock: ClockView,
) -> Seq<BoardView> {
    if any(boards, board_of(meeting_id)) {
        boards.map_values(board_put(meeting_id, version, content, clock))
    } else {
        boards.push(
            BoardView { meeting_id, version, content_json: content, updated_at: clock.now.text },
        )
    }
}

/// Notes the version of a meeting's board, and that its next summary ends there,
/// or where it did if that is later.
pub open spec fn advancing(meeting_id: Seq<char>, version: i64, next_end: i64) -> spec_fn(
    MeetingView,
) -> MeetingView {
    |m: MeetingView|
        if m.id == meeting_id {
            MeetingView {
                board_version: version,
                next_summary_end_ms: if m.next_summary_end_ms < next_end {
                    next_end
                } else {
                    m.next_summary_end_ms
                },
                ..m
            }
        } else {
            m
        }
}

/// Whether a window is summarized already, or the id of its summary is taken.
pub open spec fn window_taken(
    s: StoreView,
    meeting_id: Seq<char>,
    end: i64,
    ids: SummaryIdsView,
) -> bool {
    any(s.summaries, summary_at(meeting_id, end)) || any(s.summaries, summary_is(ids.summary))
}

/// Whether the document of a window is added to the store.
pub open spec fn is_added(
    s: StoreView,
    meeting_id: Seq<char>,
    end: i64,
    ids: SummaryIdsView,
) -> bool {
    !window_taken(s, meeting_id, end, ids) && s.has_meeting(meeting_id) && !any(
        s.board_versions,
        version_row_is(ids.version),
    )
}

/// Why the document of a window is not added although the window is not taken.
pub open spec fn document_refused(s: StoreView, meeting_id: Seq<char>) -> AppErrorView {
    if !s.has_meeting(meeting_id) {
        reference_broken()
    } else {
        key_taken("meeting_board_versions.id"@)
    }
}

/// Whether the end of the window after this one, and the next version of the board,
/// can be reckoned.
pub open spec fn next_fits(s: StoreView, meeting_id: Seq<char>, work: WindowView) -> bool {
    i64::MIN <= work.end_ms + work.window_ms <= i64::MAX && s.latest_version(meeting_id) < i64::MAX
}

/// Whether a window of a meeting is still to be summarized.
pub open spec fn awaits_summary(s: StoreView, meeting_id: Seq<char>, end: i64) -> bool {
    s.has_meeting(meeting_id) && !any(s.summaries, summary_at(meeting_id, end))
}

/// Whether what the summary of a window leads to can be reckoned, where the window
/// is still to be summarized.
pub open spec fn summary_fits(s: StoreView, meeting_id: Seq<char>, work: WindowView) -> bool {
    awaits_summary(s, meeting_id, work.end_ms) ==> next_fits(s, meeting_id, work)
}

/// The store with the summary of a window, on the board and beside it.
pub open spec fn with_summary(
    s: StoreView,
    meeting_id: Seq<char>,
    work: WindowView,
    document: SummaryView,
    board: JsonView,
    ids: SummaryIdsView,
    clock: ClockView,
) -> StoreView {
    let version = (s.latest_version(meeting_id) + 1) as i64;
    let content = json_text(merged_board(board, document));
    StoreView {
        summaries: s.summaries.push(
            SummaryRowView {
                id: ids.summary,
                meeting_id,
                window_start_ms: work.start_ms,
                window_end_ms: work.end_ms,
                content_json: json_text(summary_value(document)),
                created_at: clock.now.text,
            },
        ),
        boards: boards_with(s.boards, meeting_id, version, content, clock),
        board_versions: s.board_versions.push(
            BoardVersionView {
                id: ids.version,
                meeting_id,
                version,
                source_summary_id: ids.summary,
                content_json: content,
                created_at: clock.now.text,
            },
        ),
        meetings: s.meetings.map_values(
            advancing(meeting_id, version, (work.end_ms + work.window_ms) as i64),
        ),
        ..s
    }
}

/// The store, the events and the outcome of what the summarizer gave for a window,
/// on this board.
///
/// A document is cleaned and kept, and the board is extended by it, unless the
/// window was summarized meanwhile. The next summary may then be due.
pub open spec fn summary_completed(
    s: StoreView,
    meeting_id: Seq<char>,
    work: WindowView,
    result: Result<SummaryView, Seq<char>>,
    board: JsonView,
    ids: SummaryIdsView,
    clock: ClockView,
) -> (StoreView, Seq<EventView>, Result<(), AppErrorView>) {
    match result {
        Err(reason) => (s, Seq::empty(), Err(AppErrorView::Processing(reason))),
        Ok(given) => {
            let document = cleaned_summary(given);
            if window_taken(s, meeting_id, work.end_ms, ids) {
                (s, Seq::empty(), Ok(()))
            } else if !is_added(s, meeting_id, work.end_ms, ids) {
                (s, Seq::empty(), Err(document_refused(s, meeting_id)))
            } else {
                let kept = with_summary(s, meeting_id, work, document, board, ids, clock);
                let told = seq![
                    summary_created(
                        meeting_id,
                        ids.summary,
                        work.start_ms,
                        work.end_ms,
                        summary_value(document),
                    ),
                    board_extended(
                        meeting_id,
                        (s.latest_version(meeting_id) + 1) as i64,
                        merged_board(board, document),
                    ),
                ];
                let next = summary_enqueued(
                    kept,
                    meeting_id,
                    s.meeting_ended(meeting_id),
                    ids.job,
                    clock,
                );
                (or_unchanged(next, kept), told, came_out(next))
            }
        },
    }
}

/// Whether a document that was kept is read back: from the last summary as it is,
/// and from the board as what it makes of the board before, if that was plain.
pub open spec fn is_read_back(
    s: StoreView,
    meeting_id: Seq<char>,
    document: SummaryView,
    before: JsonView,
) -> bool {
    &&& s.summaries.len() > 0
    &&& parsed_json(s.summaries.last().content_json) == Some(summary_value(document))
    &&& plain(before, 100) ==> s.board_to_extend(meeting_id) == merged_board(before, document)
        && plain(s.board_to_extend(meeting_id), 100)
}

/// What the summarizer gave: a document, or why it failed.
pub open spec fn document_reply(r: Result<SummaryDocument, String>) -> Result<
    SummaryView,
    Seq<char>,
> {
    match r {
        Ok(document) => Ok(document@),
        Err(reason) => Err(reason@),
    }
}

impl Store {
    /// The number of the latest version of a meeting's board; zero where it has none.
    pub fn latest_version(&self, meeting_id: &str) -> (version: i64)
        ensures
            version == self@.latest_version(meeting_id@),
    {
        let max = max_row(
            &self.board_versions,
            |v: &BoardVersion| -> (k: Option<i64>)
                ensures k == version_in(meeting_id@)(v@)
                {
                    if text_eq(v.meeting_id.as_str(), meeting_id) {
                        Some(v.version)
                    } else {
                        None
                    }
                },
            Ghost(version_in(meeting_id@)),
        );
        match max {
            Some(n) => n,
            None => 0,
        }
    }

    /// The board of a meeting, where it has one.
    pub(crate) fn board_row(&self, meeting_id: &str) -> (found: Option<&Board>)
        ensures
            first(self@.boards, board_of(meeting_id@)) == match found {
                Some(b) => Some(b@),
                None => None,
            },
    {
        find_row(
            &self.boards,
            |b: &Board| -> (same: bool)
                ensures same == (b@.meeting_id == meeting_id@)
                { text_eq(b.meeting_id.as_str(), meeting_id) },
            Ghost(board_of(meeting_id@)),
        )
    }

    /// The board of a meeting, to which a summary is added.
    pub fn board_to_extend(&self, meeting_id: &str) -> (board: Json)
        ensures
            board@ == self@.board_to_extend(meeting_id@),
    {
        match self.board_row(meeting_id) {
            Some(b) => match read_json(b.content_json.as_str()) {
                Some(json) => json,
                None => empty_board(),
            },
            None => empty_board(),
        }
    }

    /// Replaces the board of a meeting, or adds it where the meeting has none.
    pub(crate) fn put_board(
        &mut self,
        meeting_id: &str,
        version: i64,
        content: &str,
        clock: &Clock,
    )
        ensures
            final(self)@ == (StoreView {
                boards: boards_with(old(self)@.boards, meeting_id@, version, content@, clock@),
                ..old(self)@
            }),
    {
        let exists = any_row(
            &self.boards,
            |b: &Board| -> (same: bool)
                ensures same == (b@.meeting_id == meeting_id@)
                { text_eq(b.meeting_id.as_str(), meeting_id) },
            Ghost(board_of(meeting_id@)),
        );
        if exists {
            change_rows(
                &mut self.boards,
                |b: Board| -> (out: Board)
                    ensures out@ == board_put(meeting_id@, version, content@, clock@)(b@)
                    {
                        if text_eq(b.meeting_id.as_str(), meeting_id) {
                            Board {
                                version,
                                content_json: content.to_owned(),
                                updated_at: clock.now().text.clone(),
                                ..b
                            }
                        } else {
                            b
                        }
                    },
                Ghost(board_put(meeting_id@, version, content@, clock@)),
            );
        } else {
            let ghost before = self@;
            let board = Board {
                meeting_id: meeting_id.to_owned(),
                version,
                content_json: content.to_owned(),
                updated_at: clock.now().text.clone(),
            };
            self.boards.push(board);
            assert(self@.boards =~= before.boards.push(board@));
        }
    }

    fn window_taken(&self, meeting_id: &str, end: i64, ids: &SummaryIds) -> (taken: bool)
        ensures
            taken == window_taken(self@, meeting_id@, end, ids@),
    {
        any_row(
            &self.summaries,
            |r: &Summary| -> (b: bool)
                ensures b == summary_at(meeting_id@, end)(r@)
                { text_eq(r.meeting_id.as_str(), meeting_id) && r.window_end_ms == end },
            Ghost(summary_at(meeting_id@, end)),
        ) || any_row(
            &self.summaries,
            |r: &Summary| -> (b: bool)
                ensures b == (r@.id == ids@.summary)
                { text_eq(r.id.as_str(), ids.summary.as_str()) },
            Ghost(summary_is(ids@.summary)),
        )
    }

    /// Whether the document of a window would be added to the store.
    pub fn is_added(&self, meeting_id: &str, end: i64, ids: &SummaryIds) -> (added: bool)
        ensures
            added == is_added(self@, meeting_id@, end, ids@),
    {
        !self.window_taken(meeting_id, end, ids) && self.has_meeting(meeting_id) && !any_row(
            &self.board_versions,
            |v: &BoardVersion| -> (b: bool)
                ensures b == (v@.id == ids@.version)
                { text_eq(v.id.as_str(), ids.version.as_str()) },
            Ghost(version_row_is(ids@.version)),
        )
    }

    /// The error for [`document_refused`].
    fn refused_document(&self, meeting_id: &str) -> (e: AppError)
        ensures
            e@ == document_refused(self@, meeting_id@),
    {
        if self.has_meeting(meeting_id) {
            taken_key("meeting_board_versions.id")
        } else {
            broken_reference()
        }
    }

    /// Whether what the summary of a window leads to can be reckoned.
    pub fn summary_fits(&self, meeting_id: &str, work: &Window) -> (fits: bool)
        ensures
            fits == summary_fits(self@, meeting_id@, work@),
    {
        let end = work.end_ms;
        let taken = any_row(
            &self.summaries,
            |r: &Summary| -> (b: bool)
                ensures b == summary_at(meeting_id@, end)(r@)
                { text_eq(r.meeting_id.as_str(), meeting_id) && r.window_end_ms == end },
            Ghost(summary_at(meeting_id@, end)),
        );
        taken || !self.has_meeting(meeting_id) || (end.checked_add(work.window_ms).is_some()
            && self.latest_version(meeting_id) < i64::MAX)
    }

    fn add_summary(
        &mut self,
        meeting_id: &str,
        work: &Window,
        document: &SummaryDocument,
        board: &Json,
        ids: &SummaryIds,
        clock: &Clock,
        Ghost(before): Ghost<JsonView>,
    )
        requires
            board@ == merged_board(before, document@),
            next_fits(old(self)@, meeting_id@, work@),
        ensures
            final(self)@ == with_summary(
                old(self)@,
                meeting_id@,
                work@,
                document@,
                before,
                ids@,
                clock@,
            ),
            parsed_json(json_text(summary_value(document@))) == Some(summary_value(document@)),
            plain(board@, 100) ==> parsed_json(json_text(board@)) == Some(board@),
    {
        proof {
            law_summary_is_plain(document@);
        }
        let ghost start = self@;
        let version: i64 = self.latest_version(meeting_id) + 1;
        let content = write_json(board.copy());
        let summary = Summary {
            id: ids.summary.clone(),
            meeting_id: meeting_id.to_owned(),
            window_start_ms: work.start_ms,
            window_end_ms: work.end_ms,
            content_json: write_json(summary_json(document)),
            created_at: clock.now().text.clone(),
        };
        self.summaries.push(summary);
        assert(self@.summaries =~= start.summaries.push(summary@));
        self.put_board(meeting_id, version, content.as_str(), clock);
        let kept = BoardVersion {
            id: ids.version.clone(),
            meeting_id: meeting_id.to_owned(),
            version,
            source_summary_id: ids.summary.clone(),
            content_json: content,
            created_at: clock.now().text.clone(),
        };
        self.board_versions.push(kept);
        assert(self@.board_versions =~= start.board_versions.push(kept@));
        let next_end: i64 = work.end_ms + work.window_ms;
        change_rows(
            &mut self.meetings,
            |m: Meeting| -> (out: Meeting)
                ensures out@ == advancing(meeting_id@, version, next_end)(m@)
                {
                    if text_eq(m.id.as_str(), meeting_id) {
                        let later = if m.next_summary_end_ms < next_end {
                            next_end
                        } else {
                            m.next_summary_end_ms
                        };
                        Meeting { board_version: version, next_summary_end_ms: later, ..m }
                    } else {
                        m
                    }
                },
            Ghost(advancing(meeting_id@, version, next_end)),
        );
    }

    /// Keeps the document that the summarizer gave for a window, and extends
    /// this board by it; or notes why it gave none.
    pub fn complete_summary_on(
        &mut self,
        meeting_id: &str,
        work: &Window,
        result: Result<SummaryDocument, String>,
        board: Json,
        ids: SummaryIds,
        clock: &Clock,
    ) -> (done: (Vec<MeetingEvent>, Result<(), AppError>))
        requires
            is_mergeable(board@),
            result is Ok && is_added(old(self)@, meeting_id@, work.end_ms, ids@) ==> next_fits(
                old(self)@,
                meeting_id@,
                work@,
            ),
        ensures
            (final(self)@, event_views(done.0@), outcome(done.1)) == summary_completed(
                old(self)@,
                meeting_id@,
                work@,
                document_reply(result),
                board@,
                ids@,
                clock@,
            ),
            result is Ok && is_added(old(self)@, meeting_id@, work.end_ms, ids@) ==> is_read_back(
                final(self)@,
                meeting_id@,
                cleaned_summary(result->Ok_0@),
                board@,
            ),
    {
        let mut events: Vec<MeetingEvent> = Vec::new();
        proof {
            assert(event_views(events@) =~= Seq::empty());
        }
        let document = match result {
            Ok(document) => normalize_summary(document),
            Err(reason) => return (events, Err(AppError::Processing(reason))),
        };
        if self.window_taken(meeting_id, work.end_ms, &ids) {
            return (events, Ok(()));
        }
        if !self.is_added(meeting_id, work.end_ms, &ids) {
            return (events, Err(self.refused_document(meeting_id)));
        }
        let ghost before = board@;
        let mut board = board;
        merge_board(&mut board, &document);
        let ghost board_view = board@;
        let ghost start = self@;
        let ended = self.meeting_ended(meeting_id);
        let version: i64 = self.latest_version(meeting_id) + 1;
        self.add_summary(meeting_id, work, &document, &board, &ids, clock, Ghost(before));
        let created = tell_summary_created(
            meeting_id,
            ids.summary.as_str(),
            work.start_ms,
            work.end_ms,
            summary_json(&document),
        );
        let extended = tell_board_extended(meeting_id, version, board);
        events.push(created);
        events.push(extended);
        assert(event_views(events@) =~= seq![created@, extended@]);
        let queued = self.enqueue_summary_as(meeting_id, ended, ids.job, clock);
        proof {
            lemma_board_is_put(start.boards, meeting_id@, version, json_text(board_view), clock@);
            if plain(before, 100) {
                law_merged_board_is_plain(before, document@);
            }
        }
        (events, queued)
    }

    /// Keeps the document that the summarizer gave for a window, and extends the
    /// meeting's board by it; or notes why it gave none. Gives nothing, and
    /// changes nothing, where the board is of a kind that cannot be extended.
    pub fn complete_summary_as(
        &mut self,
        meeting_id: &str,
        work: &Window,
        result: Result<SummaryDocument, String>,
        ids: SummaryIds,
        clock: &Clock,
    ) -> (done: Option<(Vec<MeetingEvent>, Result<(), AppError>)>)
        requires
            result is Ok && is_added(old(self)@, meeting_id@, work.end_ms, ids@) ==> next_fits(
                old(self)@,
                meeting_id@,
                work@,
            ),
        ensures
            match done {
                Some(done) => (final(self)@, event_views(done.0@), outcome(done.1))
                    == summary_completed(
                    old(self)@,
                    meeting_id@,
                    work@,
                    document_reply(result),
                    old(self)@.board_to_extend(meeting_id@),
                    ids@,
                    clock@,
                ) && (result is Ok && is_added(old(self)@, meeting_id@, work.end_ms, ids@)
                    ==> is_read_back(
                    final(self)@,
                    meeting_id@,
                    cleaned_summary(result->Ok_0@),
                    old(self)@.board_to_extend(meeting_id@),
                )),
                None => result is Ok && is_added(old(self)@, meeting_id@, work.end_ms, ids@)
                    && !is_mergeable(old(self)@.board_to_extend(meeting_id@)) && final(self)@
                    == old(self)@,
            },
    {
        let board = self.board_to_extend(meeting_id);
        if can_merge(&board) {
            return Some(self.complete_summary_on(meeting_id, work, result, board, ids, clock));
        }
        let events: Vec<MeetingEvent> = Vec::new();
        proof {
            assert(event_views(events@) =~= Seq::empty());
        }
        match result {
            Err(reason) => Some((events, Err(AppError::Processing(reason)))),
            Ok(_) => if self.window_taken(meeting_id, work.end_ms, &ids) {
                Some((events, Ok(())))
            } else if !self.is_added(meeting_id, work.end_ms, &ids) {
                Some((events, Err(self.refused_document(meeting_id))))
            } else {
                None
            },
        }
    }

    /// Keeps the document that the summarizer gave for a window, and extends the
    /// meeting's board by it; or notes why it gave none. Gives nothing, and
    /// changes nothing, where the board is of a kind that cannot be extended.
    pub fn complete_summary(
        &mut self,
        meeting_id: &str,
        work: &Window,
        result: Result<SummaryDocument, String>,
        clock: &Clock,
    ) -> (done: Option<(Vec<MeetingEvent>, Result<(), AppError>)>)
        requires
            result is Ok ==> summary_fits(old(self)@, meeting_id@, work@),
        ensures
            exists|ids: SummaryIdsView| #[trigger]
                are_ids(ids) && match done {
                    Some(done) => (final(self)@, event_views(done.0@), outcome(done.1))
                        == summary_completed(
                        old(self)@,
                        meeting_id@,
                        work@,
                        document_reply(result),
                        old(self)@.board_to_extend(meeting_id@),
                        ids,
                        clock@,
                    ) && (result is Ok && is_added(old(self)@, meeting_id@, work.end_ms, ids)
                        ==> is_read_back(
                        final(self)@,
                        meeting_id@,
                        cleaned_summary(result->Ok_0@),
                        old(self)@.board_to_extend(meeting_id@),
                    )),
                    None => result is Ok && is_added(old(self)@, meeting_id@, work.end_ms, ids)
                        && !is_mergeable(old(self)@.board_to_extend(meeting_id@)) && final(self)@
                        == old(self)@,
                },
    {
        let ids = SummaryIds::fresh();
        assert(are_ids(ids@));
        self.complete_summary_as(meeting_id, work, result, ids, clock)
    }
}

proof fn lemma_sorted_keep<V>(rows: Seq<V>, key: spec_fn(V) -> i64, p: spec_fn(V) -> bool)
    requires
        forall|i: int| 0 <= i < rows.len() ==> p(#[trigger] rows[i]),
    ensures
        forall|i: int|
            0 <= i < sorted_by(rows, key).len() ==> p(#[trigger] sorted_by(rows, key)[i]),
{
    law_sorted_by(rows, key);
    let sorted = sorted_by(rows, key);
    assert forall|i: int| 0 <= i < sorted.len() implies p(#[trigger] sorted[i]) by {
        rows.to_multiset_ensures();
        sorted.to_multiset_ensures();
        assert(sorted.contains(sorted[i]));
        assert(rows.to_multiset().count(sorted[i]) > 0);
        assert(rows.contains(sorted[i]));
    }
}

/// The target of a job for a summary names the window that it was made for.
pub proof fn law_target_names_its_window(end: i64)
    ensures
        target_end(decimal(end as int)) == Some(end),
        !is_final(decimal(end as int)),
        target_end(final_target(end)) == Some(end),
        is_final(final_target(end)),
{
    law_decimal_reads_back(end);
    lemma_decimal_start(end);
    reveal_strlit("final:");
    assert("final:"@.len() == 6);
    assert("final:"@[0] == 'f');
    let plain = decimal(end as int);
    if is_final(plain) {
        assert(plain.take(6)[0] == plain[0]);
        assert(false);
    }
    assert(final_target(end).take(6) =~= "final:"@);
    assert(final_target(end).skip(6) =~= plain);
}

/// A window is summarized once: whatever comes for it after its summary was kept,
/// nothing changes and nothing is told.
pub proof fn law_window_is_summarized_once(
    s: StoreView,
    meeting_id: Seq<char>,
    work: WindowView,
    document: SummaryView,
    board: JsonView,
    ids: SummaryIdsView,
    clock: ClockView,
    again: WindowView,
    other_document: SummaryView,
    other_board: JsonView,
    other_ids: SummaryIdsView,
    other_clock: ClockView,
)
    requires
        is_added(s, meeting_id, work.end_ms, ids),
        again.end_ms == work.end_ms,
    ensures
        ({
            let once = summary_completed(s, meeting_id, work, Ok(document), board, ids, clock).0;
            summary_completed(
                once,
                meeting_id,
                again,
                Ok(other_document),
                other_board,
                other_ids,
                other_clock,
            ) == (once, Seq::<EventView>::empty(), Ok::<(), AppErrorView>(()))
        }),
{
    let once = summary_completed(s, meeting_id, work, Ok(document), board, ids, clock).0;
    let last = s.summaries.len() as int;
    assert(once.summaries.len() == last + 1);
    assert(summary_at(meeting_id, work.end_ms)(once.summaries[last]));
}

/// A new summary is the newest version of the board: its number is higher than
/// that of every version before, and the meeting and its board show it.
pub proof fn law_versions_increase(
    s: StoreView,
    meeting_id: Seq<char>,
    work: WindowView,
    document: SummaryView,
    board: JsonView,
    ids: SummaryIdsView,
    clock: ClockView,
)
    requires
        is_added(s, meeting_id, work.end_ms, ids),
        s.latest_version(meeting_id) < i64::MAX,
    ensures
        ({
            let kept = summary_completed(s, meeting_id, work, Ok(document), board, ids, clock).0;
            &&& forall|i: int|
                0 <= i < s.board_versions.len() && (#[trigger] s.board_versions[i]).meeting_id
                    == meeting_id ==> kept.latest_version(meeting_id) > s.board_versions[i].version
            &&& kept.latest_version(meeting_id) > s.latest_version(meeting_id)
            &&& kept.meeting(meeting_id) is Some
            &&& kept.meeting(meeting_id).unwrap().board_version == kept.latest_version(meeting_id)
            &&& first(kept.boards, board_of(meeting_id)) is Some
            &&& first(kept.boards, board_of(meeting_id)).unwrap().version == kept.latest_version(
                meeting_id,
            )
        }),
{
    let kept = summary_completed(s, meeting_id, work, Ok(document), board, ids, clock).0;
    let version = (s.latest_version(meeting_id) + 1) as i64;
    let key = version_in(meeting_id);
    lemma_greatest(s.board_versions, key);
    assert(kept.board_versions.drop_last() =~= s.board_versions);
    assert(key(kept.board_versions.last()) == Some(version));
    assert(kept.latest_version(meeting_id) == version);
    assert forall|i: int|
        0 <= i < s.board_versions.len() && (#[trigger] s.board_versions[i]).meeting_id
            == meeting_id implies version > s.board_versions[i].version by {
        assert(key(s.board_versions[i]) == Some(s.board_versions[i].version));
    }
    lemma_board_is_put(
        s.boards,
        meeting_id,
        version,
        json_text(merged_board(board, cleaned_summary(document))),
        clock,
    );
    let g = advancing(meeting_id, version, (work.end_ms + work.window_ms) as i64);
    lemma_first_of_map(s.meetings, meeting_is(meeting_id), g);
    lemma_first_holds(s.meetings, meeting_is(meeting_id));
}

/// The board of a meeting, once it was replaced or added, is the one that was given.
pub proof fn lemma_board_is_put(
    boards: Seq<BoardView>,
    meeting_id: Seq<char>,
    version: i64,
    content: Seq<char>,
    clock: ClockView,
)
    ensures
        first(boards_with(boards, meeting_id, version, content, clock), board_of(meeting_id))
            == Some(
            BoardView {
                meeting_id,
                version,
                content_json: content,
                updated_at: clock.now.text,
            },
        ),
{
    let p = board_of(meeting_id);
    let new = boards_with(boards, meeting_id, version, content, clock);
    lemma_first_holds(boards, p);
    if any(boards, p) {
        lemma_first_of_map(boards, p, board_put(meeting_id, version, content, clock));
    } else {
        let last = boards.len() as int;
        assert(p(new[last]));
        assert forall|j: int| 0 <= j < last implies !p(#[trigger] new[j]) by {
            assert(new[j] == boards[j]);
        }
        assert(is_first(new, p, last));
        lemma_first_is(new, p, last);
    }
}

/// Putting a meeting's board in its place leaves every other board as it is, and
/// gives the meeting one with this version and content, and no other.
pub proof fn lemma_boards_with(
    boards: Seq<BoardView>,
    meeting_id: Seq<char>,
    version: i64,
    content: Seq<char>,
    clock: ClockView,
)
    ensures
        ({
            let new = boards_with(boards, meeting_id, version, content, clock);
            &&& forall|i: int|
                0 <= i < boards.len() && (#[trigger] boards[i]).meeting_id != meeting_id
                    ==> new.contains(boards[i])
            &&& forall|i: int|
                0 <= i < new.len() && (#[trigger] new[i]).meeting_id != meeting_id
                    ==> boards.contains(new[i])
            &&& exists|i: int| 0 <= i < new.len() && (#[trigger] new[i]).meeting_id == meeting_id
            &&& forall|i: int|
                0 <= i < new.len() && (#[trigger] new[i]).meeting_id == meeting_id
                    ==> new[i].version == version && new[i].content_json == content
                    && new[i].updated_at == clock.now.text
        }),
{
    let p = board_of(meeting_id);
    let new = boards_with(boards, meeting_id, version, content, clock);
    if any(boards, p) {
        let g = board_put(meeting_id, version, content, clock);
        assert forall|i: int|
            0 <= i < boards.len() && (#[trigger] boards[i]).meeting_id
                != meeting_id implies new.contains(boards[i]) by {
            assert(new[i] == g(boards[i]));
        }
        assert forall|i: int|
            0 <= i < new.len() && (#[trigger] new[i]).meeting_id
                != meeting_id implies boards.contains(new[i]) by {
            assert(new[i] == g(boards[i]));
            assert(boards[i] == new[i]);
        }
        let k = choose|k: int| 0 <= k < boards.len() && p(#[trigger] boards[k]);
        assert(new[k] == g(boards[k]));
        assert(new[k].meeting_id == meeting_id);
        assert forall|i: int|
            0 <= i < new.len() && (#[trigger] new[i]).meeting_id == meeting_id implies new[i].version
            == version && new[i].content_json == content && new[i].updated_at
            == clock.now.text by {
            assert(new[i] == g(boards[i]));
        }
    } else {
        let last = boards.len() as int;
        assert(new[last].meeting_id == meeting_id);
        assert forall|i: int|
            0 <= i < boards.len() && (#[trigger] boards[i]).meeting_id
                != meeting_id implies new.contains(boards[i]) by {
            assert(new[i] == boards[i]);
        }
        assert forall|i: int|
            0 <= i < new.len() && (#[trigger] new[i]).meeting_id
                != meeting_id implies boards.contains(new[i]) by {
            assert(new[i] == boards[i]);
        }
        assert forall|i: int|
            0 <= i < new.len() && (#[trigger] new[i]).meeting_id == meeting_id implies new[i].version
            == version && new[i].content_json == content && new[i].updated_at
            == clock.now.text by {
            if i < last {
                assert(new[i] == boards[i]);
                assert(!p(boards[i]));
            }
        }
    }
}

/// The window of the next summary only moves on when a summary is kept, and then
/// ends a window after the one that was summarized, or later.
pub proof fn law_windows_move_on(
    s: StoreView,
    meeting_id: Seq<char>,
    work: WindowView,
    document: SummaryView,
    board: JsonView,
    ids: SummaryIdsView,
    clock: ClockView,
)
    requires
        is_added(s, meeting_id, work.end_ms, ids),
        i64::MIN <= work.end_ms + work.window_ms <= i64::MAX,
    ensures
        ({
            let kept = summary_completed(s, meeting_id, work, Ok(document), board, ids, clock).0;
            &&& s.meeting(meeting_id) is Some
            &&& kept.meeting(meeting_id) is Some
            &&& kept.meeting(meeting_id).unwrap().next_summary_end_ms >= s.meeting(
                meeting_id,
            ).unwrap().next_summary_end_ms
            &&& kept.meeting(meeting_id).unwrap().next_summary_end_ms >= work.end_ms
                + work.window_ms
        }),
{
    let version = (s.latest_version(meeting_id) + 1) as i64;
    let g = advancing(meeting_id, version, (work.end_ms + work.window_ms) as i64);
    lemma_first_of_map(s.meetings, meeting_is(meeting_id), g);
    lemma_first_holds(s.meetings, meeting_is(meeting_id));
}

/// The window that a job for a summary is made for is the next one, or, at the end
/// of the meeting, what is left behind the summaries that there are.
pub proof fn law_asked_for_window_is_the_next(
    s: StoreView,
    meeting_id: Seq<char>,
    final_window: bool,
)
    requires
        s.meeting(meeting_id) is Some,
        summary_target(s, meeting_id, final_window) is Some,
    ensures
        ({
            let target = summary_target(s, meeting_id, final_window).unwrap();
            let m = s.meeting(meeting_id).unwrap();
            let until = s.completed_until(meeting_id);
            if until >= m.next_summary_end_ms {
                &&& target_end(target) == Some(m.next_summary_end_ms)
                &&& window_start(s, meeting_id, target) == m.next_summary_end_ms
                    - m.summary_window_ms
            } else {
                &&& final_window
                &&& target_end(target) == Some(until)
                &&& window_start(s, meeting_id, target) == s.summarized_until(meeting_id)
            }
        }),
{
    let m = s.meeting(meeting_id).unwrap();
    law_target_names_its_window(m.next_summary_end_ms);
    law_target_names_its_window(s.completed_until(meeting_id));
}

/// The last window of a meeting misses nothing: every segment that was transcribed
/// and reaches behind the summaries that there are is in its text.
pub proof fn law_last_window_misses_nothing(s: StoreView, meeting_id: Seq<char>, i: int)
    requires
        0 <= i < s.segments.len(),
        s.segments[i].meeting_id == meeting_id,
        s.segments[i].status == SegmentStatus::Completed,
        s.segments[i].transcript is Some,
        s.segments[i].start_ms < s.segments[i].end_ms,
        s.segments[i].end_ms > s.summarized_until(meeting_id),
    ensures
        spoken_in(
            meeting_id,
            s.summarized_until(meeting_id),
            s.completed_until(meeting_id),
        )(s.segments[i]),
{
    let key = completed_end(meeting_id);
    lemma_greatest(s.segments, key);
    assert(key(s.segments[i]) == Some(s.segments[i].end_ms));
}

/// Windows follow one another: when the next window was summarized, the one after
/// it starts where that one ends.
pub proof fn law_windows_follow_one_another(
    s: StoreView,
    meeting_id: Seq<char>,
    work: WindowView,
    document: SummaryView,
    board: JsonView,
    ids: SummaryIdsView,
    clock: ClockView,
)
    requires
        is_added(s, meeting_id, work.end_ms, ids),
        s.meeting(meeting_id) matches Some(m) && work.end_ms == m.next_summary_end_ms
            && work.window_ms == m.summary_window_ms && m.summary_window_ms > 0 && work.end_ms
            + work.window_ms <= i64::MAX,
    ensures
        ({
            let kept = summary_completed(s, meeting_id, work, Ok(document), board, ids, clock).0;
            kept.meeting(meeting_id) matches Some(m) && m.next_summary_end_ms
                - m.summary_window_ms == work.end_ms
        }),
{
    let version = (s.latest_version(meeting_id) + 1) as i64;
    let g = advancing(meeting_id, version, (work.end_ms + work.window_ms) as i64);
    lemma_first_of_map(s.meetings, meeting_is(meeting_id), g);
    lemma_first_holds(s.meetings, meeting_is(meeting_id));
}

/// A job that waits or runs.
pub open spec fn is_open() -> spec_fn(JobView) -> bool {
    |j: JobView| j.status == JobStatus::Pending || j.status == JobStatus::Running
}

/// The store in which a job that was given up is retried, claimed, and its segment is
/// being transcribed.
pub open spec fn retried(
    s: StoreView,
    job: JobView,
    segment_id: Seq<char>,
    clock: ClockView,
    later: ClockView,
) -> StoreView {
    let waiting = StoreView { jobs: s.jobs.map_values(retrying(job.id, clock)), ..s };
    let claimed = StoreView { jobs: waiting.jobs.map_values(claiming(job.id, later)), ..waiting };
    transcription_begun(claimed, segment_id, job.meeting_id)
}

proof fn lemma_work_is_the_segment(
    s: StoreView,
    job: JobView,
    clock: ClockView,
    later: ClockView,
    i: int,
)
    requires
        sound(s),
        0 <= i < s.segments.len(),
        s.segments[i].meeting_id == job.meeting_id,
    ensures
        ({
            let g = s.segments[i];
            let begun = retried(s, job, g.id, clock, later);
            let work = to_transcribe(begun, g.id, job.meeting_id);
            &&& begun.segments[i] == (SegmentView { status: SegmentStatus::Transcribing, ..g })
            &&& work is Ok
            &&& work->Ok_0.segment_id == g.id
            &&& work->Ok_0.meeting_id == job.meeting_id
            &&& work->Ok_0.start_ms == g.start_ms
            &&& work->Ok_0.end_ms == g.end_ms
        }),
{
    let g = s.segments[i];
    let begun = retried(s, job, g.id, clock, later);
    let p = segment_in(g.id, job.meeting_id);
    assert(begun.segments[i] == (SegmentView { status: SegmentStatus::Transcribing, ..g }));
    assert forall|j: int| 0 <= j < i implies !p(#[trigger] begun.segments[j]) by {
        assert(segment_id()(s.segments[j]) != segment_id()(s.segments[i]));
    }
    assert(is_first(begun.segments, p, i));
    lemma_first_is(begun.segments, p, i);
}

/// A segment whose job is retried takes part in the summaries again. The job can be
/// claimed at once. When the transcriber gives a text for it, the segment is completed
/// with this text, and what was said in any span that it is in holds it. Where the
/// meeting is summarized there already, a job waits or runs that makes the summaries
/// again from the first window on that the segment is in; else the next summary is
/// asked for, where one can be made.
pub proof fn law_retried_segment_takes_part_again(
    s: StoreView,
    job: JobView,
    text: Seq<char>,
    next_job: Seq<char>,
    clock: ClockView,
    later: ClockView,
    i: int,
)
    requires
        sound(s),
        s.jobs.contains(job),
        job.status == JobStatus::Failed,
        clock.now.seconds <= later.now.seconds,
        0 <= i < s.segments.len(),
        job.target_id == Some(s.segments[i].id),
        s.segments[i].meeting_id == job.meeting_id,
        !any(s.jobs, job_is(next_job)),
    ensures
        ({
            let g = s.segments[i];
            let begun = retried(s, job, g.id, clock, later);
            let work = to_transcribe(begun, g.id, job.meeting_id)->Ok_0;
            let done = transcription_completed(begun, work, Ok(text), next_job, later);
            let new = done.0;
            &&& any(s.jobs.map_values(retrying(job.id, clock)), claimable(job.id, later))
            &&& to_transcribe(begun, g.id, job.meeting_id) is Ok
            &&& done.2 is Ok
            &&& new.segments.len() == s.segments.len()
            &&& new.segments[i].status == SegmentStatus::Completed
            &&& new.segments[i].transcript == Some(text)
            &&& forall|start: i64, end: i64|
                g.start_ms < end && g.end_ms > start ==> #[trigger] spoken_in(
                    job.meeting_id,
                    start,
                    end,
                )(new.segments[i])
            &&& match least(
                s.summaries,
                window_start_over(job.meeting_id, g.start_ms, g.end_ms),
            ) {
                Some(start) => any(
                    new.jobs,
                    both(
                        job_for(JobTypeView::Rebuild, job.meeting_id, decimal(start as int)),
                        is_open(),
                    ),
                ),
                None => summary_target(
                    new,
                    job.meeting_id,
                    s.meeting_ended(job.meeting_id),
                ) matches Some(target) ==> any(
                    new.jobs,
                    job_for(JobTypeView::Summary, job.meeting_id, target),
                ),
            }
        }),
{
    let g = s.segments[i];
    let meeting_id = job.meeting_id;
    let waiting = s.jobs.map_values(retrying(job.id, clock));
    let begun = retried(s, job, g.id, clock, later);
    lemma_work_is_the_segment(s, job, clock, later, i);
    let work = to_transcribe(begun, g.id, meeting_id)->Ok_0;
    let done = transcription_completed(begun, work, Ok(text), next_job, later);
    let new = done.0;
    let n = choose|n: int| 0 <= n < s.jobs.len() && s.jobs[n] == job;
    assert(claimable(job.id, later)(waiting[n]));
    assert(segment_fits(s.meetings, s.speakers)(s.segments[i]));
    lemma_first_holds(s.meetings, meeting_is(meeting_id));
    assert(!any(begun.jobs, job_is(next_job))) by {
        assert forall|k: int| 0 <= k < begun.jobs.len() implies !job_is(next_job)(
            #[trigger] begun.jobs[k],
        ) by {
            assert(!job_is(next_job)(s.jobs[k]));
        }
    }
    match least(s.summaries, window_start_over(meeting_id, g.start_ms, g.end_ms)) {
        Some(start) => {
            let p = job_for(JobTypeView::Rebuild, meeting_id, decimal(start as int));
            if any(begun.jobs, p) {
                let k = choose|k: int| 0 <= k < begun.jobs.len() && p(#[trigger] begun.jobs[k]);
                assert(both(p, is_open())(new.jobs[k]));
            } else {
                assert(both(p, is_open())(new.jobs[begun.jobs.len() as int]));
            }
        },
        None => {
            let ended = s.meeting_ended(meeting_id);
            let kept = StoreView {
                segments: begun.segments.map_values(transcribing(g.id, meeting_id, text)),
                ..begun
            };
            assert(summary_target(new, meeting_id, ended) == summary_target(
                kept,
                meeting_id,
                ended,
            ));
            if let Some(target) = summary_target(kept, meeting_id, ended) {
                let p = job_for(JobTypeView::Summary, meeting_id, target);
                if !any(kept.jobs, p) {
                    assert(p(new.jobs[kept.jobs.len() as int]));
                }
            }
        },
    }
}

/// Whether a line stands in a text from a place on, as a line of its own.
pub open spec fn line_at(text: Seq<char>, line: Seq<char>, at: int) -> bool {
    &&& 0 <= at <= at + line.len() <= text.len()
    &&& text.subrange(at, at + line.len()) == line
    &&& at == 0 || text[at - 1] == '\n'
    &&& at + line.len() == text.len() || text[at + line.len()] == '\n'
}

/// Whether this is who speaks in a segment: the name of a speaker with the segment's
/// speaker id, or `Unknown` where there is none.
pub open spec fn speaks_in(speakers: Seq<SpeakerView>, g: SegmentView, name: Seq<char>) -> bool {
    ||| exists|k: int|
        0 <= k < speakers.len() && Some((#[trigger] speakers[k]).id) == g.speaker_id
            && speakers[k].name == name
    ||| name == "Unknown"@ && forall|k: int|
        0 <= k < speakers.len() ==> Some((#[trigger] speakers[k]).id) != g.speaker_id
}

/// What is handed to the summarizer is all that was said, and nothing else. Each
/// segment of the meeting that was transcribed, has a text and overlaps the span of
/// time has one line of its own, who speaks and then the text; the lines stand in the
/// order in which the segments start, one directly behind the other, and fill the text.
///
/// What is returned are the segments in that order, who speaks in each, and where
/// the line of each stands.
pub proof fn law_spoken_text_is_a_line_for_each_segment(
    s: StoreView,
    meeting_id: Seq<char>,
    start: i64,
    end: i64,
) -> (told: (Seq<SegmentView>, Seq<Seq<char>>, Seq<int>))
    ensures
        ({
            let text = spoken_text(s, meeting_id, start, end);
            let (order, names, at) = told;
            &&& order.to_multiset() == s.segments.filter(
                |g: SegmentView|
                    g.meeting_id == meeting_id && g.status == SegmentStatus::Completed
                        && g.transcript is Some && g.start_ms < end && start < g.end_ms,
            ).to_multiset()
            &&& names.len() == order.len()
            &&& at.len() == order.len()
            &&& forall|i: int, j: int|
                0 <= i < j < order.len() ==> (#[trigger] order[i]).start_ms <= (
                #[trigger] order[j]).start_ms && at[i] < at[j]
            &&& forall|i: int|
                0 <= i < order.len() ==> speaks_in(s.speakers, #[trigger] order[i], names[i])
                    && line_at(text, names[i] + ": "@ + order[i].transcript.unwrap(), at[i])
            &&& forall|i: int|
                0 < i < order.len() ==> #[trigger] at[i] == at[i - 1] + names[i - 1].len()
                    + ": "@.len() + order[i - 1].transcript.unwrap().len() + 1
            &&& if order.len() == 0 {
                text.len() == 0
            } else {
                at[0] == 0 && text.len() == at.last() + names.last().len() + ": "@.len()
                    + order.last().transcript.unwrap().len()
            }
        }),
{
    let p = spoken_in(meeting_id, start, end);
    let q = |g: SegmentView|
        g.meeting_id == meeting_id && g.status == SegmentStatus::Completed && g.transcript is Some
            && g.start_ms < end && start < g.end_ms;
    assert(p =~= q);
    let kept = s.segments.filter(p);
    let order = sorted_by(kept, segment_start());
    let lines = order.map_values(spoken_line(s.speakers));
    let text = spoken_text(s, meeting_id, start, end);
    assert(text == joined(lines, "\n"@));
    let at = lemma_lines_stand(lines);
    let names = Seq::new(
        order.len(),
        |i: int|
            match name_of(s.speakers, order[i].speaker_id) {
                Some(name) => name,
                None => "Unknown"@,
            },
    );
    assert(order.to_multiset() == kept.to_multiset()) by {
        law_sorted_by(kept, segment_start());
    }
    assert forall|i: int, j: int| 0 <= i < j < order.len() implies (#[trigger] order[i]).start_ms
        <= (#[trigger] order[j]).start_ms && at[i] < at[j] by {
        law_sorted_by(kept, segment_start());
        assert(segment_start()(order[i]) <= segment_start()(order[j]));
        lemma_lines_rise(at, i, j);
    }
    assert forall|i: int| 0 <= i < order.len() implies (#[trigger] order[i]).transcript is Some
        && lines[i] == names[i] + ": "@ + order[i].transcript.unwrap() by {
        lemma_kept(s.segments, p);
        lemma_sorted_keep(kept, segment_start(), p);
        assert(p(order[i]));
    }
    assert forall|i: int| 0 <= i < order.len() implies speaks_in(
        s.speakers,
        #[trigger] order[i],
        names[i],
    ) && line_at(text, names[i] + ": "@ + order[i].transcript.unwrap(), at[i]) by {
        lemma_name_is_who_speaks(s.speakers, order[i]);
        assert(line_at(text, lines[i], at[i]));
    }
    assert forall|i: int| 0 < i < order.len() implies #[trigger] at[i] == at[i - 1] + names[i
        - 1].len() + ": "@.len() + order[i - 1].transcript.unwrap().len() + 1 by {
        assert(order[i - 1].transcript is Some);
        assert(lines[i - 1] == names[i - 1] + ": "@ + order[i - 1].transcript.unwrap());
    }
    if order.len() > 0 {
        let last = order.len() - 1;
        assert(order[last].transcript is Some);
        assert(lines[last] == names[last] + ": "@ + order[last].transcript.unwrap());
    }
    (order, names, at)
}

proof fn lemma_lines_stand(lines: Seq<Seq<char>>) -> (at: Seq<int>)
    ensures
        ({
            let text = joined(lines, "\n"@);
            &&& at.len() == lines.len()
            &&& forall|i: int| 0 <= i < lines.len() ==> line_at(text, #[trigger] lines[i], at[i])
            &&& forall|i: int|
                0 < i < lines.len() ==> #[trigger] at[i] == at[i - 1] + lines[i - 1].len() + 1
            &&& if lines.len() == 0 {
                text.len() == 0
            } else {
                at[0] == 0 && text.len() == at[lines.len() - 1] + lines[lines.len() - 1].len()
            }
        }),
{
    reveal_strlit("\n");
    assert("\n"@.len() == 1 && "\n"@[0] == '\n');
    let text = joined(lines, "\n"@);
    let at = Seq::new(lines.len(), |i: int| piece_start(lines, 1, i));
    assert forall|i: int| 0 <= i < lines.len() implies line_at(
        text,
        #[trigger] lines[i],
        at[i],
    ) by {
        law_joined_holds_each_piece(lines, "\n"@, i);
        let to = at[i] + lines[i].len();
        if i > 0 {
            law_joined_holds_each_piece(lines, "\n"@, i - 1);
            assert(text.subrange(at[i] - 1, at[i])[0] == text[at[i] - 1]);
        }
        if i < lines.len() - 1 {
            assert(text.subrange(to, to + 1)[0] == text[to]);
        }
    }
    if lines.len() > 0 {
        law_joined_holds_each_piece(lines, "\n"@, lines.len() - 1);
    }
    at
}

proof fn lemma_name_is_who_speaks(speakers: Seq<SpeakerView>, g: SegmentView)
    ensures
        speaks_in(
            speakers,
            g,
            match name_of(speakers, g.speaker_id) {
                Some(name) => name,
                None => "Unknown"@,
            },
        ),
{
    let name = match name_of(speakers, g.speaker_id) {
        Some(name) => name,
        None => "Unknown"@,
    };
    if let Some(id) = g.speaker_id {
        let p = speaker_is(id);
        lemma_first_holds(speakers, p);
        match first(speakers, p) {
            Some(r) => {
                let k = choose|k: int| 0 <= k < speakers.len() && speakers[k] == r;
                assert(Some(speakers[k].id) == g.speaker_id);
            },
            None => {
                assert forall|k: int| 0 <= k < speakers.len() implies Some(
                    (#[trigger] speakers[k]).id,
                ) != g.speaker_id by {
                    assert(!p(speakers[k]));
                }
            },
        }
    }
}

proof fn lemma_lines_rise(at: Seq<int>, i: int, j: int)
    requires
        0 <= i < j < at.len(),
        forall|k: int| 0 < k < at.len() ==> at[k - 1] < #[trigger] at[k],
    ensures
        at[i] < at[j],
    decreases j,
{
    assert(at[j - 1] < at[j]);
    if i < j - 1 {
        lemma_lines_rise(at, i, j - 1);
    }
}

/// No segment is missed: the text of a span of time has, for each segment of the
/// meeting that was transcribed, has a text and overlaps the span, the line `name:
/// text`. Where it stands and who speaks is returned.
pub proof fn law_spoken_text_misses_no_segment(
    s: StoreView,
    meeting_id: Seq<char>,
    start: i64,
    end: i64,
    i: int,
) -> (found: (int, Seq<char>))
    requires
        0 <= i < s.segments.len(),
        s.segments[i].meeting_id == meeting_id,
        s.segments[i].status == SegmentStatus::Completed,
        s.segments[i].transcript is Some,
        s.segments[i].start_ms < end,
        start < s.segments[i].end_ms,
    ensures
        speaks_in(s.speakers, s.segments[i], found.1),
        line_at(
            spoken_text(s, meeting_id, start, end),
            found.1 + ": "@ + s.segments[i].transcript.unwrap(),
            found.0,
        ),
{
    broadcast use vstd::seq_lib::group_to_multiset_ensures;

    let told = law_spoken_text_is_a_line_for_each_segment(s, meeting_id, start, end);
    let q = |g: SegmentView|
        g.meeting_id == meeting_id && g.status == SegmentStatus::Completed && g.transcript is Some
            && g.start_ms < end && start < g.end_ms;
    let kept = s.segments.filter(q);
    lemma_kept(s.segments, q);
    assert(q(s.segments[i]));
    assert(kept.contains(s.segments[i]));
    assert(kept.to_multiset().count(s.segments[i]) > 0);
    assert(told.0.to_multiset() == kept.to_multiset());
    assert(told.0.contains(s.segments[i]));
    let k = choose|k: int| 0 <= k < told.0.len() && told.0[k] == s.segments[i];
    (told.2[k], told.1[k])
}

/// The window that a target names: a number is where the window ends, and the window
/// is as long as those of the meeting; the last window of a meeting ends where its
/// target says, and starts where the summaries of the meeting end, or at zero where
/// it has none.
pub proof fn law_window_of_a_target(s: StoreView, meeting_id: Seq<char>, at: int, end: i64)
    requires
        0 <= at < s.meetings.len(),
        s.meetings[at].id == meeting_id,
        forall|i: int| 0 <= i < at ==> (#[trigger] s.meetings[i]).id != meeting_id,
        i64::MIN <= end - s.meetings[at].summary_window_ms <= i64::MAX,
    ensures
        to_summarize(s, meeting_id, decimal(end as int)) matches Ok(w) && w.end_ms == end
            && w.start_ms == end - s.meetings[at].summary_window_ms && w.window_ms
            == s.meetings[at].summary_window_ms && w.transcript == spoken_text(
            s,
            meeting_id,
            w.start_ms,
            w.end_ms,
        ),
        to_summarize(s, meeting_id, "final:"@ + decimal(end as int)) matches Ok(w) && w.end_ms
            == end && w.window_ms == s.meetings[at].summary_window_ms && w.transcript
            == spoken_text(s, meeting_id, w.start_ms, w.end_ms) && (forall|i: int|
            0 <= i < s.summaries.len() && (#[trigger] s.summaries[i]).meeting_id == meeting_id
                ==> s.summaries[i].window_end_ms <= w.start_ms) && ((exists|i: int|
            0 <= i < s.summaries.len() && (#[trigger] s.summaries[i]).meeting_id == meeting_id
                && s.summaries[i].window_end_ms == w.start_ms) || (w.start_ms == 0 && forall|i: int|
            0 <= i < s.summaries.len() ==> (#[trigger] s.summaries[i]).meeting_id != meeting_id)),
{
    law_target_names_its_window(end);
    let p = meeting_is(meeting_id);
    assert(is_first(s.meetings, p, at));
    lemma_first_is(s.meetings, p, at);
    assert(any(s.meetings, p));
    law_summarized_until(s, meeting_id);
}

/// The work on a window holds all that was said in it: for each segment of the
/// meeting that was transcribed, has a text and overlaps the window, the line of that
/// segment. Where it stands and who speaks is returned.
pub proof fn law_window_holds_what_was_said(
    s: StoreView,
    meeting_id: Seq<char>,
    target: Seq<char>,
    i: int,
) -> (found: (int, Seq<char>))
    requires
        to_summarize(s, meeting_id, target) is Ok,
        0 <= i < s.segments.len(),
        s.segments[i].meeting_id == meeting_id,
        s.segments[i].status == SegmentStatus::Completed,
        s.segments[i].transcript is Some,
        s.segments[i].start_ms < to_summarize(s, meeting_id, target)->Ok_0.end_ms,
        to_summarize(s, meeting_id, target)->Ok_0.start_ms < s.segments[i].end_ms,
    ensures
        speaks_in(s.speakers, s.segments[i], found.1),
        line_at(
            to_summarize(s, meeting_id, target)->Ok_0.transcript,
            found.1 + ": "@ + s.segments[i].transcript.unwrap(),
            found.0,
        ),
{
    let work = to_summarize(s, meeting_id, target)->Ok_0;
    law_spoken_text_misses_no_segment(s, meeting_id, work.start_ms, work.end_ms, i)
}

/// A summary that is added is kept as one new row, for its meeting and its window, and
/// leads to one new version of the board, numbered one above the highest of the
/// meeting, which becomes the board of the meeting. The meeting notes the version, and
/// that its next summary ends one window further, if it did not end later already.
/// All other rows stay as they are; the next summary is asked for, the last one where
/// the meeting is over. Both changes are told.
pub proof fn law_summary_is_added(
    s: StoreView,
    meeting_id: Seq<char>,
    work: WindowView,
    given: SummaryView,
    board: JsonView,
    ids: SummaryIdsView,
    clock: ClockView,
    at: int,
)
    requires
        0 <= at < s.meetings.len(),
        s.meetings[at].id == meeting_id,
        forall|i: int| 0 <= i < at ==> (#[trigger] s.meetings[i]).id != meeting_id,
        forall|i: int|
            0 <= i < s.summaries.len() ==> (#[trigger] s.summaries[i]).id != ids.summary && !(
            s.summaries[i].meeting_id == meeting_id && s.summaries[i].window_end_ms == work.end_ms),
        forall|i: int|
            0 <= i < s.board_versions.len() ==> (#[trigger] s.board_versions[i]).id != ids.version,
        next_fits(s, meeting_id, work),
    ensures
        ({
            let done = summary_completed(s, meeting_id, work, Ok(given), board, ids, clock);
            let new = done.0;
            let row = new.summaries[s.summaries.len() as int];
            let version = new.board_versions[s.board_versions.len() as int];
            let was = s.meetings[at];
            let is = new.meetings[at];
            &&& done.1 == seq![
                summary_created(
                    meeting_id,
                    ids.summary,
                    work.start_ms,
                    work.end_ms,
                    summary_value(cleaned_summary(given)),
                ),
                board_extended(
                    meeting_id,
                    version.version,
                    merged_board(board, cleaned_summary(given)),
                ),
            ]
            &&& done.2 is Ok
            &&& new.summaries.len() == s.summaries.len() + 1
            &&& forall|i: int|
                0 <= i < s.summaries.len() ==> new.summaries[i] == #[trigger] s.summaries[i]
            &&& row.id == ids.summary && row.meeting_id == meeting_id && row.window_start_ms
                == work.start_ms && row.window_end_ms == work.end_ms && row.created_at
                == clock.now.text && row.content_json == json_text(
                summary_value(cleaned_summary(given)),
            )
            &&& new.board_versions.len() == s.board_versions.len() + 1
            &&& forall|i: int|
                0 <= i < s.board_versions.len() ==> new.board_versions[i]
                    == #[trigger] s.board_versions[i]
            &&& version.id == ids.version && version.meeting_id == meeting_id
                && version.source_summary_id == ids.summary && version.created_at
                == clock.now.text && version.content_json == json_text(
                merged_board(board, cleaned_summary(given)),
            )
            &&& forall|i: int|
                0 <= i < s.board_versions.len() && (#[trigger] s.board_versions[i]).meeting_id
                    == meeting_id ==> s.board_versions[i].version < version.version
            &&& (exists|i: int|
                0 <= i < s.board_versions.len() && (#[trigger] s.board_versions[i]).meeting_id
                    == meeting_id && s.board_versions[i].version + 1 == version.version) || (
            version.version == 1 && forall|i: int|
                0 <= i < s.board_versions.len() ==> (#[trigger] s.board_versions[i]).meeting_id
                    != meeting_id)
            &&& forall|i: int|
                0 <= i < s.boards.len() && (#[trigger] s.boards[i]).meeting_id != meeting_id
                    ==> new.boards.contains(s.boards[i])
            &&& forall|i: int|
                0 <= i < new.boards.len() && (#[trigger] new.boards[i]).meeting_id != meeting_id
                    ==> s.boards.contains(new.boards[i])
            &&& exists|i: int|
                0 <= i < new.boards.len() && (#[trigger] new.boards[i]).meeting_id == meeting_id
            &&& forall|i: int|
                0 <= i < new.boards.len() && (#[trigger] new.boards[i]).meeting_id == meeting_id
                    ==> new.boards[i].version == version.version && new.boards[i].content_json
                    == version.content_json && new.boards[i].updated_at == clock.now.text
            &&& new.meetings.len() == s.meetings.len()
            &&& forall|i: int|
                0 <= i < s.meetings.len() && (#[trigger] s.meetings[i]).id != meeting_id
                    ==> new.meetings[i] == s.meetings[i]
            &&& is.id == was.id && is.title == was.title && is.status == was.status
                && is.started_at == was.started_at && is.ended_at == was.ended_at
                && is.summary_window_ms == was.summary_window_ms
            &&& is.board_version == version.version
            &&& is.next_summary_end_ms >= was.next_summary_end_ms
            &&& is.next_summary_end_ms >= work.end_ms + work.window_ms
            &&& is.next_summary_end_ms == was.next_summary_end_ms || is.next_summary_end_ms
                == work.end_ms + work.window_ms
            &&& new.segments == s.segments
            &&& new.speakers == s.speakers
            &&& s.jobs.len() <= new.jobs.len() <= s.jobs.len() + 1
            &&& forall|i: int| 0 <= i < s.jobs.len() ==> new.jobs[i] == #[trigger] s.jobs[i]
            &&& summary_enqueued(
                StoreView { jobs: s.jobs, ..new },
                meeting_id,
                was.status == MeetingStatus::Ended,
                ids.job,
                clock,
            ) == Ok::<StoreView, AppErrorView>(new)
        }),
{
    let p = meeting_is(meeting_id);
    assert(is_first(s.meetings, p, at));
    lemma_first_is(s.meetings, p, at);
    assert(any(s.meetings, p));
    assert(is_added(s, meeting_id, work.end_ms, ids));
    let document = cleaned_summary(given);
    let kept = with_summary(s, meeting_id, work, document, board, ids, clock);
    let version = (s.latest_version(meeting_id) + 1) as i64;
    let g = advancing(meeting_id, version, (work.end_ms + work.window_ms) as i64);
    lemma_first_of_map(s.meetings, p, g);
    assert(kept.meeting(meeting_id) is Some);
    let done = summary_completed(s, meeting_id, work, Ok(given), board, ids, clock);
    let new = done.0;
    assert(new.summaries == kept.summaries && new.boards == kept.boards && new.board_versions
        == kept.board_versions && new.meetings == kept.meetings);
    assert(new.jobs == s.jobs || new.jobs == s.jobs.push(new.jobs.last()));
    assert(kept == (StoreView { jobs: s.jobs, ..new }));
    lemma_boards_with(
        s.boards,
        meeting_id,
        version,
        json_text(merged_board(board, document)),
        clock,
    );
    let number = version_in(meeting_id);
    lemma_greatest(s.board_versions, number);
    assert forall|i: int|
        0 <= i < s.board_versions.len() && (#[trigger] s.board_versions[i]).meeting_id
            == meeting_id implies number(s.board_versions[i]) == Some(
        s.board_versions[i].version,
    ) by {}
    match greatest(s.board_versions, number) {
        Some(n) => {
            let i = choose|i: int|
                0 <= i < s.board_versions.len() && number(#[trigger] s.board_versions[i]) == Some(n);
            assert(s.board_versions[i].meeting_id == meeting_id);
        },
        None => {
            assert forall|i: int| 0 <= i < s.board_versions.len() implies (
            #[trigger] s.board_versions[i]).meeting_id != meeting_id by {
                assert(number(s.board_versions[i]) is None);
            }
        },
    }
}

/// A summarizer that fails changes nothing and its reason is the outcome; a document
/// for a window that has a summary changes nothing either, and is no failure.
pub proof fn law_unused_reply_changes_nothing(
    s: StoreView,
    meeting_id: Seq<char>,
    work: WindowView,
    given: SummaryView,
    reason: Seq<char>,
    board: JsonView,
    ids: SummaryIdsView,
    clock: ClockView,
    i: int,
)
    requires
        0 <= i < s.summaries.len(),
        s.summaries[i].meeting_id == meeting_id,
        s.summaries[i].window_end_ms == work.end_ms,
    ensures
        ({
            let failed = summary_completed(s, meeting_id, work, Err(reason), board, ids, clock);
            let late = summary_completed(s, meeting_id, work, Ok(given), board, ids, clock);
            &&& failed.0 == s && failed.1.len() == 0 && failed.2 == Err::<(), AppErrorView>(
                AppErrorView::Processing(reason),
            )
            &&& late.0 == s && late.1.len() == 0 && late.2 is Ok
        }),
{
    assert(summary_at(meeting_id, work.end_ms)(s.summaries[i]));
}

/// A summary is added to the board that the meeting has, where that can be read; else
/// to an empty one.
pub proof fn law_board_to_extend(s: StoreView, meeting_id: Seq<char>, at: int)
    requires
        0 <= at <= s.boards.len(),
        forall|i: int| 0 <= i < at ==> (#[trigger] s.boards[i]).meeting_id != meeting_id,
        at < s.boards.len() ==> s.boards[at].meeting_id == meeting_id,
    ensures
        at < s.boards.len() && parsed_json(s.boards[at].content_json) is Some
            ==> s.board_to_extend(meeting_id) == parsed_json(s.boards[at].content_json).unwrap(),
        at == s.boards.len() || parsed_json(s.boards[at].content_json) is None
            ==> s.board_to_extend(meeting_id) == empty_board_value(),
{
    let p = board_of(meeting_id);
    lemma_first_holds(s.boards, p);
    if at < s.boards.len() {
        assert(is_first(s.boards, p, at));
        lemma_first_is(s.boards, p, at);
        assert(any(s.boards, p));
    }
}

/// A document is not added, nothing changes and nothing is told where its meeting is not
/// there, where its window has a summary, or where one of the ids is taken; it is a failure
/// only where the meeting is missing or the id of the version is taken.
pub proof fn law_document_that_is_not_added(
    s: StoreView,
    meeting_id: Seq<char>,
    work: WindowView,
    given: SummaryView,
    board: JsonView,
    ids: SummaryIdsView,
    clock: ClockView,
)
    ensures
        ({
            let done = summary_completed(s, meeting_id, work, Ok(given), board, ids, clock);
            let taken = exists|i: int|
                0 <= i < s.summaries.len() && ((#[trigger] s.summaries[i]).id == ids.summary || (
                s.summaries[i].meeting_id == meeting_id && s.summaries[i].window_end_ms
                    == work.end_ms));
            let missing = forall|i: int|
                0 <= i < s.meetings.len() ==> (#[trigger] s.meetings[i]).id != meeting_id;
            let numbered = exists|i: int|
                0 <= i < s.board_versions.len() && (#[trigger] s.board_versions[i]).id
                    == ids.version;
            &&& taken ==> done.0 == s && done.1.len() == 0 && done.2 is Ok
            &&& !taken && (missing || numbered) ==> done.0 == s && done.1.len() == 0 && done.2
                is Err
        }),
{
    let p = summary_at(meeting_id, work.end_ms);
    let q = summary_is(ids.summary);
    if exists|i: int|
        0 <= i < s.summaries.len() && ((#[trigger] s.summaries[i]).id == ids.summary || (
        s.summaries[i].meeting_id == meeting_id && s.summaries[i].window_end_ms == work.end_ms)) {
        let i = choose|i: int|
            0 <= i < s.summaries.len() && ((#[trigger] s.summaries[i]).id == ids.summary || (
            s.summaries[i].meeting_id == meeting_id && s.summaries[i].window_end_ms
                == work.end_ms));
        assert(p(s.summaries[i]) || q(s.summaries[i]));
    } else {
        assert forall|i: int| 0 <= i < s.summaries.len() implies !p(#[trigger] s.summaries[i])
            && !q(s.summaries[i]) by {}
    }
    let r = version_row_is(ids.version);
    if exists|i: int|
        0 <= i < s.board_versions.len() && (#[trigger] s.board_versions[i]).id == ids.version {
        let i = choose|i: int|
            0 <= i < s.board_versions.len() && (#[trigger] s.board_versions[i]).id == ids.version;
        assert(r(s.board_versions[i]));
    }
    let m = meeting_is(meeting_id);
    if any(s.meetings, m) {
        let i = choose|i: int| 0 <= i < s.meetings.len() && m(#[trigger] s.meetings[i]);
        assert(s.meetings[i].id == meeting_id);
    }
}

/// The start of a window can be reckoned wherever its end is not before the meeting's start
/// and the windows of the meeting have a length that is allowed; and so can what a summary
/// leads to, but at the very end of what can be counted.
pub proof fn law_ordinary_windows_can_be_reckoned(
    s: StoreView,
    meeting_id: Seq<char>,
    at: int,
    end: i64,
    work: WindowView,
)
    requires
        0 <= at < s.meetings.len(),
        s.meetings[at].id == meeting_id,
        forall|i: int| 0 <= i < at ==> (#[trigger] s.meetings[i]).id != meeting_id,
        0 <= s.meetings[at].summary_window_ms,
        0 <= end,
    ensures
        window_fits(s, meeting_id, decimal(end as int)),
        window_fits(s, meeting_id, "final:"@ + decimal(end as int)),
        0 <= work.window_ms && 0 <= work.end_ms && work.end_ms + work.window_ms <= i64::MAX && (
        forall|i: int|
            0 <= i < s.board_versions.len() ==> (#[trigger] s.board_versions[i]).version
                < i64::MAX) ==> summary_fits(s, meeting_id, work),
{
    law_target_names_its_window(end);
    let p = meeting_is(meeting_id);
    assert(is_first(s.meetings, p, at));
    lemma_first_is(s.meetings, p, at);
    assert(any(s.meetings, p));
    let number = version_in(meeting_id);
    lemma_greatest(s.board_versions, number);
    if let Some(n) = greatest(s.board_versions, number) {
        let i = choose|i: int|
            0 <= i < s.board_versions.len() && number(#[trigger] s.board_versions[i]) == Some(n);
        assert(s.board_versions[i].version == n);
    }
}

/// Where there is nothing to reckon, nothing can go wrong in reckoning it: for a target that
/// is no number, in a meeting that is not there, and for a window that has a summary.
pub proof fn law_nothing_to_reckon(
    s: StoreView,
    meeting_id: Seq<char>,
    target: Seq<char>,
    work: WindowView,
)
    ensures
        target_end(target) is None ==> window_fits(s, meeting_id, target),
        (forall|i: int| 0 <= i < s.meetings.len() ==> (#[trigger] s.meetings[i]).id != meeting_id)
            ==> window_fits(s, meeting_id, target) && summary_fits(s, meeting_id, work),
        (exists|i: int|
            0 <= i < s.summaries.len() && (#[trigger] s.summaries[i]).meeting_id == meeting_id
                && s.summaries[i].window_end_ms == work.end_ms) ==> summary_fits(
            s,
            meeting_id,
            work,
        ),
{
    lemma_first_holds(s.meetings, meeting_is(meeting_id));
    if exists|i: int|
        0 <= i < s.summaries.len() && (#[trigger] s.summaries[i]).meeting_id == meeting_id
            && s.summaries[i].window_end_ms == work.end_ms {
        let i = choose|i: int|
            0 <= i < s.summaries.len() && (#[trigger] s.summaries[i]).meeting_id == meeting_id
                && s.summaries[i].window_end_ms == work.end_ms;
        assert(summary_at(meeting_id, work.end_ms)(s.summaries[i]));
    }
}

/// What the database says of a document that it refuses: that the meeting is not there, or
/// else that the id of the version is taken.
pub proof fn law_why_a_document_is_refused(
    s: StoreView,
    meeting_id: Seq<char>,
    work: WindowView,
    given: SummaryView,
    board: JsonView,
    ids: SummaryIdsView,
    clock: ClockView,
)
    requires
        summary_completed(s, meeting_id, work, Ok(given), board, ids, clock).2 is Err,
    ensures
        ({
            let e = summary_completed(s, meeting_id, work, Ok(given), board, ids, clock).2->Err_0;
            if forall|i: int|
                0 <= i < s.meetings.len() ==> (#[trigger] s.meetings[i]).id != meeting_id {
                e == reference_broken()
            } else {
                e == key_taken("meeting_board_versions.id"@)
            }
        }),
{
    let p = meeting_is(meeting_id);
    lemma_first_holds(s.meetings, p);
    if any(s.meetings, p) {
        let i = choose|i: int| 0 <= i < s.meetings.len() && p(#[trigger] s.meetings[i]);
        assert(s.meetings[i].id == meeting_id);
        let version = (s.latest_version(meeting_id) + 1) as i64;
        let g = advancing(meeting_id, version, (work.end_ms + work.window_ms) as i64);
        lemma_first_of_map(s.meetings, p, g);
    }
}

} // verus!
