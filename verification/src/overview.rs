//! The list of all meetings, and the audio of a segment.
use vstd::prelude::*;

use crate::boards::summary_of;
use crate::error::{AppError, AppErrorView};
use crate::events::int_json;
use crate::json::{integer_json, json_number, Json, JsonView};
use crate::meetings::{law_meeting_is_shown_as_it_is, meeting_json, meeting_members, shows_meeting};
use crate::rows::{
    any, first, is_first, json_of_rows, lemma_first_holds, lemma_first_is, select_rows, views,
};
use crate::segments::segment_of;
use crate::speakers::{speaker_of, text_result};
use crate::store::{
    meeting_status_name, segment_in, Meeting, MeetingStatus, MeetingView, Segment, SegmentStatus,
    SegmentView, Speaker, SpeakerView, Store, StoreView, Summary, SummaryRowView,
};
use crate::text::{opt_str, text_eq};

verus! {

/// A meeting of a status, where one is given.
pub open spec fn meeting_listed(status: Option<Seq<char>>) -> spec_fn(MeetingView) -> bool {
    |m: MeetingView| status is None || status == Some(meeting_status_name(m.status))
}

/// A segment of a meeting that is transcribed.
pub open spec fn transcribed_of(meeting_id: Seq<char>) -> spec_fn(SegmentView) -> bool {
    |g: SegmentView| g.meeting_id == meeting_id && g.status == SegmentStatus::Completed
}

/// A meeting in the list, with how much it has of everything.
pub open spec fn meeting_entry(s: StoreView) -> spec_fn(MeetingView) -> JsonView {
    |m: MeetingView|
        JsonView::Object(
            meeting_members(m).insert(
                "segment_count"@,
                int_json(s.segments.filter(segment_of(m.id)).len() as i64),
            ).insert(
                "completed_segment_count"@,
                int_json(s.segments.filter(transcribed_of(m.id)).len() as i64),
            ).insert(
                "speaker_count"@,
                int_json(s.speakers.filter(speaker_of(m.id)).len() as i64),
            ).insert(
                "summary_count"@,
                int_json(s.summaries.filter(summary_of(m.id)).len() as i64),
            ),
        )
}

/// The meetings of a status, where one is given, the newest first, as a client sees
/// them.
pub open spec fn meetings_listed(s: StoreView, status: Option<Seq<char>>) -> JsonView {
    JsonView::Array(
        s.meetings.filter(meeting_listed(status)).reverse().map_values(meeting_entry(s)),
    )
}

/// Where the audio of a segment is stored.
pub open spec fn audio_of(s: StoreView, meeting_id: Seq<char>, segment_id: Seq<char>) -> Result<
    Seq<char>,
    AppErrorView,
> {
    match first(s.segments, segment_in(segment_id, meeting_id)) {
        Some(g) => if g.file_path.len() == 0 {
            Err(AppErrorView::NotFound)
        } else {
            Ok(g.file_path)
        },
        None => Err(AppErrorView::NotFound),
    }
}

/// Whether all that is to be counted can be.
pub open spec fn is_countable(s: StoreView) -> bool {
    s.segments.len() <= i64::MAX && s.speakers.len() <= i64::MAX && s.summaries.len() <= i64::MAX
}

impl Store {
    /// Whether the rows of all meetings can be counted.
    pub fn can_count_rows(&self) -> (b: bool)
        ensures
            b == is_countable(self@),
    {
        self.segments.len() as u128 <= i64::MAX as u128 && self.speakers.len() as u128
            <= i64::MAX as u128 && self.summaries.len() as u128 <= i64::MAX as u128
    }

    fn meeting_entry(&self, m: &Meeting) -> (json: Json)
        requires
            is_countable(self@),
        ensures
            json@ == meeting_entry(self@)(m@),
    {
        let id = m.id.as_str();
        let segments = select_rows(
            &self.segments,
            |g: &Segment| -> (b: bool)
                ensures b == segment_of(id@)(g@)
                { text_eq(g.meeting_id.as_str(), id) },
            Ghost(segment_of(id@)),
        );
        let transcribed = select_rows(
            &self.segments,
            |g: &Segment| -> (b: bool)
                ensures b == transcribed_of(id@)(g@)
                { text_eq(g.meeting_id.as_str(), id) && g.status == SegmentStatus::Completed },
            Ghost(transcribed_of(id@)),
        );
        let speakers = select_rows(
            &self.speakers,
            |r: &Speaker| -> (b: bool)
                ensures b == speaker_of(id@)(r@)
                { text_eq(r.meeting_id.as_str(), id) },
            Ghost(speaker_of(id@)),
        );
        let summaries = select_rows(
            &self.summaries,
            |r: &Summary| -> (b: bool)
                ensures b == summary_of(id@)(r@)
                { text_eq(r.meeting_id.as_str(), id) },
            Ghost(summary_of(id@)),
        );
        proof {
            self@.segments.lemma_filter_len(segment_of(id@));
            self@.segments.lemma_filter_len(transcribed_of(id@));
            self@.speakers.lemma_filter_len(speaker_of(id@));
            self@.summaries.lemma_filter_len(summary_of(id@));
            assert(views(segments@).len() == segments@.len());
            assert(views(transcribed@).len() == transcribed@.len());
            assert(views(speakers@).len() == speakers@.len());
            assert(views(summaries@).len() == summaries@.len());
        }
        let mut json = meeting_json(m);
        json.set("segment_count", integer_json(segments.len() as i64));
        json.set("completed_segment_count", integer_json(transcribed.len() as i64));
        json.set("speaker_count", integer_json(speakers.len() as i64));
        json.set("summary_count", integer_json(summaries.len() as i64));
        json
    }

    /// Lists the meetings of a status, where one is given; the newest first.
    pub fn list_meetings(&self, status: Option<&str>) -> (json: Json)
        requires
            is_countable(self@),
        ensures
            json@ == meetings_listed(self@, opt_str(status)),
    {
        let found = select_rows(
            &self.meetings,
            |m: &Meeting| -> (b: bool)
                ensures b == meeting_listed(opt_str(status))(m@)
                {
                    match status {
                        Some(name) => text_eq(m.status.as_str(), name),
                        None => true,
                    }
                },
            Ghost(meeting_listed(opt_str(status))),
        );
        let mut newest: Vec<&Meeting> = Vec::new();
        let mut i: usize = found.len();
        while i > 0
            invariant
                i <= found@.len(),
                newest@.len() == found@.len() - i,
                forall|k: int|
                    0 <= k < newest@.len() ==> (#[trigger] newest@[k])@ == found@[found@.len() - 1
                        - k]@,
            decreases i,
        {
            i -= 1;
            newest.push(found[i]);
        }
        assert(views(newest@) =~= views(found@).reverse());
        json_of_rows(
            &newest,
            |m: &&Meeting| -> (out: Json)
                requires is_countable(self@)
                ensures out@ == meeting_entry(self@)(m@)
                { self.meeting_entry(m) },
            Ghost(meeting_entry(self@)),
        )
    }

    /// Where the audio of a segment is stored.
    pub fn segment_audio(&self, meeting_id: &str, segment_id: &str) -> (path: Result<
        String,
        AppError,
    >)
        ensures
            text_result(path) == audio_of(self@, meeting_id@, segment_id@),
    {
        match self.segment_of(segment_id, meeting_id) {
            Some(g) => if g.file_path.as_str().is_empty() {
                Err(AppError::NotFound)
            } else {
                Ok(g.file_path.clone())
            },
            None => Err(AppError::NotFound),
        }
    }
}

proof fn lemma_entry_names()
    ensures
        "segment_count"@.len() == 13,
        "completed_segment_count"@.len() == 23,
        "speaker_count"@.len() == 13,
        "summary_count"@.len() == 13,
        "board_version"@.len() == 13,
        "segment_count"@ != "speaker_count"@,
        "segment_count"@ != "summary_count"@,
        "speaker_count"@ != "summary_count"@,
        "board_version"@ != "segment_count"@,
        "board_version"@ != "speaker_count"@,
        "board_version"@ != "summary_count"@,
        "id"@.len() == 2,
        "title"@.len() == 5,
        "status"@.len() == 6,
        "started_at"@.len() == 10,
        "ended_at"@.len() == 8,
        "next_summary_end_ms"@.len() == 19,
        "summary_window_ms"@.len() == 17,
{
    reveal_strlit("segment_count");
    reveal_strlit("completed_segment_count");
    reveal_strlit("speaker_count");
    reveal_strlit("summary_count");
    reveal_strlit("board_version");
    reveal_strlit("id");
    reveal_strlit("title");
    reveal_strlit("status");
    reveal_strlit("started_at");
    reveal_strlit("ended_at");
    reveal_strlit("next_summary_end_ms");
    reveal_strlit("summary_window_ms");
    assert("segment_count"@[1] == 'e' && "speaker_count"@[1] == 'p' && "summary_count"@[1] == 'u'
        && "board_version"@[1] == 'o');
}

/// The entry of a meeting in the list shows the meeting as it is, and how many segments,
/// transcribed segments, speakers and summaries it has, each counted for itself, and
/// nothing else.
pub proof fn law_entry_counts_what_the_meeting_has(s: StoreView, m: MeetingView)
    ensures
        ({
            let o = meeting_entry(s)(m)->Object_0;
            &&& meeting_entry(s)(m) is Object
            &&& o.dom() == set![
                "id"@,
                "title"@,
                "status"@,
                "started_at"@,
                "ended_at"@,
                "board_version"@,
                "next_summary_end_ms"@,
                "summary_window_ms"@,
                "segment_count"@,
                "completed_segment_count"@,
                "speaker_count"@,
                "summary_count"@,
            ]
            &&& shows_meeting(o, m)
            &&& o["segment_count"@] == JsonView::Number(
                json_number(
                    s.segments.filter(|g: SegmentView| g.meeting_id == m.id).len() as i64,
                ),
            )
            &&& o["completed_segment_count"@] == JsonView::Number(
                json_number(
                    s.segments.filter(
                        |g: SegmentView|
                            g.meeting_id == m.id && g.status == SegmentStatus::Completed,
                    ).len() as i64,
                ),
            )
            &&& o["speaker_count"@] == JsonView::Number(
                json_number(
                    s.speakers.filter(|r: SpeakerView| r.meeting_id == m.id).len() as i64,
                ),
            )
            &&& o["summary_count"@] == JsonView::Number(
                json_number(
                    s.summaries.filter(|r: SummaryRowView| r.meeting_id == m.id).len() as i64,
                ),
            )
        }),
{
    lemma_entry_names();
    law_meeting_is_shown_as_it_is(m);
    assert((|g: SegmentView| g.meeting_id == m.id) =~= segment_of(m.id));
    assert((|g: SegmentView| g.meeting_id == m.id && g.status == SegmentStatus::Completed)
        =~= transcribed_of(m.id));
    assert((|r: SpeakerView| r.meeting_id == m.id) =~= speaker_of(m.id));
    assert((|r: SummaryRowView| r.meeting_id == m.id) =~= summary_of(m.id));
    assert(meeting_entry(s)(m)->Object_0.dom() =~= set![
        "id"@,
        "title"@,
        "status"@,
        "started_at"@,
        "ended_at"@,
        "board_version"@,
        "next_summary_end_ms"@,
        "summary_window_ms"@,
        "segment_count"@,
        "completed_segment_count"@,
        "speaker_count"@,
        "summary_count"@,
    ]);
}

/// The list of meetings has every meeting that goes on where those are asked for, every one
/// that is over where those are, and every one where no status is asked for; no other, each
/// once, the one that was opened last first.
pub proof fn law_meetings_are_listed(s: StoreView, status: Option<Seq<char>>)
    ensures
        ({
            let rows = s.meetings.filter(
                |m: MeetingView|
                    match status {
                        None => true,
                        Some(name) => (name == "running"@ && m.status == MeetingStatus::Running)
                            || (name == "ended"@ && m.status == MeetingStatus::Ended),
                    },
            );
            let v = meetings_listed(s, status);
            &&& v is Array
            &&& v->Array_0.len() == rows.len()
            &&& forall|i: int|
                0 <= i < rows.len() ==> #[trigger] v->Array_0[i] == meeting_entry(s)(
                    rows[rows.len() - 1 - i],
                )
        }),
{
    let p = |m: MeetingView|
        match status {
            None => true,
            Some(name) => (name == "running"@ && m.status == MeetingStatus::Running) || (name
                == "ended"@ && m.status == MeetingStatus::Ended),
        };
    reveal_strlit("running");
    reveal_strlit("ended");
    assert("running"@.len() == 7 && "ended"@.len() == 5);
    assert(p =~= meeting_listed(status));
}

/// The audio of a segment is where the segment says, and is only found for a segment of
/// that meeting that has one.
pub proof fn law_audio_is_where_the_segment_says(
    s: StoreView,
    meeting_id: Seq<char>,
    segment_id: Seq<char>,
    at: int,
)
    requires
        0 <= at <= s.segments.len(),
        forall|i: int|
            0 <= i < at ==> !((#[trigger] s.segments[i]).id == segment_id
                && s.segments[i].meeting_id == meeting_id),
        at < s.segments.len() ==> s.segments[at].id == segment_id && s.segments[at].meeting_id
            == meeting_id,
    ensures
        at < s.segments.len() && s.segments[at].file_path.len() > 0 ==> audio_of(
            s,
            meeting_id,
            segment_id,
        ) == Ok::<Seq<char>, AppErrorView>(s.segments[at].file_path),
        at == s.segments.len() || s.segments[at].file_path.len() == 0 ==> audio_of(
            s,
            meeting_id,
            segment_id,
        ) == Err::<Seq<char>, AppErrorView>(AppErrorView::NotFound),
{
    let p = segment_in(segment_id, meeting_id);
    lemma_first_holds(s.segments, p);
    if at < s.segments.len() {
        assert(is_first(s.segments, p, at));
        lemma_first_is(s.segments, p, at);
        assert(any(s.segments, p));
    }
}

} // verus!
