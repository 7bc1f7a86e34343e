//! What the service tells those who follow a meeting.
use vstd::prelude::*;

use crate::json::{
    integer_json, json_number, json_text, opt_str_json, opt_string_json, string_json, write_json,
    Json, JsonView,
};
use crate::text::{opt_text, text_eq};

verus! {

/// Something that happened in a meeting.
#[derive(Debug, PartialEq)]
pub struct MeetingEvent {
    pub meeting_id: String,
    /// What happened.
    pub kind: &'static str,
    /// More about it.
    pub data: Json,
}

/// The model of a [`MeetingEvent`].
pub struct EventView {
    pub meeting_id: Seq<char>,
    pub kind: Seq<char>,
    pub data: JsonView,
}

impl View for MeetingEvent {
    type V = EventView;

    open spec fn view(&self) -> EventView {
        EventView { meeting_id: self.meeting_id@, kind: self.kind@, data: self.data@ }
    }
}

/// The models of events.
pub open spec fn event_views(events: Seq<MeetingEvent>) -> Seq<EventView> {
    events.map_values(|e: MeetingEvent| e@)
}

/// An object without members.
pub open spec fn no_members() -> Map<Seq<char>, JsonView> {
    Map::empty()
}

/// An integer as a value.
pub open spec fn int_json(n: i64) -> JsonView {
    JsonView::Number(json_number(n))
}

/// An optional integer as a value: the integer, or null.
pub open spec fn opt_int_json(n: Option<i64>) -> JsonView {
    match n {
        Some(n) => int_json(n),
        None => JsonView::Null,
    }
}

fn opt_integer_json(n: Option<i64>) -> (json: Json)
    ensures
        json@ == opt_int_json(n),
{
    match n {
        Some(n) => integer_json(n),
        None => Json::Null,
    }
}

fn event(meeting_id: &str, kind: &'static str, data: Json) -> (e: MeetingEvent)
    ensures
        e@ == (EventView { meeting_id: meeting_id@, kind: kind@, data: data@ }),
{
    MeetingEvent { meeting_id: meeting_id.to_owned(), kind, data }
}

/// A segment was uploaded.
pub open spec fn segment_uploaded(
    meeting_id: Seq<char>,
    segment_id: Seq<char>,
    sequence_no: i64,
    start_ms: i64,
    end_ms: i64,
) -> EventView {
    EventView {
        meeting_id,
        kind: "segment.uploaded"@,
        data: JsonView::Object(
            no_members().insert("segment_id"@, JsonView::Str(segment_id)).insert(
                "sequence_no"@,
                int_json(sequence_no),
            ).insert("start_ms"@, int_json(start_ms)).insert("end_ms"@, int_json(end_ms)),
        ),
    }
}

/// Tells that a segment was uploaded.
pub fn tell_segment_uploaded(
    meeting_id: &str,
    segment_id: &str,
    sequence_no: i64,
    start_ms: i64,
    end_ms: i64,
) -> (e: MeetingEvent)
    ensures
        e@ == segment_uploaded(meeting_id@, segment_id@, sequence_no, start_ms, end_ms),
{
    let mut data = Json::Null;
    data.set("segment_id", string_json(segment_id));
    data.set("sequence_no", integer_json(sequence_no));
    data.set("start_ms", integer_json(start_ms));
    data.set("end_ms", integer_json(end_ms));
    event(meeting_id, "segment.uploaded", data)
}

/// A window of live audio was stored as a segment.
pub open spec fn segment_recorded(
    meeting_id: Seq<char>,
    segment_id: Seq<char>,
    sequence_no: i64,
    start_ms: i64,
    end_ms: i64,
) -> EventView {
    let uploaded = segment_uploaded(meeting_id, segment_id, sequence_no, start_ms, end_ms);
    EventView {
        data: JsonView::Object(uploaded.data->Object_0.insert("source"@, JsonView::Str("livekit"@))),
        ..uploaded
    }
}

/// Tells that a window of live audio was stored as a segment.
pub fn tell_segment_recorded(
    meeting_id: &str,
    segment_id: &str,
    sequence_no: i64,
    start_ms: i64,
    end_ms: i64,
) -> (e: MeetingEvent)
    ensures
        e@ == segment_recorded(meeting_id@, segment_id@, sequence_no, start_ms, end_ms),
{
    let told = tell_segment_uploaded(meeting_id, segment_id, sequence_no, start_ms, end_ms);
    let mut data = told.data;
    data.set("source", string_json("livekit"));
    MeetingEvent { meeting_id: told.meeting_id, kind: told.kind, data }
}

/// A segment was transcribed.
pub open spec fn segment_transcribed(
    meeting_id: Seq<char>,
    segment_id: Seq<char>,
    sequence_no: i64,
    speaker_id: Option<Seq<char>>,
    speaker_name: Option<Seq<char>>,
    start_ms: i64,
    end_ms: i64,
    transcript: Seq<char>,
) -> EventView {
    EventView {
        meeting_id,
        kind: "segment.transcribed"@,
        data: JsonView::Object(
            no_members().insert("segment_id"@, JsonView::Str(segment_id)).insert(
                "sequence_no"@,
                int_json(sequence_no),
            ).insert("speaker_id"@, opt_str_json(speaker_id)).insert(
                "speaker_name"@,
                opt_str_json(speaker_name),
            ).insert("start_ms"@, int_json(start_ms)).insert("end_ms"@, int_json(end_ms)).insert(
                "transcript"@,
                JsonView::Str(transcript),
            ),
        ),
    }
}

/// Tells that a segment was transcribed.
pub fn tell_segment_transcribed(
    meeting_id: &str,
    segment_id: &str,
    sequence_no: i64,
    speaker_id: &Option<String>,
    speaker_name: &Option<String>,
    start_ms: i64,
    end_ms: i64,
    transcript: &str,
) -> (e: MeetingEvent)
    ensures
        e@ == segment_transcribed(
            meeting_id@,
            segment_id@,
            sequence_no,
            opt_text(*speaker_id),
            opt_text(*speaker_name),
            start_ms,
            end_ms,
            transcript@,
        ),
{
    let mut data = Json::Null;
    data.set("segment_id", string_json(segment_id));
    data.set("sequence_no", integer_json(sequence_no));
    data.set("speaker_id", opt_string_json(speaker_id));
    data.set("speaker_name", opt_string_json(speaker_name));
    data.set("start_ms", integer_json(start_ms));
    data.set("end_ms", integer_json(end_ms));
    data.set("transcript", string_json(transcript));
    event(meeting_id, "segment.transcribed", data)
}

/// The transcription of a segment failed for good.
pub open spec fn segment_failed(
    meeting_id: Seq<char>,
    segment_id: Seq<char>,
    sequence_no: Option<i64>,
) -> EventView {
    EventView {
        meeting_id,
        kind: "segment.failed"@,
        data: JsonView::Object(
            no_members().insert("segment_id"@, JsonView::Str(segment_id)).insert(
                "sequence_no"@,
                opt_int_json(sequence_no),
            ),
        ),
    }
}

/// Tells that the transcription of a segment failed for good.
pub fn tell_segment_failed(meeting_id: &str, segment_id: &str, sequence_no: Option<i64>) -> (e:
    MeetingEvent)
    ensures
        e@ == segment_failed(meeting_id@, segment_id@, sequence_no),
{
    let mut data = Json::Null;
    data.set("segment_id", string_json(segment_id));
    data.set("sequence_no", opt_integer_json(sequence_no));
    event(meeting_id, "segment.failed", data)
}

/// A segment was edited.
pub open spec fn segment_updated(meeting_id: Seq<char>, data: JsonView) -> EventView {
    EventView { meeting_id, kind: "segment.updated"@, data }
}

/// Tells that a segment was edited.
pub fn tell_segment_updated(meeting_id: &str, data: Json) -> (e: MeetingEvent)
    ensures
        e@ == segment_updated(meeting_id@, data@),
{
    event(meeting_id, "segment.updated", data)
}

/// A summary was made.
pub open spec fn summary_created(
    meeting_id: Seq<char>,
    summary_id: Seq<char>,
    start_ms: i64,
    end_ms: i64,
    content: JsonView,
) -> EventView {
    EventView {
        meeting_id,
        kind: "summary.created"@,
        data: JsonView::Object(
            no_members().insert("summary_id"@, JsonView::Str(summary_id)).insert(
                "window_start_ms"@,
                int_json(start_ms),
            ).insert("window_end_ms"@, int_json(end_ms)).insert("content"@, content),
        ),
    }
}

/// Tells that a summary was made.
pub fn tell_summary_created(
    meeting_id: &str,
    summary_id: &str,
    start_ms: i64,
    end_ms: i64,
    content: Json,
) -> (e: MeetingEvent)
    ensures
        e@ == summary_created(meeting_id@, summary_id@, start_ms, end_ms, content@),
{
    let mut data = Json::Null;
    data.set("summary_id", string_json(summary_id));
    data.set("window_start_ms", integer_json(start_ms));
    data.set("window_end_ms", integer_json(end_ms));
    data.set("content", content);
    event(meeting_id, "summary.created", data)
}

/// The board changed because a summary was added to it.
pub open spec fn board_extended(meeting_id: Seq<char>, version: i64, content: JsonView) -> EventView {
    EventView {
        meeting_id,
        kind: "board.updated"@,
        data: JsonView::Object(
            no_members().insert("version"@, int_json(version)).insert("content"@, content).insert(
                "reason"@,
                JsonView::Str("summary"@),
            ),
        ),
    }
}

/// Tells that the board changed because a summary was added to it.
pub fn tell_board_extended(meeting_id: &str, version: i64, content: Json) -> (e: MeetingEvent)
    ensures
        e@ == board_extended(meeting_id@, version, content@),
{
    let mut data = Json::Null;
    data.set("version", integer_json(version));
    data.set("content", content);
    data.set("reason", string_json("summary"));
    event(meeting_id, "board.updated", data)
}

/// The board went back to an earlier version, to be built again.
pub open spec fn board_rebuilt(meeting_id: Seq<char>, version: i64) -> EventView {
    EventView {
        meeting_id,
        kind: "board.updated"@,
        data: JsonView::Object(
            no_members().insert("version"@, int_json(version)).insert(
                "reason"@,
                JsonView::Str("rebuild"@),
            ),
        ),
    }
}

/// Tells that the board went back to an earlier version.
pub fn tell_board_rebuilt(meeting_id: &str, version: i64) -> (e: MeetingEvent)
    ensures
        e@ == board_rebuilt(meeting_id@, version),
{
    let mut data = Json::Null;
    data.set("version", integer_json(version));
    data.set("reason", string_json("rebuild"));
    event(meeting_id, "board.updated", data)
}

/// A meeting ended.
pub open spec fn meeting_ended(meeting_id: Seq<char>) -> EventView {
    EventView {
        meeting_id,
        kind: "meeting.ended"@,
        data: JsonView::Object(no_members().insert("meeting_id"@, JsonView::Str(meeting_id))),
    }
}

/// Tells that a meeting ended.
pub fn tell_meeting_ended(meeting_id: &str) -> (e: MeetingEvent)
    ensures
        e@ == meeting_ended(meeting_id@),
{
    let mut data = Json::Null;
    data.set("meeting_id", string_json(meeting_id));
    event(meeting_id, "meeting.ended", data)
}

/// The service gave up joining the room of a meeting.
pub open spec fn ingest_failed(meeting_id: Seq<char>, error: Seq<char>, attempts: i64) -> EventView {
    EventView {
        meeting_id,
        kind: "ingest.failed"@,
        data: JsonView::Object(
            no_members().insert("error"@, JsonView::Str(error)).insert(
                "attempts"@,
                int_json(attempts),
            ),
        ),
    }
}

/// Tells that the service gave up joining the room of a meeting.
pub fn tell_ingest_failed(meeting_id: &str, error: &str, attempts: i64) -> (e: MeetingEvent)
    ensures
        e@ == ingest_failed(meeting_id@, error@, attempts),
{
    let mut data = Json::Null;
    data.set("error", string_json(error));
    data.set("attempts", integer_json(attempts));
    event(meeting_id, "ingest.failed", data)
}

/// What a follower of a meeting is sent of an event: its kind and the text of
/// its data where it is about that meeting, else nothing.
pub open spec fn delivered(e: EventView, meeting_id: Seq<char>) -> Option<(Seq<char>, Seq<char>)> {
    if e.meeting_id == meeting_id {
        Some((e.kind, json_text(e.data)))
    } else {
        None
    }
}

/// What a follower of a meeting is sent of an event: its kind and the text of
/// its data where it is about that meeting, else nothing.
pub fn deliver(event: MeetingEvent, meeting_id: &str) -> (sent: Option<(&'static str, String)>)
    ensures
        delivered(event@, meeting_id@) == match sent {
            Some((kind, text)) => Some((kind@, text@)),
            None => None,
        },
{
    if text_eq(event.meeting_id.as_str(), meeting_id) {
        Some((event.kind, write_json(event.data)))
    } else {
        None
    }
}

proof fn lemma_data_names()
    ensures
        "segment_id"@.len() == 10,
        "sequence_no"@.len() == 11,
        "start_ms"@.len() == 8,
        "end_ms"@.len() == 6,
        "source"@.len() == 6,
        "speaker_id"@.len() == 10,
        "speaker_name"@.len() == 12,
        "transcript"@.len() == 10,
        "summary_id"@.len() == 10,
        "window_start_ms"@.len() == 15,
        "window_end_ms"@.len() == 13,
        "content"@.len() == 7,
        "version"@.len() == 7,
        "reason"@.len() == 6,
        "error"@.len() == 5,
        "attempts"@.len() == 8,
        "end_ms"@ != "source"@,
        "segment_id"@ != "speaker_id"@,
        "segment_id"@ != "transcript"@,
        "speaker_id"@ != "transcript"@,
        "content"@ != "version"@,
{
    reveal_strlit("segment_id");
    reveal_strlit("sequence_no");
    reveal_strlit("start_ms");
    reveal_strlit("end_ms");
    reveal_strlit("source");
    reveal_strlit("speaker_id");
    reveal_strlit("speaker_name");
    reveal_strlit("transcript");
    reveal_strlit("summary_id");
    reveal_strlit("window_start_ms");
    reveal_strlit("window_end_ms");
    reveal_strlit("content");
    reveal_strlit("version");
    reveal_strlit("reason");
    reveal_strlit("error");
    reveal_strlit("attempts");
    assert("end_ms"@[0] == 'e' && "source"@[0] == 's');
    assert("segment_id"@[1] == 'e' && "speaker_id"@[1] == 'p' && "transcript"@[1] == 'r');
    assert("content"@[0] == 'c' && "version"@[0] == 'v');
}

/// What is told of a segment that was uploaded: which it is, its number and its times, and
/// nothing else. Of one that was recorded live the same is told, and where it comes from.
pub proof fn law_what_is_told_of_a_new_segment(
    meeting_id: Seq<char>,
    segment_id: Seq<char>,
    sequence_no: i64,
    start_ms: i64,
    end_ms: i64,
)
    ensures
        ({
            let e = segment_uploaded(meeting_id, segment_id, sequence_no, start_ms, end_ms);
            let live = segment_recorded(meeting_id, segment_id, sequence_no, start_ms, end_ms);
            &&& e.meeting_id == meeting_id && live.meeting_id == meeting_id
            &&& e.kind == "segment.uploaded"@ && live.kind == "segment.uploaded"@
            &&& e.data is Object && live.data is Object
            &&& e.data->Object_0.dom() == set![
                "segment_id"@,
                "sequence_no"@,
                "start_ms"@,
                "end_ms"@,
            ]
            &&& live.data->Object_0.dom() == e.data->Object_0.dom().insert("source"@)
            &&& e.data->Object_0["segment_id"@] == JsonView::Str(segment_id)
            &&& e.data->Object_0["sequence_no"@] == JsonView::Number(json_number(sequence_no))
            &&& e.data->Object_0["start_ms"@] == JsonView::Number(json_number(start_ms))
            &&& e.data->Object_0["end_ms"@] == JsonView::Number(json_number(end_ms))
            &&& live.data->Object_0["segment_id"@] == JsonView::Str(segment_id)
            &&& live.data->Object_0["sequence_no"@] == JsonView::Number(json_number(sequence_no))
            &&& live.data->Object_0["start_ms"@] == JsonView::Number(json_number(start_ms))
            &&& live.data->Object_0["end_ms"@] == JsonView::Number(json_number(end_ms))
            &&& live.data->Object_0["source"@] == JsonView::Str("livekit"@)
        }),
{
    lemma_data_names();
    let e = segment_uploaded(meeting_id, segment_id, sequence_no, start_ms, end_ms);
    assert(e.data->Object_0.dom() =~= set![
        "segment_id"@,
        "sequence_no"@,
        "start_ms"@,
        "end_ms"@,
    ]);
    let live = segment_recorded(meeting_id, segment_id, sequence_no, start_ms, end_ms);
    assert(live.data->Object_0.dom() =~= e.data->Object_0.dom().insert("source"@));
}

/// What is told of a segment that was transcribed: which it is, its number, who speaks, its
/// times and its text, and nothing else; what it does not have is null. Of one that could
/// not be transcribed it is told which it is, and its number.
pub proof fn law_what_is_told_of_a_transcription(
    meeting_id: Seq<char>,
    segment_id: Seq<char>,
    sequence_no: i64,
    speaker_id: Option<Seq<char>>,
    speaker_name: Option<Seq<char>>,
    start_ms: i64,
    end_ms: i64,
    transcript: Seq<char>,
)
    ensures
        ({
            let e = segment_transcribed(
                meeting_id,
                segment_id,
                sequence_no,
                speaker_id,
                speaker_name,
                start_ms,
                end_ms,
                transcript,
            );
            &&& e.meeting_id == meeting_id
            &&& e.kind == "segment.transcribed"@
            &&& e.data is Object
            &&& e.data->Object_0.dom() == set![
                "segment_id"@,
                "sequence_no"@,
                "speaker_id"@,
                "speaker_name"@,
                "start_ms"@,
                "end_ms"@,
                "transcript"@,
            ]
            &&& e.data->Object_0["segment_id"@] == JsonView::Str(segment_id)
            &&& e.data->Object_0["sequence_no"@] == JsonView::Number(json_number(sequence_no))
            &&& e.data->Object_0["speaker_id"@] == match speaker_id {
                Some(t) => JsonView::Str(t),
                None => JsonView::Null,
            }
            &&& e.data->Object_0["speaker_name"@] == match speaker_name {
                Some(t) => JsonView::Str(t),
                None => JsonView::Null,
            }
            &&& e.data->Object_0["start_ms"@] == JsonView::Number(json_number(start_ms))
            &&& e.data->Object_0["end_ms"@] == JsonView::Number(json_number(end_ms))
            &&& e.data->Object_0["transcript"@] == JsonView::Str(transcript)
        }),
        ({
            let e = segment_failed(meeting_id, segment_id, Some(sequence_no));
            let unknown = segment_failed(meeting_id, segment_id, None);
            &&& e.meeting_id == meeting_id && unknown.meeting_id == meeting_id
            &&& e.kind == "segment.failed"@ && unknown.kind == "segment.failed"@
            &&& e.data is Object && unknown.data is Object
            &&& e.data->Object_0.dom() == set!["segment_id"@, "sequence_no"@]
            &&& unknown.data->Object_0.dom() == set!["segment_id"@, "sequence_no"@]
            &&& e.data->Object_0["segment_id"@] == JsonView::Str(segment_id)
            &&& unknown.data->Object_0["segment_id"@] == JsonView::Str(segment_id)
            &&& e.data->Object_0["sequence_no"@] == JsonView::Number(json_number(sequence_no))
            &&& unknown.data->Object_0["sequence_no"@] == JsonView::Null
        }),
{
    lemma_data_names();
    let e = segment_transcribed(
        meeting_id,
        segment_id,
        sequence_no,
        speaker_id,
        speaker_name,
        start_ms,
        end_ms,
        transcript,
    );
    assert(e.data->Object_0.dom() =~= set![
        "segment_id"@,
        "sequence_no"@,
        "speaker_id"@,
        "speaker_name"@,
        "start_ms"@,
        "end_ms"@,
        "transcript"@,
    ]);
    let failed = segment_failed(meeting_id, segment_id, Some(sequence_no));
    let unknown = segment_failed(meeting_id, segment_id, None);
    assert(failed.data->Object_0.dom() =~= set!["segment_id"@, "sequence_no"@]);
    assert(unknown.data->Object_0.dom() =~= set!["segment_id"@, "sequence_no"@]);
}

/// What is told of a summary: which it is, its window, and its content; of a board that it
/// was added to, the version and the content and that it was a summary; of a board that
/// went back, the version and that it is built again.
pub proof fn law_what_is_told_of_a_board(
    meeting_id: Seq<char>,
    summary_id: Seq<char>,
    start_ms: i64,
    end_ms: i64,
    version: i64,
    content: JsonView,
)
    ensures
        ({
            let e = summary_created(meeting_id, summary_id, start_ms, end_ms, content);
            &&& e.meeting_id == meeting_id
            &&& e.kind == "summary.created"@
            &&& e.data is Object
            &&& e.data->Object_0.dom() == set![
                "summary_id"@,
                "window_start_ms"@,
                "window_end_ms"@,
                "content"@,
            ]
            &&& e.data->Object_0["summary_id"@] == JsonView::Str(summary_id)
            &&& e.data->Object_0["window_start_ms"@] == JsonView::Number(json_number(start_ms))
            &&& e.data->Object_0["window_end_ms"@] == JsonView::Number(json_number(end_ms))
            &&& e.data->Object_0["content"@] == content
        }),
        ({
            let e = board_extended(meeting_id, version, content);
            &&& e.meeting_id == meeting_id
            &&& e.kind == "board.updated"@
            &&& e.data is Object
            &&& e.data->Object_0.dom() == set!["version"@, "content"@, "reason"@]
            &&& e.data->Object_0["version"@] == JsonView::Number(json_number(version))
            &&& e.data->Object_0["content"@] == content
            &&& e.data->Object_0["reason"@] == JsonView::Str("summary"@)
        }),
        ({
            let e = board_rebuilt(meeting_id, version);
            &&& e.meeting_id == meeting_id
            &&& e.kind == "board.updated"@
            &&& e.data is Object
            &&& e.data->Object_0.dom() == set!["version"@, "reason"@]
            &&& e.data->Object_0["version"@] == JsonView::Number(json_number(version))
            &&& e.data->Object_0["reason"@] == JsonView::Str("rebuild"@)
        }),
{
    lemma_data_names();
    assert(summary_created(
        meeting_id,
        summary_id,
        start_ms,
        end_ms,
        content,
    ).data->Object_0.dom() =~= set![
        "summary_id"@,
        "window_start_ms"@,
        "window_end_ms"@,
        "content"@,
    ]);
    assert(board_extended(meeting_id, version, content).data->Object_0.dom() =~= set![
        "version"@,
        "content"@,
        "reason"@,
    ]);
    assert(board_rebuilt(meeting_id, version).data->Object_0.dom() =~= set![
        "version"@,
        "reason"@,
    ]);
}

/// What is told when a meeting ends: which one; and when its room could not be joined: why,
/// and after how many attempts.
pub proof fn law_what_is_told_of_a_meeting(
    meeting_id: Seq<char>,
    error: Seq<char>,
    attempts: i64,
    data: JsonView,
)
    ensures
        ({
            let e = meeting_ended(meeting_id);
            &&& e.meeting_id == meeting_id
            &&& e.kind == "meeting.ended"@
            &&& e.data is Object
            &&& e.data->Object_0.dom() == set!["meeting_id"@]
            &&& e.data->Object_0["meeting_id"@] == JsonView::Str(meeting_id)
        }),
        ({
            let e = ingest_failed(meeting_id, error, attempts);
            &&& e.meeting_id == meeting_id
            &&& e.kind == "ingest.failed"@
            &&& e.data is Object
            &&& e.data->Object_0.dom() == set!["error"@, "attempts"@]
            &&& e.data->Object_0["error"@] == JsonView::Str(error)
            &&& e.data->Object_0["attempts"@] == JsonView::Number(json_number(attempts))
        }),
        segment_updated(meeting_id, data).meeting_id == meeting_id,
        segment_updated(meeting_id, data).kind == "segment.updated"@,
        segment_updated(meeting_id, data).data == data,
{
    lemma_data_names();
    assert(meeting_ended(meeting_id).data->Object_0.dom() =~= set!["meeting_id"@]);
    assert(ingest_failed(meeting_id, error, attempts).data->Object_0.dom() =~= set![
        "error"@,
        "attempts"@,
    ]);
}

/// Who follows a meeting is sent every event of that meeting, with its kind and its data,
/// and none of another.
pub proof fn law_followers_hear_of_their_meeting(e: EventView, meeting_id: Seq<char>)
    ensures
        delivered(e, meeting_id) is Some <==> e.meeting_id == meeting_id,
        delivered(e, e.meeting_id) == Some((e.kind, json_text(e.data))),
{
}

} // verus!
