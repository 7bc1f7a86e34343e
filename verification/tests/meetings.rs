use diting::error::AppError;
use diting::events::deliver;
use diting::ids::new_id;
use diting::json::{read_json, write_json, Json};
use diting::provider::LocalTranscriber;
use diting::segments::NewSegment;
use diting::store::{
    Board, BoardVersion, Clock, Job, JobStatus, JobType, Meeting, MeetingStatus, Moment, Segment,
    SegmentStatus, Speaker, Store, Summary,
};
use diting::uploads::{stored_file_name, UploadForm};

fn clock(seconds: i64) -> Clock {
    let moment = |n: i64| Moment { seconds: n, text: format!("t{n}") };
    Clock::new(moment(seconds), moment(seconds + 5)).unwrap()
}

fn running() -> Store {
    let mut store = Store::new();
    store.create_meeting_as("test", None, "m", &clock(0)).unwrap();
    store
}

fn segment(id: &str, meeting: &str, speaker: Option<&str>, number: i64) -> Segment {
    Segment {
        id: id.to_string(),
        meeting_id: meeting.to_string(),
        speaker_id: speaker.map(|s| s.to_string()),
        sequence_no: number,
        start_ms: 0,
        end_ms: 1,
        file_path: "audio.wav".to_string(),
        transcript: None,
        status: SegmentStatus::Completed,
    }
}

fn form(fields: &[(&str, &str)], audio: Option<(&str, &[u8])>) -> UploadForm {
    let mut form = UploadForm::new();
    for (name, value) in fields {
        form.take_field(name, value.to_string());
    }
    if let Some((name, bytes)) = audio {
        form.take_audio(Some(name), bytes.to_vec());
    }
    form
}

fn rejected(form: UploadForm) -> (u16, String) {
    let (status, body) = form.check(64 * 1024).unwrap_err().into_response();
    (status, body.get("error").unwrap().as_str().unwrap().to_string())
}

fn records(store: &Store) -> usize {
    store.meetings.len()
        + store.speakers.len()
        + store.segments.len()
        + store.summaries.len()
        + store.boards.len()
        + store.board_versions.len()
        + store.jobs.len()
}

/// Everything that a meeting can have.
fn full(store: &mut Store, id: &str) {
    store.meetings.push(Meeting {
        id: id.into(),
        title: "test".into(),
        status: MeetingStatus::Ended,
        started_at: None,
        ended_at: None,
        next_summary_end_ms: 300_000,
        summary_window_ms: 300_000,
        board_version: 1,
    });
    store.speakers.push(Speaker { id: format!("sp{id}"), meeting_id: id.into(), name: "Alice".into() });
    store.segments.push(segment(&format!("a{id}"), id, Some(&format!("sp{id}")), 1));
    store.summaries.push(Summary {
        id: format!("s{id}"),
        meeting_id: id.into(),
        window_start_ms: 0,
        window_end_ms: 1,
        content_json: "{}".into(),
        created_at: "then".into(),
    });
    store.boards.push(Board {
        meeting_id: id.into(),
        version: 1,
        content_json: "{}".into(),
        updated_at: "then".into(),
    });
    store.board_versions.push(BoardVersion {
        id: format!("v{id}"),
        meeting_id: id.into(),
        version: 1,
        source_summary_id: format!("s{id}"),
        content_json: "{}".into(),
        created_at: "then".into(),
    });
    store.jobs.push(Job {
        id: format!("j{id}"),
        job_type: JobType::Transcribe,
        meeting_id: id.into(),
        target_id: Some(format!("a{id}")),
        status: JobStatus::Pending,
        retry_count: 0,
        available_at: Moment { seconds: 0, text: "t0".into() },
        error_message: None,
    });
}

#[test]
fn deleting_meeting_removes_records_and_audio() {
    let mut s = Store::new();
    full(&mut s, "m");
    s.delete_meeting("m").unwrap();
    assert_eq!(records(&s), 0);
}

#[test]
fn deleting_meeting_keeps_all_others() {
    let mut s = Store::new();
    full(&mut s, "a");
    full(&mut s, "b");
    let mut only = Store::new();
    full(&mut only, "b");
    s.delete_meeting("a").unwrap();
    assert_eq!(s, only);
    assert_eq!(s.delete_meeting("a"), Err(AppError::NotFound));
}

#[test]
fn meeting_whose_rows_are_referred_to_is_not_deleted() {
    let mut s = Store::new();
    full(&mut s, "a");
    full(&mut s, "b");
    s.segments[1].speaker_id = Some("spa".into());
    assert_eq!(
        s.delete_meeting("a"),
        Err(AppError::Db("error returned from database: (code: 787) FOREIGN KEY constraint failed".into()))
    );
    assert_eq!(records(&s), 14);
    s.segments[1].speaker_id = None;
    s.board_versions[1].source_summary_id = "sa".into();
    assert!(s.delete_meeting("a").is_err());
    s.board_versions[1].source_summary_id = "sb".into();
    s.delete_meeting("a").unwrap();
}

#[test]
fn create_meeting_rejects_blank_title() {
    let mut s = Store::new();
    let error = s.create_meeting("   ", None, &clock(0)).unwrap_err();
    assert_eq!(error, AppError::BadRequest("title is required".into()));
    assert_eq!(error.into_response().0, 400);
    assert!(s.meetings.is_empty());
}

#[test]
fn create_meeting_validates_and_stores_summary_window() {
    let mut s = Store::new();
    let error = s.create_meeting("周会", Some(5000), &clock(0)).unwrap_err();
    assert_eq!(
        error,
        AppError::BadRequest("summary_window_ms must be between 10000 and 3600000".into())
    );
    assert_eq!(error.into_response().0, 400);
    let id = s.create_meeting("周会", Some(30000), &clock(0)).unwrap();
    assert_eq!(s.meetings[0].id, id);
    assert_eq!(s.meetings[0].summary_window_ms, 30_000);
    assert_eq!(s.meetings[0].next_summary_end_ms, 30_000);
}

#[test]
fn summary_window_has_limits() {
    let mut s = Store::new();
    assert!(s.create_meeting("a", Some(9_999), &clock(0)).is_err());
    assert!(s.create_meeting("a", Some(10_000), &clock(0)).is_ok());
    assert!(s.create_meeting("a", Some(3_600_000), &clock(0)).is_ok());
    assert!(s.create_meeting("a", Some(3_600_001), &clock(0)).is_err());
    s.create_meeting_as("  Weekly ", None, "w", &clock(2)).unwrap();
    assert_eq!(s.meetings[2].title, "Weekly");
    assert_eq!(s.meetings[2].summary_window_ms, 300_000);
    assert_eq!(s.meetings[2].started_at.as_deref(), Some("t2"));
    assert_eq!(
        s.create_meeting_as("again", None, "w", &clock(2)),
        Err(AppError::Db("error returned from database: (code: 1555) UNIQUE constraint failed: meetings.id".into()))
    );
}

#[test]
fn new_ids_are_random_uuids() {
    let a = new_id();
    let b = new_id();
    assert_ne!(a, b);
    assert_eq!(a.len(), 36);
    assert_eq!(a.as_bytes()[14], b'4');
    assert!(uuid::Uuid::parse_str(&a).is_ok());
}

#[test]
fn meeting_lifecycle_over_http() {
    let mut s = Store::new();
    let id = s.create_meeting("产品周会", None, &clock(0)).unwrap();
    let shown = s.get_meeting(&id).unwrap();
    assert_eq!(shown.get("status").unwrap().as_str(), Some("running"));
    let (events, answer) = s.end_meeting(&id, &clock(1));
    assert_eq!(write_json(answer.unwrap()), "{\"status\":\"ended\"}");
    assert_eq!(events[0].kind, "meeting.ended");
    let shown = s.get_meeting(&id).unwrap();
    assert_eq!(shown.get("status").unwrap().as_str(), Some("ended"));
    s.delete_meeting(&id).unwrap();
    let error = s.get_meeting(&id).unwrap_err();
    assert_eq!(error.into_response().0, 404);
}

#[test]
fn meetings_are_shown_with_their_state() {
    let s = running();
    assert_eq!(
        write_json(s.get_meeting("m").unwrap()),
        "{\"board_version\":0,\"ended_at\":null,\"id\":\"m\",\"next_summary_end_ms\":300000,\"started_at\":\"t0\",\"status\":\"running\",\"summary_window_ms\":300000,\"title\":\"test\"}"
    );
}

#[test]
fn ending_a_meeting_twice_changes_nothing() {
    let mut s = running();
    let mut spoken = segment("a", "m", None, 1);
    spoken.end_ms = 5000;
    spoken.transcript = Some("text".into());
    s.segments.push(spoken);
    let (_, first) = s.end_meeting("m", &clock(1));
    let once = s.clone();
    let (events, second) = s.end_meeting("m", &clock(9));
    assert_eq!(s, once);
    assert_eq!(events.len(), 1);
    assert_eq!(write_json(first.unwrap()), write_json(second.unwrap()));
    assert_eq!(s.meetings[0].ended_at.as_deref(), Some("t1"));
    assert_eq!(s.jobs.len(), 1);
    assert_eq!(s.jobs[0].target_id.as_deref(), Some("final:5000"));
    let (events, answer) = s.end_meeting("other", &clock(9));
    assert!(events.is_empty());
    assert_eq!(answer, Err(AppError::NotFound));
}

#[test]
fn meetings_are_listed_newest_first() {
    let mut s = Store::new();
    full(&mut s, "a");
    s.create_meeting_as("b", None, "b", &clock(0)).unwrap();
    let all = s.list_meetings(None);
    let rows = all.as_array().unwrap();
    assert_eq!(rows.len(), 2);
    assert_eq!(rows[0].get("id").unwrap().as_str(), Some("b"));
    assert_eq!(write_json(rows[1].get("segment_count").unwrap().copy()), "1");
    assert_eq!(write_json(rows[1].get("completed_segment_count").unwrap().copy()), "1");
    assert_eq!(write_json(rows[1].get("speaker_count").unwrap().copy()), "1");
    assert_eq!(write_json(rows[1].get("summary_count").unwrap().copy()), "1");
    assert_eq!(s.list_meetings(Some("running")).as_array().unwrap().len(), 1);
    assert_eq!(s.list_meetings(Some("paused")).as_array().unwrap().len(), 0);
}

#[test]
fn audio_of_a_segment_is_found() {
    let mut s = Store::new();
    full(&mut s, "m");
    assert_eq!(s.segment_audio("m", "am"), Ok("audio.wav".to_string()));
    assert_eq!(s.segment_audio("other", "am"), Err(AppError::NotFound));
    s.segments[0].file_path = String::new();
    assert_eq!(s.segment_audio("m", "am"), Err(AppError::NotFound));
}

#[test]
fn ensure_speaker_reuses_existing_name() {
    let mut s = Store::new();
    s.create_meeting_as("t", None, "m1", &clock(0)).unwrap();
    let first = s.ensure_speaker_by_name("m1", "张三").unwrap();
    let second = s.ensure_speaker_by_name("m1", "张三").unwrap();
    let other = s.ensure_speaker_by_name("m1", "李四").unwrap();
    assert_eq!(first, second);
    assert_ne!(first, other);
    assert_eq!(s.speakers.len(), 2);
}

#[test]
fn speakers_of_missing_meetings_are_refused() {
    let mut s = Store::new();
    assert_eq!(
        s.ensure_speaker_by_name("m", "a"),
        Err(AppError::Db("error returned from database: (code: 787) FOREIGN KEY constraint failed".into()))
    );
    assert_eq!(s.create_speaker("m", "a"), Err(AppError::NotFound));
    assert_eq!(s.list_speakers("m"), Err(AppError::NotFound));
}

#[test]
fn speakers_are_added_and_listed() {
    let mut s = running();
    let id = s.create_speaker("m", " Alice ").unwrap();
    s.create_speaker_as("m", "Bob", "b").unwrap();
    assert_eq!(s.create_speaker("m", " "), Err(AppError::BadRequest("name is required".into())));
    assert_eq!(
        s.create_speaker_as("m", "Eve", "b"),
        Err(AppError::Db("error returned from database: (code: 1555) UNIQUE constraint failed: speakers.id".into()))
    );
    s.speakers.push(Speaker { id: "x".into(), meeting_id: "other".into(), name: "X".into() });
    assert_eq!(
        write_json(s.list_speakers("m").unwrap()),
        format!("[{{\"id\":\"{id}\",\"name\":\"Alice\"}},{{\"id\":\"b\",\"name\":\"Bob\"}}]")
    );
}

#[test]
fn upload_segment_rejects_invalid_window() {
    let s = running();
    s.allow_upload("m").unwrap();
    let (status, _) = rejected(form(
        &[("sequence_no", "1"), ("start_ms", "1000"), ("end_ms", "1000")],
        Some(("a.wav", b"audio")),
    ));
    assert_eq!(status, 400);
}

#[test]
fn upload_segment_requires_audio_or_transcript() {
    let (status, reason) = rejected(form(
        &[("sequence_no", "1"), ("start_ms", "0"), ("end_ms", "5000")],
        None,
    ));
    assert_eq!(status, 400);
    assert_eq!(reason, "audio or transcript is required");
}

#[test]
fn forms_are_rejected_for_the_first_reason() {
    let reason = |fields: &[(&str, &str)], audio: Option<(&str, &[u8])>| rejected(form(fields, audio)).1;
    assert_eq!(reason(&[], None), "sequence_no is required");
    assert_eq!(reason(&[("sequence_no", "x")], None), "sequence_no is required");
    assert_eq!(reason(&[("sequence_no", "1")], None), "start_ms is required");
    assert_eq!(reason(&[("sequence_no", "1"), ("start_ms", "0")], None), "end_ms is required");
    let times = [("sequence_no", "1"), ("start_ms", "5"), ("end_ms", "5"), ("transcript", " ")];
    assert_eq!(reason(&times, Some(("a", b""))), "audio or transcript is required");
    assert_eq!(reason(&times, Some(("a", b"x"))), "end_ms must be greater than start_ms");
    let negative = [("sequence_no", "-1"), ("start_ms", "0"), ("end_ms", "5"), ("transcript", "t")];
    assert_eq!(reason(&negative, None), "sequence_no, start_ms and end_ms must be non-negative");
    let early = [("sequence_no", "1"), ("start_ms", "-1"), ("end_ms", "5"), ("transcript", "t")];
    assert_eq!(reason(&early, None), "sequence_no, start_ms and end_ms must be non-negative");
    let long = form(&[("sequence_no", "1"), ("start_ms", "0"), ("end_ms", "5")], Some(("a", b"xyz")));
    assert_eq!(
        long.check(2),
        Err(AppError::BadRequest("audio exceeds 2 byte upload limit".into()))
    );
}

#[test]
fn later_fields_replace_earlier_ones() {
    let mut f = form(
        &[
            ("sequence_no", "1"),
            ("sequence_no", "2"),
            ("start_ms", "0"),
            ("end_ms", "+5"),
            ("colour", "red"),
            ("speaker_name", "Bob"),
        ],
        Some(("a.wav", b"x")),
    );
    f.take_audio(None, vec![1, 2]);
    let upload = f.check(100).unwrap();
    assert_eq!(upload.sequence_no, 2);
    assert_eq!(upload.end_ms, 5);
    assert_eq!(upload.file_name, "audio.bin");
    assert_eq!(upload.audio, Some(vec![1, 2]));
    assert_eq!(upload.speaker_name.as_deref(), Some("Bob"));
}

#[test]
fn upload_segment_persists_audio_and_rejects_duplicate_sequence() {
    let mut s = running();
    let request = || {
        form(
            &[("sequence_no", "1"), ("start_ms", "0"), ("end_ms", "300000")],
            Some(("sample.wav", b"audio")),
        )
        .check(64 * 1024)
        .unwrap()
    };
    s.allow_upload("m").unwrap();
    let upload = request();
    let speaker = s.admit_upload("m", &upload, "unused").unwrap();
    let id = new_id();
    let path = format!("/audio/m/{}", stored_file_name(&id, &upload.file_name));
    let (events, outcome) = s.take_in_upload("m", &upload, speaker, &id, path.clone(), &clock(0));
    outcome.unwrap();

    let event = &events[0];
    assert_eq!(event.meeting_id, "m");
    assert_eq!(event.kind, "segment.uploaded");
    assert_eq!(event.data.get("segment_id").unwrap().as_str(), Some(id.as_str()));

    assert_eq!(s.segments[0].file_path, format!("/audio/m/{id}-sample.wav"));
    assert_eq!(s.segments[0].status, SegmentStatus::Uploaded);
    let jobs = s
        .jobs
        .iter()
        .filter(|j| j.job_type == JobType::Transcribe && j.target_id.as_deref() == Some(id.as_str()))
        .count();
    assert_eq!(jobs, 1);

    let error = s.admit_upload("m", &request(), "unused").unwrap_err();
    let (status, body) = error.into_response();
    assert_eq!(status, 400);
    assert!(body.get("error").unwrap().as_str().unwrap().contains("sequence_no"));
    assert_eq!(s.segments.len(), 1);
}

#[test]
fn upload_segment_accepts_transcript_only_and_skips_asr() {
    let mut s = running();
    let upload = form(
        &[
            ("sequence_no", "1"),
            ("start_ms", "0"),
            ("end_ms", "5000"),
            ("transcript", " 实时 ASR 文本 "),
        ],
        None,
    )
    .check(64 * 1024)
    .unwrap();
    let speaker = s.admit_upload("m", &upload, "unused").unwrap();
    s.take_in_upload("m", &upload, speaker, "a", String::new(), &clock(0)).1.unwrap();

    let work = s.begin_transcription("a", "m").unwrap();
    let text = LocalTranscriber.transcribe(&work.file_path, work.existing.as_deref());
    s.complete_transcription(&work, text, &clock(0)).1.unwrap();

    assert_eq!(s.segments[0].file_path, "");
    assert_eq!(s.segments[0].status, SegmentStatus::Completed);
    assert_eq!(s.segments[0].transcript.as_deref(), Some("实时 ASR 文本"));
}

#[test]
fn uploads_find_or_make_their_speaker() {
    let mut s = running();
    s.create_meeting_as("other", None, "o", &clock(0)).unwrap();
    s.create_speaker_as("o", "Eve", "e").unwrap();
    let upload = |fields: &[(&str, &str)]| {
        let mut all = vec![("sequence_no", "1"), ("start_ms", "0"), ("end_ms", "5"), ("transcript", "t")];
        all.extend_from_slice(fields);
        form(&all, None).check(10).unwrap()
    };
    assert_eq!(s.admit_upload("m", &upload(&[]), "n"), Ok(None));
    assert_eq!(
        s.admit_upload("m", &upload(&[("speaker_id", "e")]), "n"),
        Err(AppError::BadRequest("speaker_id does not belong to this meeting".into()))
    );
    assert_eq!(s.admit_upload("m", &upload(&[("speaker_name", " Bob ")]), "n"), Ok(Some("n".into())));
    assert_eq!(s.speakers[1].name, "Bob");
    assert_eq!(s.admit_upload("m", &upload(&[("speaker_name", "Bob")]), "k"), Ok(Some("n".into())));
    assert_eq!(
        s.admit_upload("m", &upload(&[("speaker_name", "Eve"), ("speaker_id", "n")]), "k"),
        Ok(Some("n".into()))
    );
    assert_eq!(s.speakers.len(), 2);
    s.segments.push(segment("a", "m", None, 1));
    assert!(s.admit_upload("m", &upload(&[("speaker_name", "Carol")]), "c").is_err());
    assert_eq!(s.speakers.len(), 3);
}

#[test]
fn ended_meetings_take_no_uploads() {
    let mut s = running();
    s.end_meeting("m", &clock(0)).1.unwrap();
    assert_eq!(
        s.allow_upload("m"),
        Err(AppError::BadRequest("audio can only be uploaded to a running meeting".into()))
    );
    assert_eq!(s.allow_upload("n"), Err(AppError::NotFound));
    assert_eq!(s.ensure_meeting("n"), Err(AppError::NotFound));
    assert_eq!(s.ensure_meeting("m"), Ok(()));
}

#[test]
fn segments_must_fit_into_the_store() {
    let new = |id: &str, number: i64, speaker: Option<&str>| NewSegment {
        id: id.into(),
        meeting_id: "m".into(),
        speaker_id: speaker.map(|s| s.to_string()),
        sequence_no: number,
        start_ms: 0,
        end_ms: 1,
        file_path: String::new(),
        transcript: None,
    };
    let refused = |text: &str| Err(AppError::Db(text.to_string()));
    let unlinked = refused("error returned from database: (code: 787) FOREIGN KEY constraint failed");
    let mut s = Store::new();
    assert_eq!(s.insert_segment(new("a", 1, None), &clock(0)), unlinked);
    let mut s = running();
    assert_eq!(s.insert_segment(new("a", 1, Some("nobody")), &clock(0)), unlinked);
    s.insert_segment(new("a", 1, None), &clock(0)).unwrap();
    assert_eq!(
        s.insert_segment(new("a", 2, None), &clock(0)),
        refused("error returned from database: (code: 1555) UNIQUE constraint failed: audio_segments.id")
    );
    for id in ["a", "b"] {
        assert_eq!(
            s.insert_segment(new(id, 1, None), &clock(0)),
            refused(
                "error returned from database: (code: 2067) UNIQUE constraint failed: \
                 audio_segments.meeting_id, audio_segments.sequence_no"
            )
        );
    }
    let job = s.jobs[0].id.clone();
    assert_eq!(
        s.insert_segment_as(new("c", 3, None), job, &clock(0)),
        refused("error returned from database: (code: 1555) UNIQUE constraint failed: jobs.id")
    );
    s.jobs[0].target_id = Some("c".into());
    assert_eq!(
        s.insert_segment(new("c", 3, None), &clock(0)),
        refused(
            "error returned from database: (code: 2067) UNIQUE constraint failed: \
             jobs.job_type, jobs.meeting_id, jobs.target_id"
        )
    );
    assert_eq!(s.segments.len(), 1);
    assert_eq!(s.jobs.len(), 1);
    assert_eq!(s.max_sequence_no("m"), 1);
    assert_eq!(s.max_sequence_no("n"), -1);
}

#[test]
fn update_segment_edits_transcript_and_speaker() {
    let mut s = running();
    s.end_meeting("m", &clock(0)).1.unwrap();
    s.segments.push(Segment {
        id: "seg1".into(),
        meeting_id: "m".into(),
        speaker_id: None,
        sequence_no: 1,
        start_ms: 0,
        end_ms: 5000,
        file_path: String::new(),
        transcript: Some("原文".into()),
        status: SegmentStatus::Completed,
    });
    let (events, answer) =
        s.update_segment("m", "seg1", Some("修订文本".into()), Some("王五".into()));
    let shown = answer.unwrap();
    assert_eq!(shown.get("segment_id").unwrap().as_str(), Some("seg1"));
    assert_eq!(shown.get("speaker_name").unwrap().as_str(), Some("王五"));
    assert_eq!(events.len(), 1);
    assert_eq!(events[0].kind, "segment.updated");
    assert_eq!(events[0].data, shown);
    assert_eq!(s.segments[0].transcript.as_deref(), Some("修订文本"));
    assert_eq!(s.segments[0].speaker_id.as_deref(), Some(s.speakers[0].id.as_str()));
    assert_eq!(s.speakers[0].name, "王五");

    let (events, answer) = s.update_segment("m", "seg1", None, None);
    assert!(events.is_empty());
    assert_eq!(answer.unwrap_err().into_response().0, 400);
    let (_, answer) = s.update_segment("m", "nope", Some("x".into()), None);
    assert_eq!(answer.unwrap_err().into_response().0, 404);
    let (_, answer) = s.update_segment("other", "seg1", Some("x".into()), None);
    assert_eq!(answer, Err(AppError::NotFound));
    let (_, answer) = s.update_segment("m", "seg1", Some("  ".into()), Some(" ".into()));
    assert_eq!(
        answer,
        Err(AppError::BadRequest("transcript or speaker_name is required".into()))
    );
}

#[test]
fn editing_keeps_the_text_where_the_speaker_is_refused() {
    let mut s = running();
    s.create_speaker_as("m", "Bob", "b").unwrap();
    s.segments.push(segment("a", "m", None, 1));
    let (events, answer) =
        s.update_segment_as("m", "a", Some("text".into()), Some("Carol".into()), "b");
    assert!(events.is_empty());
    assert_eq!(
        answer,
        Err(AppError::Db("error returned from database: (code: 1555) UNIQUE constraint failed: speakers.id".into()))
    );
    assert_eq!(s.segments[0].transcript.as_deref(), Some("text"));
}

#[test]
fn segments_are_listed_by_time() {
    let mut s = running();
    s.create_speaker_as("m", "Bob", "b").unwrap();
    let mut late = segment("late", "m", Some("b"), 1);
    late.start_ms = 10;
    late.end_ms = 20;
    s.segments.push(late);
    s.segments.push(segment("early", "m", None, 2));
    s.segments.push(segment("other", "o", None, 2));
    let listed = s.list_segments("m").unwrap();
    let rows = listed.as_array().unwrap();
    assert_eq!(rows.len(), 2);
    assert_eq!(rows[0].get("id").unwrap().as_str(), Some("early"));
    assert_eq!(
        write_json(rows[1].copy()),
        "{\"end_ms\":20,\"id\":\"late\",\"sequence_no\":1,\"speaker_id\":\"b\",\"speaker_name\":\"Bob\",\"start_ms\":10,\"status\":\"completed\",\"transcript\":null}"
    );
    assert_eq!(s.list_segments("o"), Err(AppError::NotFound));
}

#[test]
fn summaries_and_boards_are_shown() {
    let mut s = running();
    assert_eq!(
        write_json(s.get_board("m").unwrap()),
        "{\"content\":{\"action_items\":[],\"decisions\":[],\"key_points\":[],\"open_questions\":[],\"risks\":[],\"topics\":[]},\"version\":0}"
    );
    s.summaries.push(Summary {
        id: "late".into(),
        meeting_id: "m".into(),
        window_start_ms: 5,
        window_end_ms: 9,
        content_json: "not json".into(),
        created_at: "c".into(),
    });
    s.summaries.push(Summary {
        id: "early".into(),
        meeting_id: "m".into(),
        window_start_ms: 0,
        window_end_ms: 5,
        content_json: "{\"topics\":[\"x\"]}".into(),
        created_at: "c".into(),
    });
    assert_eq!(
        write_json(s.list_summaries("m").unwrap()),
        "[{\"content\":{\"topics\":[\"x\"]},\"created_at\":\"c\",\"id\":\"early\",\"window_end_ms\":5,\"window_start_ms\":0},{\"content\":{},\"created_at\":\"c\",\"id\":\"late\",\"window_end_ms\":9,\"window_start_ms\":5}]"
    );
    s.boards.push(Board {
        meeting_id: "m".into(),
        version: 2,
        content_json: "{\"a\":1.5}".into(),
        updated_at: "u".into(),
    });
    assert_eq!(
        write_json(s.get_board("m").unwrap()),
        "{\"content\":{\"a\":1.5},\"updated_at\":\"u\",\"version\":2}"
    );
    for n in [2, 1] {
        s.board_versions.push(BoardVersion {
            id: format!("v{n}"),
            meeting_id: "m".into(),
            version: n,
            source_summary_id: "early".into(),
            content_json: "?".into(),
            created_at: "c".into(),
        });
    }
    let listed = s.list_board_versions("m").unwrap();
    let rows = listed.as_array().unwrap();
    assert_eq!(
        write_json(rows[0].copy()),
        "{\"content\":{},\"created_at\":\"c\",\"source_summary_id\":\"early\",\"version\":1}"
    );
    assert_eq!(rows.len(), 2);
    assert_eq!(s.get_board("n"), Err(AppError::NotFound));
    assert_eq!(s.list_summaries("n"), Err(AppError::NotFound));
    assert_eq!(s.list_board_versions("n"), Err(AppError::NotFound));
}

#[test]
fn events_reach_their_own_meeting_only() {
    let mut s = running();
    let (mut events, _) = s.end_meeting("m", &clock(0));
    let event = events.remove(0);
    assert_eq!(
        deliver(event, "m"),
        Some(("meeting.ended", "{\"meeting_id\":\"m\"}".to_string()))
    );
    let (mut events, _) = s.end_meeting("m", &clock(0));
    assert_eq!(deliver(events.remove(0), "n"), None);
}

#[test]
fn errors_are_answered_without_the_inside() {
    let shown = |e: AppError| {
        let text = e.message();
        let (status, body) = e.into_response();
        (text, status, write_json(body))
    };
    assert_eq!(
        shown(AppError::Db("locked".into())),
        ("database operation failed: locked".into(), 500, "{\"error\":\"internal database error\"}".into())
    );
    assert_eq!(
        shown(AppError::BadRequest("no".into())),
        ("no".into(), 400, "{\"error\":\"no\"}".into())
    );
    assert_eq!(
        shown(AppError::NotFound),
        ("resource not found".into(), 404, "{\"error\":\"not found\"}".into())
    );
    assert_eq!(
        shown(AppError::Processing("x".into())),
        ("processing failed: x".into(), 500, "{\"error\":\"x\"}".into())
    );
    assert_eq!(
        shown(AppError::Internal("disk".into())),
        ("internal error: disk".into(), 500, "{\"error\":\"internal server error\"}".into())
    );
}

#[test]
fn json_is_read_and_written() {
    let text = "{\"a\":[1,-2,2.5,true,null,\"x\\n\"],\"b\":{\"c\":{}}}";
    let json = read_json(text).unwrap();
    assert_eq!(write_json(json.copy()), text);
    assert_eq!(json, json.copy());
    assert_eq!(read_json("{"), None);
    let twice = read_json("{\"k\":1,\"k\":2}").unwrap();
    assert_eq!(write_json(twice.get("k").unwrap().copy()), "2");
    let mut object = Json::Null;
    object.set("b", Json::Bool(true));
    object.set("a", Json::Null);
    object.set("b", Json::Bool(false));
    assert_eq!(write_json(object), "{\"a\":null,\"b\":false}");
    let value = diting::json::to_value(read_json(text).unwrap());
    assert_eq!(value, serde_json::from_str::<serde_json::Value>(text).unwrap());
    assert_eq!(write_json(diting::json::from_value(value)), text);
}

#[test]
fn last_entry_of_a_key_is_written() {
    let entry = |key: &str, text: &str| (key.to_string(), Json::Str(text.into()));
    let object = Json::Object(vec![entry("b", "1"), entry("a", "2"), entry("b", "3"), entry("b", "4")]);
    assert_eq!(object.get("b").unwrap().as_str(), Some("4"));
    assert_eq!(write_json(object), "{\"a\":\"2\",\"b\":\"4\"}");
}

#[test]
fn reserved_key_is_not_read_back() {
    let key = "$serde_json::private::RawValue";
    let mut object = Json::Null;
    object.set(key, Json::Str("x".into()));
    let text = write_json(object.copy());
    assert_eq!(text, "{\"$serde_json::private::RawValue\":\"x\"}");
    assert_ne!(read_json(&text), Some(object));
    let mut object = Json::Null;
    object.set("$", Json::Str("x".into()));
    object.set("text", Json::Array(vec![Json::Null, Json::Bool(true)]));
    assert_eq!(read_json(&write_json(object.copy())), Some(object));
}

#[test]
fn clock_needs_the_retry_delay() {
    let moment = |n: i64| Moment { seconds: n, text: String::new() };
    assert!(Clock::new(moment(1), moment(6)).is_some());
    assert!(Clock::new(moment(1), moment(7)).is_none());
    assert!(Clock::new(moment(i64::MAX), moment(0)).is_none());
}
