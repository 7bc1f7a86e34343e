use diting::board::empty_board;
use diting::error::AppError;
use diting::events::MeetingEvent;
use diting::json::{read_json, write_json, Json};
use diting::provider::LocalSummarizer;
use diting::queue::{after_round, plan_job, AfterRound, Task};
use diting::round::Round;
use diting::store::{
    Board, BoardVersion, Clock, Job, JobStatus, JobType, Meeting, MeetingStatus, Moment, Segment,
    SegmentStatus, Store, Summary,
};
use diting::summary::{ActionItem, SummaryDocument};
use diting::windows::SummaryIds;

fn moment(seconds: i64) -> Moment {
    Moment { seconds, text: format!("t{seconds}") }
}

fn clock(seconds: i64) -> Clock {
    Clock::new(moment(seconds), moment(seconds + 5)).unwrap()
}

fn meeting(id: &str, status: MeetingStatus) -> Meeting {
    Meeting {
        id: id.to_string(),
        title: "test".to_string(),
        status,
        started_at: None,
        ended_at: None,
        next_summary_end_ms: 300_000,
        summary_window_ms: 300_000,
        board_version: 0,
    }
}

fn segment(id: &str, number: i64, start: i64, end: i64, text: Option<&str>, status: SegmentStatus) -> Segment {
    Segment {
        id: id.to_string(),
        meeting_id: "m".to_string(),
        speaker_id: None,
        sequence_no: number,
        start_ms: start,
        end_ms: end,
        file_path: "audio.wav".to_string(),
        transcript: text.map(|t| t.to_string()),
        status,
    }
}

fn job(id: &str, job_type: JobType, target: &str, status: JobStatus, retries: i64) -> Job {
    Job {
        id: id.to_string(),
        job_type,
        meeting_id: "m".to_string(),
        target_id: Some(target.to_string()),
        status,
        retry_count: retries,
        available_at: moment(0),
        error_message: None,
    }
}

fn summary(id: &str, start: i64, end: i64) -> Summary {
    Summary {
        id: id.to_string(),
        meeting_id: "m".to_string(),
        window_start_ms: start,
        window_end_ms: end,
        content_json: "{}".to_string(),
        created_at: "then".to_string(),
    }
}

fn store(status: MeetingStatus) -> Store {
    let mut store = Store::new();
    store.meetings.push(meeting("m", status));
    store
}

fn fixed_document() -> SummaryDocument {
    SummaryDocument {
        topics: vec!["发布计划".into()],
        decisions: vec!["下周三上线".into()],
        action_items: vec![ActionItem {
            content: "补充回归测试".into(),
            owner: Some("Alice".into()),
            due_date: None,
            status: "open".into(),
        }],
        key_points: vec!["接口联调完成".into()],
        ..SummaryDocument::default()
    }
}

fn texts(json: &Json, key: &str) -> Vec<String> {
    json.get(key)
        .unwrap()
        .as_array()
        .unwrap()
        .iter()
        .map(|v| v.as_str().unwrap().to_string())
        .collect()
}

fn queued(store: &Store, job_type: JobType, target: &str) -> usize {
    store
        .jobs
        .iter()
        .filter(|j| {
            j.job_type == job_type
                && j.status == JobStatus::Pending
                && j.target_id.as_deref() == Some(target)
        })
        .count()
}

fn transcribe(store: &mut Store, id: &str, reply: Result<String, String>, at: i64) -> (Vec<MeetingEvent>, Result<(), AppError>) {
    match store.begin_transcription(id, "m") {
        Ok(work) => store.complete_transcription(&work, reply, &clock(at)),
        Err(e) => (Vec::new(), Err(e)),
    }
}

fn summarize(store: &mut Store, target: &str, document: SummaryDocument, at: i64) -> (Vec<MeetingEvent>, Result<(), AppError>) {
    assert!(store.window_fits("m", target));
    match store.begin_summary("m", target) {
        Ok(work) => store.complete_summary("m", &work, Ok(document), &clock(at)).unwrap(),
        Err(e) => (Vec::new(), Err(e)),
    }
}

fn run(store: &mut Store, job: &Job, reply: &Result<String, String>, at: i64) -> Result<(), AppError> {
    match plan_job(job)? {
        Task::Transcribe(id) => transcribe(store, &id, reply.clone(), at).1,
        Task::Summarize(target) => summarize(store, &target, fixed_document(), at).1,
        Task::Rebuild(target) => store.process_rebuild("m", &target, &clock(at)).1,
    }
}

/// Runs every job that is due, as the worker does.
fn process_jobs(store: &mut Store, reply: &Result<String, String>, at: i64) -> usize {
    let mut round = store.begin_round(&clock(at));
    loop {
        match &round {
            Round::Claim { .. } => round = store.claim_in_round(round, &clock(at)),
            Round::Run { job, .. } => {
                let result = run(store, job, reply, at);
                assert!(store.is_countable(&job.id));
                round = store.finish_in_round(round, result, &clock(at)).1;
            }
            Round::Over(result) => return *result.as_ref().unwrap(),
        }
    }
}

#[test]
fn rebuild_removes_affected_state_and_requeues_summary() {
    let mut s = store(MeetingStatus::Running);
    s.meetings[0].next_summary_end_ms = 600_000;
    s.meetings[0].board_version = 1;
    s.segments.push(segment("a", 1, 0, 300_000, Some("text"), SegmentStatus::Completed));
    s.summaries.push(summary("s", 0, 300_000));
    s.boards.push(Board {
        meeting_id: "m".into(),
        version: 1,
        content_json: "{}".into(),
        updated_at: "then".into(),
    });
    s.board_versions.push(BoardVersion {
        id: "v".into(),
        meeting_id: "m".into(),
        version: 1,
        source_summary_id: "s".into(),
        content_json: "{}".into(),
        created_at: "then".into(),
    });
    s.jobs.push(job("j", JobType::Summary, "300000", JobStatus::Completed, 0));

    assert!(s.rebuild_fits("m", "0"));
    let (events, outcome) = s.process_rebuild("m", "0", &clock(10));
    outcome.unwrap();

    assert_eq!(s.summaries.len(), 0);
    assert_eq!(s.meetings[0].board_version, 0);
    assert_eq!(s.meetings[0].next_summary_end_ms, 300_000);
    assert_eq!(queued(&s, JobType::Summary, "300000"), 1);
    assert!(s.boards.is_empty());
    assert!(s.board_versions.is_empty());
    assert_eq!(events.len(), 1);
    assert_eq!(events[0].kind, "board.updated");
    assert_eq!(events[0].data.get("reason").unwrap().as_str(), Some("rebuild"));
}

#[test]
fn rebuild_goes_back_to_the_version_before_the_window() {
    let mut s = store(MeetingStatus::Running);
    s.meetings[0].next_summary_end_ms = 900_000;
    s.summaries.push(summary("s1", 0, 300_000));
    s.summaries.push(summary("s2", 300_000, 600_000));
    for (n, source) in [(1, "s1"), (2, "s2")] {
        s.board_versions.push(BoardVersion {
            id: format!("v{n}"),
            meeting_id: "m".into(),
            version: n,
            source_summary_id: source.into(),
            content_json: format!("{{\"n\":{n}}}"),
            created_at: "then".into(),
        });
    }
    s.jobs.push(job("j1", JobType::Summary, "900000", JobStatus::Pending, 0));
    s.jobs.push(job("j2", JobType::Summary, "600000", JobStatus::Running, 0));
    s.jobs.push(job("j3", JobType::Rebuild, "300000", JobStatus::Running, 0));

    let (_, outcome) = s.process_rebuild("m", "300000", &clock(7));
    outcome.unwrap();

    assert_eq!(s.summaries.iter().map(|r| r.id.as_str()).collect::<Vec<_>>(), ["s1"]);
    assert_eq!(s.board_versions.len(), 1);
    assert_eq!(s.boards.len(), 1);
    assert_eq!(s.boards[0].version, 1);
    assert_eq!(s.boards[0].content_json, "{\"n\":1}");
    assert_eq!(s.boards[0].updated_at, "t7");
    assert_eq!(s.meetings[0].next_summary_end_ms, 600_000);
    assert_eq!(s.jobs.iter().map(|j| j.id.as_str()).collect::<Vec<_>>(), ["j2", "j3"]);
}

#[test]
fn rebuild_rejects_malformed_target_and_missing_meeting() {
    let mut s = Store::new();
    let (events, outcome) = s.process_rebuild("m", "soon", &clock(0));
    assert!(events.is_empty());
    assert_eq!(outcome, Err(AppError::Processing("invalid rebuild target".into())));
    let (_, outcome) = s.process_rebuild("m", "0", &clock(0));
    assert_eq!(outcome, Err(AppError::Db("no rows returned by a query that expected to return at least one row".into())));
}

#[test]
fn rebuild_that_overflows_is_told_apart() {
    let mut s = store(MeetingStatus::Running);
    s.summaries.push(summary("s", 0, i64::MAX));
    assert!(!s.rebuild_fits("m", "9223372036854775807"));
    assert!(s.rebuild_fits("m", "0"));
    assert!(s.rebuild_fits("m", "x"));
}

#[test]
fn rebuild_jobs_are_idempotent_per_window() {
    let mut s = store(MeetingStatus::Running);
    s.enqueue_rebuild("m", 0, &clock(0)).unwrap();
    s.enqueue_rebuild("m", 0, &clock(1)).unwrap();
    let count = s
        .jobs
        .iter()
        .filter(|j| j.meeting_id == "m" && j.job_type == JobType::Rebuild)
        .count();
    assert_eq!(count, 1);
}

#[test]
fn finished_rebuild_job_waits_again() {
    let mut s = store(MeetingStatus::Running);
    let mut old = job("j", JobType::Rebuild, "0", JobStatus::Failed, 3);
    old.error_message = Some("why".into());
    s.jobs.push(old);
    s.enqueue_rebuild("m", 0, &clock(9)).unwrap();
    assert_eq!(s.jobs.len(), 1);
    assert_eq!(s.jobs[0].status, JobStatus::Pending);
    assert_eq!(s.jobs[0].retry_count, 0);
    assert_eq!(s.jobs[0].available_at, moment(9));
    assert_eq!(s.jobs[0].error_message, None);
    s.jobs[0].status = JobStatus::Running;
    s.enqueue_rebuild("m", 0, &clock(20)).unwrap();
    assert_eq!(s.jobs[0].status, JobStatus::Running);
}

#[test]
fn jobs_for_missing_meetings_are_refused() {
    let mut s = Store::new();
    assert_eq!(
        s.enqueue_rebuild("m", 0, &clock(0)),
        Err(AppError::Db("error returned from database: (code: 787) FOREIGN KEY constraint failed".into()))
    );
    assert_eq!(
        s.enqueue_summary("m", false, &clock(0)),
        Err(AppError::Db("no rows returned by a query that expected to return at least one row".into()))
    );
    let mut s = store(MeetingStatus::Running);
    s.jobs.push(job("taken", JobType::Summary, "1", JobStatus::Pending, 0));
    assert!(s.enqueue_rebuild_as("m", 0, "taken".into(), &clock(0)).is_err());
}

#[test]
fn summary_waits_for_segments_of_its_window() {
    let mut s = store(MeetingStatus::Running);
    s.segments.push(segment("a", 1, 0, 300_000, Some("a"), SegmentStatus::Completed));
    s.segments.push(segment("b", 2, 299_999, 310_000, None, SegmentStatus::Uploaded));
    s.enqueue_summary("m", false, &clock(0)).unwrap();
    assert!(s.jobs.is_empty());
    s.segments[1].status = SegmentStatus::Transcribing;
    s.enqueue_summary("m", true, &clock(0)).unwrap();
    assert!(s.jobs.is_empty());
    s.segments[1].status = SegmentStatus::Failed;
    s.enqueue_summary("m", false, &clock(0)).unwrap();
    s.enqueue_summary("m", false, &clock(0)).unwrap();
    assert_eq!(queued(&s, JobType::Summary, "300000"), 1);
    assert_eq!(s.jobs.len(), 1);
}

#[test]
fn last_window_is_summarized_only_once_the_meeting_is_over() {
    let mut s = store(MeetingStatus::Running);
    s.segments.push(segment("a", 1, 0, 120_000, Some("a"), SegmentStatus::Completed));
    s.enqueue_summary("m", false, &clock(0)).unwrap();
    assert!(s.jobs.is_empty());
    s.enqueue_summary("m", true, &clock(0)).unwrap();
    assert_eq!(queued(&s, JobType::Summary, "final:120000"), 1);
    s.jobs.clear();
    s.summaries.push(summary("s", 0, 120_000));
    s.enqueue_summary("m", true, &clock(0)).unwrap();
    assert!(s.jobs.is_empty());
}

#[test]
fn transcription_with_fixed_provider_completes_and_enqueues_summary() {
    let mut s = store(MeetingStatus::Running);
    s.segments.push(segment("a", 1, 0, 300_000, None, SegmentStatus::Uploaded));

    let (events, outcome) = transcribe(&mut s, "a", Ok("固定转写文本".into()), 0);
    outcome.unwrap();

    assert_eq!(s.segments[0].status, SegmentStatus::Completed);
    assert_eq!(s.segments[0].transcript.as_deref(), Some("固定转写文本"));
    assert_eq!(queued(&s, JobType::Summary, "300000"), 1);
    assert_eq!(events.len(), 1);
    assert_eq!(events[0].kind, "segment.transcribed");
    assert_eq!(events[0].data.get("transcript").unwrap().as_str(), Some("固定转写文本"));
}

#[test]
fn late_transcription_asks_for_rebuild_of_first_window() {
    let mut s = store(MeetingStatus::Running);
    s.summaries.push(summary("s2", 300_000, 600_000));
    s.summaries.push(summary("s1", 0, 300_000));
    s.segments.push(segment("a", 1, 200_000, 400_000, None, SegmentStatus::Uploaded));
    transcribe(&mut s, "a", Ok("late".into()), 0).1.unwrap();
    assert_eq!(queued(&s, JobType::Rebuild, "0"), 1);
    s.segments.push(segment("b", 2, 0, 10, None, SegmentStatus::Uploaded));
    transcribe(&mut s, "b", Ok("later".into()), 0).1.unwrap();
    assert_eq!(s.jobs.len(), 1);
}

#[test]
fn transcription_of_missing_segment_is_not_found() {
    let mut s = store(MeetingStatus::Running);
    assert_eq!(s.begin_transcription("a", "m"), Err(AppError::NotFound));
    s.segments.push(segment("a", 1, 0, 10, None, SegmentStatus::Uploaded));
    assert_eq!(s.begin_transcription("a", "other"), Err(AppError::NotFound));
    assert_eq!(s.segments[0].status, SegmentStatus::Uploaded);
    let work = s.begin_transcription("a", "m").unwrap();
    assert_eq!(work.file_path, "audio.wav");
    assert_eq!(s.segments[0].status, SegmentStatus::Transcribing);
    let (events, outcome) = s.complete_transcription(&work, Err("down".into()), &clock(0));
    assert!(events.is_empty());
    assert_eq!(outcome, Err(AppError::Processing("down".into())));
    s.meetings.clear();
    let (events, outcome) = s.complete_transcription(&work, Ok("text".into()), &clock(0));
    assert_eq!(events.len(), 1);
    assert_eq!(outcome, Err(AppError::Db("no rows returned by a query that expected to return at least one row".into())));
}

#[test]
fn summary_with_fixed_provider_updates_board_once_per_window() {
    let mut s = store(MeetingStatus::Running);
    s.segments.push(segment("a", 1, 0, 300_000, Some("讨论发布计划"), SegmentStatus::Completed));

    summarize(&mut s, "300000", fixed_document(), 0).1.unwrap();
    let (events, outcome) = summarize(&mut s, "300000", fixed_document(), 1);
    outcome.unwrap();
    assert!(events.is_empty());

    assert_eq!(s.summaries.len(), 1);
    assert_eq!(s.summaries[0].window_start_ms, 0);
    assert_eq!(s.summaries[0].window_end_ms, 300_000);
    let content = read_json(&s.summaries[0].content_json).unwrap();
    assert_eq!(texts(&content, "topics"), ["发布计划"]);

    assert_eq!(s.boards.len(), 1);
    assert_eq!(s.boards[0].version, 1);
    let board = read_json(&s.boards[0].content_json).unwrap();
    assert_eq!(texts(&board, "decisions"), ["下周三上线"]);
    let items = board.get("action_items").unwrap().as_array().unwrap();
    assert_eq!(items[0].get("content").unwrap().as_str(), Some("补充回归测试"));
    assert_eq!(items[0].get("owner").unwrap().as_str(), Some("Alice"));

    assert_eq!(s.meetings[0].board_version, 1);
    assert_eq!(s.meetings[0].next_summary_end_ms, 600_000);
}

#[test]
fn summary_rejects_malformed_target() {
    let s = Store::new();
    let result = s.begin_summary("m", "not-a-window");
    assert!(result.is_err());
    assert_eq!(
        result,
        Err(AppError::Processing("invalid summary target: not-a-window".into()))
    );
    assert_eq!(s.begin_summary("m", "final:"), Err(AppError::Processing("invalid summary target: final:".into())));
    assert_eq!(s.begin_summary("m", "300000"), Err(AppError::Db("no rows returned by a query that expected to return at least one row".into())));
}

#[test]
fn summary_target_that_overflows_is_told_apart() {
    let mut s = store(MeetingStatus::Running);
    assert!(!s.window_fits("m", "-9223372036854775808"));
    assert!(s.window_fits("m", "final:-9223372036854775808"));
    assert!(s.window_fits("m", "x"));
    s.meetings.clear();
    assert!(s.window_fits("m", "-9223372036854775808"));
}

#[test]
fn spoken_text_has_a_line_per_segment_in_order() {
    let mut s = store(MeetingStatus::Running);
    s.create_speaker_as("m", "Alice", "sp").unwrap();
    let mut a = segment("a", 2, 1000, 2000, Some("second"), SegmentStatus::Completed);
    a.speaker_id = Some("sp".into());
    s.segments.push(a);
    s.segments.push(segment("b", 1, 0, 1000, Some("first"), SegmentStatus::Completed));
    s.segments.push(segment("c", 3, 2000, 3000, None, SegmentStatus::Completed));
    s.segments.push(segment("d", 4, 500, 600, Some("not yet"), SegmentStatus::Uploaded));
    s.segments.push(segment("e", 5, 300_000, 300_001, Some("outside"), SegmentStatus::Completed));
    let work = s.begin_summary("m", "300000").unwrap();
    assert_eq!(work.start_ms, 0);
    assert_eq!(work.end_ms, 300_000);
    assert_eq!(work.transcript, "Unknown: first\nAlice: second");
}

#[test]
fn summary_is_refused_where_the_summarizer_or_the_store_refuses_it() {
    let mut s = store(MeetingStatus::Running);
    let work = s.begin_summary("m", "300000").unwrap();
    let (_, outcome) = s.complete_summary("m", &work, Err("down".into()), &clock(0)).unwrap();
    assert_eq!(outcome, Err(AppError::Processing("down".into())));
    s.meetings.clear();
    let (_, outcome) = s.complete_summary("m", &work, Ok(fixed_document()), &clock(0)).unwrap();
    assert_eq!(
        outcome,
        Err(AppError::Db("error returned from database: (code: 787) FOREIGN KEY constraint failed".into()))
    );
    assert!(s.summaries.is_empty());
    let mut s = store(MeetingStatus::Running);
    s.board_versions.push(BoardVersion {
        id: "v".into(),
        meeting_id: "other".into(),
        version: 1,
        source_summary_id: "x".into(),
        content_json: "{}".into(),
        created_at: "then".into(),
    });
    let ids = SummaryIds { summary: "s".into(), version: "v".into(), job: "j".into() };
    let (_, outcome) =
        s.complete_summary_as("m", &work, Ok(fixed_document()), ids, &clock(0)).unwrap();
    assert_eq!(
        outcome,
        Err(AppError::Db(
            "error returned from database: (code: 1555) UNIQUE constraint failed: meeting_board_versions.id".into()
        ))
    );
}

#[test]
fn jobs_with_taken_ids_are_refused() {
    let mut s = store(MeetingStatus::Running);
    s.jobs.push(job("j", JobType::Summary, "1", JobStatus::Pending, 0));
    assert_eq!(
        s.enqueue_rebuild_as("m", 0, "j".into(), &clock(0)),
        Err(AppError::Db("error returned from database: (code: 1555) UNIQUE constraint failed: jobs.id".into()))
    );
    s.enqueue_rebuild_as("m", 0, "k".into(), &clock(0)).unwrap();
    s.jobs[1].status = JobStatus::Completed;
    s.enqueue_rebuild_as("m", 0, "j".into(), &clock(0)).unwrap();
    assert_eq!(s.jobs[1].status, JobStatus::Pending);
}

#[test]
fn nothing_is_reckoned_for_a_window_that_is_taken() {
    let mut s = store(MeetingStatus::Running);
    let work = diting::windows::Window {
        start_ms: 0,
        end_ms: i64::MAX,
        window_ms: 300_000,
        transcript: String::new(),
    };
    assert!(!s.summary_fits("m", &work));
    assert!(s.summary_fits("n", &work));
    let (_, outcome) = s.complete_summary("m", &work, Err("down".into()), &clock(0)).unwrap();
    assert_eq!(outcome, Err(AppError::Processing("down".into())));
    s.summaries.push(summary("s", 0, i64::MAX));
    assert!(s.summary_fits("m", &work));
    let (events, outcome) =
        s.complete_summary("m", &work, Ok(fixed_document()), &clock(0)).unwrap();
    outcome.unwrap();
    assert!(events.is_empty());
    assert_eq!(s.summaries.len(), 1);
    s.jobs.push(job("a", JobType::Summary, "1", JobStatus::Running, i64::MAX));
    let row = s.jobs[0].clone();
    s.finish_job(&row, Ok(()), &clock(0)).1.unwrap();
    assert_eq!(s.jobs[0].status, JobStatus::Completed);
}

#[test]
fn board_of_another_kind_cannot_be_extended() {
    let mut s = store(MeetingStatus::Running);
    s.boards.push(Board {
        meeting_id: "m".into(),
        version: 1,
        content_json: "[1]".into(),
        updated_at: "then".into(),
    });
    let work = s.begin_summary("m", "300000").unwrap();
    assert!(s.complete_summary("m", &work, Ok(fixed_document()), &clock(0)).is_none());
    assert!(s.summaries.is_empty());
    s.boards[0].content_json = "not json".into();
    let (events, outcome) = s.complete_summary("m", &work, Ok(fixed_document()), &clock(0)).unwrap();
    outcome.unwrap();
    assert_eq!(events.len(), 2);
    assert_eq!(texts(&read_json(&s.boards[0].content_json).unwrap(), "topics"), ["发布计划"]);
}

#[test]
fn summaries_build_the_board_version_by_version() {
    let mut s = store(MeetingStatus::Running);
    summarize(&mut s, "300000", fixed_document(), 0).1.unwrap();
    let second = SummaryDocument {
        topics: vec!["发布计划".into(), " 回顾 ".into()],
        ..SummaryDocument::default()
    };
    let (events, outcome) = summarize(&mut s, "600000", second, 1);
    outcome.unwrap();
    assert_eq!(events[1].kind, "board.updated");
    assert_eq!(texts(events[1].data.get("content").unwrap(), "topics"), ["发布计划", "回顾"]);
    assert_eq!(s.latest_version("m"), 2);
    assert_eq!(s.boards.len(), 1);
    assert_eq!(s.boards[0].version, 2);
    assert_eq!(s.board_versions[1].source_summary_id, s.summaries[1].id);
    assert_eq!(s.board_versions[1].content_json, s.boards[0].content_json);
    assert_eq!(s.meetings[0].next_summary_end_ms, 900_000);
    assert_eq!(texts(&s.board_to_extend("m"), "topics"), ["发布计划", "回顾"]);
}

#[test]
fn board_given_as_a_value_is_extended() {
    let mut s = store(MeetingStatus::Ended);
    let work = s.begin_summary("m", "final:1000").unwrap();
    let ids = SummaryIds { summary: "s".into(), version: "v".into(), job: "j".into() };
    assert!(s.is_added("m", 1000, &ids));
    let (events, outcome) =
        s.complete_summary_on("m", &work, Ok(fixed_document()), empty_board(), ids, &clock(3));
    outcome.unwrap();
    assert_eq!(s.summaries[0].id, "s");
    assert_eq!(s.summaries[0].created_at, "t3");
    assert_eq!(s.board_versions[0].id, "v");
    assert_eq!(events[0].data.get("summary_id").unwrap().as_str(), Some("s"));
    let mut board = empty_board();
    diting::board::merge_board(&mut board, &fixed_document());
    assert_eq!(s.boards[0].content_json, write_json(board));
}

#[test]
fn worker_pipeline_runs_transcription_and_summary_with_fixed_providers() {
    let mut s = store(MeetingStatus::Running);
    s.segments.push(segment("a", 1, 0, 300_000, None, SegmentStatus::Uploaded));
    s.jobs.push(job("j1", JobType::Transcribe, "a", JobStatus::Pending, 0));

    for _ in 0..5 {
        process_jobs(&mut s, &Ok("固定转写文本".into()), 100);
    }

    assert_eq!(s.segments[0].status, SegmentStatus::Completed);
    assert_eq!(s.segments[0].transcript.as_deref(), Some("固定转写文本"));
    assert_eq!(s.summaries.len(), 1);
    assert_eq!(texts(&read_json(&s.boards[0].content_json).unwrap(), "topics"), ["发布计划"]);
    let open = s.jobs.iter().filter(|j| j.status != JobStatus::Completed).count();
    assert_eq!(open, 0);
}

#[test]
fn permanently_failed_transcription_does_not_block_final_summary() {
    let mut s = store(MeetingStatus::Ended);
    s.segments.push(segment("ok", 1, 0, 1000, Some("已完成"), SegmentStatus::Completed));
    s.segments.push(segment("bad", 2, 1000, 2000, None, SegmentStatus::Uploaded));
    s.jobs.push(job("j1", JobType::Transcribe, "bad", JobStatus::Pending, 2));

    let failing: Result<String, String> = Err("asr provider unavailable".into());
    process_jobs(&mut s, &failing, 50);

    assert_eq!(s.jobs[0].status, JobStatus::Failed);
    assert_eq!(s.segments[1].status, SegmentStatus::Failed);
    assert_eq!(queued(&s, JobType::Summary, "final:1000"), 1);

    process_jobs(&mut s, &failing, 50);
    assert_eq!(s.summaries.len(), 1);
    assert_eq!(s.summaries[0].window_start_ms, 0);
    assert_eq!(s.summaries[0].window_end_ms, 1000);
}

#[test]
fn failed_job_is_tried_three_times() {
    let mut s = store(MeetingStatus::Running);
    s.segments.push(segment("a", 7, 0, 1000, None, SegmentStatus::Uploaded));
    s.jobs.push(job("j", JobType::Transcribe, "a", JobStatus::Pending, 0));
    let failing: Result<String, String> = Err("down".into());
    assert_eq!(process_jobs(&mut s, &failing, 100), 1);
    assert_eq!(s.jobs[0].status, JobStatus::Pending);
    assert_eq!(s.jobs[0].retry_count, 1);
    assert_eq!(s.jobs[0].available_at, moment(105));
    assert_eq!(s.jobs[0].error_message.as_deref(), Some("processing failed: down"));
    assert_eq!(s.segments[0].status, SegmentStatus::Transcribing);
    assert_eq!(process_jobs(&mut s, &failing, 104), 0);
    assert_eq!(process_jobs(&mut s, &failing, 105), 1);
    assert_eq!(s.jobs[0].status, JobStatus::Pending);
    s.claim_job("j", &clock(110));
    let row = s.jobs[0].clone();
    let (events, outcome) = s.finish_job(&row, Err(AppError::Processing("down".into())), &clock(110));
    outcome.unwrap();
    assert_eq!(s.jobs[0].status, JobStatus::Failed);
    assert_eq!(s.jobs[0].retry_count, 3);
    assert_eq!(s.segments[0].status, SegmentStatus::Failed);
    assert_eq!(events.len(), 1);
    assert_eq!(events[0].kind, "segment.failed");
    assert_eq!(
        write_json(events[0].data.copy()),
        "{\"segment_id\":\"a\",\"sequence_no\":7}"
    );
    assert_eq!(process_jobs(&mut s, &failing, 1000), 0);
}

#[test]
fn given_up_transcription_of_missing_meeting_is_reported() {
    let mut s = store(MeetingStatus::Running);
    s.jobs.push(job("j", JobType::Transcribe, "gone", JobStatus::Running, 2));
    s.meetings.clear();
    let row = s.jobs[0].clone();
    let (events, outcome) = s.finish_job(&row, Err(AppError::NotFound), &clock(0));
    assert_eq!(outcome, Err(AppError::Db("no rows returned by a query that expected to return at least one row".into())));
    assert_eq!(write_json(events[0].data.copy()), "{\"segment_id\":\"gone\",\"sequence_no\":null}");
    assert_eq!(s.jobs[0].error_message.as_deref(), Some("resource not found"));
}

#[test]
fn job_is_claimed_once_and_only_when_due() {
    let mut s = store(MeetingStatus::Running);
    let mut later = job("later", JobType::Summary, "2", JobStatus::Pending, 0);
    later.available_at = moment(20);
    s.jobs.push(later);
    s.jobs.push(job("now", JobType::Summary, "1", JobStatus::Pending, 0));
    s.jobs[1].error_message = Some("before".into());
    assert_eq!(s.due_jobs(&clock(19)).len(), 1);
    assert!(!s.claim_job("later", &clock(19)));
    assert!(s.claim_job("now", &clock(19)));
    assert_eq!(s.jobs[1].status, JobStatus::Running);
    assert_eq!(s.jobs[1].error_message, None);
    assert!(!s.claim_job("now", &clock(19)));
    assert!(s.claim_job("later", &clock(20)));
}

#[test]
fn due_jobs_come_in_order_and_ten_at_a_time() {
    let mut s = store(MeetingStatus::Running);
    for n in 0..12 {
        let mut row = job(&format!("j{n}"), JobType::Summary, &n.to_string(), JobStatus::Pending, 0);
        row.available_at = moment(100 - n);
        s.jobs.push(row);
    }
    let due = s.due_jobs(&clock(100));
    assert_eq!(due.len(), 10);
    assert_eq!(due[0].id, "j11");
    assert_eq!(due[9].id, "j2");
}

fn ids(jobs: &[Job]) -> Vec<&str> {
    jobs.iter().map(|j| j.id.as_str()).collect()
}

#[test]
fn round_passes_over_jobs_that_others_took() {
    let mut s = store(MeetingStatus::Running);
    for (n, id) in ["a", "b", "c"].iter().enumerate() {
        let mut row = job(id, JobType::Other("dance".into()), id, JobStatus::Pending, 0);
        row.available_at = moment(n as i64);
        s.jobs.push(row);
    }
    let mut later = job("d", JobType::Summary, "d", JobStatus::Pending, 0);
    later.available_at = moment(50);
    s.jobs.push(later);
    let round = s.begin_round(&clock(10));
    let Round::Claim { job: first, rest, ran } = &round else { panic!("nothing is due") };
    assert_eq!(first.id, "a");
    assert_eq!(ids(rest), ["b", "c"]);
    assert!(ran.is_empty());
    assert!(s.claim_job("a", &clock(10)));
    let before = s.clone();
    let round = s.claim_in_round(round, &clock(10));
    assert_eq!(s, before);
    let round = s.claim_in_round(round, &clock(10));
    let Round::Run { job: second, rest, ran } = &round else { panic!("the job was due") };
    assert_eq!(second.id, "b");
    assert_eq!(ids(rest), ["c"]);
    assert!(ran.is_empty());
    assert_eq!(s.jobs[1].status, JobStatus::Running);
    let failure = AppError::Processing("unknown job type: dance".into());
    let (events, round) = s.finish_in_round_as(round, Err(failure.clone()), "k".into(), &clock(10));
    assert!(events.is_empty());
    let Round::Claim { job: third, ran, .. } = &round else { panic!("a job is left") };
    assert_eq!(third.id, "c");
    assert_eq!(ids(ran), ["b"]);
    let round = s.claim_in_round(round, &clock(10));
    let (_, round) = s.finish_in_round(round, Err(failure), &clock(10));
    let Round::Over(result) = &round else { panic!("no job is left") };
    assert_eq!(*result, Ok(2));
    assert_eq!(s.jobs[3].status, JobStatus::Pending);
    let Round::Over(result) = s.claim_in_round(round, &clock(10)) else { panic!("it was over") };
    assert_eq!(result, Ok(2));
}

#[test]
fn round_runs_ten_jobs_at_most() {
    let mut s = store(MeetingStatus::Running);
    for n in 0..12 {
        let name = n.to_string();
        s.jobs.push(job(&name, JobType::Other("dance".into()), &name, JobStatus::Pending, 0));
    }
    assert_eq!(process_jobs(&mut s, &Ok("text".into()), 1), 10);
    let failed = s.jobs.iter().filter(|j| j.retry_count == 1).count();
    assert_eq!(failed, 10);
    assert_eq!(process_jobs(&mut s, &Ok("text".into()), 1), 2);
    assert_eq!(process_jobs(&mut s, &Ok("text".into()), 1), 0);
}

#[test]
fn round_breaks_off_where_nothing_can_be_noted() {
    let mut s = store(MeetingStatus::Running);
    s.jobs.push(job("a", JobType::Transcribe, "gone", JobStatus::Pending, 2));
    s.jobs.push(job("b", JobType::Transcribe, "gone too", JobStatus::Pending, 2));
    let round = s.begin_round(&clock(10));
    let round = s.claim_in_round(round, &clock(10));
    s.meetings.clear();
    let (events, round) = s.finish_in_round(round, Err(AppError::NotFound), &clock(10));
    assert_eq!(events.len(), 1);
    let Round::Over(result) = round else { panic!("nothing could be noted") };
    assert_eq!(
        result,
        Err(AppError::Db("no rows returned by a query that expected to return at least one row".into()))
    );
    assert_eq!(s.jobs[1].status, JobStatus::Pending);
}

#[test]
fn unknown_jobs_are_refused() {
    let row = job("j", JobType::Other("dance".into()), "x", JobStatus::Pending, 0);
    assert_eq!(plan_job(&row), Err(AppError::Processing("unknown job type: dance".into())));
    let mut row = job("j", JobType::Summary, "x", JobStatus::Pending, 0);
    row.target_id = None;
    assert_eq!(plan_job(&row), Ok(Task::Summarize("0".into())));
    row.job_type = JobType::Rebuild;
    assert_eq!(plan_job(&row), Ok(Task::Rebuild("".into())));
    row.job_type = JobType::Transcribe;
    assert_eq!(plan_job(&row), Ok(Task::Transcribe("".into())));
}

#[test]
fn interrupted_jobs_are_recovered() {
    let mut s = store(MeetingStatus::Running);
    s.jobs.push(job("a", JobType::Summary, "1", JobStatus::Running, 1));
    s.jobs.push(job("b", JobType::Summary, "2", JobStatus::Failed, 3));
    assert_eq!(s.recover_jobs(&clock(8)), 1);
    assert_eq!(s.jobs[0].status, JobStatus::Pending);
    assert_eq!(s.jobs[0].retry_count, 1);
    assert_eq!(s.jobs[0].available_at, moment(8));
    assert_eq!(s.jobs[0].error_message.as_deref(), Some("recovered after service restart"));
    assert_eq!(s.jobs[1].status, JobStatus::Failed);
}

#[test]
fn failed_jobs_can_be_retried() {
    let mut s = store(MeetingStatus::Running);
    s.jobs.push(job("a", JobType::Summary, "1", JobStatus::Failed, 3));
    let answer = s.retry_job("a", &clock(4)).unwrap();
    assert_eq!(write_json(answer), "{\"id\":\"a\",\"status\":\"pending\"}");
    assert_eq!(s.jobs[0].status, JobStatus::Pending);
    assert_eq!(s.jobs[0].retry_count, 0);
    assert_eq!(
        s.retry_job("a", &clock(4)),
        Err(AppError::BadRequest("job does not exist or is not failed".into()))
    );
    assert!(s.retry_job("b", &clock(4)).is_err());
}

#[test]
fn jobs_are_listed_latest_first() {
    let mut s = store(MeetingStatus::Running);
    for n in 0..103 {
        let mut row = job(&format!("j{n}"), JobType::Summary, &n.to_string(), JobStatus::Pending, 0);
        row.available_at = moment(n);
        s.jobs.push(row);
    }
    s.jobs[0].status = JobStatus::Failed;
    s.jobs[1].meeting_id = "other".into();
    let all = s.list_jobs(None, None).unwrap();
    let rows = all.as_array().unwrap();
    assert_eq!(rows.len(), 100);
    assert_eq!(rows[0].get("id").unwrap().as_str(), Some("j102"));
    assert_eq!(s.list_jobs(Some("other"), None).unwrap().as_array().unwrap().len(), 1);
    let failed = s.list_jobs(Some("m"), Some("failed")).unwrap();
    assert_eq!(
        write_json(failed),
        "[{\"available_at\":\"t0\",\"error_message\":null,\"id\":\"j0\",\"job_type\":\"summary\",\"meeting_id\":\"m\",\"retry_count\":0,\"status\":\"failed\",\"target_id\":\"0\"}]"
    );
    assert_eq!(
        s.list_jobs(None, Some("done")),
        Err(AppError::BadRequest("invalid job status".into()))
    );
}

#[test]
fn health_counts_jobs() {
    let mut s = store(MeetingStatus::Running);
    s.jobs.push(job("a", JobType::Summary, "1", JobStatus::Failed, 3));
    s.jobs.push(job("b", JobType::Summary, "2", JobStatus::Pending, 0));
    s.jobs.push(job("c", JobType::Summary, "3", JobStatus::Pending, 0));
    s.jobs.push(job("d", JobType::Summary, "4", JobStatus::Completed, 0));
    assert_eq!(
        write_json(s.health()),
        "{\"database\":\"ok\",\"jobs\":{\"failed\":1,\"pending\":2},\"status\":\"ok\"}"
    );
}

#[test]
fn worker_goes_on_while_there_is_work() {
    assert_eq!(after_round(&Ok(1)), AfterRound::Again);
    assert_eq!(after_round(&Ok(0)), AfterRound::Wait);
    assert_eq!(after_round(&Err(AppError::NotFound)), AfterRound::Wait);
}

#[test]
fn uncountable_failures_are_told_apart() {
    let mut s = store(MeetingStatus::Running);
    s.jobs.push(job("a", JobType::Summary, "1", JobStatus::Running, i64::MAX));
    assert!(!s.is_countable("a"));
    assert!(s.is_countable("b"));
}

#[test]
fn local_summaries_reach_the_board() {
    let mut s = store(MeetingStatus::Running);
    s.segments.push(segment("a", 1, 0, 300_000, Some("One. Two"), SegmentStatus::Completed));
    let work = s.begin_summary("m", "300000").unwrap();
    let document = LocalSummarizer.summarize(work.start_ms, work.end_ms, &work.transcript);
    s.complete_summary("m", &work, document, &clock(0)).unwrap().1.unwrap();
    assert_eq!(texts(&s.board_to_extend("m"), "key_points"), ["Unknown: One", "Two"]);
}

#[test]
fn custom_summary_window_drives_summary_scheduling() {
    let mut s = store(MeetingStatus::Running);
    s.meetings[0].next_summary_end_ms = 30_000;
    s.meetings[0].summary_window_ms = 30_000;
    s.segments.push(segment("a", 1, 0, 30_000, Some("已完成"), SegmentStatus::Completed));

    let (events, outcome) = summarize(&mut s, "30000", fixed_document(), 0);
    outcome.unwrap();

    assert_eq!(s.summaries[0].window_start_ms, 0);
    assert_eq!(s.summaries[0].window_end_ms, 30_000);
    assert_eq!(s.meetings[0].next_summary_end_ms, 60_000);

    assert_eq!(events[0].kind, "summary.created");
    assert_eq!(events[0].data.get("window_end_ms"), Some(&diting::json::integer_json(30_000)));
    assert_eq!(events[1].kind, "board.updated");
    assert_eq!(events[1].data.get("version"), Some(&diting::json::integer_json(1)));
}
