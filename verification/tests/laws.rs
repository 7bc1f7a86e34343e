use diting::json::read_json;
use diting::segments::NewSegment;
use diting::store::{Clock, JobStatus, JobType, Moment, SegmentStatus, Store};
use diting::summary::SummaryDocument;

fn clock(seconds: i64) -> Clock {
    let moment = |n: i64| Moment { seconds: n, text: format!("t{n}") };
    Clock::new(moment(seconds), moment(seconds + 5)).unwrap()
}

fn add(s: &mut Store, meeting: &str, number: i64, start: i64, end: i64, text: Option<&str>) -> String {
    let id = format!("{meeting}{number}");
    let segment = NewSegment {
        id: id.clone(),
        meeting_id: meeting.into(),
        speaker_id: None,
        sequence_no: number,
        start_ms: start,
        end_ms: end,
        file_path: String::new(),
        transcript: None,
    };
    s.insert_segment(segment, &clock(0)).unwrap();
    if let Some(text) = text {
        let work = s.begin_transcription(&id, meeting).unwrap();
        s.complete_transcription(&work, Ok(text.into()), &clock(0)).1.unwrap();
    }
    id
}

fn point(text: &str) -> SummaryDocument {
    SummaryDocument { key_points: vec![text.into()], ..SummaryDocument::default() }
}

fn summarize(s: &mut Store, meeting: &str, target: &str, text: &str) {
    let work = s.begin_summary(meeting, target).unwrap();
    s.complete_summary(meeting, &work, Ok(point(text)), &clock(0)).unwrap().1.unwrap();
}

fn part(s: &Store, id: &str) -> Store {
    let mut part = s.clone();
    part.meetings.retain(|r| r.id == id);
    part.speakers.retain(|r| r.meeting_id == id);
    part.segments.retain(|r| r.meeting_id == id);
    part.summaries.retain(|r| r.meeting_id == id);
    part.boards.retain(|r| r.meeting_id == id);
    part.board_versions.retain(|r| r.meeting_id == id);
    part.jobs.retain(|r| r.meeting_id == id);
    part
}

fn two_meetings() -> Store {
    let mut s = Store::new();
    for id in ["a", "b"] {
        s.create_meeting_as("t", Some(10_000), id, &clock(0)).unwrap();
        s.create_speaker_as(id, "Bob", &format!("bob-{id}")).unwrap();
        add(&mut s, id, 1, 0, 10_000, Some("one"));
        summarize(&mut s, id, "10000", "one");
        add(&mut s, id, 2, 10_000, 20_000, None);
    }
    s
}

#[test]
fn operations_leave_other_meetings_alone() {
    let mut s = two_meetings();
    let other = part(&s, "b");
    s.update_segment("a", "a1", Some("edited".into()), Some("Carol".into())).1.unwrap();
    add(&mut s, "a", 3, 5_000, 6_000, Some("late"));
    assert!(s.jobs.iter().any(|j| j.meeting_id == "a" && j.job_type == JobType::Rebuild));
    s.process_rebuild("a", "0", &clock(1)).1.unwrap();
    s.end_meeting("a", &clock(2)).1.unwrap();
    let row = s.jobs.iter().find(|j| j.meeting_id == "a").unwrap().clone();
    s.claim_job(&row.id, &clock(3));
    s.finish_job(&row, Err(diting::error::AppError::NotFound), &clock(3)).1.unwrap();
    assert_eq!(part(&s, "b"), other);
    s.delete_meeting("a").unwrap();
    assert_eq!(s, other);
}

#[test]
fn windows_follow_one_another() {
    let mut s = Store::new();
    s.create_meeting_as("t", Some(10_000), "m", &clock(0)).unwrap();
    add(&mut s, "m", 1, 0, 25_000, Some("long"));
    for (end, next) in [(10_000, 20_000), (20_000, 30_000)] {
        let target = s.jobs.iter().rev().find(|j| j.job_type == JobType::Summary).unwrap().target_id.clone();
        assert_eq!(target, Some(end.to_string()));
        let work = s.begin_summary("m", &end.to_string()).unwrap();
        assert_eq!(work.start_ms, end - 10_000);
        summarize(&mut s, "m", &end.to_string(), "x");
        assert_eq!(s.meetings[0].next_summary_end_ms, next);
    }
    assert_eq!(s.summarized_until("m"), 20_000);
    assert_eq!(s.completed_until("m"), 25_000);
}

#[test]
fn last_window_misses_nothing() {
    let mut s = Store::new();
    s.create_meeting_as("t", Some(10_000), "m", &clock(0)).unwrap();
    add(&mut s, "m", 1, 0, 10_000, Some("one"));
    summarize(&mut s, "m", "10000", "one");
    add(&mut s, "m", 2, 9_000, 12_000, Some("two"));
    s.jobs.retain(|j| j.job_type != JobType::Rebuild);
    add(&mut s, "m", 3, 12_000, 13_000, Some("three"));
    s.end_meeting("m", &clock(0)).1.unwrap();
    assert!(s.jobs.iter().any(|j| j.target_id.as_deref() == Some("final:13000")));
    let work = s.begin_summary("m", "final:13000").unwrap();
    assert_eq!(work.start_ms, 10_000);
    assert_eq!(work.transcript, "Unknown: two\nUnknown: three");
}

#[test]
fn editing_starts_nothing_over() {
    let mut s = two_meetings();
    let before = s.clone();
    s.update_segment("a", "a1", Some("edited".into()), Some("Bob".into())).1.unwrap();
    assert_eq!(s.jobs, before.jobs);
    assert_eq!(s.summaries, before.summaries);
    assert_eq!(s.boards, before.boards);
    assert_eq!(s.board_versions, before.board_versions);
    assert_eq!(s.meetings, before.meetings);
    assert_eq!(s.speakers, before.speakers);
    assert_eq!(s.segments[0].transcript.as_deref(), Some("edited"));
    assert_eq!(s.segments[0].speaker_id.as_deref(), Some("bob-a"));
}

#[test]
fn boards_are_read_back_as_they_were_written() {
    let mut s = Store::new();
    s.create_meeting_as("t", Some(10_000), "m", &clock(0)).unwrap();
    summarize(&mut s, "m", "10000", " say \"hi\"\n ");
    summarize(&mut s, "m", "20000", "bye");
    let shown = s.get_board("m").unwrap();
    let points = shown.get("content").unwrap().get("key_points").unwrap().as_array().unwrap();
    assert_eq!(points[0].as_str(), Some("say \"hi\""));
    assert_eq!(points[1].as_str(), Some("bye"));
    let first = read_json(&s.board_versions[0].content_json).unwrap();
    assert_eq!(first.get("key_points").unwrap().as_array().unwrap().len(), 1);
}

#[test]
fn retried_transcription_counts_again() {
    let mut s = Store::new();
    s.create_meeting_as("t", Some(10_000), "m", &clock(0)).unwrap();
    add(&mut s, "m", 1, 0, 10_000, None);
    s.jobs[0].retry_count = 2;
    s.jobs[0].status = JobStatus::Running;
    let row = s.jobs[0].clone();
    s.finish_job(&row, Err(diting::error::AppError::Processing("x".into())), &clock(1)).1.unwrap();
    assert_eq!(s.segments[0].status, SegmentStatus::Failed);
    s.retry_job(&row.id, &clock(2)).unwrap();
    assert!(s.claim_job(&row.id, &clock(2)));
    let work = s.begin_transcription("m1", "m").unwrap();
    s.complete_transcription(&work, Ok("text".into()), &clock(2)).1.unwrap();
    assert!(s.jobs.iter().any(|j| j.target_id.as_deref() == Some("10000")));
    assert_eq!(s.segments[0].status, SegmentStatus::Completed);
    assert_eq!(s.spoken_text("m", 0, 10_000), "Unknown: text");
}

#[test]
fn retried_transcription_of_a_summarized_time_leads_to_rebuild() {
    let mut s = Store::new();
    s.create_meeting_as("t", Some(10_000), "m", &clock(0)).unwrap();
    add(&mut s, "m", 1, 0, 10_000, None);
    s.jobs[0].status = JobStatus::Failed;
    s.segments[0].status = SegmentStatus::Failed;
    summarize(&mut s, "m", "10000", "nothing was said");
    let id = s.jobs[0].id.clone();
    s.retry_job(&id, &clock(2)).unwrap();
    assert!(s.claim_job(&id, &clock(2)));
    let work = s.begin_transcription("m1", "m").unwrap();
    s.complete_transcription(&work, Ok("text".into()), &clock(2)).1.unwrap();
    let rebuild = s.jobs.iter().find(|j| j.job_type == JobType::Rebuild).unwrap();
    assert_eq!(rebuild.target_id.as_deref(), Some("0"));
    assert_eq!(rebuild.status, JobStatus::Pending);
}
