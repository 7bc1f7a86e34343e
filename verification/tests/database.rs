//! The texts of refused rows are those of the database itself.
use diting::error::AppError;
use diting::segments::NewSegment;
use diting::store::{
    BoardVersion, Clock, Job, JobStatus, JobType, Moment, Segment, SegmentStatus, Speaker, Store,
    Summary,
};
use diting::summary::SummaryDocument;
use diting::windows::{SummaryIds, Window};
use sqlx::sqlite::{SqliteConnectOptions, SqliteConnection};
use sqlx::{ConnectOptions, Row};

const TABLES: [&str; 6] = [
    "CREATE TABLE meetings (id TEXT PRIMARY KEY)",
    "CREATE TABLE speakers (
       id TEXT PRIMARY KEY, meeting_id TEXT NOT NULL REFERENCES meetings(id), name TEXT NOT NULL)",
    "CREATE TABLE audio_segments (
       id TEXT PRIMARY KEY, meeting_id TEXT NOT NULL REFERENCES meetings(id),
       speaker_id TEXT REFERENCES speakers(id), sequence_no INTEGER NOT NULL,
       UNIQUE(meeting_id, sequence_no))",
    "CREATE TABLE rolling_summaries (
       id TEXT PRIMARY KEY, meeting_id TEXT NOT NULL REFERENCES meetings(id),
       window_end_ms INTEGER NOT NULL, UNIQUE(meeting_id, window_end_ms))",
    "CREATE TABLE meeting_board_versions (
       id TEXT PRIMARY KEY, meeting_id TEXT NOT NULL REFERENCES meetings(id),
       version INTEGER NOT NULL, source_summary_id TEXT NOT NULL REFERENCES rolling_summaries(id),
       UNIQUE(meeting_id, version))",
    "CREATE TABLE jobs (
       id TEXT PRIMARY KEY, job_type TEXT NOT NULL, meeting_id TEXT NOT NULL REFERENCES meetings(id),
       target_id TEXT, status TEXT NOT NULL DEFAULT 'pending',
       UNIQUE(job_type, meeting_id, target_id))",
];

async fn execute(db: &mut SqliteConnection, statement: &str) -> Result<u64, AppError> {
    sqlx::query(statement)
        .execute(db)
        .await
        .map(|done| done.rows_affected())
        .map_err(|e| AppError::Db(e.to_string()))
}

/// What the database says to the last of these statements.
fn refusal(statements: &[&str]) -> AppError {
    let runtime = tokio::runtime::Builder::new_current_thread().enable_all().build().unwrap();
    runtime.block_on(async {
        let mut db = SqliteConnectOptions::new()
            .in_memory(true)
            .foreign_keys(true)
            .connect()
            .await
            .unwrap();
        for statement in TABLES {
            execute(&mut db, statement).await.unwrap();
        }
        let (last, before) = statements.split_last().unwrap();
        for statement in before {
            execute(&mut db, statement).await.unwrap();
        }
        execute(&mut db, last).await.unwrap_err()
    })
}

fn clock() -> Clock {
    let moment = |n: i64| Moment { seconds: n, text: format!("t{n}") };
    Clock::new(moment(0), moment(5)).unwrap()
}

fn running() -> Store {
    let mut s = Store::new();
    s.create_meeting_as("title", None, "m", &clock()).unwrap();
    s
}

fn segment(id: &str, number: i64, speaker: Option<&str>) -> NewSegment {
    NewSegment {
        id: id.into(),
        meeting_id: "m".into(),
        speaker_id: speaker.map(|s| s.to_string()),
        sequence_no: number,
        start_ms: 0,
        end_ms: 1,
        file_path: String::new(),
        transcript: None,
    }
}

fn job(id: &str, job_type: JobType, target: &str) -> Job {
    Job {
        id: id.into(),
        job_type,
        meeting_id: "m".into(),
        target_id: Some(target.into()),
        status: JobStatus::Pending,
        retry_count: 0,
        available_at: Moment { seconds: 0, text: "t0".into() },
        error_message: None,
    }
}

const MEETING: &str = "INSERT INTO meetings(id) VALUES('m')";
const SEGMENT: &str = "INSERT INTO audio_segments(id,meeting_id,sequence_no) VALUES('a','m',1)";
const TRANSCRIBE_A: &str =
    "INSERT INTO jobs(id,job_type,meeting_id,target_id) VALUES('j','transcribe','m','a')";

#[test]
fn taken_meetings_are_refused_as_by_the_database() {
    let mut s = running();
    assert_eq!(
        s.create_meeting_as("again", None, "m", &clock()),
        Err(refusal(&[MEETING, MEETING]))
    );
}

#[test]
fn speakers_are_refused_as_by_the_database() {
    let speaker = "INSERT INTO speakers(id,meeting_id,name) VALUES('sp','m','Bob')";
    let mut s = running();
    s.create_speaker_as("m", "Bob", "sp").unwrap();
    assert_eq!(s.create_speaker_as("m", "Eve", "sp"), Err(refusal(&[MEETING, speaker, speaker])));
    let elsewhere = "INSERT INTO speakers(id,meeting_id,name) VALUES('sp','n','Eve')";
    assert_eq!(
        s.ensure_speaker_by_name_as("n", "Eve", "sp"),
        Err(refusal(&[MEETING, speaker, elsewhere]))
    );
    assert_eq!(s.ensure_speaker_by_name_as("n", "Eve", "x"), Err(refusal(&[elsewhere])));
}

#[test]
fn segments_are_refused_as_by_the_database() {
    let mut s = running();
    s.insert_segment_as(segment("a", 1, None), "j".into(), &clock()).unwrap();
    for id in ["a", "b"] {
        let number =
            format!("INSERT INTO audio_segments(id,meeting_id,sequence_no) VALUES('{id}','m',1)");
        assert_eq!(
            s.insert_segment(segment(id, 1, None), &clock()),
            Err(refusal(&[MEETING, SEGMENT, &number]))
        );
    }
    let other_number = "INSERT INTO audio_segments(id,meeting_id,sequence_no) VALUES('a','m',2)";
    assert_eq!(
        s.insert_segment(segment("a", 2, None), &clock()),
        Err(refusal(&[MEETING, SEGMENT, other_number]))
    );
    let nobody =
        "INSERT INTO audio_segments(id,meeting_id,speaker_id,sequence_no) VALUES('c','m','x',3)";
    assert_eq!(
        s.insert_segment(segment("c", 3, Some("x")), &clock()),
        Err(refusal(&[MEETING, nobody]))
    );
    assert_eq!(Store::new().insert_segment(segment("a", 1, None), &clock()), Err(refusal(&[SEGMENT])));
}

#[test]
fn jobs_are_refused_as_by_the_database() {
    let mut s = running();
    s.jobs.push(job("j", JobType::Transcribe, "a"));
    assert_eq!(
        s.insert_segment_as(segment("a", 1, None), "j".into(), &clock()),
        Err(refusal(&[MEETING, TRANSCRIBE_A, TRANSCRIBE_A]))
    );
    let same_id =
        "INSERT INTO jobs(id,job_type,meeting_id,target_id) VALUES('j','transcribe','m','b')";
    assert_eq!(
        s.insert_segment_as(segment("b", 1, None), "j".into(), &clock()),
        Err(refusal(&[MEETING, TRANSCRIBE_A, same_id]))
    );
    let rebuild = "INSERT INTO jobs(id,job_type,meeting_id,target_id) VALUES('j','rebuild','m','0')
                   ON CONFLICT(job_type,meeting_id,target_id) DO UPDATE SET status='pending'";
    assert_eq!(
        s.enqueue_rebuild_as("m", 0, "j".into(), &clock()),
        Err(refusal(&[MEETING, TRANSCRIBE_A, rebuild]))
    );
    assert_eq!(
        Store::new().enqueue_rebuild_as("m", 0, "j".into(), &clock()),
        Err(refusal(&[rebuild]))
    );
    let there = "INSERT INTO jobs(id,job_type,meeting_id,target_id) VALUES('k','rebuild','m','0')";
    s.jobs.push(job("k", JobType::Rebuild, "0"));
    s.enqueue_rebuild_as("m", 0, "j".into(), &clock()).unwrap();
    let accepted = [MEETING, TRANSCRIBE_A, there, rebuild, "INSERT INTO meetings(id) VALUES('m')"];
    assert_eq!(refusal(&accepted), refusal(&[MEETING, MEETING]));
}

#[test]
fn summaries_are_refused_as_by_the_database() {
    let summary = "INSERT OR IGNORE INTO rolling_summaries(id,meeting_id,window_end_ms) VALUES('s','m',1)";
    let version = "INSERT INTO meeting_board_versions(id,meeting_id,version,source_summary_id)
                   VALUES('v','m',1,'s')";
    let next = "INSERT INTO meeting_board_versions(id,meeting_id,version,source_summary_id)
                VALUES('v','m',2,'s')";
    let work = Window { start_ms: 0, end_ms: 2, window_ms: 10, transcript: String::new() };
    let ids = || SummaryIds { summary: "t".into(), version: "v".into(), job: "j".into() };
    let mut s = running();
    s.summaries.push(Summary {
        id: "s".into(),
        meeting_id: "m".into(),
        window_start_ms: 0,
        window_end_ms: 1,
        content_json: "{}".into(),
        created_at: "then".into(),
    });
    s.board_versions.push(BoardVersion {
        id: "v".into(),
        meeting_id: "m".into(),
        version: 1,
        source_summary_id: "s".into(),
        content_json: "{}".into(),
        created_at: "then".into(),
    });
    let document = SummaryDocument::default;
    let (_, outcome) = s.complete_summary_as("m", &work, Ok(document()), ids(), &clock()).unwrap();
    assert_eq!(outcome, Err(refusal(&[MEETING, summary, version, next])));
    let (_, outcome) =
        Store::new().complete_summary_as("m", &work, Ok(document()), ids(), &clock()).unwrap();
    assert_eq!(outcome, Err(refusal(&[summary])));
}

#[test]
fn deletions_are_refused_as_by_the_database() {
    let mut s = running();
    s.create_meeting_as("other", None, "n", &clock()).unwrap();
    s.speakers.push(Speaker { id: "sp".into(), meeting_id: "m".into(), name: "Bob".into() });
    s.segments.push(Segment {
        id: "a".into(),
        meeting_id: "n".into(),
        speaker_id: Some("sp".into()),
        sequence_no: 1,
        start_ms: 0,
        end_ms: 1,
        file_path: String::new(),
        transcript: None,
        status: SegmentStatus::Uploaded,
    });
    assert_eq!(
        s.delete_meeting("m"),
        Err(refusal(&[
            MEETING,
            "INSERT INTO meetings(id) VALUES('n')",
            "INSERT INTO speakers(id,meeting_id,name) VALUES('sp','m','Bob')",
            "INSERT INTO audio_segments(id,meeting_id,speaker_id,sequence_no) VALUES('a','n','sp',1)",
            "DELETE FROM speakers WHERE meeting_id='m'",
        ]))
    );
}

#[test]
fn missing_rows_are_told_as_by_the_database() {
    let runtime = tokio::runtime::Builder::new_current_thread().enable_all().build().unwrap();
    let missing = runtime.block_on(async {
        let mut db = SqliteConnectOptions::new().in_memory(true).connect().await.unwrap();
        execute(&mut db, TABLES[0]).await.unwrap();
        let found = sqlx::query("SELECT id FROM meetings").fetch_one(&mut db).await;
        found.map(|row| row.get::<String, _>("id")).unwrap_err()
    });
    assert_eq!(
        Store::new().enqueue_summary("m", false, &clock()),
        Err(AppError::Db(missing.to_string()))
    );
}
