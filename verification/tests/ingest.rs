use diting::ingest::{
    cached_speaker, can_reckon_start, chunk_start_ms, display_name, goes_on, ingest_window_ms,
    live_file_name,
    room_step, spawn_ingest, stop_ingest, window_samples, AfterFailure, Connecting, LivekitIngest,
    RoomChange, RoomStep, Table, TrackBuffer, INGEST_SAMPLE_RATE,
};
use diting::json::write_json;
use diting::number::{format_i64, format_u64, parse_i64, parse_usize};
use diting::store::{Clock, JobType, Moment, Store};
use diting::text::{
    contains_text, eq_ignore_ascii_case, is_white_space, join_texts, split_text, trim,
    trimmed_option, without_end_slashes,
};
use diting::wav::{can_be_wav, wav_bytes};

fn clock() -> Clock {
    let moment = |n: i64| Moment { seconds: n, text: format!("t{n}") };
    Clock::new(moment(0), moment(5)).unwrap()
}

#[test]
fn wav_header_is_well_formed() {
    let samples = [0i16, 1000, -1000];
    let wav = wav_bytes(&samples, 16_000);
    assert_eq!(&wav[0..4], b"RIFF");
    assert_eq!(&wav[8..12], b"WAVE");
    assert_eq!(u32::from_le_bytes(wav[4..8].try_into().unwrap()), 36 + 6);
    assert_eq!(u32::from_le_bytes(wav[24..28].try_into().unwrap()), 16_000);
    assert_eq!(&wav[36..40], b"data");
    assert_eq!(u32::from_le_bytes(wav[40..44].try_into().unwrap()), 6);
    assert_eq!(wav.len(), 44 + 6);
}

#[test]
fn wav_samples_are_read_back() {
    let samples = [0i16, 1, -1, i16::MAX, i16::MIN, 256, -256];
    let wav = wav_bytes(&samples, 8_000);
    assert_eq!(&wav[8..16], b"WAVEfmt ");
    assert_eq!(wav[16..24], [16, 0, 0, 0, 1, 0, 1, 0]);
    assert_eq!(u32::from_le_bytes(wav[28..32].try_into().unwrap()), 16_000);
    assert_eq!(wav[32..36], [2, 0, 16, 0]);
    for (i, sample) in samples.iter().enumerate() {
        let at = 44 + 2 * i;
        assert_eq!(i16::from_le_bytes(wav[at..at + 2].try_into().unwrap()), *sample);
    }
}

#[test]
fn sound_is_cut_into_windows() {
    let mut buffer = TrackBuffer::new(3);
    assert!(buffer.push_frame(&[1, 2]).is_empty());
    assert_eq!(buffer.push_frame(&[3, 4, 5, 6, 7]), [vec![1, 2, 3], vec![4, 5, 6]]);
    assert_eq!(buffer.push_frame(&[]), Vec::<Vec<i16>>::new());
    assert_eq!(buffer.push_frame(&[8, 9]), [vec![7, 8, 9]]);
    assert_eq!(buffer.into_tail(), None);
}

#[test]
fn frames_do_not_matter_for_windows() {
    let sound: Vec<i16> = (0..50).collect();
    let mut whole = TrackBuffer::new(7);
    let expected = whole.push_frame(&sound);
    assert_eq!(expected.len(), 7);
    for size in [1, 3, 7, 8, 20, 49] {
        let mut buffer = TrackBuffer::new(7);
        let mut windows = Vec::new();
        for frame in sound.chunks(size) {
            windows.extend(buffer.push_frame(frame));
        }
        assert_eq!(windows, expected);
        assert!(buffer.push_frame(&[50, 51, 52, 53, 54]).is_empty());
        assert_eq!(buffer.push_frame(&[55]), [[49, 50, 51, 52, 53, 54, 55]]);
    }
}

#[test]
fn bounds_of_windows_are_told() {
    assert!(can_reckon_start(0, 960_000));
    assert!(can_reckon_start(i64::MIN + 60_000, 960_000));
    assert!(!can_reckon_start(i64::MIN + 59_999, 960_000));
    assert!(!can_reckon_start(0, usize::MAX));
    assert!(can_be_wav(960_000, INGEST_SAMPLE_RATE));
    assert!(can_be_wav(0x7fff_ffed, INGEST_SAMPLE_RATE));
    assert!(!can_be_wav(0x7fff_ffee, INGEST_SAMPLE_RATE));
    assert!(!can_be_wav(1, u32::MAX));
}

#[test]
fn short_tails_are_dropped() {
    let half = (INGEST_SAMPLE_RATE / 2) as usize;
    let mut long = TrackBuffer::new(80_000);
    long.push_frame(&vec![5; half]);
    assert_eq!(long.into_tail(), Some(vec![5; half]));
    let mut short = TrackBuffer::new(80_000);
    short.push_frame(&vec![5; half - 1]);
    assert_eq!(short.into_tail(), None);
}

#[test]
fn window_length_can_be_set() {
    assert_eq!(ingest_window_ms(None), 5_000);
    assert_eq!(ingest_window_ms(Some("1000")), 1_000);
    assert_eq!(ingest_window_ms(Some("60000")), 60_000);
    assert_eq!(ingest_window_ms(Some("999")), 5_000);
    assert_eq!(ingest_window_ms(Some("60001")), 5_000);
    assert_eq!(ingest_window_ms(Some("five")), 5_000);
    assert_eq!(window_samples(5_000), 80_000);
}

#[test]
fn windows_start_when_their_sound_did() {
    assert_eq!(chunk_start_ms(12_000, 80_000), 7_000);
    assert_eq!(chunk_start_ms(3_000, 80_000), 0);
}

#[test]
fn live_windows_become_segments() {
    let mut s = Store::new();
    s.create_meeting_as("t", None, "m", &clock()).unwrap();
    let path = format!("/audio/m/{}", live_file_name("x"));
    let (events, outcome) = s.take_in_chunk("m", None, 4, 6_000, 80_000, "x", path, &clock());
    outcome.unwrap();
    assert_eq!(s.segments[0].file_path, "/audio/m/x-live.wav");
    assert_eq!(s.segments[0].start_ms, 1_000);
    assert_eq!(s.segments[0].end_ms, 6_000);
    assert_eq!(s.jobs[0].job_type, JobType::Transcribe);
    assert_eq!(events[0].kind, "segment.uploaded");
    assert_eq!(
        write_json(events[0].data.copy()),
        "{\"end_ms\":6000,\"segment_id\":\"x\",\"sequence_no\":4,\"source\":\"livekit\",\"start_ms\":1000}"
    );
    let (events, outcome) = s.take_in_chunk("m", None, 4, 6_000, 80_000, "y", String::new(), &clock());
    assert!(events.is_empty());
    assert!(outcome.is_err());
}

#[test]
fn one_bot_listens_to_a_meeting() {
    let mut running: Table<u32> = Table::new();
    assert!(spawn_ingest(&mut running, "m", 1));
    assert!(!spawn_ingest(&mut running, "m", 2));
    assert!(spawn_ingest(&mut running, "n", 3));
    assert_eq!(stop_ingest(&running, "m"), Some(&1));
    assert_eq!(stop_ingest(&running, "x"), None);
    running.remove("m");
    assert_eq!(stop_ingest(&running, "m"), None);
    assert_eq!(stop_ingest(&running, "n"), Some(&3));
    assert!(spawn_ingest(&mut running, "m", 4));
    let config = LivekitIngest { url: "ws://x".into(), room_name: "r".into(), token: "t".into() };
    assert_eq!(config.clone(), config);
}

#[test]
fn identities_keep_their_speaker() {
    let mut s = Store::new();
    s.create_meeting_as("t", None, "m", &clock()).unwrap();
    let mut known: Table<String> = Table::new();
    let first = cached_speaker(&mut known, &mut s, "m", "id1", "Alice", "a").unwrap();
    assert_eq!(first, "a");
    assert_eq!(cached_speaker(&mut known, &mut s, "m", "id1", "Renamed", "b").unwrap(), "a");
    assert_eq!(cached_speaker(&mut known, &mut s, "m", "id2", "Alice", "c").unwrap(), "a");
    assert_eq!(s.speakers.len(), 1);
    assert!(cached_speaker(&mut known, &mut s, "none", "id3", "Bob", "d").is_err());
    assert!(known.get("id3").is_none());
}

#[test]
fn participants_are_called_by_name_or_identity() {
    assert_eq!(display_name("id", "Alice"), "Alice");
    assert_eq!(display_name("id", ""), "id");
}

#[test]
fn bots_give_up_after_five_failures_in_a_row() {
    let mut connecting = Connecting::new();
    for pause in [2, 4] {
        assert!(matches!(connecting.failed("m", "x"), AfterFailure::Wait(n) if n == pause));
    }
    assert_eq!(connecting.connected(), 2);
    for pause in [2, 4, 6, 8] {
        assert!(matches!(connecting.failed("m", "x"), AfterFailure::Wait(n) if n == pause));
    }
    match connecting.failed("m", "refused") {
        AfterFailure::GiveUp(event) => {
            assert_eq!(event.kind, "ingest.failed");
            assert_eq!(write_json(event.data), "{\"attempts\":5,\"error\":\"refused\"}");
        }
        AfterFailure::Wait(_) => panic!("should have given up"),
    }
    assert!(goes_on(false, false));
    assert!(!goes_on(true, false));
    assert!(!goes_on(false, true));
}

#[test]
fn bots_leave_when_they_have_to() {
    assert_eq!(room_step(RoomChange::AudioTrack), RoomStep::Listen);
    assert_eq!(room_step(RoomChange::OtherTrack), RoomStep::Stay);
    assert_eq!(room_step(RoomChange::Other), RoomStep::Stay);
    assert_eq!(room_step(RoomChange::Disconnected), RoomStep::Leave);
    assert_eq!(room_step(RoomChange::Closed), RoomStep::Leave);
    assert_eq!(room_step(RoomChange::Stop), RoomStep::Leave);
}

#[test]
fn white_space_is_that_of_unicode() {
    for n in 0..=0x10FFFFu32 {
        if let Some(c) = char::from_u32(n) {
            assert_eq!(is_white_space(c), c.is_whitespace(), "at {n:x}");
        }
    }
}

#[test]
fn texts_are_handled_as_by_the_standard_library() {
    for text in ["", " ", " a ", "\u{3000}中\u{a0}", "a b", "\n\t x"] {
        assert_eq!(trim(text), text.trim());
        assert_eq!(trimmed_option(text.to_string()).is_none(), text.trim().is_empty());
    }
    for (a, b) in [("Abc", "aBC"), ("é", "É"), ("a", "ab"), ("[", "{"), ("Z", "z")] {
        assert_eq!(eq_ignore_ascii_case(a, b), a.eq_ignore_ascii_case(b));
    }
    for text in ["", "a", ".a..b.", "a\nb"] {
        let ours = split_text(text, &vec!['.', '\n']);
        assert_eq!(ours, text.split(['.', '\n']).collect::<Vec<_>>());
        assert_eq!(join_texts(&ours, "."), ours.join("."));
    }
    assert_eq!(without_end_slashes("http://a//"), "http://a");
    assert!(contains_text("abc", "bc"));
    assert!(contains_text("abc", ""));
    assert!(!contains_text("abc", "cb"));
}

#[test]
fn numbers_are_read_and_written_as_by_the_standard_library() {
    for text in [
        "", "+", "-", "0", "-0", "+7", "007", "12 ", "１", "9223372036854775807",
        "9223372036854775808", "-9223372036854775808", "-9223372036854775809", "1e3",
    ] {
        assert_eq!(parse_i64(text), text.parse::<i64>().ok(), "{text}");
        assert_eq!(parse_usize(text), text.parse::<usize>().ok(), "{text}");
    }
    for n in [0, 1, -1, 10, i64::MAX, i64::MIN, -300_000] {
        assert_eq!(format_i64(n), n.to_string());
    }
    assert_eq!(format_u64(u64::MAX), u64::MAX.to_string());
}
