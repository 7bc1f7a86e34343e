use diting::board::{empty_board, merge_board};
use diting::json::{read_json, write_json};
use diting::provider::{
    configured_provider, invalid_document, logged_reply, read_summary, read_transcription,
    request_summary,
    reused_transcript, summary_url, transcription_url, without_fence, LocalSummarizer,
    LocalTranscriber,
};
use diting::settings::{
    has_old_job_key, lacks_window_column, listen_address, max_upload_bytes, statements,
};
use diting::summary::{normalize_summary, ActionItem, SummaryDocument};
use diting::text::sanitize_filename;

fn action(content: &str, status: &str) -> ActionItem {
    ActionItem {
        content: content.into(),
        owner: None,
        due_date: None,
        status: status.into(),
    }
}

#[test]
fn local_summarizer_splits_key_points() {
    let document = LocalSummarizer
        .summarize(0, 300_000, "讨论需求。确认接口\n安排测试")
        .unwrap();
    assert_eq!(document.key_points, ["讨论需求", "确认接口", "安排测试"]);
}

#[test]
fn local_transcriber_keeps_what_there_is() {
    assert_eq!(LocalTranscriber.transcribe("a.wav", Some(" text ")), Ok("text".into()));
    let note = Ok("[transcript provider not configured]".to_string());
    assert_eq!(LocalTranscriber.transcribe("a.wav", Some("  ")), note);
    assert_eq!(LocalTranscriber.transcribe("a.wav", None), note);
}

#[test]
fn board_merge_deduplicates_and_keeps_actions() {
    let mut board = empty_board();
    let summary = SummaryDocument {
        topics: vec!["需求".into()],
        key_points: vec!["接口完成".into()],
        action_items: vec![ActionItem {
            content: "补测试".into(),
            owner: Some("Alice".into()),
            ..ActionItem::default()
        }],
        ..SummaryDocument::default()
    };
    merge_board(&mut board, &summary);
    merge_board(&mut board, &summary);
    assert_eq!(board.get("topics").unwrap().as_array().unwrap().len(), 1);
    assert_eq!(board.get("key_points").unwrap().as_array().unwrap().len(), 1);
    assert_eq!(board.get("action_items").unwrap().as_array().unwrap().len(), 1);
}

#[test]
fn board_merge_keeps_what_it_does_not_know() {
    let mut board = read_json("{\"topics\":[\"a\",7],\"risks\":\"none\",\"extra\":true}").unwrap();
    let summary = SummaryDocument {
        topics: vec!["b".into(), "a".into()],
        risks: vec!["fire".into()],
        ..SummaryDocument::default()
    };
    merge_board(&mut board, &summary);
    assert_eq!(
        write_json(board),
        "{\"action_items\":[],\"decisions\":[],\"extra\":true,\"key_points\":[],\"open_questions\":[],\"risks\":[\"fire\"],\"topics\":[\"a\",7,\"b\"]}"
    );
}

#[test]
fn normalize_summary_trims_dedups_and_fixes_status() {
    let summary = SummaryDocument {
        topics: vec![" 发布 ".into(), "发布".into(), "".into()],
        action_items: vec![
            ActionItem {
                content: "补测试".into(),
                owner: Some("   ".into()),
                status: "unsupported".into(),
                ..ActionItem::default()
            },
            ActionItem {
                content: "补测试".into(),
                status: "done".into(),
                ..ActionItem::default()
            },
        ],
        ..SummaryDocument::default()
    };
    let normalized = normalize_summary(summary);
    assert_eq!(normalized.topics, ["发布"]);
    assert_eq!(normalized.action_items.len(), 1);
    assert_eq!(normalized.action_items[0].owner, None);
    assert_eq!(normalized.action_items[0].status, "open");
}

#[test]
fn normalized_lists_end_at_a_hundred() {
    let many: Vec<String> = (0..150).map(|n| format!(" item {n} ")).collect();
    let actions = (0..150).map(|n| action(&format!("do {n}"), " blocked ")).collect();
    let normalized = normalize_summary(SummaryDocument {
        topics: many,
        decisions: vec!["Ship IT".into(), "ship it".into(), "ÉTÉ".into(), "été".into()],
        action_items: actions,
        ..SummaryDocument::default()
    });
    assert_eq!(normalized.topics.len(), 100);
    assert_eq!(normalized.topics[99], "item 99");
    assert_eq!(normalized.decisions, ["Ship IT", "ÉTÉ", "été"]);
    assert_eq!(normalized.action_items.len(), 100);
    assert_eq!(normalized.action_items[0].status, "blocked");
    assert_eq!(normalize_summary(normalized.clone()), normalized);
}

#[test]
fn sanitize_filename_removes_path_separators_and_non_ascii() {
    assert_eq!(sanitize_filename("../etc/录音-1.wav"), "..etc-1.wav");
    assert!(sanitize_filename("中文").is_empty());
}

#[test]
fn openai_transcriber_returns_fixed_provider_text() {
    assert_eq!(transcription_url("http://host/v1//"), "http://host/v1/audio/transcriptions");
    let body = read_json("{\"text\": \"固定的转写结果\"}").unwrap();
    assert_eq!(read_transcription(200, "200 OK", body), Ok("固定的转写结果".into()));
}

#[test]
fn openai_transcriber_prefers_existing_transcript() {
    assert_eq!(reused_transcript(Some(" 已提供的转写 ")), Some("已提供的转写".into()));
    assert_eq!(reused_transcript(Some(" \n")), None);
    assert_eq!(reused_transcript(None), None);
}

#[test]
fn openai_transcriber_surfaces_provider_error() {
    let body = read_json("{\"error\": \"provider down\"}").unwrap();
    let error = read_transcription(500, "500 Internal Server Error", body).unwrap_err();
    assert!(error.contains("500"), "unexpected error: {error}");
    assert_eq!(
        error,
        "ASR provider returned 500 Internal Server Error: {\"error\":\"provider down\"}"
    );
}

#[test]
fn transcriptions_without_text_are_refused() {
    for body in ["{}", "{\"text\":1}", "[\"text\"]"] {
        assert_eq!(
            read_transcription(200, "200 OK", read_json(body).unwrap()),
            Err("ASR response does not contain text".into())
        );
    }
    assert!(read_transcription(300, "300", read_json("{\"text\":\"x\"}").unwrap()).is_err());
    assert!(read_transcription(299, "299", read_json("{\"text\":\"x\"}").unwrap()).is_ok());
    assert!(read_transcription(199, "199", read_json("{\"text\":\"x\"}").unwrap()).is_err());
}

#[test]
fn openai_summarizer_parses_fixed_provider_json() {
    let document = "{\"topics\":[\"发布计划\"],\"decisions\":[\"下周三上线\"],\"action_items\":[{\"content\":\"补充回归测试\",\"owner\":\"Alice\",\"due_date\":null,\"status\":\"open\"}],\"key_points\":[\"接口联调完成\"]}";
    let body = format!(
        "{{\"choices\":[{{\"message\":{{\"content\":{}}}}}]}}",
        serde_json::Value::String(document.into())
    );
    assert_eq!(summary_url("http://host/"), "http://host/chat/completions");
    let text = read_summary(200, "200 OK", read_json(&body).unwrap()).unwrap();
    assert_eq!(text, document);
    let parsed: serde_json::Value = serde_json::from_str(&text).unwrap();
    assert_eq!(parsed["topics"][0], "发布计划");
    assert_eq!(parsed["decisions"][0], "下周三上线");
    assert_eq!(parsed["key_points"][0], "接口联调完成");
    assert_eq!(parsed["action_items"].as_array().unwrap().len(), 1);
    assert_eq!(parsed["action_items"][0]["content"], "补充回归测试");
    assert_eq!(parsed["action_items"][0]["owner"].as_str(), Some("Alice"));
}

#[test]
fn openai_summarizer_strips_markdown_code_fence() {
    let content = "```json\n{\"topics\":[\"发布\"]}\n```";
    assert_eq!(without_fence(content), "{\"topics\":[\"发布\"]}");
    let body = format!(
        "{{\"choices\":[{{\"message\":{{\"content\":{}}}}}]}}",
        serde_json::Value::String(content.into())
    );
    assert_eq!(
        read_summary(200, "200 OK", read_json(&body).unwrap()),
        Ok("{\"topics\":[\"发布\"]}".to_string())
    );
    assert_eq!(without_fence(&format!("  {content}\n")), "{\"topics\":[\"发布\"]}");
    assert_eq!(without_fence(" {} "), "{}");
    assert_eq!(without_fence("```json {}"), "```json {}");
    assert_eq!(without_fence("```\n{}\n```"), "```\n{}\n```");
}

#[test]
fn openai_summarizer_rejects_invalid_json_content() {
    let body = read_json("{\"choices\":[{\"message\":{\"content\":\"not a json document\"}}]}").unwrap();
    let text = read_summary(200, "200 OK", body).unwrap();
    let reason = serde_json::from_str::<serde_json::Value>(&text).unwrap_err().to_string();
    let error = invalid_document(&reason);
    assert!(
        error.contains("invalid SummaryDocument JSON"),
        "unexpected error: {error}"
    );
}

#[test]
fn summaries_without_content_are_refused() {
    let missing = Err("LLM response does not contain choices[0].message.content".to_string());
    for body in [
        "{}",
        "{\"choices\":[]}",
        "{\"choices\":[{}]}",
        "{\"choices\":[{\"message\":{}}]}",
        "{\"choices\":[{\"message\":{\"content\":null}}]}",
        "[]",
    ] {
        assert_eq!(read_summary(200, "200 OK", read_json(body).unwrap()), missing);
    }
    let keyed = "{\"choices\":{\"0\":{\"message\":{\"content\":\"x\"}}}}";
    assert_eq!(read_summary(200, "200 OK", read_json(keyed).unwrap()), Ok("x".into()));
    assert_eq!(
        read_summary(429, "429 Too Many Requests", read_json("null").unwrap()),
        Err("LLM provider returned 429 Too Many Requests: null".into())
    );
}

#[test]
fn summary_request_holds_the_transcript() {
    let request = request_summary("gpt", 0, 300_000, "Alice: hi");
    assert_eq!(request.get("model").unwrap().as_str(), Some("gpt"));
    assert_eq!(write_json(request.get("temperature").unwrap().copy()), "0");
    assert_eq!(
        write_json(request.get("response_format").unwrap().copy()),
        "{\"type\":\"json_object\"}"
    );
    let messages = request.get("messages").unwrap().as_array().unwrap();
    assert_eq!(messages[0].get("role").unwrap().as_str(), Some("system"));
    assert_eq!(
        messages[1].get("content").unwrap().as_str(),
        Some("Meeting window 0-300000 ms.\nTranscript:\nAlice: hi")
    );
}

#[test]
fn providers_need_all_of_their_settings() {
    let some = |t: &str| Some(t.to_string());
    let config = configured_provider(some("u"), some("k"), some("m")).unwrap();
    assert_eq!((config.base_url.as_str(), config.api_key.as_str(), config.model.as_str()), ("u", "k", "m"));
    assert_eq!(configured_provider(None, some("k"), some("m")), None);
    assert_eq!(configured_provider(some("u"), None, some("m")), None);
    assert_eq!(configured_provider(some("u"), some("k"), None), None);
}

#[test]
fn long_replies_are_logged_in_part() {
    assert_eq!(logged_reply("短"), "短");
    let full = "字".repeat(2000);
    assert_eq!(logged_reply(&full), full);
    assert_eq!(logged_reply(&format!("{full}more")), full);
}

#[test]
fn settings_have_defaults() {
    assert_eq!(max_upload_bytes(None), 100 * 1024 * 1024);
    assert_eq!(max_upload_bytes(Some("0")), 100 * 1024 * 1024);
    assert_eq!(max_upload_bytes(Some("-1")), 100 * 1024 * 1024);
    assert_eq!(max_upload_bytes(Some("+42")), 42);
    assert_eq!(listen_address(None), "0.0.0.0:3000");
    assert_eq!(listen_address(Some("127.0.0.1:3001".into())), "127.0.0.1:3001");
}

#[test]
fn scripts_fall_into_statements() {
    assert_eq!(statements(" a;\n b ;; \n"), ["a", "b"]);
    assert!(statements("").is_empty());
}

#[test]
fn old_tables_are_recognized() {
    assert!(lacks_window_column(&vec!["id".into(), "title".into()]));
    assert!(!lacks_window_column(&vec!["id".into(), "summary_window_ms".into()]));
    assert!(has_old_job_key("CREATE TABLE jobs (id, UNIQUE(job_type, target_id))"));
    assert!(!has_old_job_key("CREATE TABLE jobs (id, UNIQUE(job_type, meeting_id, target_id))"));
}
