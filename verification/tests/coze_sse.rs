use vi::engine::coze_refine::{error_of_fields, text_of_field};
use vi::json::JsonField;
use vi::engine::coze_refine::{parse_sse_output, CozeError, CozePlan, CozeRefineEngine, SseError};

#[test]
fn sse_single_message_event() {
    let content = "id: 0\nevent: Message\ndata: {\"content\":\"{\\\"output\\\":\\\"你好\\\"}\"}";
    let r = parse_sse_output(content);
    assert!(matches!(r, Ok(ref s) if s == "你好"));
}

#[test]
fn sse_message_then_done() {
    let content = "id: 0\nevent: Message\ndata: {\"usage\":{\"output_count\":7,\"input_count\":134,\"token_count\":141},\"node_is_finish\":true,\"node_seq_id\":\"0\",\"node_title\":\"End\",\"content_type\":\"text\",\"node_type\":\"End\",\"node_id\":\"900001\",\"content\":\"{\\\"output\\\":\\\"你在嗯啊什么呀？\\\"}\",\"node_execute_uuid\":\"\"}\n\nid: 1\nevent: Done\ndata: {\"node_execute_uuid\":\"\",\"debug_url\":\"https://www.coze.cn/work_flow\"}";
    let r = parse_sse_output(content);
    assert!(matches!(r, Ok(ref s) if s == "你在嗯啊什么呀？"));
}

#[test]
fn sse_multiple_messages_concatenate() {
    let content = "id: 0\nevent: Message\ndata: {\"content\":\"{\\\"output\\\":\\\"第\\\"}\"}\n\nid: 1\nevent: Message\ndata: {\"content\":\"{\\\"output\\\":\\\"二\\\"}\"}\n\nid: 2\nevent: Message\ndata: {\"content\":\"{\\\"output\\\":\\\"三\\\"}\"}\n\nid: 3\nevent: Done";
    let r = parse_sse_output(content);
    assert!(matches!(r, Ok(ref s) if s == "第二三"));
}

#[test]
fn sse_error_event() {
    let content = "id: 0\nevent: Error\ndata: {\"error_code\":4101,\"error_message\":\"permission denied\"}";
    match parse_sse_output(content) {
        Ok(s) => panic!("expected an error, got {}", s),
        Err(e) => {
            let text = e.message();
            assert!(text.contains("error"));
            assert_eq!(text, "Coze API error 4101: permission denied");
        }
    }
}

#[test]
fn sse_error_event_workflow_not_found() {
    let content = "id: 0\nevent: Error\ndata: {\"node_execute_uuid\":\"\",\"error_message\":\"Workflow not found. Please verify the workflow exists.\",\"error_code\":4200}";
    match parse_sse_output(content) {
        Ok(s) => panic!("expected an error, got {}", s),
        Err(e) => {
            let text = e.message();
            assert!(text.contains("4200"));
            assert!(text.contains("Workflow not found"));
        }
    }
}

#[test]
fn sse_empty_body_is_empty_response() {
    let r = parse_sse_output("");
    assert!(matches!(r, Err(SseError::EmptyResponse)));
    assert_eq!(SseError::EmptyResponse.message(), "Empty response");
}

#[test]
fn sse_without_messages() {
    let r = parse_sse_output("id: 0\nevent: Done\ndata: {}");
    assert!(matches!(r, Err(SseError::NoMessageEvents)));
    assert_eq!(SseError::NoMessageEvents.message(), "No Message events found in response");
}

#[test]
fn coze_engine_keeps_timeout() {
    let e = CozeRefineEngine::new(30);
    assert_eq!(e.timeout_secs(), 30);
}

#[test]
fn coze_plan_cases() {
    assert!(matches!(CozeRefineEngine::plan("   ", None, None), Ok(CozePlan::Done(ref s)) if s.is_empty()));
    assert!(matches!(CozeRefineEngine::plan("hi", None, Some("w".to_string())), Err(CozeError::MissingApiKey)));
    assert!(matches!(CozeRefineEngine::plan("hi", Some("k".to_string()), None), Err(CozeError::MissingWorkflowId)));
    match CozeRefineEngine::plan("  你好 ", Some("k".to_string()), Some("w".to_string())) {
        Ok(CozePlan::Send { input, api_key, workflow_id }) => {
            assert_eq!(input, "你好");
            assert_eq!(api_key, "k");
            assert_eq!(workflow_id, "w");
        }
        _ => panic!("expected a request"),
    }
}

#[test]
fn coze_read_response_cases() {
    assert!(matches!(CozeRefineEngine::read_response("  \n "), Err(CozeError::EmptyBody)));
    let ok = "event: Message\ndata: {\"content\":\"{\\\"output\\\":\\\"好\\\"}\"}";
    assert!(matches!(CozeRefineEngine::read_response(ok), Ok(ref s) if s == "好"));
    let blank = "event: Message\ndata: {\"content\":\"{\\\"output\\\":\\\"  \\\"}\"}";
    assert!(matches!(CozeRefineEngine::read_response(blank), Err(CozeError::EmptyOutput)));
    assert_eq!(CozeError::MissingApiKey.message(), "Coze API key not configured");
    assert_eq!(CozeError::EmptyOutput.message(), "Coze returned empty output");
}

#[test]
fn coze_stream_error_is_reported() {
    let body = "event: Error\ndata: {\"error_code\":4101,\"error_message\":\"permission denied\"}";
    match CozeRefineEngine::read_response(body) {
        Err(CozeError::Stream(SseError::Api { code, message })) => {
            assert_eq!(code, 4101);
            assert_eq!(message, "permission denied");
        }
        _ => panic!("expected a stream error"),
    }
    let e = CozeRefineEngine::read_response(body).err().unwrap();
    assert_eq!(e.message(), "Coze API error 4101: permission denied");
}

#[test]
fn sse_appending_other_event_keeps_result() {
    let body = "id: 0\nevent: Message\ndata: {\"content\":\"{\\\"output\\\":\\\"好\\\"}\"}";
    let first = parse_sse_output(body);
    assert!(matches!(first, Ok(ref s) if s == "好"));
    for name in ["Done", "PING", "Interrupt"] {
        let longer = format!("{}\n\nid: 9\nevent: {}\ndata: {{\"debug_url\":\"u\"}}", body, name);
        let r = parse_sse_output(&longer);
        assert!(matches!(r, Ok(ref s) if s == "好"));
    }
}

#[test]
fn sse_field_results() {
    assert_eq!(text_of_field(JsonField::Str("x".to_string())), Some("x".to_string()));
    assert_eq!(text_of_field(JsonField::Int(3)), None);
    assert_eq!(text_of_field(JsonField::Absent), None);
    assert_eq!(
        error_of_fields(JsonField::Int(4101), JsonField::Str("denied".to_string())),
        Some((4101, "denied".to_string()))
    );
    assert_eq!(error_of_fields(JsonField::Absent, JsonField::Other), Some((-1, "unknown".to_string())));
    assert_eq!(error_of_fields(JsonField::Str("c".to_string()), JsonField::Int(1)), Some((-1, "unknown".to_string())));
    assert_eq!(error_of_fields(JsonField::Invalid, JsonField::Str("m".to_string())), None);
}
