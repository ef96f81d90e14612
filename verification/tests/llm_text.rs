use vi::engine::llm::{
    assistant_prefix, extract_refined, generation_step, llm_refine_start, result_field_from_template, system_part,
    user_part, GenStep, LlmStart, PromptState, RefineFailure, EOS_TOKEN_ID,
};
use vi::engine::llm_remote::{refined_or_original, remote_plan, remote_read, RemoteError, RemotePlan};
use vi::engine::llm_remote::{
    completions_url, disables_thinking, estimate_tokens, parse_json_string_field, response_output, user_message,
};

#[test]
fn chat_template_parts() {
    assert_eq!(system_part("你是助手"), "<|im_start|>system\n你是助手<|im_end|>\n");
    let prefix = assistant_prefix("{\"校对\":\"{INPUT}", "好");
    assert_eq!(prefix, "{\"校对\":\"好");
    assert_eq!(
        user_part("好", &prefix),
        "<|im_start|>user\n好<|im_end|>\n<|im_start|>assistant\n{\"校对\":\"好"
    );
}

#[test]
fn result_field_of_default_template() {
    assert_eq!(result_field_from_template("{\"校对和轻度润色结果\":\"").as_deref(), Some("校对和轻度润色结果"));
    assert_eq!(result_field_from_template("{\"a\":1,\"result\":\"").as_deref(), Some("result"));
    assert_eq!(result_field_from_template("no colon here"), None);
}

#[test]
fn refined_text_from_generation() {
    let r = extract_refined("{\"result\":\"", "今天天气很好。\"}<|im_end|>", "result");
    assert!(matches!(r, Ok(ref s) if s == "今天天气很好。"));
    let bad = extract_refined("{\"result\":\"", "oops", "result");
    assert!(matches!(bad, Err(RefineFailure::JsonParse)));
    let missing = extract_refined("{\"other\":\"", "x\"}", "result");
    assert!(matches!(missing, Err(RefineFailure::MissingField)));
    let blank = extract_refined("{\"result\":\"", "  \"}", "result");
    assert!(matches!(blank, Err(RefineFailure::EmptyResult)));
}

#[test]
fn llm_start_decision() {
    assert!(matches!(llm_refine_start("  好的 ", 2), LlmStart::Skip(ref t) if t == "好的"));
    assert!(matches!(llm_refine_start(" 今天天气 ", 2), LlmStart::Refine(ref t) if t == "今天天气"));
    assert!(matches!(llm_refine_start("   ", 0), LlmStart::Skip(ref t) if t.is_empty()));
}

#[test]
fn generation_steps() {
    assert!(matches!(generation_step(EOS_TOKEN_ID, 0, Some(3), true), GenStep::Finish));
    assert!(matches!(generation_step(5, 1, Some(0), true), GenStep::Continue));
    assert!(matches!(generation_step(5, 4, Some(3), false), GenStep::TooLong));
    assert!(matches!(generation_step(5, 3, Some(3), false), GenStep::Continue));
    assert!(matches!(generation_step(5, 100, None, false), GenStep::Continue));
}

#[test]
fn remote_request_parts() {
    assert_eq!(completions_url("https://api.x.com/v1/"), "https://api.x.com/v1/chat/completions");
    assert_eq!(completions_url("https://api.x.com/v1/chat/completions"), "https://api.x.com/v1/chat/completions");
    assert_eq!(completions_url("https://api.x.com/v1"), "https://api.x.com/v1/chat/completions");
    assert!(disables_thinking("GLM-4-Flash"));
    assert!(disables_thinking("my-glm"));
    assert!(!disables_thinking("qwen-plus"));
    assert_eq!(estimate_tokens("你好ab"), 4);
    assert_eq!(user_message("嗯好"), "请润色以下文本：嗯好");
}

#[test]
fn remote_answer_parsing() {
    assert_eq!(parse_json_string_field("  plain text  "), "plain text");
    assert_eq!(parse_json_string_field("```json\n{\"text\":\"你好\"}\n```"), "你好");
    assert_eq!(parse_json_string_field("{\"n\":1}"), "{\"n\":1}");
    assert_eq!(parse_json_string_field("{broken"), "{broken");
    assert_eq!(response_output(None), None);
    assert_eq!(response_output(Some(("  ", "  "))), None);
    assert_eq!(response_output(Some((" 答案 ", "思考"))).as_deref(), Some("答案"));
    assert_eq!(response_output(Some(("", " {\"r\":\"好\"} "))).as_deref(), Some("好"));
}

#[test]
fn remote_plan_and_read() {
    assert!(matches!(remote_plan("  ", None, "m", "u"), Ok(RemotePlan::Done(ref t)) if t.is_empty()));
    assert!(matches!(remote_plan("好", None, "m", "u"), Err(RemoteError::MissingApiKey)));
    match remote_plan(" 嗯好 ", Some("k".to_string()), "GLM-4", "https://x/v1") {
        Ok(RemotePlan::Send { input, api_key, url, disable_thinking, input_tokens, user_message }) => {
            assert_eq!(input, "嗯好");
            assert_eq!(api_key, "k");
            assert_eq!(url, "https://x/v1/chat/completions");
            assert!(disable_thinking);
            assert_eq!(input_tokens, 2);
            assert_eq!(user_message, "请润色以下文本：嗯好");
        }
        _ => panic!("expected a request"),
    }
    assert!(matches!(remote_read("  ", None), Err(RemoteError::EmptyBody)));
    assert!(matches!(remote_read("{}", None), Err(RemoteError::EmptyOutput)));
    assert!(matches!(remote_read("{}", Some(("好", ""))), Ok(ref s) if s == "好"));
    assert_eq!(RemoteError::EmptyOutput.message(), "API returned empty output");
}

#[test]
fn remote_fallback_keeps_original() {
    assert_eq!(refined_or_original("原文", Some("改好".to_string())), "改好");
    assert_eq!(refined_or_original("原文", None), "原文");
}

#[test]
fn prompt_rebuild_commits_all_or_nothing() {
    let mut st = PromptState {
        system_prompt_len: 10,
        prefill_template: "{\"a\":".to_string(),
        result_field: "a".to_string(),
    };
    assert!(!st.apply_rebuild(20, "no colon here"));
    assert_eq!(st.system_prompt_len, 10);
    assert_eq!(st.result_field, "a");
    assert!(st.apply_rebuild(30, "{\"x\":1,\"out\":"));
    assert_eq!(st.system_prompt_len, 30);
    assert_eq!(st.prefill_template, "{\"x\":1,\"out\":");
    assert_eq!(st.result_field, "out");
}
