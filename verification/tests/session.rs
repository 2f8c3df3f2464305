use void::config::{
    choose_api_key, config_path_for_home, get_default_profile_name, get_profile, merge_settings,
    profile_name, Config, DefaultSection, Profile,
};
use void::input::Command;
use void::llm::{api_entries, authorization, body_members, chat_url, is_local, strip_thinking, BodyMember, EntryValue};
use void::state::{AppState, Effect};
use void::types::{ApiMessage, DisplayRole, Json, ToolCall, ToolFunction, ToolResultInfo};
use void::ui::{display_parts, Part};

fn profile(host: &str, port: u16, model: Option<&str>, prefix: Option<&str>, key_env: Option<&str>) -> Profile {
    Profile {
        host: Some(host.to_string()),
        port: Some(port),
        model: model.map(|m| m.to_string()),
        path_prefix: prefix.map(|p| p.to_string()),
        api_key_env: key_env.map(|k| k.to_string()),
    }
}

/// The configuration of the README: a local default and a Gemini profile.
fn readme_config() -> Config {
    Config {
        default: Some(DefaultSection { profile: Some("local".to_string()) }),
        profile: Some(vec![
            ("local".to_string(), profile("127.0.0.1", 7777, None, None, None)),
            (
                "gemini".to_string(),
                profile("generativelanguage.googleapis.com", 443, Some("gemini-3-flash-preview"), Some("/v1beta/openai"), Some("GEMINI_API_KEY")),
            ),
        ]),
    }
}

#[test]
fn void_uses_the_default_profile() {
    let config = readme_config();
    assert_eq!(get_default_profile_name(&config), Some("local".to_string()));
    let name = profile_name(None, &config);
    assert_eq!(name, "local");
    let p = get_profile(&config, &name).unwrap();
    let s = merge_settings(None, 7777, None, None, &Some(p));
    assert_eq!(s.host, "127.0.0.1");
    assert_eq!(s.port, 7777);
    assert_eq!(chat_url(s.port, &s.host, s.path_prefix.as_deref()), "http://127.0.0.1:7777/v1/chat/completions");
}

#[test]
fn profile_flag_selects_gemini_with_its_key() {
    let config = readme_config();
    let name = profile_name(Some("gemini".to_string()), &config);
    let p = get_profile(&config, &name).unwrap();
    assert_eq!(p.api_key_env, Some("GEMINI_API_KEY".to_string()));
    let s = merge_settings(None, 7777, None, None, &Some(p));
    assert_eq!(s.port, 443);
    assert_eq!(s.model, Some("gemini-3-flash-preview".to_string()));
    assert_eq!(
        chat_url(s.port, &s.host, s.path_prefix.as_deref()),
        "https://generativelanguage.googleapis.com:443/v1beta/openai/v1/chat/completions"
    );
    let key = choose_api_key(None, None, Some("secret".to_string()));
    assert_eq!(authorization(key.as_deref()), Some("Bearer secret".to_string()));
}

#[test]
fn model_flag_overrides_the_profile() {
    let config = readme_config();
    let p = get_profile(&config, "gemini");
    let s = merge_settings(None, 7777, Some("custom-model".to_string()), None, &p);
    assert_eq!(s.model, Some("custom-model".to_string()));
    let s2 = merge_settings(Some("h".to_string()), 8080, None, Some("/p".to_string()), &p);
    assert_eq!(s2.host, "h");
    assert_eq!(s2.port, 8080);
    assert_eq!(s2.path_prefix, Some("/p".to_string()));
}

#[test]
fn missing_profiles_fall_back_to_defaults() {
    let config = Config::empty();
    assert_eq!(profile_name(None, &config), "local");
    assert!(get_profile(&config, "local").is_none());
    let s = merge_settings(None, 7777, None, None, &None);
    assert_eq!(s.host, "127.0.0.1");
    assert_eq!(s.port, 7777);
    assert_eq!(s.model, None);
}

#[test]
fn api_key_precedence() {
    assert_eq!(choose_api_key(Some("a".to_string()), Some("b".to_string()), Some("c".to_string())), Some("a".to_string()));
    assert_eq!(choose_api_key(None, Some("b".to_string()), Some("c".to_string())), Some("b".to_string()));
    assert_eq!(choose_api_key(None, None, None), None);
    assert_eq!(authorization(None), None);
}

#[test]
fn config_lives_under_home() {
    assert_eq!(config_path_for_home("/home/u"), "/home/u/.void/config.toml");
}

#[test]
fn local_hosts_are_recognised() {
    assert!(is_local("127.0.0.1"));
    assert!(is_local("localhost"));
    assert!(!is_local("api.fireworks.ai"));
}

fn call(id: &str) -> ToolCall {
    ToolCall {
        id: id.to_string(),
        call_type: "function".to_string(),
        function: ToolFunction { name: "Read".to_string(), arguments: "{}".to_string() },
    }
}

#[test]
fn thinking_is_not_sent_back() {
    let log = vec![
        ApiMessage::User { content: "q".to_string() },
        ApiMessage::Assistant { content: "a".to_string(), thinking: Some("t".to_string()), tool_calls: vec![call("1")] },
    ];
    let sent = strip_thinking(&log);
    assert_eq!(sent.len(), 2);
    assert!(matches!(&sent[0], ApiMessage::User { content } if content == "q"));
    assert!(matches!(&sent[1], ApiMessage::Assistant { content, thinking: None, tool_calls } if content == "a" && tool_calls.len() == 1));
    let again = strip_thinking(&sent);
    assert!(matches!(&again[1], ApiMessage::Assistant { thinking: None, .. }));
}

fn keys(entries: &[(String, EntryValue)]) -> Vec<String> {
    entries.iter().map(|(k, _)| k.clone()).collect()
}

#[test]
fn messages_are_sent_as_role_and_content() {
    let e = api_entries(&ApiMessage::User { content: "hi".to_string() });
    assert_eq!(keys(&e), vec!["role", "content"]);
    assert!(matches!(&e[0].1, EntryValue::Text(t) if t == "user"));
    let t = api_entries(&ApiMessage::ToolResult { tool_call_id: "c".to_string(), content: "out".to_string() });
    assert_eq!(keys(&t), vec!["role", "tool_call_id", "content"]);
    assert!(matches!(&t[0].1, EntryValue::Text(r) if r == "tool"));
    let s = api_entries(&ApiMessage::System { content: "be brief".to_string() });
    assert!(matches!(&s[0].1, EntryValue::Text(r) if r == "system"));
}

#[test]
fn answers_send_null_content_and_only_present_extras() {
    let empty = api_entries(&ApiMessage::Assistant { content: String::new(), thinking: Some(String::new()), tool_calls: Vec::new() });
    assert_eq!(keys(&empty), vec!["role", "content"]);
    assert!(matches!(&empty[1].1, EntryValue::Null));
    let full = api_entries(&ApiMessage::Assistant { content: "x".to_string(), thinking: Some("t".to_string()), tool_calls: vec![call("1")] });
    assert_eq!(keys(&full), vec!["role", "content", "thinking", "tool_calls"]);
    assert!(matches!(&full[3].1, EntryValue::ToolCalls(c) if c.len() == 1));
}

fn state() -> AppState {
    AppState::new(7777, "127.0.0.1".to_string(), None, None, None, None, Vec::new())
}

#[test]
fn submitting_logs_the_message_and_starts_a_stream() {
    let mut s = state();
    let effects = s.handle_command(Command::InsertChar('h'));
    assert!(effects.is_empty());
    assert_eq!(s.input, "h");
    assert_eq!(s.cursor, 1);
    let effects = s.handle_command(Command::SubmitInput("hello".to_string()));
    assert_eq!(effects.len(), 2);
    assert!(matches!(&effects[0], Effect::SaveHistory(h) if h == "hello"));
    assert!(matches!(&effects[1], Effect::StartStream));
    assert_eq!(s.input, "");
    assert!(s.waiting);
    assert_eq!(s.messages.len(), 1);
    assert_eq!(s.messages[0].role, DisplayRole::User);
    assert_eq!(s.input_history, vec!["hello".to_string()]);
}

#[test]
fn submitting_nothing_is_not_remembered() {
    let mut s = state();
    let effects = s.handle_command(Command::SubmitInput(String::new()));
    assert_eq!(effects.len(), 1);
    assert!(s.input_history.is_empty());
}

#[test]
fn streamed_tokens_build_one_answer() {
    let mut s = state();
    s.handle_command(Command::SubmitInput("q".to_string()));
    s.on_thinking("let me");
    s.on_token("Hel");
    s.on_token("lo");
    assert_eq!(s.messages.len(), 2);
    assert_eq!(s.messages[1].content, "Hello");
    assert_eq!(s.messages[1].thinking, Some("let me".to_string()));
    assert!(matches!(&s.api_log[1], ApiMessage::Assistant { content, thinking: Some(t), .. } if content == "Hello" && t == "let me"));
    let effects = s.on_done();
    assert_eq!(effects.len(), 1);
    assert!(matches!(&effects[0], Effect::CacheLines(1)));
    assert!(!s.waiting);
    assert!(s.current_stream_message_idx.is_none());
}

#[test]
fn tool_calls_run_after_the_stream_and_report_back() {
    let mut s = state();
    s.handle_command(Command::SubmitInput("q".to_string()));
    s.on_tool_call(call("c1"));
    let effects = s.on_done();
    assert!(s.waiting);
    assert!(matches!(effects.last(), Some(Effect::RunTools(calls)) if calls.len() == 1 && calls[0].id == "c1"));
    s.on_tool_executing("Executing Read...".to_string());
    assert_eq!(s.tool_status, vec!["Executing Read...".to_string()]);
    let result = ToolResultInfo {
        tool_call_id: "c1".to_string(),
        tool_name: "Read".to_string(),
        tool_args: "{\"filePath\":\"a\"}".to_string(),
        content: "text".to_string(),
        diff: None,
    };
    let args = vec![vec![("filePath".to_string(), Json::Str("a".to_string()))]];
    let effects = s.on_tools_executed(vec![result], args);
    assert!(s.tool_status.is_empty());
    assert!(matches!(s.api_log.last(), Some(ApiMessage::ToolResult { tool_call_id, content }) if tool_call_id == "c1" && content == "text"));
    assert_eq!(s.messages.last().unwrap().content, "Read a");
    assert_eq!(s.messages.last().unwrap().detail, Some("text".to_string()));
    assert!(matches!(effects.last(), Some(Effect::StartStream)));
}

#[test]
fn errors_are_shown_and_stop_waiting() {
    let mut s = state();
    s.handle_command(Command::SubmitInput("q".to_string()));
    s.on_error("boom");
    assert!(!s.waiting);
    assert_eq!(s.messages.last().unwrap().content, "❌ API Error: boom");
    assert_eq!(s.messages.last().unwrap().role, DisplayRole::ToolActivity);
}

#[test]
fn scrolling_stays_within_the_lines() {
    let mut s = state();
    s.record_layout(100, 20, true);
    assert_eq!(s.target_scroll_offset, 80);
    s.scroll_down();
    assert_eq!(s.target_scroll_offset, 80);
    s.scroll_up();
    assert_eq!(s.target_scroll_offset, 77);
    s.animate_scroll();
    assert_eq!(s.scroll_offset, 19);
    s.record_layout(30, 20, false);
    s.on_resize();
    assert_eq!(s.target_scroll_offset, 10);
    assert_eq!(s.scroll_offset, 10);
}

#[test]
fn the_spinner_turns_every_other_frame_while_waiting() {
    let mut s = state();
    s.advance_spinner(0);
    assert_eq!(s.spinner_idx, 0);
    s.handle_command(Command::SubmitInput("q".to_string()));
    s.advance_spinner(0);
    assert_eq!(s.spinner_idx, 1);
    s.advance_spinner(1);
    assert_eq!(s.spinner_idx, 1);
    s.spinner_idx = 9;
    s.advance_spinner(2);
    assert_eq!(s.spinner_idx, 0);
}

#[test]
fn toggling_detail_twice_restores_it() {
    let mut s = state();
    s.handle_command(Command::ToggleToolDetail);
    assert!(s.show_tool_detail);
    s.handle_command(Command::ToggleToolDetail);
    assert!(!s.show_tool_detail);
}

#[test]
fn the_screen_shows_each_message_then_tool_status() {
    let mut s = state();
    s.handle_command(Command::SubmitInput("q".to_string()));
    s.on_thinking("t");
    s.on_token("a");
    s.on_tool_executing("Executing Read...".to_string());
    let parts = display_parts(&s);
    assert_eq!(parts.len(), 6);
    assert!(parts[0] == Part::Content(0));
    assert!(parts[1] == Part::Blank);
    assert!(parts[2] == Part::Thinking(1));
    assert!(parts[3] == Part::Content(1));
    assert!(parts[4] == Part::Blank);
    assert!(parts[5] == Part::ToolStatus(0));
}

#[test]
fn tool_output_is_shown_only_when_details_are() {
    let mut s = state();
    let result = ToolResultInfo {
        tool_call_id: "c".to_string(),
        tool_name: "Bash".to_string(),
        tool_args: "{}".to_string(),
        content: "out".to_string(),
        diff: None,
    };
    s.on_tools_executed(vec![result], vec![Vec::new()]);
    assert_eq!(display_parts(&s), vec![Part::Content(0), Part::Blank]);
    s.handle_command(Command::ToggleToolDetail);
    assert_eq!(display_parts(&s), vec![Part::Content(0), Part::Detail(0), Part::Blank]);
}

#[test]
fn scrolling_moves_a_quarter_of_the_way_rounded() {
    let mut s = state();
    s.record_layout(100, 10, true);
    assert_eq!(s.target_scroll_offset, 90);
    s.animate_scroll();
    assert_eq!(s.scroll_offset, 23);
    s.record_layout(100, 10, false);
    s.target_scroll_offset = 21;
    s.animate_scroll();
    assert_eq!(s.scroll_offset, 22);
    s.target_scroll_offset = 13;
    s.animate_scroll();
    assert_eq!(s.scroll_offset, 20);
}

#[test]
fn urls_spell_out_the_port() {
    assert_eq!(chat_url(0, "h", None), "http://h:0/v1/chat/completions");
    assert_eq!(chat_url(65535, "h", Some("/x")), "http://h:65535/x/v1/chat/completions");
}

#[test]
fn request_members_depend_on_the_host_and_model() {
    let local = body_members("localhost", None);
    assert_eq!(local.len(), 7);
    assert!(matches!(local[4], BodyMember::TopK));
    assert!(matches!(local[6], BodyMember::IdSlot));
    let remote = body_members("api.fireworks.ai", Some("m"));
    assert_eq!(remote.len(), 5);
    assert!(matches!(remote[0], BodyMember::Stream));
    assert!(matches!(remote[3], BodyMember::Tools));
    assert!(matches!(&remote[4], BodyMember::Model(m) if m == "m"));
}
