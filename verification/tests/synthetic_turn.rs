use hermes_tui::synthetic_turn::{
    burn_chunk, delta_text, env_int, maybe_build_synthetic_agent,
    maybe_build_synthetic_agent_with_armed, maybe_build_synthetic_agent_with_map,
    maybe_build_synthetic_agent_with_override, parse_int_field, synth_turn_armed_with,
    try_parse_json_object, turn_chunk, turn_step, turn_tokens_per_delta, ChatMessage,
    ModelOverride, SyntheticHeavyAgent, TurnStep, DEFAULT_CHUNK, DEFAULT_TPD, ENV_SYNTH_TURN,
};

#[test]
fn env_int_parses_or_defaults() {
    assert_eq!(env_int(None, 7), 7);
    assert_eq!(env_int(Some(""), 7), 7);
    assert_eq!(env_int(Some("   "), 7), 7);
    assert_eq!(env_int(Some(" 42 "), 7), 42);
    assert_eq!(env_int(Some("-3"), 7), -3);
    assert_eq!(env_int(Some("+5"), 7), 5);
    assert_eq!(env_int(Some("8.0"), 7), 7);
    assert_eq!(env_int(Some("99999999999999999999"), 7), 7);
    assert_eq!(DEFAULT_CHUNK, 20_000);
    assert_eq!(DEFAULT_TPD, 512);
}

#[test]
fn armed_only_on_exact_one() {
    assert_eq!(ENV_SYNTH_TURN, "HERMES_ISO_CERTIFY_SYNTH_TURN");
    assert!(synth_turn_armed_with(Some("1")));
    assert!(!synth_turn_armed_with(Some("true")));
    assert!(!synth_turn_armed_with(Some(" 1")));
    assert!(!synth_turn_armed_with(None));
}

#[test]
fn spec_fields_from_json_prompt() {
    let f = try_parse_json_object(r#" {"duration_s": 0.5, "chunk": 100, "tokens_per_delta": "64", "sleep_s": 0} "#)
        .unwrap();
    let keys: Vec<&str> = f.iter().map(|p| p.0.as_str()).collect();
    assert_eq!(keys, vec!["duration_s", "chunk", "tokens_per_delta", "sleep_s"]);
    assert_eq!(f[0].1, "0.5");
    assert_eq!(f[1].1, "100");
    assert_eq!(f[2].1, "64");
    assert_eq!(parse_int_field(&f, "chunk", 1), 100);
    assert_eq!(parse_int_field(&f, "tokens_per_delta", 1), 64);
    assert_eq!(parse_int_field(&f, "duration_s", 1), 1);
    assert_eq!(parse_int_field(&f, "delta_interval_s", 9), 9);
}

#[test]
fn spec_fields_reject_non_objects() {
    assert!(try_parse_json_object("hello").is_none());
    assert!(try_parse_json_object("{not json").is_none());
    assert!(try_parse_json_object("{\"a\": \"}").is_none());
    assert!(try_parse_json_object("}{").is_none());
    assert_eq!(try_parse_json_object("{}").unwrap().len(), 0);
    let f = try_parse_json_object(r#"{"chunk": true, "sleep_s": "a\"b"}"#).unwrap();
    assert_eq!(f.len(), 1);
    assert_eq!(f[0].0, "sleep_s");
    assert_eq!(f[0].1, "a\"b");
}

#[test]
fn messages_and_agent_defaults() {
    let m = ChatMessage::user("hi");
    assert_eq!(m.role, "user");
    assert_eq!(ChatMessage::assistant("yo").role, "assistant");
    let a = SyntheticHeavyAgent::with_session("s1");
    assert_eq!(a.session_id, "s1");
    assert_eq!(a.model, "synthetic-heavy");
    assert_eq!(a.provider, "synthetic");
    assert_eq!(a.api_mode, "chat_completions");
    assert_eq!(a.config_context_length, 200_000);
    assert!(a.history.is_empty());
    assert!(a.has_stream_consumers());
}

#[test]
fn interrupt_flag_is_shared() {
    let a = SyntheticHeavyAgent::new("s", Some("m".to_string()));
    assert!(!a.is_interrupted());
    let h = a.interrupt_handle();
    a.interrupt();
    assert!(h.load(std::sync::atomic::Ordering::SeqCst));
    a.clear_interrupt();
    assert!(!a.is_interrupted());
    let b = a.clone();
    b.close();
    assert!(a.is_interrupted());
}

#[test]
fn turn_pieces() {
    assert_eq!(burn_chunk(0, 0), 0);
    assert_eq!(burn_chunk(0, 1), 12_345);
    assert_eq!(burn_chunk(0, 2), 12_345u64.wrapping_mul(1_000_003).wrapping_add(12_345));
    assert_eq!(delta_text(7), "synthtok-00007 ");
    assert_eq!(delta_text(123456), "synthtok-123456 ");
    let mut a = SyntheticHeavyAgent::with_session("s");
    a.record_delta(512);
    a.record_delta(512);
    assert_eq!(a.session_output_tokens, 1024);
    assert_eq!(a.session_total_tokens, 1024);
    let base = a.base_history(None);
    let long: String = "x".repeat(250);
    let r = a.finish_turn(&long, base, 2, false, 0x1_2345);
    assert_eq!(r.final_response, "[synthetic heavy turn] deltas=2 out_tokens=1024 interrupted=false checksum=2345");
    assert_eq!(r.messages.len(), 2);
    assert_eq!(r.messages[0].content.chars().count(), 200);
    assert_eq!(r.messages[1].content, r.final_response);
    assert_eq!(a.session_api_calls, 1);
    assert_eq!(a.history, r.messages);
    let h = vec![ChatMessage::new("system", "be brief")];
    assert_eq!(a.base_history(Some(&h)), h);
}

#[test]
fn model_overrides() {
    assert_eq!(ModelOverride::from_str_opt(None), ModelOverride::Absent);
    assert_eq!(ModelOverride::from_str_opt(Some("")), ModelOverride::Absent);
    assert_eq!(ModelOverride::from_str_opt(Some("m1")), ModelOverride::Str("m1".to_string()));
    let d = vec![("model".to_string(), "m2".to_string())];
    assert_eq!(ModelOverride::from_map(d.clone()), ModelOverride::Dict(d.clone()));
    assert_eq!(ModelOverride::from_map(vec![("model".to_string(), String::new())]), ModelOverride::Absent);
    assert_eq!(ModelOverride::Dict(d).resolve_model(), Some("m2".to_string()));
}

#[test]
fn building_the_agent() {
    assert!(maybe_build_synthetic_agent("s", Some("m"), None).is_none());
    assert!(maybe_build_synthetic_agent("s", Some("m"), Some("0")).is_none());
    assert_eq!(maybe_build_synthetic_agent("s", Some("m"), Some("1")).unwrap().model, "m");
    assert_eq!(maybe_build_synthetic_agent("s", Some(""), Some("1")).unwrap().model, "synthetic-heavy");
    let o = ModelOverride::Str("x".to_string());
    assert_eq!(maybe_build_synthetic_agent_with_override("s", &o, Some("1")).unwrap().model, "x");
    assert!(maybe_build_synthetic_agent_with_armed("s", &o, false).is_none());
    assert_eq!(maybe_build_synthetic_agent_with_armed("s", &ModelOverride::Absent, true).unwrap().model, "synthetic-heavy");
    let d = vec![("model".to_string(), "y".to_string())];
    assert_eq!(maybe_build_synthetic_agent_with_map("s", Some(&d), Some("1")).unwrap().model, "y");
    assert_eq!(maybe_build_synthetic_agent_with_map("s", None, Some("1")).unwrap().session_id, "s");
}

#[test]
fn turn_steps_and_clamps() {
    assert_eq!(turn_step(true, 0, 0, 10, 5), TurnStep::Finish { interrupted: true });
    assert_eq!(turn_step(false, 10, 0, 10, 5), TurnStep::Finish { interrupted: false });
    assert_eq!(turn_step(false, 9, 4, 10, 5), TurnStep::Burn { delta: false });
    assert_eq!(turn_step(false, 9, 5, 10, 5), TurnStep::Burn { delta: true });
    assert_eq!(turn_chunk(0), 1);
    assert_eq!(turn_chunk(-3), 1);
    assert_eq!(turn_chunk(20_000), 20_000);
    assert_eq!(turn_tokens_per_delta(-1), 0);
    assert_eq!(turn_tokens_per_delta(512), 512);
}
