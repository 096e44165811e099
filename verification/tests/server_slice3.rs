use hermes_tui::server_slice3::{
    apply_metadata_mirror, approval_request_payload, broadcast_global_action,
    compute_host_turn_frame, configured_cwd_from_cfg, configured_cwd_from_raw, db_for_profile,
    db_unavailable_error, default_session_cwd, err_response, estimate_image_tokens, event_frame,
    image_meta, inside_compute_host_child, is_cwd_placeholder, is_orphan_sweep_source,
    is_truthy_value, launch_configured_cwd, live_session_ids_from_registry, metadata_mirror,
    ok_response, on_compute_host_turn_done, orphan_reaper_enabled, pending_approval_payload,
    pending_clarify_payload, profile_configured_cwd, profile_scoped_call, resolve_profile_home,
    response_profile_name, session_uses_compute_host, status_update, submit_prompt_result,
    transfer_db_to_agent, turn_isolation_enabled, write_json_target, ApprovalRaw,
    BroadcastAction, ControlFrame, DbProfileRoute, EventFrame, LiveTransports, MethodRegistry,
    ProfileDbScope, SessionDbStub, SessionRef, StartupSweepState, SubmitPromptResult,
    SupervisorConfig, TurnDoneAction, WriteTarget, COMPACTION_STATUS_MARKER,
    ORPHAN_SWEEP_SOURCES, startup_sweep_guard, sweep_orphaned_args, should_sweep_orphans,
    StartupSweepGuardAction,
};

#[test]
fn cwd_placeholder() {
    assert!(is_cwd_placeholder("."));
    assert!(is_cwd_placeholder("auto"));
    assert!(is_cwd_placeholder("cwd"));
    assert!(!is_cwd_placeholder("/home/test"));
    assert!(!is_cwd_placeholder(""));
    assert!(!is_cwd_placeholder("AUTO"));
}

#[test]
fn orphan_sources() {
    assert!(is_orphan_sweep_source("tui"));
    assert!(is_orphan_sweep_source("desktop"));
    assert!(is_orphan_sweep_source("subagent"));
    assert!(!is_orphan_sweep_source("telegram"));
    assert!(!is_orphan_sweep_source(""));
    assert_eq!(ORPHAN_SWEEP_SOURCES.len(), 3);
}

#[test]
fn truthy() {
    assert!(is_truthy_value(Some("true"), false));
    assert!(is_truthy_value(Some("1"), false));
    assert!(is_truthy_value(Some("yes"), false));
    assert!(is_truthy_value(Some("ON"), false));
    assert!(!is_truthy_value(Some("false"), true));
    assert!(!is_truthy_value(Some("0"), true));
    assert!(!is_truthy_value(Some("off"), true));
    assert!(!is_truthy_value(Some(""), true));
    assert!(is_truthy_value(None, true));
    assert!(!is_truthy_value(None, false));
    assert!(is_truthy_value(Some("unknown"), true));
    assert!(!is_truthy_value(Some("unknown"), false));
}

#[test]
fn orphan_reaper_enabled_gate() {
    assert!(orphan_reaper_enabled(None));
    assert!(!orphan_reaper_enabled(Some("false")));
    assert!(orphan_reaper_enabled(Some("true")));
    assert!(orphan_reaper_enabled(Some("1")));
    assert!(!orphan_reaper_enabled(Some("0")));
    assert!(orphan_reaper_enabled(Some("maybe")));
}

#[test]
fn startup_state_mark() {
    let mut s = StartupSweepState::new();
    assert!(!s.has_ran());
    assert!(s.mark_ran());
    assert!(s.has_ran());
    assert!(!s.mark_ran(), "second mark is no-op");
    s.reset_for_test();
    assert!(!s.has_ran());
}

#[test]
fn live_ids() {
    let reg = vec![
        SessionRef { sid: "sid1".into(), session_key: Some("key1".into()), agent_session_id: Some("sess1".into()) },
        SessionRef { sid: "sid2".into(), session_key: Some("key1".into()), agent_session_id: None },
        SessionRef { sid: "".into(), session_key: Some("orphan".into()), agent_session_id: None },
    ];
    let mut ids = live_session_ids_from_registry(&reg);
    ids.sort();
    assert!(ids.contains(&"sid1".to_string()));
    assert!(ids.contains(&"sess1".to_string()));
    assert!(ids.contains(&"key1".to_string()));
    assert!(ids.contains(&"orphan".to_string()));
    let mut sorted = ids.clone();
    sorted.sort();
    assert_eq!(ids, sorted);
}

#[test]
fn db_for_profile_routing() {
    assert_eq!(db_for_profile(None), DbProfileRoute::Shared);
    let home = "/tmp/profile".to_string();
    assert_eq!(db_for_profile(Some(home.clone())), DbProfileRoute::Dedicated("/tmp/profile/state.db".to_string()));
    let scope = ProfileDbScope::for_params(Some("/tmp/p".to_string()));
    assert!(scope.owns_handle);
    assert!(scope.should_close(true));
    assert!(!scope.should_close(false));
    let scope2 = ProfileDbScope::for_params(None);
    assert!(!scope2.owns_handle);
    assert!(!scope2.should_close(true));
}

#[test]
fn transfer_db() {
    assert!(transfer_db_to_agent(Some("/a/state.db"), Some("/a/state.db"), false));
    assert!(!transfer_db_to_agent(Some("/a/state.db"), Some("/a/state.db"), true), "shared must not transfer");
    assert!(!transfer_db_to_agent(Some("/a/state.db"), Some("/b/state.db"), false));
    assert!(!transfer_db_to_agent(None, Some("/a/state.db"), false));
    assert!(!transfer_db_to_agent(Some("/a/state.db"), None, false));
}

#[test]
fn response_profile_name_gate() {
    let current = "default";
    assert_eq!(response_profile_name(Some("work"), Some("/tmp/work"), current), "work");
    assert_eq!(response_profile_name(Some("work"), None, current), "default");
    assert_eq!(response_profile_name(None, Some("/tmp/work"), current), "default");
    assert_eq!(response_profile_name(Some("  "), Some("/tmp/work"), current), "default");
}

#[test]
fn profile_home_resolve() {
    let hermes_home = "/home/test/.hermes";
    let got = resolve_profile_home(
        Some("work"),
        hermes_home,
        |name: &str| if name == "work" { Some("/home/test/.hermes-work".to_string()) } else { None },
        |p: &str| p == "/home/test/.hermes-work",
    );
    assert_eq!(got, Some("/home/test/.hermes-work".to_string()));
    let got2 = resolve_profile_home(Some("default"), hermes_home, |_: &str| Some(hermes_home.to_string()), |_: &str| true);
    assert_eq!(got2, None);
    let got3 = resolve_profile_home(Some("ghost"), hermes_home, |_: &str| Some("/tmp/ghost".to_string()), |_: &str| false);
    assert_eq!(got3, None);
    assert!(resolve_profile_home(None, hermes_home, |_: &str| None, |_: &str| true).is_none());
    assert!(resolve_profile_home(Some("  "), hermes_home, |_: &str| None, |_: &str| true).is_none());
}

#[test]
fn profile_scoped_wrapper() {
    let mut set_calls = 0;
    let mut reset_calls = 0;
    let res = profile_scoped_call(
        Some("/tmp/work"),
        |_p: &str| {
            set_calls += 1;
            "token".to_string()
        },
        |tok: String| {
            reset_calls += 1;
            assert_eq!(tok, "token");
        },
        || 42,
    );
    assert_eq!(res, 42);
    assert_eq!(set_calls, 1);
    assert_eq!(reset_calls, 1);
    let res2 = profile_scoped_call(None, |_: &str| -> String { panic!("should not set") }, |_: String| panic!("should not reset"), || 7);
    assert_eq!(res2, 7);
}

#[test]
fn configured_cwd() {
    let is_dir = |p: &str| p == "/home/test/projects" || p == "/home/test/work";
    assert_eq!(configured_cwd_from_raw(Some("/home/test/projects"), is_dir), Some("/home/test/projects".to_string()));
    assert!(configured_cwd_from_raw(Some("."), is_dir).is_none());
    assert!(configured_cwd_from_raw(Some("auto"), is_dir).is_none());
    assert!(configured_cwd_from_raw(Some("cwd"), is_dir).is_none());
    assert!(configured_cwd_from_raw(Some("/nonexistent"), is_dir).is_none());
    assert!(configured_cwd_from_raw(Some("relative/path"), is_dir).is_none());
    assert!(configured_cwd_from_raw(None, is_dir).is_none());
    assert!(configured_cwd_from_raw(Some("   "), is_dir).is_none());
    assert_eq!(configured_cwd_from_raw(Some("~/work"), |p: &str| p == "/home/test/work"), Some("/home/test/work".to_string()));
}

#[test]
fn default_cwd() {
    assert_eq!(default_session_cwd(Some("/cfg/cwd".to_string()), Some("/env"), || "/getcwd".to_string()), "/cfg/cwd");
    assert_eq!(default_session_cwd(None, Some("/env/cwd"), || "/getcwd".to_string()), "/env/cwd");
    assert_eq!(default_session_cwd(None, Some("   "), || "/getcwd".to_string()), "/getcwd");
    assert_eq!(default_session_cwd(None, None, || "/getcwd".to_string()), "/getcwd");
}

#[test]
fn event_frame_json() {
    let j = event_frame("gateway.ready", "sid1", Some(r#"{"skin":"dark"}"#));
    assert!(j.contains(r#""type":"gateway.ready""#));
    assert!(j.contains(r#""session_id":"sid1""#));
    assert!(j.contains(r#""skin":"dark""#));
    let j2 = event_frame("status.update", "s", None);
    assert!(j2.contains(r#""type":"status.update""#));
    assert!(!j2.contains("payload"));
}

#[test]
fn write_target() {
    assert_eq!(write_json_target(true, Some("sid"), true, true), WriteTarget::SessionTransport { sid: "sid".into() });
    assert_eq!(write_json_target(true, Some(""), true, true), WriteTarget::CurrentTransport);
    assert_eq!(write_json_target(true, None, false, true), WriteTarget::CurrentTransport);
    assert_eq!(write_json_target(false, Some("sid"), true, false), WriteTarget::Stdio);
    assert_eq!(write_json_target(true, Some("sid"), false, false), WriteTarget::Stdio);
}

#[test]
fn live_transports() {
    let mut lt = LiveTransports::new();
    lt.register(Some("peer1"));
    lt.register(Some("peer2"));
    lt.register(None);
    lt.register(Some(""));
    assert_eq!(lt.len(), 2);
    let mut snap = lt.snapshot();
    snap.sort();
    assert_eq!(snap, vec!["peer1".to_string(), "peer2".to_string()]);
    lt.unregister(Some("peer1"));
    assert_eq!(lt.len(), 1);
    lt.unregister(Some("ghost"));
    assert_eq!(lt.len(), 1);
}

#[test]
fn broadcast_action() {
    assert_eq!(broadcast_global_action("skin.changed", &[]), BroadcastAction::EmitFallback { event: "skin.changed".into() });
    assert_eq!(
        broadcast_global_action("skin.changed", &["p1".to_string(), "p2".to_string()]),
        BroadcastAction::Broadcast { event: "skin.changed".into(), peer_count: 2 }
    );
}

#[test]
fn inside_child_and_isolation() {
    assert!(inside_compute_host_child(Some("1")));
    assert!(!inside_compute_host_child(Some("0")));
    assert!(!inside_compute_host_child(None));
    assert!(!turn_isolation_enabled(true, Some(true)));
    assert!(turn_isolation_enabled(false, Some(true)));
    assert!(!turn_isolation_enabled(false, Some(false)));
    assert!(!turn_isolation_enabled(false, None));
}

#[test]
fn uses_compute_host() {
    assert!(!session_uses_compute_host(false, true, false, true));
    assert!(session_uses_compute_host(true, true, true, false));
    assert!(session_uses_compute_host(true, false, false, true));
    assert!(!session_uses_compute_host(true, false, false, false));
    assert!(!session_uses_compute_host(true, false, true, false));
}

#[test]
fn supervisor_config() {
    let c = SupervisorConfig::from_cfg(Some("20"), Some("5"));
    assert_eq!(c.heartbeat_secs, 20);
    assert_eq!(c.respawn_max, 5);
    let d = SupervisorConfig::defaults();
    assert_eq!(d.heartbeat_secs, 15);
    assert_eq!(d.respawn_max, 3);
    let bad = SupervisorConfig::from_cfg(Some("bad"), None);
    assert_eq!(bad.heartbeat_secs, 15);
    assert_eq!(bad.respawn_max, 3);
}

#[test]
fn compute_frame() {
    let f = compute_host_turn_frame(
        "rid1", "sid1", Some("key1"), r#""hello""#, None, vec!["msg".into()], 3, 80, "/tmp",
        Some("/home/test/.hermes"), None, None, None, "tui", None, vec!["img.png".into()], Some(2),
    );
    assert_eq!(f.sid, "sid1");
    assert_eq!(f.session_key, "key1");
    assert_eq!(f.attached_images, vec!["img.png".to_string()]);
    let j = f.to_json();
    assert!(j.contains(r#""sid":"sid1""#));
    let f2 = compute_host_turn_frame(
        "r", "s", None, r#""hi""#, Some("k"), vec![], 0, 80, "/tmp", None, None, None, None, "tui",
        Some(vec!["a.png".into()]), vec!["b.png".into()], None,
    );
    assert_eq!(f2.attached_images, vec!["a.png".to_string()]);
    assert_eq!(f2.display_kind.as_deref(), Some("k"));
    assert_eq!(f2.session_key, "s");
}

#[test]
fn metadata_mirror_apply() {
    let r = apply_metadata_mirror(5, Some(10), Some(7), Some(r#"{"model":"m"}"#), Some("{}"));
    assert_eq!(r.history_version, 10);
    assert_eq!(r.message_count, Some(7));
    assert!(r.should_stamp);
    assert!(r.mirror_json.is_some());
    let r2 = apply_metadata_mirror(5, Some(2), None, None, None);
    assert_eq!(r2.history_version, 5);
    assert!(!r2.should_stamp);
    let r3 = apply_metadata_mirror(5, None, None, None, None);
    assert_eq!(r3.history_version, 5);
}

#[test]
fn turn_done() {
    assert_eq!(on_compute_host_turn_done("turn.error", Some("boom"), false), TurnDoneAction::Error { message: "Error: boom".into() });
    assert_eq!(on_compute_host_turn_done("turn.done", None, false), TurnDoneAction::InfoAndDrain { emit_info: true });
    assert_eq!(on_compute_host_turn_done("turn.done", None, true), TurnDoneAction::InfoAndDrain { emit_info: false });
}

#[test]
fn submit_result() {
    assert_eq!(submit_prompt_result(true, None), SubmitPromptResult::Streaming);
    assert!(matches!(submit_prompt_result(false, Some("pipe broken")), SubmitPromptResult::Error { code: 5019, .. }));
    assert!(matches!(submit_prompt_result(true, Some("err")), SubmitPromptResult::Error { .. }));
}

fn raw(smart_denied: bool, allow_session: Option<bool>, allow_permanent: Option<bool>, command: Option<String>, choices: Option<Vec<String>>) -> ApprovalRaw {
    ApprovalRaw { smart_denied, allow_session, allow_permanent, command, choices, extra: Vec::new() }
}

#[test]
fn approval_payload_choices() {
    let raw1 = raw(false, None, None, Some("rm -rf /".into()), None);
    let p = approval_request_payload(Some(&raw1), |s: &str| format!("redacted:{}", s));
    assert_eq!(p.choices, vec!["once".to_string(), "session".to_string(), "always".to_string(), "deny".to_string()]);
    assert_eq!(p.command.as_deref(), Some("redacted:rm -rf /"));
    let raw2 = raw(true, None, None, None, None);
    let p2 = approval_request_payload(Some(&raw2), |s: &str| s.to_string());
    assert_eq!(p2.choices, vec!["once".to_string(), "deny".to_string()]);
    let raw3 = raw(false, Some(false), None, None, None);
    let p3 = approval_request_payload(Some(&raw3), |s: &str| s.to_string());
    assert_eq!(p3.choices, vec!["once".to_string(), "deny".to_string()]);
    let raw4 = raw(false, None, Some(false), None, None);
    let p4 = approval_request_payload(Some(&raw4), |s: &str| s.to_string());
    assert_eq!(p4.choices, vec!["once".to_string(), "session".to_string(), "deny".to_string()]);
    let raw5 = raw(false, None, None, None, Some(vec!["x".into()]));
    assert_eq!(approval_request_payload(Some(&raw5), |s: &str| s.to_string()).choices, vec!["x".to_string()]);
    let p6 = approval_request_payload(None, |s: &str| s.to_string());
    assert_eq!(p6.choices, vec!["once".to_string(), "session".to_string(), "always".to_string(), "deny".to_string()]);
}

#[test]
fn pending_clarify() {
    let pending: Vec<(String, (String, String))> = vec![
        ("rid1".into(), ("sid1".into(), "ev".into())),
        ("rid2".into(), ("sid2".into(), "ev".into())),
    ];
    let payloads: Vec<(String, (String, String))> = vec![
        ("rid1".into(), ("clarify.request".into(), "payload1".into())),
        ("rid2".into(), ("other.event".into(), "payload2".into())),
    ];
    let batches: Vec<(String, Vec<(String, String)>)> = Vec::new();
    assert!(pending_clarify_payload("sid1", &pending, &payloads, &batches).is_some());
    assert!(pending_clarify_payload("sid2", &pending, &payloads, &batches).is_none());
    assert!(pending_clarify_payload("ghost", &pending, &payloads, &batches).is_none());
    let batches2: Vec<(String, Vec<(String, String)>)> = vec![("rid1".into(), vec![("q1".into(), "a1".into())])];
    assert!(pending_clarify_payload("sid1", &pending, &payloads, &batches2).unwrap().contains("answers"));
}

#[test]
fn pending_approval() {
    let p = pending_approval_payload(
        "key1",
        |k: &str| if k == "key1" { Some(raw(true, None, None, None, None)) } else { None },
        |s: &str| s.to_string(),
    );
    assert!(p.is_some());
    assert_eq!(p.unwrap().choices, vec!["once".to_string(), "deny".to_string()]);
    assert!(pending_approval_payload("ghost", |_: &str| None, |s: &str| s.to_string()).is_none());
}

#[test]
fn status_update_kind() {
    assert!(status_update("sid", "lifecycle", Some(""), COMPACTION_STATUS_MARKER).is_none());
    assert!(status_update("sid", "   ", None, COMPACTION_STATUS_MARKER).is_none());
    let s = status_update("sid", "lifecycle", Some("start [compacting] done"), COMPACTION_STATUS_MARKER).unwrap();
    assert_eq!(s.kind, "compacting");
    let s2 = status_update("sid", "lifecycle", Some("plain lifecycle"), COMPACTION_STATUS_MARKER).unwrap();
    assert_eq!(s2.kind, "lifecycle");
    let s3 = status_update("sid", "lifecycle", None, COMPACTION_STATUS_MARKER).unwrap();
    assert_eq!(s3.kind, "status");
    let s4 = status_update("sid", "custom", Some("hello"), COMPACTION_STATUS_MARKER).unwrap();
    assert_eq!(s4.kind, "custom");
    assert_eq!(s4.text, "hello");
}

#[test]
fn image_tokens_and_meta() {
    assert_eq!(estimate_image_tokens(0, 100), 0);
    assert_eq!(estimate_image_tokens(100, 0), 0);
    assert_eq!(estimate_image_tokens(-1, 10), 0);
    assert_eq!(estimate_image_tokens(512, 512), 85);
    assert_eq!(estimate_image_tokens(513, 512), 170);
    assert_eq!(estimate_image_tokens(1024, 1024), 340);
    assert_eq!(estimate_image_tokens(1, 1), 85);
    let m = image_meta("/tmp/foo.png", |_: &str| Some((512, 512)));
    assert_eq!(m.name, "foo.png");
    assert_eq!(m.width, Some(512));
    assert_eq!(m.token_estimate, Some(85));
    let m2 = image_meta("/tmp/bar.jpg", |_: &str| None);
    assert_eq!(m2.width, None);
    assert!(m2.token_estimate.is_none());
}

#[test]
fn ok_err() {
    assert_eq!(ok_response("1", r#"{"status":"ok"}"#), r#"{"jsonrpc":"2.0","id":1,"result":{"status":"ok"}}"#);
    assert_eq!(err_response("null", -32600, "invalid request", None), r#"{"jsonrpc":"2.0","id":null,"error":{"code":-32600,"message":"invalid request"}}"#);
    assert_eq!(
        err_response("1", -32601, "unknown method", Some(r#"{"info":"x"}"#)),
        r#"{"jsonrpc":"2.0","id":1,"error":{"code":-32601,"message":"unknown method","data":{"info":"x"}}}"#
    );
}

#[test]
fn method_registry() {
    let mut r = MethodRegistry::new();
    assert!(r.register("session.create", "h1"));
    assert!(r.contains("session.create"));
    assert!(!r.register("session.create", "h2"), "re-register is not new");
    assert_eq!(r.len(), 1);
    assert_eq!(r.get("session.create").unwrap(), "h2");
    assert!(r.get("ghost").is_none());
}

#[test]
fn db_unavailable() {
    let j = db_unavailable_error(Some("1"), -32000, Some("no db"));
    assert!(j.contains("state.db unavailable: no db"));
    assert!(j.contains(r#""id":"1""#));
    let j2 = db_unavailable_error(None, 500, None);
    assert!(j2.contains("state.db unavailable"));
    assert!(j2.contains(r#""id":null"#));
}

#[test]
fn control_frame() {
    let c = ControlFrame::new(Some(r#"{"extra":1}"#), "interrupt");
    assert_eq!(c.typ, "control");
    assert_eq!(c.command, "interrupt");
    let j = c.to_json();
    assert!(j.contains(r#""type":"control""#));
    assert!(j.contains(r#""command":"interrupt""#));
    let c2 = ControlFrame::new(None, "");
    assert_eq!(c2.to_json(), r#"{"type":"control","command":""}"#);
}

// ---------------------------------------------------------------------------
// Further cases
// ---------------------------------------------------------------------------

#[test]
fn live_ids_sorted_and_deduplicated() {
    let reg = vec![
        SessionRef { sid: "b".into(), session_key: Some("a".into()), agent_session_id: Some("b".into()) },
        SessionRef { sid: "c".into(), session_key: Some("".into()), agent_session_id: None },
    ];
    assert_eq!(live_session_ids_from_registry(&reg), vec!["a".to_string(), "b".to_string(), "c".to_string()]);
    assert!(live_session_ids_from_registry(&[]).is_empty());
}

#[test]
fn exact_frames() {
    assert_eq!(
        event_frame("e\"v", "s\\1", Some("{}")),
        r#"{"jsonrpc":"2.0","method":"event","params":{"type":"e\"v","session_id":"s\\1","payload":{}}}"#
    );
    assert_eq!(EventFrame::new("x", "y", None).to_json(), r#"{"jsonrpc":"2.0","method":"event","params":{"type":"x","session_id":"y"}}"#);
    assert_eq!(
        db_unavailable_error(Some("7"), -1, Some("say \"hi\"")),
        r#"{"jsonrpc":"2.0","id":"7","error":{"code":-1,"message":"state.db unavailable: say 'hi'"}}"#
    );
    assert_eq!(ControlFrame::new(Some("  {{}}  "), "c").to_json(), r#"{"type":"control","command":"c"}"#);
    assert_eq!(ControlFrame::new(Some(r#"{"a":1}"#), "c").to_json(), r#"{"type":"control","command":"c","a":1}"#);
    let f = compute_host_turn_frame("r", "s", None, "\"t\"", Some("dk"), vec![], -3, 7, "/w", None, None, None, None, "src", None, vec![], Some(4));
    assert_eq!(
        f.to_json(),
        r#"{"type":"turn.start","sid":"s","request_id":"r","session_key":"s","text":"t","history_version":-3,"cols":7,"cwd":"/w","profile_home":"","source":"src","display_kind":"dk","queued_prompt_generation":4}"#
    );
}

#[test]
fn paths_and_profiles() {
    assert_eq!(db_for_profile(Some("/p/".to_string())), DbProfileRoute::Dedicated("/p/state.db".to_string()));
    assert_eq!(db_for_profile(Some("".to_string())), DbProfileRoute::Dedicated("state.db".to_string()));
    assert_eq!(SessionDbStub::shared().db_path, "state.db");
    assert!(!SessionDbStub::for_profile("/x/state.db").is_shared);
    // The launch home compares component-wise.
    assert_eq!(resolve_profile_home(Some("w"), "/h/", |_: &str| Some("/h//.".to_string()), |_: &str| true), None);
    assert_eq!(response_profile_name(Some(" w "), Some("/h"), "d"), "w");
    let read = |p: &str| if p == "/prof/config.yaml" { Some(" ~ ".to_string()) } else { None };
    assert_eq!(profile_configured_cwd(Some("/prof"), read, |p: &str| p == "/home/test"), Some("/home/test".to_string()));
    assert_eq!(profile_configured_cwd(None, read, |_: &str| true), None);
    assert_eq!(launch_configured_cwd(|| Some("/srv".to_string()), |p: &str| p == "/srv"), Some("/srv".to_string()));
    assert_eq!(launch_configured_cwd(|| None, |_: &str| true), None);
    assert_eq!(configured_cwd_from_cfg(Some("/srv"), |_: &str| false), None);
}

#[test]
fn images_and_status_edges() {
    assert_eq!(image_meta("/tmp/..", |_: &str| None).name, "");
    assert_eq!(image_meta("/tmp/x.png/.", |_: &str| None).name, "x.png");
    assert_eq!(image_meta("/", |_: &str| None).name, "");
    let m = image_meta("a.png", |_: &str| Some((1024, 1)));
    assert_eq!(m.token_estimate, Some(170));
    assert_eq!(metadata_mirror(None), "{}");
    assert_eq!(metadata_mirror(Some("{\"a\":1}")), "{\"a\":1}");
    let u = status_update("s", "lifecycle", Some("  x  "), "").unwrap();
    assert_eq!(u.kind, "compacting");
    assert_eq!(u.text, "x");
}

#[test]
fn registry_and_transports_edges() {
    let mut r = MethodRegistry::new();
    assert!(r.register("a", "1"));
    assert!(r.register("b", "2"));
    assert!(!r.register("a", "3"));
    assert_eq!(r.len(), 2);
    assert_eq!(r.get("a").unwrap(), "3");
    assert_eq!(r.get("b").unwrap(), "2");
    let mut lt = LiveTransports::new();
    assert!(lt.is_empty());
    lt.register(Some("p"));
    lt.register(Some("p"));
    assert_eq!(lt.len(), 1);
    lt.unregister(None);
    assert!(!lt.is_empty());
    let mut s = StartupSweepState::default();
    assert!(!s.has_ran());
    assert!(s.mark_ran());
}

#[test]
fn startup_guard() {
    assert!(matches!(startup_sweep_guard(0, 21_600_000, true, false), StartupSweepGuardAction::Skip("ws_grace_disabled")));
    assert!(matches!(startup_sweep_guard(20_000, 0, true, false), StartupSweepGuardAction::Skip("ttl_disabled")));
    assert!(matches!(startup_sweep_guard(20_000, 21_600_000, false, false), StartupSweepGuardAction::Skip("reaper_disabled")));
    assert!(matches!(startup_sweep_guard(20_000, 21_600_000, true, true), StartupSweepGuardAction::Skip("already_ran")));
    assert!(matches!(startup_sweep_guard(20_000, 21_600_000, true, false), StartupSweepGuardAction::Schedule { grace_ms } if grace_ms == 20_000));
}

#[test]
fn sweep_args_guards() {
    assert!(sweep_orphaned_args(false, 21_600_000, vec![]).is_none());
    assert!(sweep_orphaned_args(true, 0, vec![]).is_none());
    assert!(sweep_orphaned_args(true, -1_000, vec![]).is_none());
    let args = sweep_orphaned_args(true, 21_600_000, vec!["a".into()]).unwrap();
    assert_eq!(args.max_idle_ms, 21_600_000);
    assert_eq!(args.sources, vec!["tui".to_string(), "desktop".to_string(), "subagent".to_string()]);
    assert_eq!(args.exclude_ids, vec!["a".to_string()]);
    assert!(should_sweep_orphans(true, 10_000));
    assert!(!should_sweep_orphans(false, 10_000));
    assert!(!should_sweep_orphans(true, 0));
}

#[test]
fn db_stub_sweeps() {
    let db = SessionDbStub::shared();
    assert!(db.sweep_orphaned_sessions(1_000, &[], &[]).is_empty());
    let swept = db.sweep_orphaned_sessions_with(5_000, &["tui".to_string()], &["keep".to_string()], |idle: i64, src: &[String], ex: &[String]| {
        vec![format!("{}|{}|{}", idle, src.join(","), ex.join(","))]
    });
    assert_eq!(swept, vec!["5000|tui|keep".to_string()]);
}

#[test]
fn control_frame_empty_payload_is_one_object() {
    assert_eq!(ControlFrame::new(Some("{}"), "x").to_json(), r#"{"type":"control","command":"x"}"#);
    assert_eq!(ControlFrame::new(Some("  "), "x").to_json(), r#"{"type":"control","command":"x"}"#);
    assert_eq!(ControlFrame::new(Some(r#"{"a":1,"b":2}"#), "x").to_json(), r#"{"type":"control","command":"x","a":1,"b":2}"#);
}
