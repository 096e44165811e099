use hermes_tui::methods_tools_slice2;
use hermes_tui::server_slice3::MethodRegistry;
use hermes_tui::methods_tools_slice2::{
    clamp_learning_dims, encode_rid, err_response, extract_browser_action, extract_hash_param,
    extract_raw_value, extract_string_field, extract_string_or_empty, extract_target_text_content,
    extract_tools_targets, format_undo_notice, handle_agents_list, handle_browser_manage,
    handle_config_show, handle_cron_manage, handle_insights_get, handle_learning_frames,
    handle_plugins_list, handle_rollback_diff, handle_rollback_list, handle_rollback_restore,
    handle_slash_exec, handle_tools_configure, handle_tools_list, handle_tools_show,
    handle_toolsets_list, is_compress_command, is_truthy_field, is_truthy_value,
    is_valid_browser_action, is_valid_tools_action, ok_response, parse_learning_dims,
    parse_undo_count, snapshot_restore_blocked_output,
};
fn rid1() -> String {
    encode_rid("1")
}

#[test]
fn undo_count_and_notice() {
    assert_eq!(parse_undo_count("").unwrap(), 1);
    assert_eq!(parse_undo_count("3").unwrap(), 3);
    assert_eq!(parse_undo_count("  0  ").unwrap(), 1);
    assert_eq!(parse_undo_count("-5").unwrap(), 1);
    assert!(parse_undo_count("bad").is_err());
    assert_eq!(parse_undo_count("bad").unwrap_err().0, 4004);
    assert_eq!(format_undo_notice(1, 5), "↶ Undid 1 turn (5 message(s)). Edit and resubmit, or send a new message.");
    assert_eq!(format_undo_notice(2, 7), "↶ Undid 2 turns (7 message(s)). Edit and resubmit, or send a new message.");
    assert!(snapshot_restore_blocked_output().contains("Run it in the classic CLI"));
    assert!(is_compress_command("compress"));
    assert!(is_compress_command("compact"));
    assert!(!is_compress_command("undo"));
}

#[test]
fn slash_exec_empty_and_ok() {
    let rid = rid1();
    let out = handle_slash_exec(&rid, r#"{"command":""}"#, |_| Ok(r#"{"output":"hi"}"#.to_string()));
    assert!(out.contains(r#""code":4004"#), "{}", out);
    let out2 = handle_slash_exec(&rid, r#"{"command":"   "}"#, |_| panic!("should not call on empty"));
    assert!(out2.contains(r#""code":4004"#));
    let out3 = handle_slash_exec(&rid, r#"{"command":"/help"}"#, |p| {
        assert!(p.contains("/help"));
        Ok(r#"{"output":"help text"}"#.to_string())
    });
    assert!(out3.contains("help text"), "{}", out3);
    let out4 = handle_slash_exec(&rid, r#"{"command":"/foo"}"#, |_| Err((4018, "snapshot restore mutates".into())));
    assert!(out4.contains(r#""code":4018"#), "{}", out4);
    let out5 = handle_slash_exec(&rid, r#"{"command":"/foo"}"#, |_| Err((5030, "slash worker start failed: boom".into())));
    assert!(out5.contains(r#""code":5030"#), "{}", out5);
}

#[test]
fn rollback_hash_required_and_ok() {
    let rid = rid1();
    let out = handle_rollback_restore(&rid, r#"{"hash":""}"#, |_| Ok("{}".to_string()));
    assert!(out.contains(r#""code":4014"#), "{}", out);
    let out2 = handle_rollback_restore(&rid, r#"{"hash":"abc"}"#, |_| Ok(r#"{"success":true,"history_removed":2}"#.into()));
    assert!(out2.contains("history_removed"), "{}", out2);
    let out3 = handle_rollback_restore(&rid, r#"{"hash":"abc"}"#, |_| Err((4009, "session busy".into())));
    assert!(out3.contains(r#""code":4009"#));
    let out4 = handle_rollback_restore(&rid, r#"{"hash":"abc"}"#, |_| Err((5021, "boom".into())));
    assert!(out4.contains(r#""code":5021"#));
    let out5 = handle_rollback_diff(&rid, r#"{}"#, |_| Ok("{}".into()));
    assert!(out5.contains(r#""code":4014"#));
    let out6 = handle_rollback_diff(&rid, r#"{"hash":"h1"}"#, |_| Ok(r#"{"stat":"2 files","diff":"@@..."}"#.into()));
    assert!(out6.contains("2 files"), "{}", out6);
    let out7 = handle_rollback_diff(&rid, r#"{"hash":"x"}"#, |_| Err((5022, "fail".into())));
    assert!(out7.contains(r#""code":5022"#));
}

#[test]
fn rollback_list_and_browser() {
    let rid = rid1();
    let out = handle_rollback_list(&rid, "{}", |_| Ok(r#"{"enabled":false,"checkpoints":[]}"#.into()));
    assert!(out.contains("enabled"), "{}", out);
    assert!(out.contains("false"));
    let out2 = handle_rollback_list(&rid, "{}", |_| Ok(r#"{"enabled":true,"checkpoints":[{"hash":"abc","timestamp":"t","message":"m"}]}"#.into()));
    assert!(out2.contains("abc"), "{}", out2);
    let out3 = handle_rollback_list(&rid, "{}", |_| Err((5020, "boom".into())));
    assert!(out3.contains(r#""code":5020"#));
    let out4 = handle_browser_manage(&rid, r#"{"action":"status"}"#, |_| Ok(r#"{"connected":true,"url":"http://x"}"#.into()));
    assert!(out4.contains("connected"), "{}", out4);
    let out5 = handle_browser_manage(&rid, r#"{"action":"disconnect"}"#, |_| Ok(r#"{"disconnected":true}"#.into()));
    assert!(out5.contains("disconnected"), "{}", out5);
    let out6 = handle_browser_manage(&rid, r#"{"action":"weird"}"#, |_| panic!("should not call"));
    assert!(out6.contains(r#""code":4015"#), "{}", out6);
    assert!(out6.contains("weird"));
    let out7 = handle_browser_manage(&rid, r#"{}"#, |_| Ok(r#"{"connected":false,"url":null}"#.into()));
    // default status when no action
    assert!(out7.contains("connected"), "{}", out7);
}

#[test]
fn plugins_and_config() {
    let rid = rid1();
    let out = handle_plugins_list(&rid, "{}", |_| Ok(r#"{"plugins":[{"name":"a","version":"1","enabled":true}]}"#.into()));
    assert!(out.contains("plugins"), "{}", out);
    let out2 = handle_plugins_list(&rid, "{}", |_| Err("fail".into()));
    assert!(out2.contains(r#""code":5032"#), "{}", out2);
    let out3 = handle_config_show(&rid, "{}", |_| Ok(r#"{"sections":[{"title":"Model","rows":[["Model","gpt"]]}]}"#.into()));
    assert!(out3.contains("sections"), "{}", out3);
    let out4 = handle_config_show(&rid, "{}", |_| Err("boom".into()));
    assert!(out4.contains(r#""code":5030"#), "{}", out4);
}

#[test]
fn tools_lists_and_show() {
    let rid = rid1();
    let out = handle_tools_list(&rid, "{}", |_| Ok(r#"{"toolsets":[{"name":"file","description":"File","tool_count":2,"enabled":true,"tools":["read_file"]}]}"#.into()));
    assert!(out.contains("toolsets"), "{}", out);
    let out2 = handle_tools_list(&rid, "{}", |_| Err("x".into()));
    assert!(out2.contains(r#""code":5031"#));
    let out3 = handle_tools_show(&rid, "{}", |_| Ok(r#"{"sections":[{"name":"file","tools":[{"name":"read_file","description":"Read"}] }],"total":1}"#.into()));
    assert!(out3.contains("total"), "{}", out3);
    let out4 = handle_tools_show(&rid, "{}", |_| Err("y".into()));
    assert!(out4.contains(r#""code":5034"#));
    let out5 = handle_toolsets_list(&rid, "{}", |_| Ok(r#"{"toolsets":[{"name":"file","description":"desc","tool_count":1,"enabled":true}]}"#.into()));
    assert!(out5.contains("toolsets"), "{}", out5);
    let out6 = handle_toolsets_list(&rid, "{}", |_| Err("z".into()));
    assert!(out6.contains(r#""code":5032"#));
    let out7 = handle_agents_list(&rid, "{}", |_| Ok(r#"{"processes":[{"session_id":"s1","command":"sleep 10","status":"running","uptime":5}]}"#.into()));
    assert!(out7.contains("processes"), "{}", out7);
    let out8 = handle_agents_list(&rid, "{}", |_| Err("p".into()));
    assert!(out8.contains(r#""code":5033"#));
}

#[test]
fn tools_configure_validation() {
    let rid = rid1();
    // unknown action 4017
    let out = handle_tools_configure(&rid, r#"{"action":"bad","names":["file"]}"#, |_| Ok("{}".into()));
    assert!(out.contains(r#""code":4017"#), "{}", out);
    assert!(out.contains("bad"));
    // names required 4018
    let out2 = handle_tools_configure(&rid, r#"{"action":"enable","names":[]}"#, |_| Ok("{}".into()));
    assert!(out2.contains(r#""code":4018"#), "{}", out2);
    let out3 = handle_tools_configure(&rid, r#"{"action":"enable"}"#, |_| Ok("{}".into()));
    assert!(out3.contains(r#""code":4018"#), "{}", out3);
    let out4 = handle_tools_configure(&rid, r#"{"action":"disable","names":["file","search"]}"#, |_| Ok(r#"{"changed":["file"],"enabled_toolsets":["search"],"info":null,"missing_servers":[],"reset":false,"unknown":[]}"#.into()));
    assert!(out4.contains("changed"), "{}", out4);
    let out5 = handle_tools_configure(&rid, r#"{"action":"enable","names":["file"]}"#, |_| Err((5035, "boom".into())));
    assert!(out5.contains(r#""code":5035"#), "{}", out5);
    // targets parsing
    assert_eq!(extract_tools_targets(r#"{"names":["file", "search"]}"#), vec!["file", "search"]);
    assert!(extract_tools_targets(r#"{"names":[]}"#).is_empty());
    assert!(is_valid_tools_action("enable"));
    assert!(!is_valid_tools_action("bad"));
}

#[test]
fn insights_and_cron_and_learning() {
    let rid = rid1();
    let out = handle_insights_get(&rid, r#"{"days":30}"#, |_| Ok(r#"{"days":30,"sessions":2,"messages":10}"#.into()));
    assert!(out.contains("sessions"), "{}", out);
    let out2 = handle_insights_get(&rid, "{}", |_| Err("db unavailable".into()));
    assert!(out2.contains(r#""code":5017"#), "{}", out2);
    let out3 = handle_cron_manage(&rid, r#"{"action":"list"}"#, |_| Ok(r#"{"jobs":[]}"#.into()));
    assert!(out3.contains("jobs"), "{}", out3);
    let out4 = handle_cron_manage(&rid, "{}", |_| Err((4064, "profile 'x' not found".into())));
    assert!(out4.contains(r#""code":4064"#), "{}", out4);
    let out5 = handle_cron_manage(&rid, "{}", |_| Err((4016, "unknown cron action: bad".into())));
    assert!(out5.contains(r#""code":4016"#), "{}", out5);
    let out6 = handle_cron_manage(&rid, "{}", |_| Err((5023, "fail".into())));
    assert!(out6.contains(r#""code":5023"#), "{}", out6);
    // learning dims parsing
    assert_eq!(parse_learning_dims(r#"{"cols":80,"rows":24,"frames":48}"#), (80, 24, 48));
    assert_eq!(parse_learning_dims(r#"{"cols":"bad","rows":24,"frames":48}"#), (80, 24, 48)); // bad field defaults per-file
    assert_eq!(parse_learning_dims(r#"{}"#), (80, 24, 48));
    assert_eq!(clamp_learning_dims(10, 5), (20, 10));
    assert_eq!(clamp_learning_dims(100, 100), (100, 100));
    let out7 = handle_learning_frames(&rid, r#"{"cols":40,"rows":20,"frames":10}"#, |_| Ok(r#"{"frames":[],"legend":{}}"#.into()));
    assert!(out7.contains("frames"), "{}", out7);
    let out8 = handle_learning_frames(&rid, "{}", |_| Err("fail".into()));
    assert!(out8.contains(r#""code":5000"#), "{}", out8);
    // truthy
    assert!(is_truthy_value(Some("true")));
    assert!(is_truthy_value(Some("1")));
    assert!(!is_truthy_value(Some("false")));
    assert!(is_truthy_field(r#"{"include_disabled":true}"#, "include_disabled"));
    assert!(!is_truthy_field(r#"{"include_disabled":false}"#, "include_disabled"));
}

#[test]
fn methods_tools_slice2_ok_err_envelope_shape() {
    let rid = encode_rid("42");
    let ok = ok_response(&rid, r#"{"output":"hi"}"#);
    assert!(ok.contains(r#""result""#));
    assert!(ok.contains("hi"));
    let err = err_response(&rid, 4004, "empty command");
    assert!(err.contains(r#""code":4004"#));
    assert!(err.contains("empty command"));
}

#[test]
fn extract_helpers() {
    assert_eq!(extract_string_field(r#"{"command":"/help"}"#, "command").as_deref(), Some("/help"));
    assert_eq!(extract_string_field(r#"{"hash":"abc123"}"#, "hash").as_deref(), Some("abc123"));
    assert_eq!(extract_browser_action(r#"{"action":"connect"}"#), "connect");
    assert_eq!(extract_browser_action(r#"{}"#), "status");
    assert!(is_valid_browser_action("status"));
    assert!(!is_valid_browser_action("bad"));
    assert_eq!(extract_hash_param(r#"{"hash":"h1"}"#).as_deref(), Some("h1"));
    assert_eq!(extract_hash_param(r#"{"hash":""}"#), None);
    assert_eq!(extract_raw_value(r#"{"days":30}"#, "days").unwrap(), "30");
    assert_eq!(extract_string_or_empty(r#"{"file_path":"/tmp/foo"}"#, "file_path"), "/tmp/foo");
}

#[test]
fn hash_target_text_and_extract() {
    // extract_target_text_content list case
    let list_json = r#"[{"type":"text","text":"hello"},{"type":"text","text":"world"}]"#;
    // our helper joins text fields naive; ensure it works for that shape
    let out = extract_target_text_content(list_json);
    assert!(out.contains("hello"), "{}", out);
    assert!(out.contains("world"), "{}", out);
    let plain = "just a string";
    assert_eq!(extract_target_text_content(plain), plain);
    assert_eq!(extract_target_text_content(""), "");
}

#[test]
fn methods_tools_slice2_registry_installs_all_fifteen() {
    let reg = methods_tools_slice2::build_registry_default();
    assert_eq!(reg.len(), 15);
    let mut names = reg.names();
    names.sort();
    // the listed names, in the byte order that `sort` gives
    let mut expected = vec!["agents.list","browser.manage","config.show","cron.manage","insights.get","learning.frames","plugins.list","rollback.diff","rollback.list","rollback.restore","slash.exec","toolsets.list","tools.configure","tools.list","tools.show"];
    expected.sort();
    assert_eq!(names, expected);
    let answered = names.iter().filter(|n| methods_tools_slice2::default_reply(n, "1", "{}").is_some()).count();
    assert_eq!(answered, 15);
    // slash.exec without command is 4004 even with the default stub
    let out = methods_tools_slice2::default_reply(methods_tools_slice2::METHOD_SLASH_EXEC, "1", "{}").unwrap();
    assert!(out.contains(r#""code":4004"#), "{}", out);
    // rollback.restore without hash is 4014
    let out2 = methods_tools_slice2::default_reply(methods_tools_slice2::METHOD_ROLLBACK_RESTORE, "1", "{}").unwrap();
    assert!(out2.contains(r#""code":4014"#), "{}", out2);
    // browser.manage status reaches the stub, which fails under 4015
    let out3 = methods_tools_slice2::default_reply(methods_tools_slice2::METHOD_BROWSER_MANAGE, "1", r#"{"action":"status"}"#).unwrap();
    assert!(out3.contains(r#""code":4015"#) || out3.contains("connected"), "{}", out3);
    // tools.configure with no names is 4018
    let out4 = methods_tools_slice2::default_reply(methods_tools_slice2::METHOD_TOOLS_CONFIGURE, "1", r#"{"action":"enable","names":[]}"#).unwrap();
    assert!(out4.contains(r#""code":4018"#), "{}", out4);
    // learning.frames with the default stub is 5000
    let out5 = methods_tools_slice2::default_reply(methods_tools_slice2::METHOD_LEARNING_FRAMES, "1", "{}").unwrap();
    assert!(out5.contains(r#""code":5000"#), "{}", out5);
}

#[test]
fn default_replies_exact() {
    assert_eq!(
        methods_tools_slice2::default_reply("slash.exec", "7", r#"{"command":"/help"}"#).unwrap(),
        r#"{"jsonrpc":"2.0","id":7,"error":{"code":5030,"message":"no backend"}}"#
    );
    assert_eq!(
        methods_tools_slice2::default_reply("insights.get", "", "{}").unwrap(),
        r#"{"jsonrpc":"2.0","id":null,"error":{"code":5017,"message":"no backend"}}"#
    );
    assert_eq!(
        methods_tools_slice2::default_reply("browser.manage", "1", r#"{"action":"fly"}"#).unwrap(),
        r#"{"jsonrpc":"2.0","id":1,"error":{"code":4015,"message":"unknown action: fly"}}"#
    );
    assert!(methods_tools_slice2::default_reply("shell.exec", "1", "{}").is_none());
    let mut reg = MethodRegistry::new();
    reg.register("session.create", "h1");
    methods_tools_slice2::register(&mut reg);
    assert_eq!(reg.len(), 16);
    assert_eq!(reg.get("session.create").unwrap(), "h1");
    assert_eq!(reg.get("cron.manage").unwrap(), "cron.manage");
}

#[test]
fn target_text_with_space_after_colon() {
    assert_eq!(extract_target_text_content(r#"[{"text": "a"},{"text": "b"}]"#), "a\nb");
    assert_eq!(extract_target_text_content("  null "), "");
}

#[test]
fn registry_with_caller_handlers() {
    let ids: Vec<String> = (0..15).map(|k| format!("h{}", k)).collect();
    let refs: Vec<&str> = ids.iter().map(|s| s.as_str()).collect();
    let reg = methods_tools_slice2::build_registry(&refs);
    assert_eq!(reg.len(), 15);
    assert_eq!(reg.get("slash.exec").unwrap(), "h0");
    assert_eq!(reg.get("learning.frames").unwrap(), "h14");
    let mut reg2 = MethodRegistry::new();
    reg2.register("session.create", "s");
    methods_tools_slice2::register_with(&mut reg2, &refs);
    assert_eq!(reg2.len(), 16);
    assert_eq!(reg2.get("session.create").unwrap(), "s");
    assert_eq!(reg2.get("tools.show").unwrap(), "h9");
}
