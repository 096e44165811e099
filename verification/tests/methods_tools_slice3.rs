use hermes_tui::{methods_tools_slice3, methods_tools_slice4};
use hermes_tui::server_slice3::MethodRegistry;
use hermes_tui::methods_tools_slice3::{
    encode_rid, err_response, extract_action, extract_command_param, extract_name_param,
    extract_raw_value, extract_session_id_param, extract_string_field, handle_learning_delete,
    handle_learning_detail, handle_learning_edit, handle_mcp_catalog, handle_mcp_servers_add,
    handle_mcp_servers_list, handle_mcp_servers_oauth_poll, handle_mcp_servers_oauth_start,
    handle_mcp_servers_remove, handle_mcp_servers_set_api_key, handle_mcp_servers_test,
    handle_plugins_manage, handle_shell_exec, handle_skills_manage, handle_skills_reload,
    is_empty_command, is_valid_plugins_action, is_valid_skills_action, ok_response,
};
fn rid1() -> String {
    encode_rid("1")
}

#[test]
fn learning_detail_delete_edit_ok_and_err() {
    let rid = rid1();
    let ok = handle_learning_detail(&rid, r#"{"id":"node1"}"#, |_| Ok(r#"{"id":"node1","content":"hello"}"#.to_string()));
    assert!(ok.contains("node1"), "{}", ok);
    let err = handle_learning_detail(&rid, "{}", |_| Err("learning.detail failed: boom".into()));
    assert!(err.contains(r#""code":5000"#), "{}", err);
    assert!(err.contains("learning.detail failed"));

    let ok2 = handle_learning_delete(&rid, r#"{"id":"n2"}"#, |_| Ok(r#"{"deleted":true}"#.to_string()));
    assert!(ok2.contains("deleted"), "{}", ok2);
    let err2 = handle_learning_delete(&rid, "{}", |_| Err("learning.delete failed: x".into()));
    assert!(err2.contains(r#""code":5000"#));

    let ok3 = handle_learning_edit(&rid, r#"{"id":"n3","content":"new"}"#, |_| Ok(r#"{"ok":true}"#.to_string()));
    assert!(ok3.contains("ok"), "{}", ok3);
    let err3 = handle_learning_edit(&rid, "{}", |_| Err("learning.edit failed: y".into()));
    assert!(err3.contains(r#""code":5000"#));
}

#[test]
fn skills_manage_unknown_action_and_ok() {
    let rid = rid1();
    let out = handle_skills_manage(&rid, r#"{"action":"bogus","query":"x"}"#, |_| Ok("{}".into()));
    assert!(out.contains(r#""code":4017"#), "{}", out);
    assert!(out.contains("bogus"));

    let out2 = handle_skills_manage(&rid, r#"{"action":"list"}"#, |_| Ok(r#"{"skills":[]}"#.to_string()));
    assert!(out2.contains("skills"), "{}", out2);

    let out3 = handle_skills_manage(&rid, r#"{"action":"search","query":"github"}"#, |_| Ok(r#"{"results":[{"name":"a","description":"b"}]}"#.into()));
    assert!(out3.contains("results"), "{}", out3);

    let out4 = handle_skills_manage(&rid, r#"{"action":"list"}"#, |_| Err((4064, "profile 'x' not found".into())));
    assert!(out4.contains(r#""code":4064"#), "{}", out4);

    let out5 = handle_skills_manage(&rid, r#"{"action":"list"}"#, |_| Err((5024, "boom".into())));
    assert!(out5.contains(r#""code":5024"#));
}

#[test]
fn mcp_catalog_ok_and_profile_err() {
    let rid = rid1();
    let ok = handle_mcp_catalog(&rid, "{}", |_| Ok(r#"{"servers":[{"name":"a","description":"desc","installed":true,"enabled":false,"requires":[],"transport":"stdio"}]}"#.to_string()));
    assert!(ok.contains("servers"), "{}", ok);
    assert!(ok.contains("stdio"));

    let err = handle_mcp_catalog(&rid, r#"{"profile":"bad"}"#, |_| Err((4064, "profile 'bad' not found".into())));
    assert!(err.contains(r#""code":4064"#));

    let err2 = handle_mcp_catalog(&rid, "{}", |_| Err((5024, "fail".into())));
    assert!(err2.contains(r#""code":5024"#));
}

#[test]
fn mcp_servers_list_ok_and_err() {
    let rid = rid1();
    let ok = handle_mcp_servers_list(&rid, "{}", |_| Ok(r#"{"servers":[{"name":"s1","transport":"http","enabled":true}]}"#.to_string()));
    assert!(ok.contains("s1"), "{}", ok);
    let err = handle_mcp_servers_list(&rid, "{}", |_| Err((5024, "boom".into())));
    assert!(err.contains(r#""code":5024"#));
    let err2 = handle_mcp_servers_list(&rid, r#"{"profile":"x"}"#, |_| Err((4064, "profile 'x' not found".into())));
    assert!(err2.contains(r#""code":4064"#));
}

#[test]
fn mcp_servers_add_validation_and_ok() {
    let rid = rid1();
    let out = handle_mcp_servers_add(&rid, r#"{"name":""}"#, |_| panic!("should not call on empty name"));
    assert!(out.contains(r#""code":4063"#), "{}", out);
    assert!(out.contains("name required"));
    let out2 = handle_mcp_servers_add(&rid, r#"{}"#, |_| panic!("should not call"));
    assert!(out2.contains(r#""code":4063"#));

    let ok = handle_mcp_servers_add(&rid, r#"{"name":"myserver","config":{"url":"https://x"}}"#, |_| Ok(r#"{"ok":true,"name":"myserver","server":{"name":"myserver"}}"#.to_string()));
    assert!(ok.contains("myserver"), "{}", ok);

    let dup = handle_mcp_servers_add(&rid, r#"{"name":"exists","config":{"url":"https://x"}}"#, |_| Err((4090, "server 'exists' already exists".into())));
    assert!(dup.contains(r#""code":4090"#));

    let bad_cfg = handle_mcp_servers_add(&rid, r#"{"name":"n","config":{}}"#, |_| Err((4063, "config must specify a 'url'".into())));
    assert!(bad_cfg.contains(r#""code":4063"#));

    let suspicious = handle_mcp_servers_add(&rid, r#"{"name":"n","config":{"command":"evil"}}"#, |_| Err((4001, "server 'n' rejected: suspicious".into())));
    assert!(suspicious.contains(r#""code":4001"#));
}

#[test]
fn mcp_servers_set_api_key_validation() {
    let rid = rid1();
    let out = handle_mcp_servers_set_api_key(&rid, r#"{"name":""}"#, |_| panic!("should not call"));
    assert!(out.contains(r#""code":4063"#));
    assert!(out.contains("name required"));

    let out2 = handle_mcp_servers_set_api_key(&rid, r#"{"name":"s","value":""}"#, |_| panic!("should not call"));
    assert!(out2.contains(r#""code":4063"#), "{}", out2);
    assert!(out2.contains("value required"));

    let out3 = handle_mcp_servers_set_api_key(&rid, r#"{"name":"s"}"#, |_| panic!("should not call"));
    assert!(out3.contains(r#""code":4063"#));

    let ok = handle_mcp_servers_set_api_key(&rid, r#"{"name":"s","value":"tok123"}"#, |_| Ok(r#"{"ok":true,"name":"s","env_var":"MCP_S_API_KEY","server":{}}"#.to_string()));
    assert!(ok.contains("MCP_S_API_KEY"), "{}", ok);

    let notfound = handle_mcp_servers_set_api_key(&rid, r#"{"name":"bad","value":"v"}"#, |_| Err((4064, "server 'bad' not found".into())));
    assert!(notfound.contains(r#""code":4064"#));

    let bad_cred = handle_mcp_servers_set_api_key(&rid, r#"{"name":"s","value":"bearer"}"#, |_| Err((4063, "value is not a valid credential".into())));
    assert!(bad_cred.contains(r#""code":4063"#));
}

#[test]
fn mcp_servers_test_poll_validation() {
    let rid = rid1();
    let out = handle_mcp_servers_test(&rid, r#"{"name":""}"#, |_| panic!("should not call"));
    assert!(out.contains(r#""code":4063"#));

    let ok = handle_mcp_servers_test(&rid, r#"{"name":"s"}"#, |_| Ok(r#"{"ok":true,"tools":[{"name":"t","description":"d"}],"prompts":0,"resources":0}"#.to_string()));
    assert!(ok.contains("tools"), "{}", ok);
    assert!(ok.contains("t"));

    let probe_fail = handle_mcp_servers_test(&rid, r#"{"name":"s"}"#, |_| Ok(r#"{"ok":false,"error":"timeout","tools":[],"oauth_needed":false}"#.to_string()));
    assert!(probe_fail.contains("ok"), "{}", probe_fail);
    assert!(probe_fail.contains("false"));

    let notfound = handle_mcp_servers_test(&rid, r#"{"name":"bad"}"#, |_| Err((4064, "server 'bad' not found".into())));
    assert!(notfound.contains(r#""code":4064"#));

    let out2 = handle_mcp_servers_remove(&rid, r#"{"name":""}"#, |_| panic!("should not call"));
    assert!(out2.contains(r#""code":4063"#));
    let ok2 = handle_mcp_servers_remove(&rid, r#"{"name":"s"}"#, |_| Ok(r#"{"ok":true,"removed":true}"#.to_string()));
    assert!(ok2.contains("removed"), "{}", ok2);

    let out3 = handle_mcp_servers_oauth_start(&rid, r#"{"name":""}"#, |_| panic!("should not call"));
    assert!(out3.contains(r#""code":4063"#));
    let ok3 = handle_mcp_servers_oauth_start(&rid, r#"{"name":"s"}"#, |_| Ok(r#"{"ok":true,"session_id":"sid","auth_url":"https://auth","flow":"pkce"}"#.to_string()));
    assert!(ok3.contains("auth_url"), "{}", ok3);
    let stdio_err = handle_mcp_servers_oauth_start(&rid, r#"{"name":"stdio_s"}"#, |_| Err((4001, "stdio servers authenticate via env keys, not OAuth".into())));
    assert!(stdio_err.contains(r#""code":4001"#));

    let out4 = handle_mcp_servers_oauth_poll(&rid, r#"{"name":"s","session_id":""}"#, |_| panic!("should not call missing sid"));
    assert!(out4.contains(r#""code":4063"#));
    assert!(out4.contains("session_id required"));
    let out5 = handle_mcp_servers_oauth_poll(&rid, r#"{"name":"","session_id":"sid"}"#, |_| panic!("should not call missing name"));
    assert!(out5.contains(r#""code":4063"#));
    let ok4 = handle_mcp_servers_oauth_poll(&rid, r#"{"name":"s","session_id":"sid123"}"#, |_| Ok(r#"{"ok":true,"status":"approved"}"#.to_string()));
    assert!(ok4.contains("approved"), "{}", ok4);
}

#[test]
fn skills_reload_ok_and_err() {
    let rid = rid1();
    let ok = handle_skills_reload(&rid, "{}", |_| Ok(r#"{"output":"Reloading skills...\nNo new skills detected.\n2 skill(s) available","result":{"added":[],"removed":[],"total":2}}"#.to_string()));
    assert!(ok.contains("Reloading"), "{}", ok);
    assert!(ok.contains("skill(s) available"));
    let err = handle_skills_reload(&rid, "{}", |_| Err("boom".into()));
    assert!(err.contains(r#""code":5025"#));
}

#[test]
fn plugins_manage_validation_and_ok() {
    let rid = rid1();
    let out = handle_plugins_manage(&rid, r#"{"action":"weird"}"#, |_| panic!("should not call"));
    assert!(out.contains(r#""code":4017"#), "{}", out);
    assert!(out.contains("weird"));

    let out2 = handle_plugins_manage(&rid, r#"{"action":"toggle"}"#, |_| panic!("should not call missing ident"));
    assert!(out2.contains(r#""code":4019"#), "{}", out2);
    assert!(out2.contains("toggle"));

    let out3 = handle_plugins_manage(&rid, r#"{"action":"toggle","name":""}"#, |_| panic!("should not call"));
    assert!(out3.contains(r#""code":4019"#));

    let out4 = handle_plugins_manage(&rid, r#"{"action":"install"}"#, |_| panic!("should not call"));
    assert!(out4.contains(r#""code":4019"#));

    let ok_list = handle_plugins_manage(&rid, r#"{"action":"list"}"#, |_| Ok(r#"{"plugins":[{"name":"a","key":"a","version":"1","description":"desc","source":"bundled","status":"enabled","portable":false}],"user_count":0,"bundled_count":1}"#.to_string()));
    assert!(ok_list.contains("plugins"), "{}", ok_list);
    assert!(ok_list.contains("bundled_count"));

    let ok_toggle = handle_plugins_manage(&rid, r#"{"action":"toggle","key":"a","enable":true}"#, |_| Ok(r#"{"ok":true,"unchanged":false,"name":"a","plugin":{"name":"a"}}"#.to_string()));
    assert!(ok_toggle.contains("ok"), "{}", ok_toggle);

    let ok_install = handle_plugins_manage(&rid, r#"{"action":"install","identifier":"org/repo"}"#, |_| Ok(r#"{"ok":true,"name":"org/repo"}"#.to_string()));
    assert!(ok_install.contains("org/repo"), "{}", ok_install);

    let err = handle_plugins_manage(&rid, r#"{"action":"list"}"#, |_| Err((5026, "toggle failed".into())));
    assert!(err.contains(r#""code":5026"#));
}

#[test]
fn shell_exec_empty_and_blocked_and_ok() {
    let rid = rid1();
    let out = handle_shell_exec(&rid, r#"{"command":""}"#, |_| panic!("should not call on empty"));
    assert!(out.contains(r#""code":4004"#), "{}", out);
    assert!(out.contains("empty command"));

    let out2 = handle_shell_exec(&rid, r#"{}"#, |_| panic!("should not call"));
    assert!(out2.contains(r#""code":4004"#));

    let out3 = handle_shell_exec(&rid, r#"{"command":"echo hi"}"#, |_| Ok(r#"{"stdout":"hi","stderr":"","code":0}"#.to_string()));
    assert!(out3.contains("stdout"), "{}", out3);
    assert!(out3.contains("hi"));

    let blocked = handle_shell_exec(&rid, r#"{"command":"rm -rf /"}"#, |_| Err((4005, "blocked (hardline): rm -rf".into())));
    assert!(blocked.contains(r#""code":4005"#));

    let unavailable = handle_shell_exec(&rid, r#"{"command":"echo hi"}"#, |_| Err((5001, "shell.exec unavailable".into())));
    assert!(unavailable.contains(r#""code":5001"#));

    let timeout = handle_shell_exec(&rid, r#"{"command":"sleep 40"}"#, |_| Err((5002, "command timed out (30s)".into())));
    assert!(timeout.contains(r#""code":5002"#));

    let fail = handle_shell_exec(&rid, r#"{"command":"false"}"#, |_| Err((5003, "boom".into())));
    assert!(fail.contains(r#""code":5003"#));
}

#[test]
fn extract_helpers_and_validation() {
    assert_eq!(extract_string_field(r#"{"name":"myserver"}"#, "name").as_deref(), Some("myserver"));
    assert_eq!(extract_string_field(r#"{"session_id":"sid123"}"#, "session_id").as_deref(), Some("sid123"));
    assert_eq!(extract_name_param(r#"{"name":"s1"}"#).as_deref(), Some("s1"));
    assert_eq!(extract_name_param(r#"{"name":""}"#), None);
    assert_eq!(extract_session_id_param(r#"{"session_id":"abc"}"#).as_deref(), Some("abc"));
    assert!(is_valid_skills_action("list"));
    assert!(is_valid_skills_action("search"));
    assert!(!is_valid_skills_action("bogus"));
    assert!(is_valid_plugins_action("list"));
    assert!(is_valid_plugins_action("toggle"));
    assert!(!is_valid_plugins_action("bad"));
    assert_eq!(extract_action(r#"{"action":"search"}"#), "search");
    assert_eq!(extract_action(r#"{}"#), "list");
    assert!(is_empty_command("   "));
    assert!(!is_empty_command("echo hi"));
    assert_eq!(extract_command_param(r#"{"command":"ls"}"#), "ls");
    assert_eq!(extract_raw_value(r#"{"command":"echo hi"}"#, "command").unwrap(), "\"echo hi\"");
}

#[test]
fn methods_tools_slice3_ok_err_envelope_shape() {
    let rid = encode_rid("42");
    let ok = ok_response(&rid, r#"{"ok":true}"#);
    assert!(ok.contains(r#""result""#));
    assert!(ok.contains("ok"));
    let err = err_response(&rid, 4004, "empty command");
    assert!(err.contains(r#""code":4004"#));
    assert!(err.contains("empty command"));
    let err2 = err_response(&rid, 5000, "learning.detail failed: boom");
    assert!(err2.contains(r#""code":5000"#));
}

#[test]
fn methods_tools_slice3_registry_installs_all_fifteen() {
    let reg = methods_tools_slice3::build_registry_default();
    assert_eq!(reg.len(), 15);
    let mut names = reg.names();
    names.sort();
    assert_eq!(names, vec!["learning.delete","learning.detail","learning.edit","mcp.catalog","mcp.servers.add","mcp.servers.list","mcp.servers.oauth.poll","mcp.servers.oauth.start","mcp.servers.remove","mcp.servers.set_api_key","mcp.servers.test","plugins.manage","shell.exec","skills.manage","skills.reload"]);
    let answered = names.iter().filter(|n| methods_tools_slice3::default_reply(n, "1", "{}").is_some()).count();
    assert_eq!(answered, 15);
    // learning.detail stub -> 5000
    let out = methods_tools_slice3::default_reply(methods_tools_slice3::METHOD_LEARNING_DETAIL, "1", "{}").unwrap();
    assert!(out.contains(r#""code":5000"#), "{}", out);
    // skills.manage unknown action -> 4017
    let out2 = methods_tools_slice3::default_reply(methods_tools_slice3::METHOD_SKILLS_MANAGE, "1", r#"{"action":"bogus"}"#).unwrap();
    assert!(out2.contains(r#""code":4017"#), "{}", out2);
    // mcp.servers.add without name -> 4063
    let out3 = methods_tools_slice3::default_reply(methods_tools_slice3::METHOD_MCP_SERVERS_ADD, "1", "{}").unwrap();
    assert!(out3.contains(r#""code":4063"#), "{}", out3);
    // mcp.servers.set_api_key without name -> 4063
    let out4 = methods_tools_slice3::default_reply(methods_tools_slice3::METHOD_MCP_SERVERS_SET_API_KEY, "1", "{}").unwrap();
    assert!(out4.contains(r#""code":4063"#), "{}", out4);
    // mcp.servers.oauth.poll without session_id -> 4063
    let out5 = methods_tools_slice3::default_reply(methods_tools_slice3::METHOD_MCP_SERVERS_OAUTH_POLL, "1", r#"{"name":"s"}"#).unwrap();
    assert!(out5.contains(r#""code":4063"#), "{}", out5);
    // plugins.manage unknown -> 4017
    let out6 = methods_tools_slice3::default_reply(methods_tools_slice3::METHOD_PLUGINS_MANAGE, "1", r#"{"action":"bad"}"#).unwrap();
    assert!(out6.contains(r#""code":4017"#), "{}", out6);
    // shell.exec without command -> 4004
    let out7 = methods_tools_slice3::default_reply(methods_tools_slice3::METHOD_SHELL_EXEC, "1", "{}").unwrap();
    assert!(out7.contains(r#""code":4004"#), "{}", out7);
    // mcp.servers.test without name -> 4063
    let out8 = methods_tools_slice3::default_reply(methods_tools_slice3::METHOD_MCP_SERVERS_TEST, "1", "{}").unwrap();
    assert!(out8.contains(r#""code":4063"#), "{}", out8);
    // skills.reload stub -> 5025
    let out9 = methods_tools_slice3::default_reply(methods_tools_slice3::METHOD_SKILLS_RELOAD, "1", "{}").unwrap();
    assert!(out9.contains(r#""code":5025"#), "{}", out9);
    // shell.exec ok path with a backend injected
    let ok = handle_shell_exec(&encode_rid("1"), r#"{"command":"echo hi"}"#, |_| Ok(r#"{"stdout":"hi","stderr":"","code":0}"#.to_string()));
    assert!(ok.contains("hi"), "{}", ok);
}

#[test]
fn tools_surface_registers_both_modules() {
    let reg = methods_tools_slice4::build_registry_default();
    assert_eq!(reg.len(), 30);
    assert!(reg.contains("slash.exec") && reg.contains("shell.exec"));
    let mut r2 = MethodRegistry::new();
    methods_tools_slice4::register(&mut r2);
    assert_eq!(r2.len(), 0);
    methods_tools_slice4::register_all(&mut r2);
    assert_eq!(r2.len(), 30);
    assert_eq!(
        methods_tools_slice4::default_reply("mcp.servers.oauth.start", "2", r#"{"name":"gh"}"#).unwrap(),
        r#"{"jsonrpc":"2.0","id":2,"error":{"code":5024,"message":"no backend"}}"#
    );
    assert_eq!(
        methods_tools_slice4::default_reply("tools.list", "2", "{}").unwrap(),
        r#"{"jsonrpc":"2.0","id":2,"error":{"code":5031,"message":"no backend"}}"#
    );
    assert!(methods_tools_slice4::default_reply("session.create", "2", "{}").is_none());
}

#[test]
fn registry_with_caller_handlers_slice3() {
    let ids: Vec<String> = (0..15).map(|k| format!("x{}", k)).collect();
    let refs: Vec<&str> = ids.iter().map(|s| s.as_str()).collect();
    let reg = methods_tools_slice3::build_registry(&refs);
    assert_eq!(reg.len(), 15);
    assert_eq!(reg.get("learning.detail").unwrap(), "x0");
    assert_eq!(reg.get("shell.exec").unwrap(), "x14");
    let mut reg2 = MethodRegistry::new();
    methods_tools_slice3::register_with(&mut reg2, &refs);
    assert_eq!(reg2.len(), 15);
}
