use hermes_tui::slash_worker::{
    encode_id_json, format_error, format_success, handle_line, handle_line_fallible,
    is_orphaned_with, normalize_command, parse_args, parse_args_str, parse_request,
    prepare_slash_worker_runtime, prepare_slash_worker_runtime_with, run_command,
    strip_ansi, worker_env_vars, WorkerArgs,
};

#[test]
fn is_orphaned_injectable() {
    assert!(!is_orphaned_with(100, || 100));
    assert!(is_orphaned_with(100, || 101));
    assert!(is_orphaned_with(100, || 1));
}

#[test]
fn normalize_command_cases() {
    assert_eq!(normalize_command(""), "");
    assert_eq!(normalize_command("   "), "");
    assert_eq!(normalize_command("/help"), "/help");
    assert_eq!(normalize_command("help"), "/help");
    assert_eq!(normalize_command("  help  "), "/help");
    assert_eq!(normalize_command("/"), "/");
    assert_eq!(normalize_command("  /journey  "), "/journey");
}

#[test]
fn strip_ansi_fast_path() {
    assert_eq!(strip_ansi("hello"), "hello");
    assert_eq!(strip_ansi(""), "");
    assert_eq!(strip_ansi("no escapes here — just text"), "no escapes here — just text");
}

#[test]
fn strip_ansi_csi() {
    assert_eq!(strip_ansi("\x1b[31mred\x1b[0m"), "red");
    assert_eq!(strip_ansi("\x1b[1;34mblue\x1b[m normal"), "blue normal");
    assert_eq!(strip_ansi("a\x1b[2mb\x1b[0mc"), "abc");
    assert_eq!(strip_ansi("\x1b[38:2:255:0:0mX\x1b[0m"), "X");
}

#[test]
fn strip_ansi_osc_and_c1() {
    assert_eq!(strip_ansi("\x1b]0;title\x07hello"), "hello");
    assert_eq!(strip_ansi("\x1b]0;title\x1b\\hello"), "hello");
    assert_eq!(strip_ansi("\u{9b}31mred\u{9b}0m"), "red");
    assert_eq!(strip_ansi("hi\u{80}there"), "hithere");
    assert_eq!(strip_ansi("hi\u{9f}there"), "hithere");
}

#[test]
fn strip_ansi_dcs_and_nf() {
    assert_eq!(strip_ansi("\x1bPfoo\x1b\\bar"), "bar");
    assert_eq!(strip_ansi("a\x1b(Bb"), "ab");
}

#[test]
fn run_command_empty_is_empty() {
    let out = run_command("", |_| "should not be called".to_string());
    assert_eq!(out, "");
    let out2 = run_command("   ", |_| "nope".to_string());
    assert_eq!(out2, "");
}

#[test]
fn run_command_normalizes_and_strips() {
    let out = run_command("help", |cmd: &str| {
        assert_eq!(cmd, "/help");
        "  \x1b[31mresult\x1b[0m  \n\n".to_string()
    });
    assert_eq!(out, "  result");
    let out2 = run_command("/journey", |cmd: &str| {
        assert_eq!(cmd, "/journey");
        "ok".to_string()
    });
    assert_eq!(out2, "ok");
}

#[test]
fn run_command_with_buf() {
    let out = hermes_tui::slash_worker::run_command_with_buf("help", |cmd: &str, buf: &mut String| {
        assert_eq!(cmd, "/help");
        buf.push_str("\x1b[2mhello\x1b[0m\n");
    });
    assert_eq!(out, "hello");
}

#[test]
fn encode_id_json_cases() {
    assert_eq!(encode_id_json(None), "null");
    assert_eq!(encode_id_json(Some("null")), "null");
    assert_eq!(encode_id_json(Some("")), "null");
    assert_eq!(encode_id_json(Some("42")), "42");
    assert_eq!(encode_id_json(Some("3.14")), "3.14");
    assert_eq!(encode_id_json(Some("\"abc\"")), "\"abc\"");
    assert_eq!(encode_id_json(Some("abc")), "\"abc\"");
    assert_eq!(encode_id_json(Some("true")), "true");
    assert_eq!(encode_id_json(Some("false")), "false");
}

#[test]
fn format_success_error_escape() {
    let s = format_success("1", "hello \"world\"\n");
    assert!(s.contains(r#""id":1"#));
    assert!(s.contains(r#""ok":true"#));
    assert!(s.contains(r#""output":"hello \"world\"\n""#));
    let e = format_error("null", "boom \"oops\"\n");
    assert!(e.contains(r#""ok":false"#));
    assert!(e.contains(r#""error":"boom \"oops\"\n""#));
}

#[test]
fn parse_request_cases() {
    let (id, cmd) = parse_request(r#"{"id": 1, "command": "/help"}"#).unwrap();
    assert_eq!(id, "1");
    assert_eq!(cmd, "/help");
    let (id2, cmd2) = parse_request(r#"{"id": "abc", "command": "help"}"#).unwrap();
    assert_eq!(id2, "\"abc\"");
    assert_eq!(cmd2, "help");
    let (id3, cmd3) = parse_request(r#"{"id": null, "command": ""}"#).unwrap();
    assert_eq!(id3, "null");
    assert_eq!(cmd3, "");
    let (id4, cmd4) = parse_request(r#"{"command": "/journey"}"#).unwrap();
    assert_eq!(id4, "null");
    assert_eq!(cmd4, "/journey");
    let (id5, cmd5) = parse_request(r#"{"id": 42}"#).unwrap();
    assert_eq!(id5, "42");
    assert_eq!(cmd5, "");
    assert!(parse_request(r#"not json"#).is_err());
    assert!(parse_request(r#""#).is_err());
}

#[test]
fn handle_line_empty_is_none() {
    assert!(handle_line("", |_| "x".to_string()).is_none());
    assert!(handle_line("   \n", |_| "x".to_string()).is_none());
}

#[test]
fn handle_line_success_and_error() {
    let resp = handle_line(r#"{"id": 1, "command": "help"}"#, |cmd: &str| {
        assert_eq!(cmd, "/help");
        "output here".to_string()
    })
    .unwrap();
    assert!(resp.contains(r#""id":1"#));
    assert!(resp.contains(r#""ok":true"#));
    assert!(resp.contains("output here"));
    let resp2 = handle_line(r#"{"id": 2, "command": ""}"#, |_| "should be empty".to_string()).unwrap();
    assert!(resp2.contains(r#""ok":true"#));
    assert!(resp2.contains(r#""output":"""#));
    let resp3 = handle_line(r#"not json"#, |_| "x".to_string()).unwrap();
    assert!(resp3.contains(r#""ok":false"#));
    assert!(resp3.contains(r#""id":null"#));
}

#[test]
fn handle_line_strips_ansi_and_rstrip() {
    let resp = handle_line(r#"{"id": 1, "command": "help"}"#, |_| "\x1b[31mhi\x1b[0m  \n".to_string()).unwrap();
    assert!(resp.contains(r#""output":"hi""#));
}

#[test]
fn parse_args_cases() {
    let args = vec!["--session-key".to_string(), "sk123".to_string()];
    let parsed = parse_args(&args).unwrap();
    assert_eq!(parsed.session_key, "sk123");
    assert_eq!(parsed.model, None);
    let args2 = vec!["--session-key".to_string(), "sk".to_string(), "--model".to_string(), "gpt-4".to_string()];
    let p2 = parse_args(&args2).unwrap();
    assert_eq!(p2.model, Some("gpt-4".to_string()));
    let args3 = vec!["--session-key=sk123".to_string(), "--model=".to_string()];
    let p3 = parse_args(&args3).unwrap();
    assert_eq!(p3.model, None);
    assert!(parse_args(&[]).is_err());
    assert!(parse_args(&["--model".to_string(), "x".to_string()]).is_err());
    assert!(parse_args(&["--session-key".to_string(), "  ".to_string()]).is_err());
    assert!(parse_args(&["--unknown".to_string()]).is_err());
}

#[test]
fn worker_env_vars_test() {
    let args = WorkerArgs { session_key: "sk".to_string(), model: Some("m".to_string()) };
    let env = worker_env_vars(&args);
    let get = |key: &str| env.iter().find(|(k, _)| k == key).map(|(_, v)| v.as_str());
    assert_eq!(get("HERMES_SESSION_KEY"), Some("sk"));
    assert_eq!(get("HERMES_INTERACTIVE"), Some("1"));
}

#[test]
fn prepare_runtime_with_calls_both() {
    let mut started = false;
    let mut waited = false;
    prepare_slash_worker_runtime_with(|| started = true, || waited = true);
    assert!(started);
    assert!(waited);
    prepare_slash_worker_runtime();
}

// ---------------------------------------------------------------------------
// Further cases
// ---------------------------------------------------------------------------

#[test]
fn strip_ansi_edges() {
    assert_eq!(strip_ansi("x\x1b"), "x");
    assert_eq!(strip_ansi("\x1b[31"), "31");
    assert_eq!(strip_ansi("a\x1b]unterminated"), "aunterminated");
    assert_eq!(strip_ansi("\x1b_apc\x1b\\z"), "z");
    assert_eq!(strip_ansi("\x1bcreset"), "reset");
    assert_eq!(strip_ansi("\u{9d}osc\u{9c}after"), "after");
    assert_eq!(strip_ansi("\u{9d}never"), "never");
    assert_eq!(strip_ansi("é\x1b[0m€"), "é€");
}

#[test]
fn request_field_shapes() {
    let (id, cmd) = parse_request(r#"{"command": "a\"b\\c\u0041\n", "id": true}"#).unwrap();
    assert_eq!(id, "true");
    assert_eq!(cmd, "a\"b\\cA\n");
    let (id, cmd) = parse_request(r#"{"id": x7, "command": 12}"#).unwrap();
    assert_eq!(id, "\"x7\"");
    assert_eq!(cmd, "12");
    assert_eq!(parse_request("{}").unwrap(), ("null".to_string(), String::new()));
    assert_eq!(parse_request("{nothing}").unwrap_err(), "invalid JSON: no id/command fields");
    assert_eq!(parse_request("[1]").unwrap_err(), "invalid JSON: not an object");
    assert_eq!(parse_request("   ").unwrap_err(), "empty line");
    let (_, cmd) = parse_request(r#"{"command": "\ud800x"}"#).unwrap();
    assert_eq!(cmd, "x");
}

#[test]
fn encode_id_specials() {
    assert_eq!(encode_id_json(Some("inf")), "\"inf\"");
    assert_eq!(encode_id_json(Some("-INF")), "\"-INF\"");
    assert_eq!(encode_id_json(Some("NaN")), "\"NaN\"");
    assert_eq!(encode_id_json(Some(" \"a\"b\" ")), "\"a\\\"b\"");
    assert_eq!(encode_id_json(Some("-12")), "-12");
}

#[test]
fn fallible_lines() {
    let ok = handle_line_fallible(r#"{"id": 3, "command": "x"}"#, |c: &str| Ok(format!("{} \x1b[1mdone\x1b[0m  ", c))).unwrap();
    assert_eq!(ok, r#"{"id":3,"ok":true,"output":"/x done"}"#);
    let err = handle_line_fallible(r#"{"id": 3, "command": "x"}"#, |_| Err("bad \"x\"".to_string())).unwrap();
    assert_eq!(err, r#"{"id":3,"ok":false,"error":"bad \"x\""}"#);
    let empty = handle_line_fallible(r#"{"id": 4}"#, |_| Err("never".to_string())).unwrap();
    assert_eq!(empty, r#"{"id":4,"ok":true,"output":""}"#);
    assert!(handle_line_fallible("  ", |_| Ok(String::new())).is_none());
    assert_eq!(handle_line_fallible("oops", |_| Ok(String::new())).unwrap(), r#"{"id":null,"ok":false,"error":"invalid JSON: not an object"}"#);
}

#[test]
fn args_from_text() {
    let a = parse_args_str("  --session-key k1   --model=m2 ").unwrap();
    assert_eq!(a.session_key, "k1");
    assert_eq!(a.model.as_deref(), Some("m2"));
    assert_eq!(parse_args_str("--session-key").unwrap_err(), "missing value for --session-key");
    assert_eq!(parse_args_str("--session-key=").unwrap_err(), "missing value for --session-key");
    assert_eq!(parse_args_str("--bogus").unwrap_err(), "unknown argument: --bogus");
    assert_eq!(parse_args_str("").unwrap_err(), "missing required --session-key");
    let b = parse_args_str("--session-key a --session-key b --model x --model").unwrap_err();
    assert_eq!(b, "missing value for --model");
}

#[test]
fn escaped_command_reads_back_unchanged() {
    let cmd = "say \"hi\"\n\t\u{1}end\\ done";
    let chars: Vec<char> = cmd.chars().collect();
    let body: String = hermes_tui::rpc_json::json_escape_exec(&chars).into_iter().collect();
    let line = format!("{{\"id\": 7, \"command\": \"{}\"}}", body);
    let (id, got) = parse_request(&line).unwrap();
    assert_eq!(id, "7");
    assert_eq!(got, cmd);
}

#[test]
fn normalizing_and_stripping_twice_change_nothing_more() {
    for c in ["  help ", "/model x", "", "   ", "\tstatus\n"] {
        let once = normalize_command(c);
        assert_eq!(normalize_command(&once), once);
    }
    for t in ["\u{1b}[31mred\u{1b}[0m", "a\u{9b}1mb\u{1b}", "\u{1b}]0;t\u{7}x\u{85}y", "plain"] {
        let once = strip_ansi(t);
        assert_eq!(strip_ansi(&once), once);
    }
}
