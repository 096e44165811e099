use hermes_tui::stdin_recovery::{
    diagnose_no_fcntl, diagnose_stdin_state_with, diagnosis_text, eof_is_spurious,
    handle_spurious_eof_no_fcntl, handle_spurious_eof_with,
    rate_exceeded_message, recovering_message, recovery_rate_exceeded,
    MAX_RECOVERIES_PER_MINUTE, PEER_CLOSED_MESSAGE,
};

#[test]
fn max_recoveries_is_10() {
    assert_eq!(MAX_RECOVERIES_PER_MINUTE, 10);
}

#[test]
fn diagnose_no_fcntl_branch() {
    assert_eq!(diagnose_no_fcntl(), "O_NONBLOCK=n/a (no fcntl)");
    let s = diagnose_stdin_state_with(
        || Err("no fcntl".to_string()),
        || Err("no socket".to_string()),
    );
    assert!(s.contains("F_GETFL error"));
}

#[test]
fn diagnose_with_injectable_nonblock_and_rcvtimeo() {
    let s = diagnose_stdin_state_with(
        || Ok(2048),
        || Ok("Timeval(tv_sec=0, tv_usec=0)".to_string()),
    );
    assert_eq!(s, "O_NONBLOCK=1, SO_RCVTIMEO=Timeval(tv_sec=0, tv_usec=0)");
}

#[test]
fn diagnose_with_injectable_blocking_no_rcvtimeo() {
    let s = diagnose_stdin_state_with(|| Ok(0), || Err("fail".to_string()));
    assert_eq!(s, "O_NONBLOCK=0");
}

#[test]
fn diagnose_with_error_and_rcvtimeo() {
    let s = diagnose_stdin_state_with(
        || Err("boom".to_string()),
        || Ok("b'\\x00'".to_string()),
    );
    assert!(s.contains("F_GETFL error: boom"));
    assert!(s.contains("SO_RCVTIMEO"));
}

#[test]
fn diagnosis_text_exact_forms() {
    assert_eq!(diagnosis_text(&Ok(4), &Err(String::new())), "O_NONBLOCK=1");
    assert_eq!(diagnosis_text(&Ok(2048 | 2), &Ok("x".to_string())), "O_NONBLOCK=1, SO_RCVTIMEO=x");
    assert_eq!(diagnosis_text(&Ok(1), &Err(String::new())), "O_NONBLOCK=0");
    assert_eq!(diagnosis_text(&Err("bad fd".to_string()), &Err(String::new())), "F_GETFL error: bad fd");
}

#[test]
fn spurious_only_with_nonblock_bit() {
    assert!(eof_is_spurious(&Ok(2048)));
    assert!(eof_is_spurious(&Ok(0x0004)));
    assert!(!eof_is_spurious(&Ok(0)));
    assert!(!eof_is_spurious(&Err("bad fd".to_string())));
}

#[test]
fn rate_limit_messages() {
    assert!(!recovery_rate_exceeded(10));
    assert!(recovery_rate_exceeded(11));
    assert_eq!(rate_exceeded_message(11), "stdin spurious-EOF recovery rate exceeded (11/min, cap 10)");
    assert_eq!(
        recovering_message("diag"),
        "stdin spurious EOF (subprocess O_NONBLOCK flip), recovering: diag"
    );
    assert_eq!(PEER_CLOSED_MESSAGE, "stdin EOF (peer closed)");
}

/// A clock that always reads `v` milliseconds.
fn now_fixed(v: i64) -> impl FnMut() -> i64 {
    move || v
}

#[test]
fn handle_no_fcntl_is_genuine_eof() {
    let mut times: Vec<i64> = vec![];
    let mut logs: Vec<String> = vec![];
    let res = handle_spurious_eof_no_fcntl(&mut times, |m: &str| logs.push(m.to_string()));
    assert!(!res);
    assert!(times.is_empty());
    assert_eq!(logs, vec!["stdin EOF (peer closed)"]);
}

#[test]
fn handle_genuine_eof_when_not_nonblock() {
    let mut times: Vec<i64> = vec![];
    let mut logs: Vec<String> = vec![];
    let res = handle_spurious_eof_with(
        &mut times,
        &mut |m: &str| logs.push(m.to_string()),
        || Ok(0),
        now_fixed(1_000_000),
        || Ok(()),
        || Ok(()),
        || "O_NONBLOCK=0".to_string(),
    );
    assert!(!res);
    assert!(times.is_empty(), "genuine EOF must not push recovery_times");
    assert_eq!(logs, vec!["stdin EOF (peer closed)"]);
}

#[test]
fn handle_genuine_eof_when_fcntl_errors() {
    let mut times: Vec<i64> = vec![];
    let mut logs: Vec<String> = vec![];
    let res = handle_spurious_eof_with(
        &mut times,
        &mut |m: &str| logs.push(m.to_string()),
        || Err("bad fd".to_string()),
        now_fixed(1_000_000),
        || Ok(()),
        || Ok(()),
        || "unknown".to_string(),
    );
    assert!(!res);
    assert_eq!(logs, vec!["stdin EOF (peer closed)"]);
}

#[test]
fn handle_spurious_recovers_and_clears() {
    let mut times: Vec<i64> = vec![];
    let mut logs: Vec<String> = vec![];
    let mut blocking_called = false;
    let mut timeout_cleared = false;
    let res = handle_spurious_eof_with(
        &mut times,
        &mut |m: &str| logs.push(m.to_string()),
        || Ok(2048),
        now_fixed(1_000_000),
        || {
            blocking_called = true;
            Ok(())
        },
        || {
            timeout_cleared = true;
            Ok(())
        },
        || "O_NONBLOCK=1, SO_RCVTIMEO=Timeval(tv_sec=0, tv_usec=0)".to_string(),
    );
    assert!(res);
    assert_eq!(times.len(), 1);
    assert_eq!(times[0], 1_000_000);
    assert!(logs[0].contains("stdin spurious EOF (subprocess O_NONBLOCK flip), recovering:"));
    assert!(logs[0].contains("O_NONBLOCK=1"));
    assert!(blocking_called);
    assert!(timeout_cleared);
}

#[test]
fn handle_spurious_rate_limit() {
    let mut times: Vec<i64> = vec![];
    let mut logs: Vec<String> = vec![];
    for i in 0..10 {
        times.push(950_000 + i * 1_000);
    }
    let res = handle_spurious_eof_with(
        &mut times,
        &mut |m: &str| logs.push(m.to_string()),
        || Ok(2048),
        now_fixed(1_000_000),
        || Ok(()),
        || Ok(()),
        || "diag".to_string(),
    );
    assert!(!res);
    assert_eq!(times.len(), 11);
    assert!(logs[0].contains("stdin spurious-EOF recovery rate exceeded (11/min, cap 10)"));
}

#[test]
fn handle_spurious_sliding_window_prunes_old() {
    let mut times: Vec<i64> = vec![800_000, 850_000, 900_000];
    let mut logs: Vec<String> = vec![];
    let res = handle_spurious_eof_with(
        &mut times,
        &mut |m: &str| logs.push(m.to_string()),
        || Ok(2048),
        now_fixed(1_000_000),
        || Ok(()),
        || Ok(()),
        || "diag".to_string(),
    );
    assert!(res);
    assert_eq!(times, vec![1_000_000]);
}

#[test]
fn handle_spurious_ignores_blocking_and_timeout_errors() {
    let mut times: Vec<i64> = vec![];
    let mut logs: Vec<String> = vec![];
    let res = handle_spurious_eof_with(
        &mut times,
        &mut |m: &str| logs.push(m.to_string()),
        || Ok(2048),
        now_fixed(1_000_000),
        || Err("blocking fail".to_string()),
        || Err("timeout fail".to_string()),
        || "diag".to_string(),
    );
    assert!(res, "recovery succeeds even if cleanup fails");
    assert_eq!(logs.len(), 1);
}

#[test]
fn handle_spurious_darwin_nonblock_bit() {
    let mut times: Vec<i64> = vec![];
    let mut logs: Vec<String> = vec![];
    let res = handle_spurious_eof_with(
        &mut times,
        &mut |m: &str| logs.push(m.to_string()),
        || Ok(0x0004),
        now_fixed(1_000_000),
        || Ok(()),
        || Ok(()),
        || "diag".to_string(),
    );
    assert!(res);
    assert!(logs[0].contains("recovering"));
}

#[test]
fn window_keeps_times_strictly_inside_the_minute() {
    let mut times: Vec<i64> = vec![940_000, 940_001, 999_999];
    let mut logs: Vec<String> = vec![];
    let res = handle_spurious_eof_with(
        &mut times,
        &mut |m: &str| logs.push(m.to_string()),
        || Ok(2048),
        now_fixed(1_000_000),
        || Ok(()),
        || Ok(()),
        || "diag".to_string(),
    );
    assert!(res);
    assert_eq!(times, vec![940_001, 999_999, 1_000_000]);
    assert_eq!(logs, vec!["stdin spurious EOF (subprocess O_NONBLOCK flip), recovering: diag".to_string()]);
}
