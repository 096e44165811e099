use hermes_tui::transport::{
    after_flush, after_write, frame_line, is_disable_flush_with, is_peer_gone_errno,
    is_peer_gone_error, is_peer_gone_io_error, peer_gone_failure, peer_gone_os_error, WriteStep,
    EBADF, ECONNRESET_LINUX, ECONNRESET_MACOS, EPIPE, ESHUTDOWN_LINUX, ESHUTDOWN_MACOS,
    PEER_GONE_ERRNOS, PEER_GONE_ERRNOS_ALL, WSAECONNRESET, WSAESHUTDOWN, write_frame_with, StreamOp,
};
use std::io;

#[test]
fn peer_gone_errnos_contains_expected() {
    assert!(is_peer_gone_errno(EPIPE));
    assert!(is_peer_gone_errno(EBADF));
    assert!(is_peer_gone_errno(ECONNRESET_LINUX));
    assert!(is_peer_gone_errno(ESHUTDOWN_LINUX));
    assert!(is_peer_gone_errno(ECONNRESET_MACOS));
    assert!(is_peer_gone_errno(ESHUTDOWN_MACOS));
    assert!(is_peer_gone_errno(WSAECONNRESET));
    assert!(is_peer_gone_errno(WSAESHUTDOWN));
    assert!(!is_peer_gone_errno(28));
    assert!(!is_peer_gone_errno(13));
    assert!(!is_peer_gone_errno(-1));
}

#[test]
fn is_peer_gone_error_uses_raw_os_error() {
    let e = io::Error::from_raw_os_error(EPIPE);
    assert!(is_peer_gone_error(&e));
    let e2 = io::Error::from_raw_os_error(28);
    assert!(!is_peer_gone_error(&e2));
    let e3 = io::Error::new(io::ErrorKind::Other, "no errno");
    assert!(!is_peer_gone_error(&e3));
}

#[test]
fn is_peer_gone_io_error_classification() {
    let e = io::Error::new(io::ErrorKind::BrokenPipe, "broken pipe");
    assert!(is_peer_gone_io_error(&e));
    let e2 = io::Error::new(io::ErrorKind::Other, "I/O operation on closed file");
    assert!(is_peer_gone_io_error(&e2));
    let e3 = io::Error::new(io::ErrorKind::Other, "closed file but encode error");
    assert!(!is_peer_gone_io_error(&e3));
    let e4 = io::Error::new(io::ErrorKind::Other, "encode boom");
    assert!(!is_peer_gone_io_error(&e4));
    let e5 = io::Error::from_raw_os_error(EPIPE);
    assert!(is_peer_gone_io_error(&e5));
    let e6 = io::Error::from_raw_os_error(28);
    assert!(!is_peer_gone_io_error(&e6));
    let e7 = io::Error::new(io::ErrorKind::Other, "something else");
    assert!(!is_peer_gone_io_error(&e7));
}

#[test]
fn disable_flush_parsing() {
    assert!(!is_disable_flush_with(None));
    assert!(!is_disable_flush_with(Some("")));
    assert!(!is_disable_flush_with(Some("   ")));
    assert!(is_disable_flush_with(Some("1")));
    assert!(is_disable_flush_with(Some("true")));
    assert!(is_disable_flush_with(Some("True")));
    assert!(is_disable_flush_with(Some("TRUE")));
    assert!(is_disable_flush_with(Some("yes")));
    assert!(is_disable_flush_with(Some("YES")));
    assert!(is_disable_flush_with(Some("on")));
    assert!(is_disable_flush_with(Some("ON")));
    assert!(is_disable_flush_with(Some("  yes  ")));
    assert!(!is_disable_flush_with(Some("0")));
    assert!(!is_disable_flush_with(Some("false")));
    assert!(!is_disable_flush_with(Some("no")));
    assert!(!is_disable_flush_with(Some("off")));
    assert!(!is_disable_flush_with(Some("2")));
}

// ---------------------------------------------------------------------------
// Further cases
// ---------------------------------------------------------------------------

#[test]
fn failure_classification_order() {
    assert!(peer_gone_failure(true, "ENCODE", Some(28)));
    assert!(!peer_gone_failure(false, "Closed File: ENCODE", Some(EPIPE)));
    assert!(peer_gone_failure(false, "closed file", None));
    assert!(!peer_gone_failure(false, "Closed File", None));
    assert!(peer_gone_failure(false, "", Some(10058)));
    assert!(!peer_gone_os_error(None));
    assert_eq!(PEER_GONE_ERRNOS, PEER_GONE_ERRNOS_ALL);
}

#[test]
fn frames_and_steps() {
    assert_eq!(frame_line("{}"), "{}\n");
    assert_eq!(frame_line("{}\n"), "{}\n");
    assert_eq!(frame_line(""), "\n");
    assert_eq!(after_write(None, false), WriteStep::Flush);
    assert_eq!(after_write(None, true), WriteStep::Finished(true));
    assert_eq!(after_write(Some(true), false), WriteStep::Finished(false));
    assert_eq!(after_write(Some(false), true), WriteStep::Raise);
    assert_eq!(after_flush(None), WriteStep::Finished(true));
    assert_eq!(after_flush(Some(true)), WriteStep::Finished(false));
    assert_eq!(after_flush(Some(false)), WriteStep::Raise);
}

/// Writes `obj` through a stream that fails its write with `write_fail` and its flush with
/// `flush_fail`; gives the outcome, what was written, and whether a flush was asked for.
fn run_write(
    obj: &str,
    disable_flush: bool,
    write_fail: Option<io::Error>,
    flush_fail: Option<io::Error>,
) -> (io::Result<bool>, String, bool) {
    let mut written = String::new();
    let mut flushed = false;
    let mut write_fail = write_fail;
    let mut flush_fail = flush_fail;
    let r = write_frame_with(obj, disable_flush, |op: StreamOp, t: &str| match op {
        StreamOp::Write => match write_fail.take() {
            Some(e) => Err(e),
            None => {
                written.push_str(t);
                Ok(())
            },
        },
        StreamOp::Flush => {
            flushed = true;
            match flush_fail.take() {
                Some(e) => Err(e),
                None => Ok(()),
            }
        },
    });
    (r, written, flushed)
}

fn broken_pipe() -> io::Error {
    io::Error::new(io::ErrorKind::BrokenPipe, "broken pipe")
}

#[test]
fn stdio_write_success_appends_newline_and_flushes() {
    let (r, data, flushed) = run_write(r#"{"a":1}"#, false, None, None);
    assert!(r.unwrap());
    assert_eq!(data, "{\"a\":1}\n");
    assert!(flushed);
    // already-newline input should not double
    let (r2, data2, _) = run_write("{\"b\":2}\n", false, None, None);
    assert!(r2.unwrap());
    assert!(data2.ends_with("{\"b\":2}\n"));
    assert_eq!(data2, "{\"b\":2}\n");
}

#[test]
fn stdio_write_peer_gone_broken_pipe() {
    let (r, _, flushed) = run_write(r#"{"x":1}"#, false, Some(broken_pipe()), None);
    assert!(!r.unwrap(), "BrokenPipe should return false");
    assert!(!flushed, "flush should not be called after write failure");
}

#[test]
fn stdio_write_peer_gone_closed_file() {
    let e = io::Error::new(io::ErrorKind::Other, "I/O operation on closed file");
    let (r, _, _) = run_write(r#"{"x":1}"#, false, Some(e), None);
    assert!(!r.unwrap());
}

#[test]
fn stdio_write_peer_gone_errno() {
    for errno in [EPIPE, EBADF, ECONNRESET_LINUX, ESHUTDOWN_LINUX, WSAECONNRESET] {
        let (r, _, _) = run_write(r#"{"x":1}"#, false, Some(io::Error::from_raw_os_error(errno)), None);
        assert!(!r.unwrap(), "errno {} should be peer gone", errno);
    }
}

#[test]
fn stdio_write_non_peer_gone_is_err() {
    // ENOSPC
    let (r, _, _) = run_write(r#"{"x":1}"#, false, Some(io::Error::from_raw_os_error(28)), None);
    assert!(r.is_err(), "ENOSPC should be Err (re-raise)");
}

#[test]
fn stdio_write_encode_error_is_err_not_peer_gone() {
    let e = io::Error::new(io::ErrorKind::Other, "encode error: 'utf-8' codec can't encode");
    let (r, _, _) = run_write(r#"{"x":1}"#, false, Some(e), None);
    assert!(r.is_err(), "encode error should re-raise");
}

#[test]
fn stdio_flush_peer_gone_returns_false() {
    let (r, _, flushed) = run_write(r#"{"x":1}"#, false, None, Some(broken_pipe()));
    assert!(!r.unwrap());
    assert!(flushed);
}

#[test]
fn stdio_flush_non_peer_gone_is_err() {
    let (r, _, _) = run_write(r#"{"x":1}"#, false, None, Some(io::Error::from_raw_os_error(28)));
    assert!(r.is_err());
}

#[test]
fn stdio_flush_disabled_skips_flush() {
    // flush would fail with BrokenPipe, but flushing is disabled so the write succeeds
    let (r, data, flushed) = run_write(r#"{"x":1}"#, true, None, Some(broken_pipe()));
    assert!(r.unwrap(), "disable_flush should skip flush failure");
    assert!(!flushed, "flush should not be called when disabled");
    assert_eq!(data, "{\"x\":1}\n");
}
