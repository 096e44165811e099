//! Transport decisions: which write failures mean the peer is gone, the flush switch, the
//! framing of a line and the steps of a frame write.
use vstd::prelude::*;
use crate::text::{
    ascii_lower, ascii_lower_exec, chars_eq_str, ends_with, find, find_exec, own_str, opt_text,
    push_str, to_chars, trim, trim_exec, from_chars,
};

verus! {

/// Env var that disables flushing after each frame.
pub const ENV_NO_FLUSH: &'static str = "HERMES_TUI_GATEWAY_NO_FLUSH";

/// POSIX `EPIPE`.
pub const EPIPE: i32 = 32;
/// POSIX `EBADF`.
pub const EBADF: i32 = 9;
/// Linux `ECONNRESET`.
pub const ECONNRESET_LINUX: i32 = 104;
/// Linux `ESHUTDOWN`.
pub const ESHUTDOWN_LINUX: i32 = 108;
/// macOS `ECONNRESET`.
pub const ECONNRESET_MACOS: i32 = 54;
/// macOS `ESHUTDOWN`.
pub const ESHUTDOWN_MACOS: i32 = 58;
/// Windows `WSAECONNRESET`.
pub const WSAECONNRESET: i32 = 10054;
/// Windows `WSAESHUTDOWN`.
pub const WSAESHUTDOWN: i32 = 10058;

/// The errnos that mean the peer is gone, on every host.
pub const PEER_GONE_ERRNOS: [i32; 8] = [32, 9, 104, 108, 54, 58, 10054, 10058];

/// The same set under its second name.
pub const PEER_GONE_ERRNOS_ALL: [i32; 8] = [32, 9, 104, 108, 54, 58, 10054, 10058];

/// `errno` means the peer is gone.
pub open spec fn peer_gone(errno: int) -> bool {
    errno == EPIPE || errno == EBADF || errno == ECONNRESET_LINUX || errno == ESHUTDOWN_LINUX
        || errno == ECONNRESET_MACOS || errno == ESHUTDOWN_MACOS || errno == WSAECONNRESET
        || errno == WSAESHUTDOWN
}

pub fn is_peer_gone_errno(errno: i32) -> (r: bool)
    ensures
        r == peer_gone(errno as int),
{
    let mut i: usize = 0;
    let set = PEER_GONE_ERRNOS;
    while i < 8
        invariant
            i <= 8,
            set@ == seq![32i32, 9, 104, 108, 54, 58, 10054, 10058],
            forall|t: int| 0 <= t < i ==> set@[t] != errno,
        decreases 8 - i,
    {
        if set[i] == errno {
            return true;
        }
        i = i + 1;
    }
    assert(set@[0] != errno && set@[1] != errno && set@[2] != errno && set@[3] != errno);
    assert(set@[4] != errno && set@[5] != errno && set@[6] != errno && set@[7] != errno);
    false
}

/// A failure with this OS error code (if any) means the peer is gone.
pub open spec fn peer_gone_code(raw: Option<i32>) -> bool {
    match raw {
        Some(n) => peer_gone(n as int),
        None => false,
    }
}

pub fn peer_gone_os_error(raw_os_error: Option<i32>) -> (r: bool)
    ensures
        r == peer_gone_code(raw_os_error),
{
    match raw_os_error {
        Some(n) => is_peer_gone_errno(n),
        None => false,
    }
}

/// Whether a failed write or flush means the peer is gone: a broken pipe does; a message
/// about encoding (in any case) does not; a closed file does; otherwise the OS error code
/// decides.
pub open spec fn peer_gone_failure_spec(broken_pipe: bool, message: Seq<char>, raw: Option<i32>) -> bool {
    if broken_pipe {
        true
    } else if find(ascii_lower(message), "encode"@) is Some {
        false
    } else if find(message, "closed file"@) is Some {
        true
    } else {
        peer_gone_code(raw)
    }
}

pub fn peer_gone_failure(broken_pipe: bool, message: &str, raw_os_error: Option<i32>) -> (r: bool)
    ensures
        r == peer_gone_failure_spec(broken_pipe, message@, raw_os_error),
{
    if broken_pipe {
        return true;
    }
    let m = to_chars(message);
    let lower = ascii_lower_exec(m.as_slice());
    let enc = to_chars("encode");
    if find_exec(lower.as_slice(), enc.as_slice()).is_some() {
        return false;
    }
    let cf = to_chars("closed file");
    if find_exec(m.as_slice(), cf.as_slice()).is_some() {
        return true;
    }
    peer_gone_os_error(raw_os_error)
}

#[verifier::external_type_specification]
#[verifier::external_body]
pub struct ExIoError(std::io::Error);

/// The OS error code that `io::Error::raw_os_error` reports for an error value.
pub uninterp spec fn io_raw_os_of(err: std::io::Error) -> Option<i32>;

/// Whether `io::Error::kind` reports `BrokenPipe` for an error value.
pub uninterp spec fn io_broken_pipe_of(err: std::io::Error) -> bool;

/// `io::Error::raw_os_error`: the OS error code the error carries, if any. It reads the
/// error value alone, so its result is named by `io_raw_os_of`.
#[verifier::external_body]
fn io_error_raw_os(err: &std::io::Error) -> (r: Option<i32>)
    ensures
        r == io_raw_os_of(*err),
{
    err.raw_os_error()
}

/// Whether `io::Error::kind` is `BrokenPipe`. The kind is read from the error value alone,
/// so the result is named by `io_broken_pipe_of`.
#[verifier::external_body]
fn io_error_broken_pipe(err: &std::io::Error) -> (r: bool)
    ensures
        r == io_broken_pipe_of(*err),
{
    matches!(err.kind(), std::io::ErrorKind::BrokenPipe)
}

/// The error's message, as `Display` renders it.
#[verifier::external_body]
fn io_error_message(err: &std::io::Error) -> (r: String) {
    err.to_string()
}

/// Whether the OS error code of `err` means the peer is gone.
pub fn is_peer_gone_error(err: &std::io::Error) -> (r: bool)
    ensures
        r == peer_gone_code(io_raw_os_of(*err)),
{
    let raw = io_error_raw_os(err);
    peer_gone_os_error(raw)
}

/// Whether `err` means the peer is gone (see `peer_gone_failure`). The error's kind and OS
/// code are fixed by the error value; its message text depends on the OS locale, so the
/// contract holds for the message that was rendered, whatever it was.
pub fn is_peer_gone_io_error(err: &std::io::Error) -> (r: bool)
    ensures
        exists|msg: Seq<char>|
            r == #[trigger] peer_gone_failure_spec(io_broken_pipe_of(*err), msg, io_raw_os_of(*err)),
{
    let bp = io_error_broken_pipe(err);
    let msg = io_error_message(err);
    let raw = io_error_raw_os(err);
    peer_gone_failure(bp, msg.as_str(), raw)
}

/// The flush switch: `1`, `true`, `yes` or `on` after trimming and ASCII lower-casing.
pub open spec fn disable_flush_spec(raw: Option<Seq<char>>) -> bool {
    match raw {
        None => false,
        Some(s) => {
            let t = ascii_lower(trim(s));
            t == "1"@ || t == "true"@ || t == "yes"@ || t == "on"@
        },
    }
}

pub fn is_disable_flush_with(raw: Option<&str>) -> (r: bool)
    ensures
        r == disable_flush_spec(opt_text(raw)),
{
    match raw {
        None => false,
        Some(s) => {
            let v = to_chars(s);
            let t = trim_exec(v.as_slice());
            let l = ascii_lower_exec(t.as_slice());
            chars_eq_str(l.as_slice(), "1") || chars_eq_str(l.as_slice(), "true") || chars_eq_str(
                l.as_slice(),
                "yes",
            ) || chars_eq_str(l.as_slice(), "on")
        },
    }
}

/// A frame as written: the JSON text ending in exactly the newline it had, or one more.
pub open spec fn frame_line_spec(obj_json: Seq<char>) -> Seq<char> {
    if obj_json.len() > 0 && obj_json.last() == '\n' {
        obj_json
    } else {
        obj_json.push('\n')
    }
}

pub fn frame_line(obj_json: &str) -> (r: String)
    ensures
        r@ == frame_line_spec(obj_json@),
{
    let mut v = to_chars(obj_json);
    if v.len() > 0 && v[v.len() - 1] == '\n' {
        return from_chars(v.as_slice());
    }
    v.push('\n');
    from_chars(v.as_slice())
}

/// The next step of writing a frame to a stream.
#[derive(Debug, Clone, Copy, PartialEq, Eq)]
pub enum WriteStep {
    /// Flush the stream.
    Flush,
    /// Done: true when the frame went out, false when the peer is gone.
    Finished(bool),
    /// A real I/O failure: report it to the caller.
    Raise,
}

/// After writing the line: `failure` is none on success, else whether the failure means the
/// peer is gone.
pub fn after_write(failure: Option<bool>, disable_flush: bool) -> (r: WriteStep)
    ensures
        r == (match failure {
            Some(true) => WriteStep::Finished(false),
            Some(false) => WriteStep::Raise,
            None => if disable_flush {
                WriteStep::Finished(true)
            } else {
                WriteStep::Flush
            },
        }),
{
    match failure {
        Some(true) => WriteStep::Finished(false),
        Some(false) => WriteStep::Raise,
        None => if disable_flush {
            WriteStep::Finished(true)
        } else {
            WriteStep::Flush
        },
    }
}

/// After flushing: `failure` as for `after_write`.
pub fn after_flush(failure: Option<bool>) -> (r: WriteStep)
    ensures
        r == (match failure {
            Some(true) => WriteStep::Finished(false),
            Some(false) => WriteStep::Raise,
            None => WriteStep::Finished(true),
        }),
{
    match failure {
        Some(true) => WriteStep::Finished(false),
        Some(false) => WriteStep::Raise,
        None => WriteStep::Finished(true),
    }
}

/// What a frame write asks of the stream.
#[derive(Debug, Clone, Copy, PartialEq, Eq)]
pub enum StreamOp {
    /// Write the whole text given.
    Write,
    /// Flush the stream (the text given is empty).
    Flush,
}

/// What the failure `e` of a write or flush makes of a frame write, given the message the
/// error rendered: `Ok(false)` when it means the peer is gone, else the failure itself.
pub open spec fn failed_write_outcome(
    e: std::io::Error,
    message: Seq<char>,
    r: Result<bool, std::io::Error>,
) -> bool {
    if peer_gone_failure_spec(io_broken_pipe_of(e), message, io_raw_os_of(e)) {
        r == Ok::<bool, std::io::Error>(false)
    } else {
        r == Err::<bool, std::io::Error>(e)
    }
}

/// A failed write or flush ends a frame write with `Ok(false)` exactly when the failure means
/// the peer is gone (a broken pipe; else, unless the message speaks of encoding, a closed
/// file or one of the peer-gone error codes), and otherwise hands back that same failure.
pub proof fn lemma_failed_write_verdict(e: std::io::Error, message: Seq<char>, r: Result<bool, std::io::Error>)
    requires
        failed_write_outcome(e, message, r),
    ensures
        (r == Ok::<bool, std::io::Error>(false)) == peer_gone_failure_spec(
            io_broken_pipe_of(e),
            message,
            io_raw_os_of(e),
        ),
        r is Err ==> r == Err::<bool, std::io::Error>(e),
        io_broken_pipe_of(e) ==> r == Ok::<bool, std::io::Error>(false),
        !io_broken_pipe_of(e) && find(ascii_lower(message), "encode"@) is Some ==> r == Err::<
            bool,
            std::io::Error,
        >(e),
{
}

/// Writes one frame through `io`: the line (`obj_json` ended by one new line) is written
/// whole; a failure that means the peer is gone gives `Ok(false)` and any other is handed
/// back; after a write that went through, the stream is flushed unless `disable_flush`, a
/// failed flush counting as a failed write does, and the frame gives `Ok(true)`.
pub fn write_frame_with<W: FnMut(StreamOp, &str) -> Result<(), std::io::Error>>(
    obj_json: &str,
    disable_flush: bool,
    io: W,
) -> (r: Result<bool, std::io::Error>)
    requires
        forall|op: StreamOp, s: &str|
            (op == StreamOp::Write && s@ == frame_line_spec(obj_json@)) || (op == StreamOp::Flush
                && !disable_flush && s@.len() == 0) ==> #[trigger] call_requires(io, (op, s)),
    ensures
        exists|line: &str, w: Result<(), std::io::Error>|
            line@ == frame_line_spec(obj_json@) && #[trigger] call_ensures(io, (StreamOp::Write, line), w)
                && match w {
                Err(e) => exists|m: Seq<char>| #[trigger] failed_write_outcome(e, m, r),
                Ok(_) => if disable_flush {
                    r == Ok::<bool, std::io::Error>(true)
                } else {
                    exists|empty: &str, fl: Result<(), std::io::Error>|
                        empty@.len() == 0 && #[trigger] call_ensures(io, (StreamOp::Flush, empty), fl)
                            && match fl {
                            Err(e) => exists|m: Seq<char>| #[trigger] failed_write_outcome(e, m, r),
                            Ok(_) => r == Ok::<bool, std::io::Error>(true),
                        }
                },
            },
{
    let mut io = io;
    let ghost io0 = io;
    let line = frame_line(obj_json);
    let l = line.as_str();
    let w = io(StreamOp::Write, l);
    assert(call_ensures(io0, (StreamOp::Write, l), w));
    match w {
        Err(e) => {
            let gone = is_peer_gone_io_error(&e);
            let ghost ge = e;
            let ghost m = choose|m: Seq<char>|
                gone == #[trigger] peer_gone_failure_spec(io_broken_pipe_of(ge), m, io_raw_os_of(ge));
            let r = if gone {
                Ok(false)
            } else {
                Err(e)
            };
            assert(failed_write_outcome(ge, m, r));
            r
        },
        Ok(()) => {
            if disable_flush {
                return Ok(true);
            }
            let empty = "";
            proof {
                reveal_strlit("");
            }
            let fl = io(StreamOp::Flush, empty);
            assert(call_ensures(io0, (StreamOp::Flush, empty), fl));
            match fl {
                Err(e) => {
                    let gone = is_peer_gone_io_error(&e);
                    let ghost ge = e;
                    let ghost m = choose|m: Seq<char>|
                        gone == #[trigger] peer_gone_failure_spec(io_broken_pipe_of(ge), m, io_raw_os_of(ge));
                    let r = if gone {
                        Ok(false)
                    } else {
                        Err(e)
                    };
                    assert(failed_write_outcome(ge, m, r));
                    r
                },
                Ok(()) => Ok(true),
            }
        },
    }
}

} // verus!
