//! Recovery from a spurious end of input on stdin: a child that sets `O_NONBLOCK` on the
//! shared file description makes the next read look like an end of input. These are the
//! decisions and messages of the recovery; reading the descriptor's flags and the clock is
//! left to the caller.

use vstd::prelude::*;
use crate::rpc_json::{nat_decimal, nat_decimal_exec};
use crate::text::{from_chars, own_str, push_all, push_str};

verus! {

/// At most this many spurious-EOF recoveries in a 60-second window; one more ends the
/// process so that its parent respawns it.
pub const MAX_RECOVERIES_PER_MINUTE: usize = 10;

/// What is logged when the end of input is genuine.
pub const PEER_CLOSED_MESSAGE: &'static str = "stdin EOF (peer closed)";

/// The descriptor flags carry a non-blocking bit: the Linux one (2048) or the BSD one (4).
pub open spec fn nonblock_flag(flags: i32) -> bool {
    (flags & 2048i32) != 0 || (flags & 4i32) != 0
}

/// The diagnosis of stdin from the result of reading its flags and of reading its receive
/// timeout: `O_NONBLOCK=1` or `=0`, or the flags error; then the timeout where it was read.
pub open spec fn diagnosis(flags: Result<i32, String>, rcvtimeo: Result<String, String>) -> Seq<char> {
    (match flags {
        Ok(f) => "O_NONBLOCK="@ + (if nonblock_flag(f) {
            "1"@
        } else {
            "0"@
        }),
        Err(e) => "F_GETFL error: "@ + e@,
    }) + (match rcvtimeo {
        Ok(t) => ", SO_RCVTIMEO="@ + t@,
        Err(_) => Seq::empty(),
    })
}

/// The diagnosis for given results of reading the flags and the timeout.
pub fn diagnosis_text(flags: &Result<i32, String>, rcvtimeo: &Result<String, String>) -> (r: String)
    ensures
        r@ == diagnosis(*flags, *rcvtimeo),
{
    let mut out: Vec<char> = Vec::new();
    match flags {
        Ok(f) => {
            push_str(&mut out, "O_NONBLOCK=");
            if (*f & 2048i32) != 0 || (*f & 4i32) != 0 {
                push_str(&mut out, "1");
            } else {
                push_str(&mut out, "0");
            }
        },
        Err(e) => {
            push_str(&mut out, "F_GETFL error: ");
            push_str(&mut out, e.as_str());
        },
    }
    match rcvtimeo {
        Ok(t) => {
            push_str(&mut out, ", SO_RCVTIMEO=");
            push_str(&mut out, t.as_str());
        },
        Err(_) => {},
    }
    assert(out@ =~= diagnosis(*flags, *rcvtimeo));
    from_chars(out.as_slice())
}

/// The diagnosis of stdin with the flags and the timeout read by the given functions.
pub fn diagnose_stdin_state_with<F, S>(get_flags: F, get_rcvtimeo: S) -> (r: String)
    where
        F: FnMut() -> Result<i32, String>,
        S: FnMut() -> Result<String, String>,
    requires
        get_flags.requires(()),
        get_rcvtimeo.requires(()),
    ensures
        exists|f: Result<i32, String>, t: Result<String, String>|
            get_flags.ensures((), f) && get_rcvtimeo.ensures((), t) && r@ == diagnosis(f, t),
{
    let mut get_flags = get_flags;
    let mut get_rcvtimeo = get_rcvtimeo;
    let f = get_flags();
    let t = get_rcvtimeo();
    diagnosis_text(&f, &t)
}

/// The diagnosis where the platform has no `fcntl`.
pub fn diagnose_no_fcntl() -> (r: String)
    ensures
        r@ == "O_NONBLOCK=n/a (no fcntl)"@,
{
    own_str("O_NONBLOCK=n/a (no fcntl)")
}

/// An empty read is spurious only where the flags were read and carry a non-blocking bit;
/// a failed read of the flags counts as blocking.
pub fn eof_is_spurious(flags: &Result<i32, String>) -> (r: bool)
    ensures
        r == (match flags {
            Ok(f) => nonblock_flag(*f),
            Err(_) => false,
        }),
{
    match flags {
        Ok(f) => (*f & 2048i32) != 0 || (*f & 4i32) != 0,
        Err(_) => false,
    }
}

/// Whether `count` recoveries within the window exceed the cap.
pub fn recovery_rate_exceeded(count: usize) -> (r: bool)
    ensures
        r == (count > MAX_RECOVERIES_PER_MINUTE),
{
    count > MAX_RECOVERIES_PER_MINUTE
}

/// The message logged when recoveries come too often.
pub open spec fn rate_exceeded_text(count: nat) -> Seq<char> {
    "stdin spurious-EOF recovery rate exceeded ("@ + nat_decimal(count) + "/min, cap "@
        + nat_decimal(MAX_RECOVERIES_PER_MINUTE as nat) + ")"@
}

/// The message logged when `count` recoveries within the window exceed the cap.
pub fn rate_exceeded_message(count: usize) -> (r: String)
    ensures
        r@ == rate_exceeded_text(count as nat),
{
    let mut out: Vec<char> = Vec::new();
    push_str(&mut out, "stdin spurious-EOF recovery rate exceeded (");
    let d = nat_decimal_exec(count as u64);
    push_all(&mut out, d.as_slice());
    push_str(&mut out, "/min, cap ");
    let c = nat_decimal_exec(MAX_RECOVERIES_PER_MINUTE as u64);
    push_all(&mut out, c.as_slice());
    push_str(&mut out, ")");
    assert(out@ =~= rate_exceeded_text(count as nat));
    from_chars(out.as_slice())
}

/// The message logged when a spurious end of input is recovered, with the diagnosis.
pub fn recovering_message(diag: &str) -> (r: String)
    ensures
        r@ == "stdin spurious EOF (subprocess O_NONBLOCK flip), recovering: "@ + diag@,
{
    let mut out: Vec<char> = Vec::new();
    push_str(&mut out, "stdin spurious EOF (subprocess O_NONBLOCK flip), recovering: ");
    push_str(&mut out, diag);
    from_chars(out.as_slice())
}


/// The recovery times, in milliseconds, that fall within the minute ending at `now`.
pub open spec fn in_window(ts: Seq<i64>, now: int) -> Seq<i64>
    decreases ts.len(),
{
    if ts.len() == 0 {
        ts
    } else {
        let rest = in_window(ts.drop_last(), now);
        if ts.last() > now - 60_000 {
            rest.push(ts.last())
        } else {
            rest
        }
    }
}

/// The read of the flags marks the end of input as spurious.
pub open spec fn spurious(flags: Result<i32, String>) -> bool {
    match flags {
        Ok(f) => nonblock_flag(f),
        Err(_) => false,
    }
}

/// Handles an empty read of stdin. When the flags `get_flags` reads carry no non-blocking
/// bit (or cannot be read) the end of input is genuine: it is logged and `false` returned,
/// the recovery times untouched. Otherwise the time `now_ms` gives joins the recovery times,
/// which keep only those within the last minute; past the cap the excess is logged and
/// `false` returned; else the recovery is logged with `diagnose`'s diagnosis, stdin is made
/// blocking and its receive timeout cleared (failures of either ignored), and `true` says
/// to keep reading.
/// A line the recovery logs: the peer-closed message, the rate-exceeded message for some
/// count, or the recovering message with some diagnosis.
pub open spec fn recovery_log_line(m: Seq<char>) -> bool {
    ||| m == PEER_CLOSED_MESSAGE@
    ||| exists|k: nat| m == #[trigger] rate_exceeded_text(k)
    ||| exists|d: Seq<char>| m == "stdin spurious EOF (subprocess O_NONBLOCK flip), recovering: "@ + d
}

pub fn handle_spurious_eof_with<
    F: FnMut(&str),
    G: FnMut() -> Result<i32, String>,
    N: FnMut() -> i64,
    S: FnMut() -> Result<(), String>,
    C: FnMut() -> Result<(), String>,
    D: FnMut() -> String,
>(
    recovery_times: &mut Vec<i64>,
    log_fn: &mut F,
    mut get_flags: G,
    mut now_ms: N,
    mut set_blocking: S,
    mut clear_timeout: C,
    mut diagnose: D,
) -> (r: bool)
    requires
        forall|m: &str| recovery_log_line(m@) ==> #[trigger] call_requires(*old(log_fn), (m,)),
        call_requires(get_flags, ()),
        call_requires(now_ms, ()),
        call_requires(set_blocking, ()),
        call_requires(clear_timeout, ()),
        call_requires(diagnose, ()),
    ensures
        exists|fl: Result<i32, String>|
            #[trigger] call_ensures(get_flags, (), fl) && (!spurious(fl) ==> !r && final(recovery_times)@
                == old(recovery_times)@ && exists|m: &str|
                m@ == PEER_CLOSED_MESSAGE@ && #[trigger] call_ensures(*old(log_fn), (m,), ())) && (spurious(fl) ==> exists|n: i64|
                #[trigger] call_ensures(now_ms, (), n) && final(recovery_times)@ == in_window(
                    old(recovery_times)@.push(n),
                    n as int,
                ) && r == (final(recovery_times)@.len() <= MAX_RECOVERIES_PER_MINUTE) && (!r
                ==> exists|m: &str|
                m@ == rate_exceeded_text(final(recovery_times)@.len()) && #[trigger] call_ensures(
                    *old(log_fn),
                    (m,),
                    (),
                )) && (r ==> exists|d: String, m: &str|
                #[trigger] call_ensures(diagnose, (), d) && m@ == "stdin spurious EOF (subprocess O_NONBLOCK flip), recovering: "@
                    + d@ && #[trigger] call_ensures(*old(log_fn), (m,), ())) && (r ==> exists|a: Result<
                (),
                String,
            >, b: Result<(), String>|
                #[trigger] call_ensures(set_blocking, (), a) && #[trigger] call_ensures(clear_timeout, (), b))),
{
    let fl = get_flags();
    assert(call_ensures(get_flags, (), fl));
    if !eof_is_spurious(&fl) {
        log_fn(PEER_CLOSED_MESSAGE);
        return false;
    }
    let now = now_ms();
    assert(call_ensures(now_ms, (), now));
    recovery_times.push(now);
    let ghost all = recovery_times@;
    let mut kept: Vec<i64> = Vec::new();
    let n = recovery_times.len();
    let mut i: usize = 0;
    while i < n
        invariant
            n == all.len(),
            recovery_times@ == all,
            i <= n,
            kept@ == in_window(all.take(i as int), now as int),
        decreases n - i,
    {
        proof {
            assert(all.take(i as int + 1).drop_last() =~= all.take(i as int));
            assert(all.take(i as int + 1).last() == all[i as int]);
        }
        let t = recovery_times[i];
        if (t as i128) > (now as i128) - 60_000 {
            kept.push(t);
        }
        i = i + 1;
    }
    assert(all.take(n as int) =~= all);
    *recovery_times = kept;
    let count = recovery_times.len();
    if recovery_rate_exceeded(count) {
        let msg = rate_exceeded_message(count);
        assert(recovery_log_line(msg@));
        log_fn(msg.as_str());
        return false;
    }
    let diag = diagnose();
    let msg = recovering_message(diag.as_str());
    assert(recovery_log_line(msg@));
    log_fn(msg.as_str());
    let _ = set_blocking();
    let _ = clear_timeout();
    true
}

/// Handles an empty read where the platform has no `fcntl`: the end of input is genuine.
pub fn handle_spurious_eof_no_fcntl<F: FnMut(&str)>(recovery_times: &mut Vec<i64>, mut log_fn: F) -> (r: bool)
    requires
        forall|m: &str| m@ == PEER_CLOSED_MESSAGE@ ==> #[trigger] call_requires(log_fn, (m,)),
    ensures
        !r,
        final(recovery_times)@ == old(recovery_times)@,
        exists|m: &str| m@ == PEER_CLOSED_MESSAGE@ && #[trigger] call_ensures(log_fn, (m,), ()),
{
    log_fn(PEER_CLOSED_MESSAGE);
    false
}

} // verus!
