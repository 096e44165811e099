//! Slash-command worker: request parsing, command normalisation, ANSI stripping, response
//! framing and argument handling.
use std::sync::atomic::AtomicBool;
use vstd::prelude::*;
use crate::number::{float_syntax, float_syntax_chars, parses_i64, parse_i64_chars};
use crate::project_tree::{string_views, to_strings};
use crate::rpc_json::{digit_char, escape_char, hex_lower, json_escape, json_escape_exec};
use crate::text::{
    ascii_lower, ascii_lower_exec, char_views, chars_eq, chars_eq_str, find, find_exec, find_class_exec,
    find_class_from, from_chars, opt_string, opt_text, own_str, push_all, push_str, skip_back,
    skip_back_exec, skip_fwd, skip_fwd_exec, slice_vec, starts_with, starts_with_str, to_chars,
    trim, trim_end, trim_exec, trim_start, trim_start_k, in_class, lemma_skip_back_bounds,
    lemma_skip_fwd_bounds, CharClass,
};

verus! {

/// Env var for the watchdog poll interval.
pub const ENV_WATCHDOG_POLL: &'static str = "HERMES_SLASH_WATCHDOG_POLL_S";

/// Env var for the orphan grace window.
pub const ENV_ORPHAN_GRACE: &'static str = "HERMES_SLASH_WATCHDOG_GRACE_S";

/// Name of the watchdog thread.
pub const WATCHDOG_THREAD_NAME: &'static str = "hermes-slash-watchdog";

// ---------------------------------------------------------------------------
// Orphan check and runtime preparation
// ---------------------------------------------------------------------------

/// Raises the in-flight flag.
pub fn in_flight_set(flag: &AtomicBool) {
    flag.store(true, std::sync::atomic::Ordering::SeqCst);
}

/// Lowers the in-flight flag.
pub fn in_flight_clear(flag: &AtomicBool) {
    flag.store(false, std::sync::atomic::Ordering::SeqCst);
}

/// Whether the in-flight flag is raised; another thread may change it at any time.
pub fn in_flight_is_set(flag: &AtomicBool) -> bool {
    flag.load(std::sync::atomic::Ordering::SeqCst)
}

/// Orphaned when the parent pid `getppid` reports is no longer the original one.
pub fn is_orphaned_with<F: Fn() -> i32>(original_ppid: i32, getppid: F) -> (r: bool)
    requires
        getppid.requires(()),
    ensures
        exists|p: i32| #[trigger] getppid.ensures((), p) && r == (p != original_ppid),
{
    let p = getppid();
    p != original_ppid
}

/// Starts, then waits for, the worker's tool discovery.
pub fn prepare_slash_worker_runtime_with<S: FnMut(), W: FnMut()>(start: S, wait: W)
    requires
        start.requires(()),
        wait.requires(()),
    ensures
        call_ensures(start, (), ()),
        call_ensures(wait, (), ()),
{
    let mut start = start;
    let mut wait = wait;
    start();
    wait();
}

/// The worker needs no runtime preparation of its own.
pub fn prepare_slash_worker_runtime() {
}

// ---------------------------------------------------------------------------
// Command normalisation
// ---------------------------------------------------------------------------

/// The trimmed command with a leading `/` (empty stays empty).
pub open spec fn normalized(command: Seq<char>) -> Seq<char> {
    let c = trim(command);
    if c.len() == 0 {
        Seq::empty()
    } else if c[0] == '/' {
        c
    } else {
        seq!['/'] + c
    }
}

/// Trimmed text that is not empty starts and ends with a character that is not white space.
proof fn lemma_trim_ends(s: Seq<char>)
    ensures
        trim(s).len() > 0 ==> !in_class(trim(s)[0], CharClass::Space) && !in_class(
            trim(s).last(),
            CharClass::Space,
        ),
{
    let n = s.len() as int;
    lemma_skip_fwd_bounds(s, 0, CharClass::Space);
    let a = skip_fwd(s, 0, CharClass::Space);
    let u = s.subrange(a, n);
    lemma_skip_back_bounds(u, u.len() as int, CharClass::Space);
    let b = skip_back(u, u.len() as int, CharClass::Space);
    if b > 0 {
        assert(trim(s) == u.subrange(0, b));
        assert(trim(s)[0] == s[a]);
        assert(trim(s).last() == u[b - 1]);
    }
}

/// Text that starts and ends with a character that is not white space is its own trim.
proof fn lemma_trim_fixed(t: Seq<char>)
    requires
        t.len() > 0,
        !in_class(t[0], CharClass::Space),
        !in_class(t.last(), CharClass::Space),
    ensures
        trim(t) == t,
{
    let n = t.len() as int;
    assert(skip_fwd(t, 0, CharClass::Space) == 0);
    assert(t.subrange(0, n) =~= t);
    assert(trim_start_k(t, CharClass::Space) == t);
    assert(skip_back(t, n, CharClass::Space) == n);
}

/// Normalising is idempotent: a normalised command normalises to itself.
pub proof fn lemma_normalize_idempotent(command: Seq<char>)
    ensures
        normalized(normalized(command)) == normalized(command),
{
    let c = trim(command);
    lemma_trim_ends(command);
    if c.len() == 0 {
        assert(trim(Seq::<char>::empty()) =~= Seq::<char>::empty());
    } else if c[0] == '/' {
        lemma_trim_fixed(c);
    } else {
        let n = seq!['/'] + c;
        assert(n[0] == '/');
        assert(n.last() == c.last());
        assert(!in_class('/', CharClass::Space));
        lemma_trim_fixed(n);
    }
}

fn normalize_chars(command: &str) -> (r: Vec<char>)
    ensures
        r@ == normalized(command@),
{
    let v = to_chars(command);
    let c = trim_exec(v.as_slice());
    if c.len() == 0 {
        return c;
    }
    if c[0] == '/' {
        c
    } else {
        let mut out: Vec<char> = Vec::new();
        out.push('/');
        push_all(&mut out, c.as_slice());
        assert(out@ =~= seq!['/'] + c@);
        out
    }
}

pub fn normalize_command(command: &str) -> (r: String)
    ensures
        r@ == normalized(command@),
{
    from_chars(normalize_chars(command).as_slice())
}

// ---------------------------------------------------------------------------
// ANSI escape stripping
// ---------------------------------------------------------------------------

/// The first index at or after `j` whose character is outside `lo..=hi`.
pub open spec fn skip_in(s: Seq<char>, j: int, lo: char, hi: char) -> int
    decreases s.len() - j,
{
    if 0 <= j < s.len() && lo <= s[j] && s[j] <= hi {
        skip_in(s, j + 1, lo, hi)
    } else {
        j
    }
}

pub proof fn lemma_skip_in(s: Seq<char>, j: int, lo: char, hi: char)
    requires
        0 <= j <= s.len(),
    ensures
        j <= skip_in(s, j, lo, hi) <= s.len(),
    decreases s.len() - j,
{
    if j < s.len() && lo <= s[j] && s[j] <= hi {
        lemma_skip_in(s, j + 1, lo, hi);
    }
}

/// End (just past the terminator) of an OSC body starting at `j`: the first BEL, or the
/// first ESC `\`.
pub open spec fn osc_end(s: Seq<char>, j: int) -> Option<int>
    decreases s.len() - j,
{
    if j < 0 || j >= s.len() {
        None
    } else if s[j] == '\u{7}' {
        Some(j + 1)
    } else if s[j] == '\u{1b}' && j + 1 < s.len() && s[j + 1] == '\\' {
        Some(j + 2)
    } else {
        osc_end(s, j + 1)
    }
}

/// End (just past the ST) of a string body starting at `j`: the first ESC `\`.
pub open spec fn st_end(s: Seq<char>, j: int) -> Option<int>
    decreases s.len() - j,
{
    if j < 0 || j + 1 >= s.len() {
        None
    } else if s[j] == '\u{1b}' && s[j + 1] == '\\' {
        Some(j + 2)
    } else {
        st_end(s, j + 1)
    }
}

/// End (just past the terminator) of an 8-bit OSC body starting at `j`: the first BEL or ST
/// (U+009C).
pub open spec fn c1_osc_end(s: Seq<char>, j: int) -> Option<int>
    decreases s.len() - j,
{
    if j < 0 || j >= s.len() {
        None
    } else if s[j] == '\u{7}' || s[j] == '\u{9c}' {
        Some(j + 1)
    } else {
        c1_osc_end(s, j + 1)
    }
}

pub proof fn lemma_ends(s: Seq<char>, j: int)
    requires
        0 <= j,
    ensures
        osc_end(s, j) matches Some(k) ==> j < k <= s.len(),
        st_end(s, j) matches Some(k) ==> j < k <= s.len(),
        c1_osc_end(s, j) matches Some(k) ==> j < k <= s.len(),
    decreases s.len() - j,
{
    if j < s.len() {
        lemma_ends(s, j + 1);
    }
}

/// Where the control sequence introduced by a CSI ending its introducer at `j` ends:
/// parameters `0`–`?`, intermediates ` `–`/`, then a final `@`–`~`; `None` without a final.
pub open spec fn csi_end(s: Seq<char>, j: int) -> Option<int> {
    let p = skip_in(s, j, '\u{30}', '\u{3f}');
    let q = skip_in(s, p, '\u{20}', '\u{2f}');
    if 0 <= q < s.len() && '\u{40}' <= s[q] && s[q] <= '\u{7e}' {
        Some(q + 1)
    } else {
        None
    }
}

pub proof fn lemma_csi_end(s: Seq<char>, j: int)
    requires
        0 <= j <= s.len(),
    ensures
        csi_end(s, j) matches Some(k) ==> j < k <= s.len(),
{
    lemma_skip_in(s, j, '\u{30}', '\u{3f}');
    let p = skip_in(s, j, '\u{30}', '\u{3f}');
    lemma_skip_in(s, p, '\u{20}', '\u{2f}');
}

/// Where the next step of the scan resumes after position `i` (which holds an escape or
/// C1 control), and whether the character at `i` is kept.
pub open spec fn ansi_step(s: Seq<char>, i: int) -> (int, bool) {
    let c = s[i];
    if c == '\u{1b}' {
        if i + 1 >= s.len() {
            (i + 1, false)
        } else {
            let n = s[i + 1];
            if n == '[' {
                match csi_end(s, i + 2) {
                    Some(k) => (k, false),
                    None => (i + 2, false),
                }
            } else if n == ']' {
                match osc_end(s, i + 2) {
                    Some(k) => (k, false),
                    None => (i + 2, false),
                }
            } else if n == 'P' || n == 'X' || n == '^' || n == '_' {
                match st_end(s, i + 2) {
                    Some(k) => (k, false),
                    None => (i + 2, false),
                }
            } else if '\u{20}' <= n && n <= '\u{2f}' {
                let q = skip_in(s, i + 1, '\u{20}', '\u{2f}');
                if q < s.len() && '\u{30}' <= s[q] && s[q] <= '\u{7e}' {
                    (q + 1, false)
                } else {
                    (i + 1, false)
                }
            } else if '\u{30}' <= n && n <= '\u{7e}' {
                (i + 2, false)
            } else {
                (i + 1, false)
            }
        }
    } else if c == '\u{9b}' {
        match csi_end(s, i + 1) {
            Some(k) => (k, false),
            None => (i + 1, false),
        }
    } else if c == '\u{9d}' {
        match c1_osc_end(s, i + 1) {
            Some(k) => (k, false),
            None => (i + 1, false),
        }
    } else if '\u{80}' <= c && c <= '\u{9f}' {
        (i + 1, false)
    } else {
        (i + 1, true)
    }
}

pub proof fn lemma_ansi_step(s: Seq<char>, i: int)
    requires
        0 <= i < s.len(),
    ensures
        i < ansi_step(s, i).0 <= s.len(),
{
    lemma_csi_end(s, i + 1);
    if i + 2 <= s.len() {
        lemma_csi_end(s, i + 2);
    }
    lemma_ends(s, i + 1);
    lemma_ends(s, i + 2);
    if i + 1 < s.len() {
        lemma_skip_in(s, i + 1, '\u{20}', '\u{2f}');
    }
}

/// The text from position `i` on with ANSI / ECMA-48 escape sequences and C1 controls
/// removed.
pub open spec fn strip_from(s: Seq<char>, i: int) -> Seq<char>
    decreases s.len() - i,
{
    if i < 0 || i >= s.len() {
        Seq::empty()
    } else {
        let (k, keep) = ansi_step(s, i);
        proof {
            lemma_ansi_step(s, i);
        }
        if keep {
            seq![s[i]] + strip_from(s, k)
        } else {
            strip_from(s, k)
        }
    }
}

/// The text with escape sequences removed: CSI (`ESC [` and U+009B), OSC (`ESC ]` and
/// U+009D, up to BEL or ST), DCS/SOS/PM/APC (up to ST), nF, single-character escapes, and
/// the other C1 controls.
pub open spec fn ansi_stripped(s: Seq<char>) -> Seq<char> {
    strip_from(s, 0)
}

fn skip_in_exec(s: &[char], j: usize, lo: char, hi: char) -> (r: usize)
    requires
        j <= s@.len(),
    ensures
        r == skip_in(s@, j as int, lo, hi),
        j <= r <= s@.len(),
{
    proof {
        lemma_skip_in(s@, j as int, lo, hi);
    }
    let mut k = j;
    while k < s.len() && lo <= s[k] && s[k] <= hi
        invariant
            j <= k <= s@.len(),
            skip_in(s@, k as int, lo, hi) == skip_in(s@, j as int, lo, hi),
        decreases s@.len() - k,
    {
        k = k + 1;
    }
    k
}

fn csi_end_exec(s: &[char], j: usize) -> (r: Option<usize>)
    requires
        j <= s@.len(),
    ensures
        match r {
            Some(k) => csi_end(s@, j as int) == Some(k as int),
            None => csi_end(s@, j as int) is None,
        },
{
    let p = skip_in_exec(s, j, '\u{30}', '\u{3f}');
    let q = skip_in_exec(s, p, '\u{20}', '\u{2f}');
    if q < s.len() && '\u{40}' <= s[q] && s[q] <= '\u{7e}' {
        Some(q + 1)
    } else {
        None
    }
}

fn osc_end_exec(s: &[char], j: usize) -> (r: Option<usize>)
    requires
        j <= s@.len(),
    ensures
        match r {
            Some(k) => osc_end(s@, j as int) == Some(k as int),
            None => osc_end(s@, j as int) is None,
        },
{
    let mut k = j;
    while k < s.len()
        invariant
            j <= k <= s@.len(),
            osc_end(s@, k as int) == osc_end(s@, j as int),
        decreases s@.len() - k,
    {
        if s[k] == '\u{7}' {
            return Some(k + 1);
        }
        if s[k] == '\u{1b}' && k + 1 < s.len() && s[k + 1] == '\\' {
            return Some(k + 2);
        }
        k = k + 1;
    }
    None
}

fn st_end_exec(s: &[char], j: usize) -> (r: Option<usize>)
    requires
        j <= s@.len(),
    ensures
        match r {
            Some(k) => st_end(s@, j as int) == Some(k as int),
            None => st_end(s@, j as int) is None,
        },
{
    let mut k = j;
    while s.len() - k > 1
        invariant
            j <= k <= s@.len(),
            st_end(s@, k as int) == st_end(s@, j as int),
        decreases s@.len() - k,
    {
        if s[k] == '\u{1b}' && s[k + 1] == '\\' {
            return Some(k + 2);
        }
        k = k + 1;
    }
    None
}

fn c1_osc_end_exec(s: &[char], j: usize) -> (r: Option<usize>)
    requires
        j <= s@.len(),
    ensures
        match r {
            Some(k) => c1_osc_end(s@, j as int) == Some(k as int),
            None => c1_osc_end(s@, j as int) is None,
        },
{
    let mut k = j;
    while k < s.len()
        invariant
            j <= k <= s@.len(),
            c1_osc_end(s@, k as int) == c1_osc_end(s@, j as int),
        decreases s@.len() - k,
    {
        if s[k] == '\u{7}' || s[k] == '\u{9c}' {
            return Some(k + 1);
        }
        k = k + 1;
    }
    None
}

fn ansi_step_exec(s: &[char], i: usize) -> (r: (usize, bool))
    requires
        i < s@.len(),
    ensures
        r.0 == ansi_step(s@, i as int).0,
        r.1 == ansi_step(s@, i as int).1,
{
    let c = s[i];
    if c == '\u{1b}' {
        if i + 1 >= s.len() {
            return (i + 1, false);
        }
        let n = s[i + 1];
        if n == '[' {
            match csi_end_exec(s, i + 2) {
                Some(k) => (k, false),
                None => (i + 2, false),
            }
        } else if n == ']' {
            match osc_end_exec(s, i + 2) {
                Some(k) => (k, false),
                None => (i + 2, false),
            }
        } else if n == 'P' || n == 'X' || n == '^' || n == '_' {
            match st_end_exec(s, i + 2) {
                Some(k) => (k, false),
                None => (i + 2, false),
            }
        } else if '\u{20}' <= n && n <= '\u{2f}' {
            let q = skip_in_exec(s, i + 1, '\u{20}', '\u{2f}');
            if q < s.len() && '\u{30}' <= s[q] && s[q] <= '\u{7e}' {
                (q + 1, false)
            } else {
                (i + 1, false)
            }
        } else if '\u{30}' <= n && n <= '\u{7e}' {
            (i + 2, false)
        } else {
            (i + 1, false)
        }
    } else if c == '\u{9b}' {
        match csi_end_exec(s, i + 1) {
            Some(k) => (k, false),
            None => (i + 1, false),
        }
    } else if c == '\u{9d}' {
        match c1_osc_end_exec(s, i + 1) {
            Some(k) => (k, false),
            None => (i + 1, false),
        }
    } else if '\u{80}' <= c && c <= '\u{9f}' {
        (i + 1, false)
    } else {
        (i + 1, true)
    }
}

fn strip_ansi_chars(s: &[char]) -> (r: Vec<char>)
    ensures
        r@ == ansi_stripped(s@),
{
    let mut out: Vec<char> = Vec::new();
    let mut i: usize = 0;
    while i < s.len()
        invariant
            i <= s@.len(),
            out@ + strip_from(s@, i as int) == ansi_stripped(s@),
        decreases s@.len() - i,
    {
        proof {
            lemma_ansi_step(s@, i as int);
        }
        let (k, keep) = ansi_step_exec(s, i);
        if keep {
            let ghost before = out@;
            out.push(s[i]);
            assert(out@ + strip_from(s@, k as int) =~= before + strip_from(s@, i as int));
        }
        i = k;
    }
    assert(out@ + strip_from(s@, i as int) =~= out@);
    out
}

/// Strips ANSI / ECMA-48 escape sequences and C1 controls from `text`.
pub fn strip_ansi(text: &str) -> (r: String)
    ensures
        r@ == ansi_stripped(text@),
{
    let v = to_chars(text);
    from_chars(strip_ansi_chars(v.as_slice()).as_slice())
}

/// Text without escape characters or C1 controls comes out of the stripper unchanged.
pub proof fn lemma_strip_plain_text(s: Seq<char>)
    requires
        forall|i: int| 0 <= i < s.len() ==> #[trigger] s[i] != '\u{1b}' && !('\u{80}' <= s[i] && s[i] <= '\u{9f}'),
    ensures
        ansi_stripped(s) == s,
{
    lemma_strip_plain_from(s, 0);
    assert(s.subrange(0, s.len() as int) =~= s);
}

proof fn lemma_strip_output_plain(s: Seq<char>, i: int)
    ensures
        forall|t: int|
            0 <= t < strip_from(s, i).len() ==> #[trigger] strip_from(s, i)[t] != '\u{1b}' && !(
            '\u{80}' <= strip_from(s, i)[t] && strip_from(s, i)[t] <= '\u{9f}'),
    decreases s.len() - i,
{
    if 0 <= i < s.len() {
        lemma_ansi_step(s, i);
        let (k, keep) = ansi_step(s, i);
        lemma_strip_output_plain(s, k);
        if keep {
            let rest = strip_from(s, k);
            assert(strip_from(s, i) == seq![s[i]] + rest);
            assert forall|t: int| 0 <= t < strip_from(s, i).len() implies #[trigger] strip_from(s, i)[t]
                != '\u{1b}' && !('\u{80}' <= strip_from(s, i)[t] && strip_from(s, i)[t] <= '\u{9f}') by {
                if t > 0 {
                    assert(strip_from(s, i)[t] == rest[t - 1]);
                }
            }
        }
    }
}

/// Stripping is idempotent: stripped text has no escape sequences or C1 controls left.
pub proof fn lemma_strip_idempotent(s: Seq<char>)
    ensures
        ansi_stripped(ansi_stripped(s)) == ansi_stripped(s),
{
    lemma_strip_output_plain(s, 0);
    lemma_strip_plain_text(ansi_stripped(s));
}

/// `o` moved `n` positions on.
pub open spec fn shift_opt(o: Option<int>, n: int) -> Option<int> {
    match o {
        Some(k) => Some(k + n),
        None => None,
    }
}

proof fn lemma_skip_in_shift(a: Seq<char>, b: Seq<char>, k: int, lo: char, hi: char)
    requires
        0 <= k,
    ensures
        skip_in(a + b, a.len() + k, lo, hi) == a.len() + skip_in(b, k, lo, hi),
    decreases b.len() - k,
{
    if k < b.len() {
        assert((a + b)[a.len() + k] == b[k]);
        lemma_skip_in_shift(a, b, k + 1, lo, hi);
    }
}

proof fn lemma_ends_shift(a: Seq<char>, b: Seq<char>, k: int)
    requires
        0 <= k,
    ensures
        osc_end(a + b, a.len() + k) == shift_opt(osc_end(b, k), a.len() as int),
        st_end(a + b, a.len() + k) == shift_opt(st_end(b, k), a.len() as int),
        c1_osc_end(a + b, a.len() + k) == shift_opt(c1_osc_end(b, k), a.len() as int),
    decreases b.len() - k,
{
    if k < b.len() {
        assert((a + b)[a.len() + k] == b[k]);
        if k + 1 < b.len() {
            assert((a + b)[a.len() + k + 1] == b[k + 1]);
        }
        lemma_ends_shift(a, b, k + 1);
    }
}

proof fn lemma_csi_end_shift(a: Seq<char>, b: Seq<char>, k: int)
    requires
        0 <= k,
    ensures
        csi_end(a + b, a.len() + k) == shift_opt(csi_end(b, k), a.len() as int),
{
    let n = a.len() as int;
    lemma_skip_in_shift(a, b, k, '\u{30}', '\u{3f}');
    let p = skip_in(b, k, '\u{30}', '\u{3f}');
    if k <= b.len() {
        lemma_skip_in(b, k, '\u{30}', '\u{3f}');
    }
    assert(p >= k);
    lemma_skip_in_shift(a, b, p, '\u{20}', '\u{2f}');
    let q = skip_in(b, p, '\u{20}', '\u{2f}');
    if p <= b.len() {
        lemma_skip_in(b, p, '\u{20}', '\u{2f}');
    }
    assert(q >= p);
    assert(skip_in(a + b, n + k, '\u{30}', '\u{3f}') == n + p);
    assert(skip_in(a + b, n + p, '\u{20}', '\u{2f}') == n + q);
    if q < b.len() {
        assert((a + b)[n + q] == b[q]);
    }
}

proof fn lemma_ansi_step_shift(a: Seq<char>, b: Seq<char>, k: int)
    requires
        0 <= k < b.len(),
    ensures
        ansi_step(a + b, a.len() + k) == (a.len() + ansi_step(b, k).0, ansi_step(b, k).1),
{
    let s = a + b;
    let n = a.len() as int;
    assert(s[n + k] == b[k]);
    if k + 1 < b.len() {
        assert(s[n + k + 1] == b[k + 1]);
    }
    lemma_csi_end_shift(a, b, k + 1);
    lemma_csi_end_shift(a, b, k + 2);
    lemma_ends_shift(a, b, k + 2);
    lemma_ends_shift(a, b, k + 1);
    lemma_skip_in_shift(a, b, k + 1, '\u{20}', '\u{2f}');
    let q = skip_in(b, k + 1, '\u{20}', '\u{2f}');
    if k + 1 <= b.len() {
        lemma_skip_in(b, k + 1, '\u{20}', '\u{2f}');
    }
    if 0 <= q < b.len() {
        assert(s[n + q] == b[q]);
    }
}

/// What the stripper makes of text from a position on depends on that text alone, not on
/// what came before it.
pub proof fn lemma_strip_from_shift(a: Seq<char>, b: Seq<char>, k: int)
    requires
        0 <= k,
    ensures
        strip_from(a + b, a.len() + k) == strip_from(b, k),
    decreases b.len() - k,
{
    if k < b.len() {
        lemma_ansi_step_shift(a, b, k);
        lemma_ansi_step(b, k);
        let (j, keep) = ansi_step(b, k);
        lemma_strip_from_shift(a, b, j);
        assert((a + b)[a.len() + k] == b[k]);
    }
}

/// No escape character and no C1 control.
pub open spec fn plain_text(t: Seq<char>) -> bool {
    forall|i: int| 0 <= i < t.len() ==> #[trigger] t[i] != '\u{1b}' && !('\u{80}' <= t[i] && t[i] <= '\u{9f}')
}

proof fn lemma_strip_plain_prefix(t: Seq<char>, u: Seq<char>, i: int)
    requires
        plain_text(t),
        0 <= i <= t.len(),
    ensures
        strip_from(t + u, i) == t.subrange(i, t.len() as int) + strip_from(u, 0),
    decreases t.len() - i,
{
    if i == t.len() {
        lemma_strip_from_shift(t, u, 0);
        assert(t.subrange(i, t.len() as int) =~= Seq::<char>::empty());
        assert(Seq::<char>::empty() + strip_from(u, 0) =~= strip_from(u, 0));
    } else {
        let s = t + u;
        assert(s[i] == t[i]);
        assert(ansi_step(s, i) == (i + 1, true));
        lemma_strip_plain_prefix(t, u, i + 1);
        assert(t.subrange(i, t.len() as int) =~= seq![t[i]] + t.subrange(i + 1, t.len() as int));
        assert(strip_from(s, i) == seq![s[i]] + strip_from(s, i + 1));
        assert(seq![t[i]] + (t.subrange(i + 1, t.len() as int) + strip_from(u, 0)) =~= (seq![t[i]]
            + t.subrange(i + 1, t.len() as int)) + strip_from(u, 0));
    }
}

/// Plain text in front of the rest comes out unchanged, and the rest is stripped as if it
/// stood alone.
pub proof fn lemma_strip_plain_then(t: Seq<char>, u: Seq<char>)
    requires
        plain_text(t),
    ensures
        ansi_stripped(t + u) == t + ansi_stripped(u),
{
    lemma_strip_plain_prefix(t, u, 0);
    assert(t.subrange(0, t.len() as int) =~= t);
}

proof fn lemma_skip_run(s: Seq<char>, j: int, m: int, lo: char, hi: char)
    requires
        0 <= j,
        0 <= m,
        j + m <= s.len(),
        forall|x: int| j <= x < j + m ==> lo <= #[trigger] s[x] && s[x] <= hi,
        j + m < s.len() ==> !(lo <= s[j + m] && s[j + m] <= hi),
    ensures
        skip_in(s, j, lo, hi) == j + m,
    decreases m,
{
    if m > 0 {
        lemma_skip_run(s, j + 1, m - 1, lo, hi);
    }
}

/// A complete control sequence: ESC `[`, parameter bytes `0`–`?` (`<`, `=`, `>`, `?` among
/// them), intermediate bytes ` `–`/`, and a final byte `@`–`~`.
pub open spec fn csi_sequence(params: Seq<char>, inter: Seq<char>, fin: char) -> Seq<char> {
    seq!['\u{1b}', '['] + params + inter + seq![fin]
}

pub open spec fn csi_parts_ok(params: Seq<char>, inter: Seq<char>, fin: char) -> bool {
    &&& forall|x: int| 0 <= x < params.len() ==> '\u{30}' <= #[trigger] params[x] && params[x] <= '\u{3f}'
    &&& forall|x: int| 0 <= x < inter.len() ==> '\u{20}' <= #[trigger] inter[x] && inter[x] <= '\u{2f}'
    &&& '\u{40}' <= fin && fin <= '\u{7e}'
}

/// A complete control sequence is removed whole, with all its parameter and intermediate
/// bytes, and nothing after it is touched.
pub proof fn lemma_strip_csi_whole(params: Seq<char>, inter: Seq<char>, fin: char, rest: Seq<char>)
    requires
        csi_parts_ok(params, inter, fin),
    ensures
        ansi_stripped(csi_sequence(params, inter, fin) + rest) == ansi_stripped(rest),
{
    let c = csi_sequence(params, inter, fin);
    let s = c + rest;
    let np = params.len() as int;
    let ni = inter.len() as int;
    assert(c.len() == np + ni + 3);
    assert(s[0] == '\u{1b}' && s[1] == '[');
    assert forall|x: int| 2 <= x < 2 + np implies '\u{30}' <= #[trigger] s[x] && s[x] <= '\u{3f}' by {
        assert(s[x] == params[x - 2]);
    }
    assert forall|x: int| 2 + np <= x < 2 + np + ni implies '\u{20}' <= #[trigger] s[x] && s[x] <= '\u{2f}' by {
        assert(s[x] == inter[x - 2 - np]);
    }
    assert(s[2 + np + ni] == fin);
    if ni > 0 {
        assert(s[2 + np] == inter[0]);
    }
    lemma_skip_run(s, 2, np, '\u{30}', '\u{3f}');
    lemma_skip_run(s, 2 + np, ni, '\u{20}', '\u{2f}');
    assert(csi_end(s, 2) == Some(np + ni + 3));
    assert(ansi_step(s, 0) == (np + ni + 3, false));
    lemma_strip_from_shift(c, rest, 0);
}

/// The same control sequence introduced by the single 8-bit CSI (U+009B) is removed whole as
/// well.
pub proof fn lemma_strip_c1_csi_whole(params: Seq<char>, inter: Seq<char>, fin: char, rest: Seq<char>)
    requires
        csi_parts_ok(params, inter, fin),
    ensures
        ansi_stripped(seq!['\u{9b}'] + params + inter + seq![fin] + rest) == ansi_stripped(rest),
{
    let c = seq!['\u{9b}'] + params + inter + seq![fin];
    let s = c + rest;
    let np = params.len() as int;
    let ni = inter.len() as int;
    assert(c.len() == np + ni + 2);
    assert(s[0] == '\u{9b}');
    assert forall|x: int| 1 <= x < 1 + np implies '\u{30}' <= #[trigger] s[x] && s[x] <= '\u{3f}' by {
        assert(s[x] == params[x - 1]);
    }
    assert forall|x: int| 1 + np <= x < 1 + np + ni implies '\u{20}' <= #[trigger] s[x] && s[x] <= '\u{2f}' by {
        assert(s[x] == inter[x - 1 - np]);
    }
    assert(s[1 + np + ni] == fin);
    lemma_skip_run(s, 1, np, '\u{30}', '\u{3f}');
    lemma_skip_run(s, 1 + np, ni, '\u{20}', '\u{2f}');
    assert(csi_end(s, 1) == Some(np + ni + 2));
    assert(ansi_step(s, 0) == (np + ni + 2, false));
    lemma_strip_from_shift(c, rest, 0);
}

/// Removing a complete control sequence from text whose part before it is plain gives what
/// stripping the text without it gives: `t1 + seq + t2` strips to `t1 + t2` stripped.
pub proof fn lemma_strip_csi_between(
    t1: Seq<char>,
    params: Seq<char>,
    inter: Seq<char>,
    fin: char,
    t2: Seq<char>,
)
    requires
        plain_text(t1),
        csi_parts_ok(params, inter, fin),
    ensures
        ansi_stripped(t1 + csi_sequence(params, inter, fin) + t2) == ansi_stripped(t1 + t2),
        ansi_stripped(t1 + csi_sequence(params, inter, fin) + t2) == t1 + ansi_stripped(t2),
{
    let c = csi_sequence(params, inter, fin);
    assert(t1 + c + t2 =~= t1 + (c + t2));
    lemma_strip_plain_then(t1, c + t2);
    lemma_strip_csi_whole(params, inter, fin, t2);
    lemma_strip_plain_then(t1, t2);
}

proof fn lemma_strip_plain_from(s: Seq<char>, i: int)
    requires
        0 <= i <= s.len(),
        forall|t: int| 0 <= t < s.len() ==> #[trigger] s[t] != '\u{1b}' && !('\u{80}' <= s[t] && s[t] <= '\u{9f}'),
    ensures
        strip_from(s, i) == s.subrange(i, s.len() as int),
    decreases s.len() - i,
{
    if i < s.len() {
        lemma_strip_plain_from(s, i + 1);
        assert(s[i] != '\u{1b}');
        assert(s.subrange(i, s.len() as int) =~= seq![s[i]] + s.subrange(i + 1, s.len() as int));
    } else {
        assert(s.subrange(i, s.len() as int) =~= Seq::<char>::empty());
    }
}

// ---------------------------------------------------------------------------
// Running a command
// ---------------------------------------------------------------------------

/// `out` is what running `command` through `handler` gives: "" for an empty command,
/// else the stripped output of `handler` on the normalised command.
pub open spec fn ran<F: FnMut(&str) -> String>(handler: F, command: Seq<char>, out: Seq<char>) -> bool {
    if normalized(command).len() == 0 {
        out.len() == 0
    } else {
        exists|c: &str, raw: String|
            c@ == normalized(command) && #[trigger] handler.ensures((c,), raw) && out
                == ansi_stripped(trim_end(raw@))
    }
}

/// Runs a command through `handler` (given the normalised command) and strips the
/// trailing white space and then the escape sequences from its output; an empty command
/// gives "" without calling `handler`.
pub fn run_command<F: FnMut(&str) -> String>(command: &str, handler: F) -> (r: String)
    requires
        forall|c: &str| c@ == normalized(command@) && c@.len() > 0 ==> #[trigger] handler.requires((c,)),
    ensures
        ran(handler, command@, r@),
{
    let ghost h0 = handler;
    let mut handler = handler;
    let cmd = normalize_chars(command);
    if cmd.len() == 0 {
        let e = String::new();
        assert(e@ =~= Seq::<char>::empty());
        return e;
    }
    let cs = from_chars(cmd.as_slice());
    let c = cs.as_str();
    let raw = handler(c);
    assert(h0.ensures((c,), raw));
    let rv = to_chars(raw.as_str());
    let t = crate::text::trim_end_k_exec(rv.as_slice(), CharClass::Space);
    from_chars(strip_ansi_chars(t.as_slice()).as_slice())
}

/// Runs a command through `handler`, which writes its output into a fresh buffer; the
/// buffer is then stripped as in `run_command`.
pub fn run_command_with_buf<F: FnMut(&str, &mut String)>(command: &str, handler: F) -> (r: String)
    requires
        forall|c: &str, b: &mut String|
            c@ == normalized(command@) && c@.len() > 0 && mut_ref_current(b)@ == Seq::<char>::empty()
                ==> #[trigger] handler.requires((c, b)),
    ensures
        normalized(command@).len() == 0 ==> r@.len() == 0,
        normalized(command@).len() > 0 ==> exists|c: &str, m: &mut String|
            c@ == normalized(command@) && mut_ref_current(m)@ == Seq::<char>::empty()
                && #[trigger] handler.ensures((c, m), ()) && r@ == ansi_stripped(
                trim_end(mut_ref_future(m)@),
            ),
{
    let mut handler = handler;
    let cmd = normalize_chars(command);
    if cmd.len() == 0 {
        let e = String::new();
        assert(e@ =~= Seq::<char>::empty());
        return e;
    }
    let cs = from_chars(cmd.as_slice());
    let mut buf = String::new();
    let c = cs.as_str();
    handler(c, &mut buf);
    assert(exists|m: &mut String| handler.ensures((c, m), ()));
    let rv = to_chars(buf.as_str());
    let t = crate::text::trim_end_k_exec(rv.as_slice(), CharClass::Space);
    from_chars(strip_ansi_chars(t.as_slice()).as_slice())
}

// ---------------------------------------------------------------------------
// Response framing
// ---------------------------------------------------------------------------

/// `"` + `body` + `"`.
pub open spec fn quoted(body: Seq<char>) -> Seq<char> {
    "\""@ + body + "\""@
}

fn quoted_exec(body: &[char]) -> (r: Vec<char>)
    ensures
        r@ == quoted(body@),
{
    let mut out: Vec<char> = Vec::new();
    push_str(&mut out, "\"");
    push_all(&mut out, body);
    push_str(&mut out, "\"");
    assert(out@ =~= quoted(body@));
    out
}

/// The JSON text of a request id as echoed back: `null` for none, blank or `null`; booleans
/// and numbers as they are (the special float words `inf`, `nan`, `-inf` quoted); a quoted
/// string re-escaped; anything else quoted.
pub open spec fn id_json(id_raw: Option<Seq<char>>) -> Seq<char> {
    match id_raw {
        None => "null"@,
        Some(raw) => {
            let t = trim(raw);
            if t.len() == 0 || t == "null"@ {
                "null"@
            } else if t == "true"@ || t == "false"@ {
                t
            } else if t.len() >= 2 && t[0] == '"' && t.last() == '"' {
                quoted(json_escape(t.subrange(1, t.len() - 1)))
            } else if parses_i64(t) || float_syntax(t) {
                if ascii_lower(t) == "inf"@ || ascii_lower(t) == "nan"@ || ascii_lower(t) == "-inf"@ {
                    quoted(json_escape(t))
                } else {
                    t
                }
            } else {
                quoted(json_escape(t))
            }
        },
    }
}

pub fn encode_id_json(id_raw: Option<&str>) -> (r: String)
    ensures
        r@ == id_json(opt_text(id_raw)),
{
    let raw = match id_raw {
        None => {
            return own_str("null");
        },
        Some(s) => to_chars(s),
    };
    let t = trim_exec(raw.as_slice());
    let ts = t.as_slice();
    if ts.len() == 0 || chars_eq_str(ts, "null") {
        return own_str("null");
    }
    if chars_eq_str(ts, "true") || chars_eq_str(ts, "false") {
        return from_chars(ts);
    }
    if ts.len() >= 2 && ts[0] == '"' && ts[ts.len() - 1] == '"' {
        let inner = slice_vec(ts, 1, ts.len() - 1);
        let e = json_escape_exec(inner.as_slice());
        return from_chars(quoted_exec(e.as_slice()).as_slice());
    }
    if parse_i64_chars(ts).is_some() || float_syntax_chars(ts) {
        let l = ascii_lower_exec(ts);
        if chars_eq_str(l.as_slice(), "inf") || chars_eq_str(l.as_slice(), "nan") || chars_eq_str(
            l.as_slice(),
            "-inf",
        ) {
            let e = json_escape_exec(ts);
            return from_chars(quoted_exec(e.as_slice()).as_slice());
        }
        return from_chars(ts);
    }
    let e = json_escape_exec(ts);
    from_chars(quoted_exec(e.as_slice()).as_slice())
}

/// `{"id":<id>,"ok":true,"output":"<escaped output>"}`.
pub open spec fn success_line(id: Seq<char>, output: Seq<char>) -> Seq<char> {
    "{\"id\":"@ + id + ",\"ok\":true,\"output\":\""@ + json_escape(output) + "\"}"@
}

/// `{"id":<id>,"ok":false,"error":"<escaped error>"}`.
pub open spec fn error_line(id: Seq<char>, error: Seq<char>) -> Seq<char> {
    "{\"id\":"@ + id + ",\"ok\":false,\"error\":\""@ + json_escape(error) + "\"}"@
}

fn success_chars(id: &[char], output: &[char]) -> (r: String)
    ensures
        r@ == success_line(id@, output@),
{
    let mut out: Vec<char> = Vec::new();
    push_str(&mut out, "{\"id\":");
    push_all(&mut out, id);
    push_str(&mut out, ",\"ok\":true,\"output\":\"");
    let e = json_escape_exec(output);
    push_all(&mut out, e.as_slice());
    push_str(&mut out, "\"}");
    assert(out@ =~= success_line(id@, output@));
    from_chars(out.as_slice())
}

fn error_chars(id: &[char], error: &[char]) -> (r: String)
    ensures
        r@ == error_line(id@, error@),
{
    let mut out: Vec<char> = Vec::new();
    push_str(&mut out, "{\"id\":");
    push_all(&mut out, id);
    push_str(&mut out, ",\"ok\":false,\"error\":\"");
    let e = json_escape_exec(error);
    push_all(&mut out, e.as_slice());
    push_str(&mut out, "\"}");
    assert(out@ =~= error_line(id@, error@));
    from_chars(out.as_slice())
}

pub fn format_success(id_json: &str, output: &str) -> (r: String)
    ensures
        r@ == success_line(id_json@, output@),
{
    let i = to_chars(id_json);
    let o = to_chars(output);
    success_chars(i.as_slice(), o.as_slice())
}

pub fn format_error(id_json: &str, error: &str) -> (r: String)
    ensures
        r@ == error_line(id_json@, error@),
{
    let i = to_chars(id_json);
    let e = to_chars(error);
    error_chars(i.as_slice(), e.as_slice())
}

// ---------------------------------------------------------------------------
// Request parsing
// ---------------------------------------------------------------------------

/// The end of a bare token starting at `i`: the first `,`, `}` or white space.
pub open spec fn token_end(s: Seq<char>, i: int) -> int
    decreases s.len() - i,
{
    if i < 0 || i >= s.len() {
        i
    } else if s[i] == ',' || s[i] == '}' || crate::text::is_ws(s[i]) {
        i
    } else {
        token_end(s, i + 1)
    }
}

proof fn lemma_token_end(s: Seq<char>, i: int)
    requires
        0 <= i <= s.len(),
    ensures
        i <= token_end(s, i) <= s.len(),
    decreases s.len() - i,
{
    if i < s.len() && !(s[i] == ',' || s[i] == '}' || crate::text::is_ws(s[i])) {
        lemma_token_end(s, i + 1);
    }
}

/// The raw value of a field of a request object: after the first `"field"` and the next
/// `:`, a quoted string (with its quotes, up to the first unescaped quote), `null`, `true`,
/// `false`, or a bare token.
pub open spec fn request_field(json: Seq<char>, field: Seq<char>) -> Option<Seq<char>> {
    let key = quoted(field);
    match find(json, key) {
        None => None,
        Some(pos) => {
            let after_key = json.subrange(pos + key.len(), json.len() as int);
            match find_class_from(after_key, 0, CharClass::Exactly(':')) {
                None => None,
                Some(c) => {
                    let ac = trim_start(after_key.subrange(c + 1, after_key.len() as int));
                    if ac.len() == 0 {
                        None
                    } else if ac[0] == '"' {
                        match crate::rpc_json::quote_close(ac, 1, '"', false) {
                            Some(e) => Some(ac.subrange(0, e + 1)),
                            None => None,
                        }
                    } else if starts_with(ac, "null"@) || starts_with(ac, "true"@) {
                        Some(ac.subrange(0, 4))
                    } else if starts_with(ac, "false"@) {
                        Some(ac.subrange(0, 5))
                    } else if token_end(ac, 0) == 0 {
                        None
                    } else {
                        Some(ac.subrange(0, token_end(ac, 0)))
                    }
                },
            }
        },
    }
}

fn extract_raw_field(json: &[char], field: &str) -> (r: Option<Vec<char>>)
    ensures
        match r {
            Some(v) => request_field(json@, field@) == Some(v@),
            None => request_field(json@, field@) is None,
        },
{
    let f = to_chars(field);
    let key = quoted_exec(f.as_slice());
    let pos = match find_exec(json, key.as_slice()) {
        None => {
            return None;
        },
        Some(p) => p,
    };
    proof {
        crate::text::lemma_find_from(json@, key@, 0);
    }
    let n = json.len();
    assert(pos + key@.len() <= n);
    let after_key = slice_vec(json, pos + key.len(), n);
    let c = match find_class_exec(after_key.as_slice(), 0, CharClass::Exactly(':')) {
        None => {
            return None;
        },
        Some(c) => c,
    };
    let rest = slice_vec(after_key.as_slice(), c + 1, after_key.len());
    let ac = crate::text::trim_start_k_exec(rest.as_slice(), CharClass::Space);
    if ac.len() == 0 {
        return None;
    }
    if ac[0] == '"' {
        return match crate::rpc_json::quote_close_exec(ac.as_slice(), '"') {
            Some(e) => Some(slice_vec(ac.as_slice(), 0, e + 1)),
            None => None,
        };
    }
    if starts_with_str(ac.as_slice(), "null") || starts_with_str(ac.as_slice(), "true") {
        proof {
            reveal_strlit("null");
            reveal_strlit("true");
        }
        return Some(slice_vec(ac.as_slice(), 0, 4));
    }
    if starts_with_str(ac.as_slice(), "false") {
        proof {
            reveal_strlit("false");
        }
        return Some(slice_vec(ac.as_slice(), 0, 5));
    }
    let mut j: usize = 0;
    proof {
        lemma_token_end(ac@, 0);
    }
    while j < ac.len() && !(ac[j] == ',' || ac[j] == '}' || crate::text::char_in_class(ac[j], CharClass::Space))
        invariant
            j <= ac@.len(),
            token_end(ac@, j as int) == token_end(ac@, 0),
        decreases ac@.len() - j,
    {
        j = j + 1;
    }
    if j == 0 {
        None
    } else {
        Some(slice_vec(ac.as_slice(), 0, j))
    }
}

/// The value of a JSON hex digit.
pub open spec fn hex_digit_value(c: char) -> int {
    if '0' <= c && c <= '9' {
        c as int - '0' as int
    } else if 'a' <= c && c <= 'f' {
        c as int - 'a' as int + 10
    } else if 'A' <= c && c <= 'F' {
        c as int - 'A' as int + 10
    } else {
        -1
    }
}

/// The value of hex digits `h` (`u32::from_str_radix(_, 16)`: an optional `+`, then at
/// least one hex digit).
pub open spec fn hex_value(h: Seq<char>) -> Option<int>
    decreases h.len(),
{
    if h.len() > 0 && h[0] == '+' {
        if h.len() == 1 {
            None
        } else {
            hex_digits(h.drop_first())
        }
    } else if h.len() == 0 {
        None
    } else {
        hex_digits(h)
    }
}

pub open spec fn hex_digits(h: Seq<char>) -> Option<int>
    decreases h.len(),
{
    if h.len() == 0 {
        Some(0)
    } else if hex_digit_value(h.last()) < 0 {
        None
    } else {
        match hex_digits(h.drop_last()) {
            Some(v) => Some(v * 16 + hex_digit_value(h.last())),
            None => None,
        }
    }
}

proof fn lemma_hex_digits_bound(h: Seq<char>)
    ensures
        hex_digits(h) matches Some(v) ==> 0 <= v < pow16(h.len()),
    decreases h.len(),
{
    if h.len() > 0 {
        lemma_hex_digits_bound(h.drop_last());
    }
}

pub open spec fn pow16(n: nat) -> int
    decreases n,
{
    if n == 0 {
        1
    } else {
        16 * pow16((n - 1) as nat)
    }
}

/// `code` is a Unicode scalar value.
pub open spec fn is_scalar(code: int) -> bool {
    (0 <= code <= 0xD7FF) || (0xE000 <= code <= 0x10FFFF)
}

/// `char::from_u32`: the character with code point `code` when it is a Unicode scalar value.
#[verifier::external_body]
fn char_from_u32(code: u32) -> (r: Option<char>)
    ensures
        match r {
            Some(c) => is_scalar(code as int) && c as int == code as int,
            None => !is_scalar(code as int),
        },
{
    char::from_u32(code)
}

/// Decodes the escapes of a quoted string body from `i`: the usual one-letter escapes,
/// `\uXXXX` (up to four characters, dropped when they are not a scalar value in hex), any
/// other escaped character as itself, and a lone trailing backslash dropped.
pub open spec fn unescape_body(s: Seq<char>, i: int) -> Seq<char>
    decreases s.len() - i,
{
    if i < 0 || i >= s.len() {
        Seq::empty()
    } else if s[i] != '\\' {
        seq![s[i]] + unescape_body(s, i + 1)
    } else if i + 1 >= s.len() {
        Seq::empty()
    } else {
        let e = s[i + 1];
        if e == 'u' {
            let end = if i + 6 <= s.len() {
                i + 6
            } else {
                s.len() as int
            };
            let h = s.subrange(i + 2, end);
            let piece = match hex_value(h) {
                Some(v) => if is_scalar(v) {
                    seq![v as char]
                } else {
                    Seq::empty()
                },
                None => Seq::empty(),
            };
            piece + unescape_body(s, end)
        } else {
            let c = if e == 'b' {
                '\u{8}'
            } else if e == 'f' {
                '\u{c}'
            } else if e == 'n' {
                '\n'
            } else if e == 'r' {
                '\r'
            } else if e == 't' {
                '\t'
            } else {
                e
            };
            seq![c] + unescape_body(s, i + 2)
        }
    }
}

/// A raw request value as text: a quoted string decoded, `null` as "", anything else as
/// its trimmed text.
pub open spec fn unquoted(raw: Seq<char>) -> Seq<char> {
    let t = trim(raw);
    if t.len() >= 2 && t[0] == '"' && t.last() == '"' {
        unescape_body(t.subrange(1, t.len() - 1), 0)
    } else if t == "null"@ {
        Seq::empty()
    } else {
        t
    }
}

fn hex_value_exec(h: &[char]) -> (r: Option<u32>)
    requires
        h@.len() <= 4,
    ensures
        match r {
            Some(v) => hex_value(h@) == Some(v as int),
            None => hex_value(h@) is None,
        },
{
    let start: usize = if h.len() > 0 && h[0] == '+' {
        1
    } else {
        0
    };
    if start == h.len() {
        return None;
    }
    let ghost d = h@.subrange(start as int, h@.len() as int);
    proof {
        if start == 1 {
            assert(h@.drop_first() =~= d);
        } else {
            assert(h@ =~= d);
        }
        lemma_hex_digits_bound(d);
        assert(hex_value(h@) == hex_digits(d));
    }
    let mut v: u32 = 0;
    let mut k = start;
    while k < h.len()
        invariant
            start <= k <= h@.len(),
            h@.len() <= 4,
            d == h@.subrange(start as int, h@.len() as int),
            hex_value(h@) == hex_digits(d),
            hex_digits(h@.subrange(start as int, k as int)) == Some(v as int),
            v < pow16((k - start) as nat),
            forall|t: int| start <= t < k ==> hex_digit_value(#[trigger] h@[t]) >= 0,
        decreases h@.len() - k,
    {
        let c = h[k];
        let dv: u32 = if '0' <= c && c <= '9' {
            (c as u32) - 48
        } else if 'a' <= c && c <= 'f' {
            (c as u32) - 87
        } else if 'A' <= c && c <= 'F' {
            (c as u32) - 55
        } else {
            proof {
                assert(d[k - start] == c);
                assert(hex_digit_value(c) < 0);
                lemma_hex_none(d, (k - start + 1) as int);
            }
            return None;
        };
        proof {
            let pre = h@.subrange(start as int, k + 1);
            assert(pre.drop_last() =~= h@.subrange(start as int, k as int));
            assert(pre.last() == c);
            assert(dv as int == hex_digit_value(c));
            assert(pow16((k + 1 - start) as nat) == 16 * pow16((k - start) as nat));
            assert((k - start) < 4);
            assert(pow16(0) == 1);
            assert(pow16(1) == 16);
            assert(pow16(2) == 256);
            assert(pow16(3) == 4096);
            assert(pow16((k - start) as nat) <= 4096);
        }
        v = v * 16 + dv;
        k = k + 1;
    }
    assert(h@.subrange(start as int, h@.len() as int) =~= d);
    Some(v)
}

/// A hex text with a non-digit among its first `n` characters has no value.
proof fn lemma_hex_none(d: Seq<char>, n: int)
    requires
        0 < n <= d.len(),
        hex_digit_value(d[n - 1]) < 0,
    ensures
        hex_digits(d) is None,
    decreases d.len(),
{
    if n < d.len() {
        lemma_hex_none(d.drop_last(), n);
    }
}

fn unescape_body_exec(s: &[char]) -> (r: Vec<char>)
    ensures
        r@ == unescape_body(s@, 0),
{
    let mut out: Vec<char> = Vec::new();
    let mut i: usize = 0;
    while i < s.len()
        invariant
            i <= s@.len(),
            out@ + unescape_body(s@, i as int) == unescape_body(s@, 0),
        decreases s@.len() - i,
    {
        let ghost before = out@;
        if s[i] != '\\' {
            out.push(s[i]);
            assert(out@ + unescape_body(s@, i + 1) =~= before + unescape_body(s@, i as int));
            i = i + 1;
        } else if i + 1 >= s.len() {
            assert(unescape_body(s@, i as int) =~= Seq::<char>::empty());
            assert(out@ + unescape_body(s@, s@.len() as int) =~= before + unescape_body(s@, i as int));
            i = s.len();
        } else {
            let e = s[i + 1];
            if e == 'u' {
                let end = if s.len() - i >= 6 {
                    i + 6
                } else {
                    s.len()
                };
                let h = slice_vec(s, i + 2, end);
                match hex_value_exec(h.as_slice()) {
                    Some(v) => match char_from_u32(v) {
                        Some(c) => {
                            out.push(c);
                        },
                        None => {},
                    },
                    None => {},
                }
                proof {
                    let piece = match hex_value(h@) {
                        Some(x) => if is_scalar(x) {
                            seq![x as char]
                        } else {
                            Seq::empty()
                        },
                        None => Seq::empty(),
                    };
                    assert(out@ =~= before + piece);
                    assert(out@ + unescape_body(s@, end as int) =~= before + unescape_body(s@, i as int));
                }
                i = end;
            } else {
                let c = if e == 'b' {
                    '\u{8}'
                } else if e == 'f' {
                    '\u{c}'
                } else if e == 'n' {
                    '\n'
                } else if e == 'r' {
                    '\r'
                } else if e == 't' {
                    '\t'
                } else {
                    e
                };
                out.push(c);
                assert(out@ + unescape_body(s@, i + 2) =~= before + unescape_body(s@, i as int));
                i = i + 2;
            }
        }
    }
    assert(out@ + unescape_body(s@, i as int) =~= out@);
    out
}

fn unquote_json_string(raw: &[char]) -> (r: Vec<char>)
    ensures
        r@ == unquoted(raw@),
{
    let t = trim_exec(raw);
    if t.len() >= 2 && t[0] == '"' && t[t.len() - 1] == '"' {
        let inner = slice_vec(t.as_slice(), 1, t.len() - 1);
        return unescape_body_exec(inner.as_slice());
    }
    if chars_eq_str(t.as_slice(), "null") {
        return Vec::new();
    }
    t
}

/// The id to echo for a request's raw `id` value.
pub open spec fn request_id(raw: Option<Seq<char>>) -> Seq<char> {
    match raw {
        None => "null"@,
        Some(r) => {
            let t = trim(r);
            if t.len() > 0 && t[0] == '"' {
                t
            } else if t == "null"@ || t == "true"@ || t == "false"@ {
                t
            } else if parses_i64(t) || float_syntax(t) {
                t
            } else if t.len() == 0 {
                "null"@
            } else {
                quoted(json_escape(t))
            }
        },
    }
}

/// A request line parsed into the id to echo and the command text, or why it is not a
/// request.
pub open spec fn request_parse(line: Seq<char>) -> Result<(Seq<char>, Seq<char>), Seq<char>> {
    let t = trim(line);
    if t.len() == 0 {
        Err("empty line"@)
    } else if !(t[0] == '{' && t.last() == '}') {
        Err("invalid JSON: not an object"@)
    } else {
        let idr = request_field(t, "id"@);
        let cr = request_field(t, "command"@);
        if idr is None && cr is None && find_class_from(t, 0, CharClass::Exactly(':')) is None
            && t != "{}"@ {
            Err("invalid JSON: no id/command fields"@)
        } else {
            Ok(
                (
                    request_id(idr),
                    match cr {
                        Some(raw) => unquoted(raw),
                        None => Seq::empty(),
                    },
                ),
            )
        }
    }
}

fn request_id_exec(raw: Option<Vec<char>>) -> (r: Vec<char>)
    ensures
        r@ == request_id(match raw {
            Some(v) => Some(v@),
            None => None,
        }),
{
    match raw {
        None => to_chars("null"),
        Some(v) => {
            let t = trim_exec(v.as_slice());
            let ts = t.as_slice();
            if ts.len() > 0 && ts[0] == '"' {
                t
            } else if chars_eq_str(ts, "null") || chars_eq_str(ts, "true") || chars_eq_str(ts, "false") {
                t
            } else if parse_i64_chars(ts).is_some() || float_syntax_chars(ts) {
                t
            } else if ts.len() == 0 {
                to_chars("null")
            } else {
                let e = json_escape_exec(ts);
                quoted_exec(e.as_slice())
            }
        },
    }
}

fn parse_request_chars(line: &str) -> (r: Result<(Vec<char>, Vec<char>), Vec<char>>)
    ensures
        match r {
            Ok((i, c)) => request_parse(line@) == Ok::<(Seq<char>, Seq<char>), Seq<char>>((i@, c@)),
            Err(e) => request_parse(line@) == Err::<(Seq<char>, Seq<char>), Seq<char>>(e@),
        },
{
    let lv = to_chars(line);
    let t = trim_exec(lv.as_slice());
    if t.len() == 0 {
        return Err(to_chars("empty line"));
    }
    if !(t[0] == '{' && t[t.len() - 1] == '}') {
        return Err(to_chars("invalid JSON: not an object"));
    }
    let idr = extract_raw_field(t.as_slice(), "id");
    let cr = extract_raw_field(t.as_slice(), "command");
    if idr.is_none() && cr.is_none() && find_class_exec(t.as_slice(), 0, CharClass::Exactly(':')).is_none()
        && !chars_eq_str(t.as_slice(), "{}") {
        return Err(to_chars("invalid JSON: no id/command fields"));
    }
    let cmd = match cr {
        Some(raw) => unquote_json_string(raw.as_slice()),
        None => Vec::new(),
    };
    let id = request_id_exec(idr);
    Ok((id, cmd))
}

/// Parses a request line into the id to echo and the command text.
pub fn parse_request(line: &str) -> (r: Result<(String, String), String>)
    ensures
        match r {
            Ok((i, c)) => request_parse(line@) == Ok::<(Seq<char>, Seq<char>), Seq<char>>((i@, c@)),
            Err(e) => request_parse(line@) == Err::<(Seq<char>, Seq<char>), Seq<char>>(e@),
        },
{
    match parse_request_chars(line) {
        Ok((i, c)) => Ok((from_chars(i.as_slice()), from_chars(c.as_slice()))),
        Err(e) => Err(from_chars(e.as_slice())),
    }
}

// ---------------------------------------------------------------------------
// Line handling
// ---------------------------------------------------------------------------

/// `x` answers a parsed request `(id, command)` whose command `runner` ran.
pub open spec fn answered_ok<F: FnMut(&str) -> String>(runner: F, req: (Seq<char>, Seq<char>), x: Seq<char>) -> bool {
    exists|out: Seq<char>| #[trigger] ran(runner, req.1, out) && x == success_line(req.0, out)
}

/// Handles one input line: none for a blank line; otherwise the response to the request,
/// an `ok:true` line with the command's output, or an `ok:false` line with id `null` when the
/// line is not a request.
pub fn handle_line<F: FnMut(&str) -> String>(line: &str, runner: F) -> (r: Option<String>)
    requires
        trim(line@).len() > 0 && request_parse(line@) is Ok ==> forall|c: &str|
            c@ == normalized(request_parse(line@)->Ok_0.1) && c@.len() > 0 ==> #[trigger] runner.requires(
                (c,),
            ),
    ensures
        trim(line@).len() == 0 ==> r is None,
        trim(line@).len() > 0 && request_parse(line@) is Err ==> (r matches Some(x) && x@
            == error_line("null"@, request_parse(line@)->Err_0)),
        trim(line@).len() > 0 && request_parse(line@) is Ok ==> (r matches Some(x)
            && answered_ok(runner, request_parse(line@)->Ok_0, x@)),
{
    let lv = to_chars(line);
    let t = trim_exec(lv.as_slice());
    if t.len() == 0 {
        return None;
    }
    match parse_request_chars(line) {
        Ok((id, command)) => {
            let cs = from_chars(command.as_slice());
            let ghost r0 = runner;
            let out = run_command(cs.as_str(), runner);
            let o = to_chars(out.as_str());
            let x = success_chars(id.as_slice(), o.as_slice());
            let ghost req = (id@, command@);
            assert(ran(r0, command@, o@));
            assert(x@ == success_line(id@, o@));
            assert(ran(r0, req.1, o@) && x@ == success_line(req.0, o@));
            assert(answered_ok(r0, req, x@));
            Some(x)
        },
        Err(e) => {
            let n = to_chars("null");
            Some(error_chars(n.as_slice(), e.as_slice()))
        },
    }
}

/// Handles one input line with a runner that may fail: a failure is answered with an
/// `ok:false` line carrying the request's id.
pub fn handle_line_fallible<F: FnMut(&str) -> Result<String, String>>(line: &str, runner: F) -> (r:
    Option<String>)
    requires
        trim(line@).len() > 0 && request_parse(line@) is Ok ==> forall|c: &str|
            c@ == normalized(request_parse(line@)->Ok_0.1) && c@.len() > 0 ==> #[trigger] runner.requires(
                (c,),
            ),
    ensures
        trim(line@).len() == 0 ==> r is None,
        trim(line@).len() > 0 ==> match request_parse(line@) {
            Err(e) => r matches Some(x) && x@ == error_line("null"@, e),
            Ok((id, cmd)) => r matches Some(x) && if normalized(cmd).len() == 0 {
                x@ == success_line(id, Seq::empty())
            } else {
                exists|c: &str, res: Result<String, String>|
                    c@ == normalized(cmd) && #[trigger] runner.ensures((c,), res) && match res {
                        Ok(raw) => x@ == success_line(id, ansi_stripped(trim_end(raw@))),
                        Err(e) => x@ == error_line(id, e@),
                    }
            },
        },
{
    let ghost h0 = runner;
    let mut runner = runner;
    let lv = to_chars(line);
    let t = trim_exec(lv.as_slice());
    if t.len() == 0 {
        return None;
    }
    match parse_request_chars(line) {
        Ok((id, command)) => {
            let cs = from_chars(command.as_slice());
            let cmd = normalize_chars(cs.as_str());
            if cmd.len() == 0 {
                let e: Vec<char> = Vec::new();
                return Some(success_chars(id.as_slice(), e.as_slice()));
            }
            let cstr = from_chars(cmd.as_slice());
            let c = cstr.as_str();
            let res = runner(c);
            assert(h0.ensures((c,), res));
            match res {
                Ok(raw) => {
                    let rv = to_chars(raw.as_str());
                    let tr = crate::text::trim_end_k_exec(rv.as_slice(), CharClass::Space);
                    let out = strip_ansi_chars(tr.as_slice());
                    Some(success_chars(id.as_slice(), out.as_slice()))
                },
                Err(e) => {
                    let ev = to_chars(e.as_str());
                    Some(error_chars(id.as_slice(), ev.as_slice()))
                },
            }
        },
        Err(e) => {
            let n = to_chars("null");
            Some(error_chars(n.as_slice(), e.as_slice()))
        },
    }
}

// ---------------------------------------------------------------------------
// Worker arguments
// ---------------------------------------------------------------------------

/// The worker's command-line arguments.
#[derive(Debug, Clone, PartialEq, Eq)]
pub struct WorkerArgs {
    pub session_key: String,
    pub model: Option<String>,
}

/// The environment the worker sets up before it runs commands.
pub fn worker_env_vars(args: &WorkerArgs) -> (r: Vec<(String, String)>)
    ensures
        r@.len() == 2,
        r@[0].0@ == "HERMES_SESSION_KEY"@,
        r@[0].1@ == args.session_key@,
        r@[1].0@ == "HERMES_INTERACTIVE"@,
        r@[1].1@ == "1"@,
{
    let mut m: Vec<(String, String)> = Vec::new();
    m.push((own_str("HERMES_SESSION_KEY"), own_str(args.session_key.as_str())));
    m.push((own_str("HERMES_INTERACTIVE"), own_str("1")));
    m
}

/// Scans the arguments from `i` with the session key and model seen so far.
pub open spec fn args_scan(args: Seq<Seq<char>>, i: int, sk: Option<Seq<char>>, model: Option<Seq<char>>) -> Result<(Option<Seq<char>>, Option<Seq<char>>), Seq<char>>
    decreases args.len() - i,
{
    if i < 0 || i >= args.len() {
        Ok((sk, model))
    } else {
        let a = args[i];
        if a == "--session-key"@ {
            if i + 1 >= args.len() {
                Err("missing value for --session-key"@)
            } else {
                args_scan(args, i + 2, Some(args[i + 1]), model)
            }
        } else if starts_with(a, "--session-key="@) {
            let v = a.subrange(14, a.len() as int);
            if v.len() == 0 {
                Err("missing value for --session-key"@)
            } else {
                args_scan(args, i + 1, Some(v), model)
            }
        } else if a == "--model"@ {
            if i + 1 >= args.len() {
                Err("missing value for --model"@)
            } else {
                args_scan(args, i + 2, sk, Some(args[i + 1]))
            }
        } else if starts_with(a, "--model="@) {
            args_scan(args, i + 1, sk, Some(a.subrange(8, a.len() as int)))
        } else {
            Err("unknown argument: "@ + a)
        }
    }
}

/// The worker arguments: a non-blank session key is required; a blank model is no model.
pub open spec fn args_parse(args: Seq<Seq<char>>) -> Result<(Seq<char>, Option<Seq<char>>), Seq<char>> {
    match args_scan(args, 0, None, None) {
        Err(e) => Err(e),
        Ok((sk, model)) => match sk {
            None => Err("missing required --session-key"@),
            Some(k) => if trim(k).len() == 0 {
                Err("missing required --session-key"@)
            } else {
                Ok(
                    (
                        k,
                        match model {
                            Some(m) => if trim(m).len() == 0 {
                                None
                            } else {
                                Some(m)
                            },
                            None => None,
                        },
                    ),
                )
            },
        },
    }
}

fn parse_args_chars(args: &Vec<Vec<char>>) -> (r: Result<(Vec<char>, Option<Vec<char>>), Vec<char>>)
    ensures
        match r {
            Ok((k, m)) => args_parse(char_views(args@)) == Ok::<(Seq<char>, Option<Seq<char>>), Seq<char>>((k@, match m {
                Some(x) => Some(x@),
                None => None,
            })),
            Err(e) => args_parse(char_views(args@)) == Err::<(Seq<char>, Option<Seq<char>>), Seq<char>>(e@),
        },
{
    let ghost av = char_views(args@);
    let mut sk: Option<Vec<char>> = None;
    let mut model: Option<Vec<char>> = None;
    let mut i: usize = 0;
    proof {
        reveal_strlit("--session-key=");
        reveal_strlit("--model=");
    }
    while i < args.len()
        invariant
            i <= args@.len(),
            av == char_views(args@),
            args_scan(av, i as int, match sk {
                Some(x) => Some(x@),
                None => None,
            }, match model {
                Some(x) => Some(x@),
                None => None,
            }) == args_scan(av, 0, None, None),
            "--session-key="@.len() == 14,
            "--model="@.len() == 8,
        decreases args@.len() - i,
    {
        let a = args[i].as_slice();
        assert(av[i as int] == a@);
        if chars_eq_str(a, "--session-key") {
            if i + 1 >= args.len() {
                return Err(to_chars("missing value for --session-key"));
            }
            assert(av[i + 1] == args@[i + 1]@);
            sk = Some(slice_vec(args[i + 1].as_slice(), 0, args[i + 1].len()));
            assert(args@[i + 1]@.subrange(0, args@[i + 1]@.len() as int) =~= args@[i + 1]@);
            i = i + 2;
        } else if starts_with_str(a, "--session-key=") {
            let v = slice_vec(a, 14, a.len());
            if v.len() == 0 {
                return Err(to_chars("missing value for --session-key"));
            }
            sk = Some(v);
            i = i + 1;
        } else if chars_eq_str(a, "--model") {
            if i + 1 >= args.len() {
                return Err(to_chars("missing value for --model"));
            }
            assert(av[i + 1] == args@[i + 1]@);
            model = Some(slice_vec(args[i + 1].as_slice(), 0, args[i + 1].len()));
            assert(args@[i + 1]@.subrange(0, args@[i + 1]@.len() as int) =~= args@[i + 1]@);
            i = i + 2;
        } else if starts_with_str(a, "--model=") {
            model = Some(slice_vec(a, 8, a.len()));
            i = i + 1;
        } else {
            let mut e = to_chars("unknown argument: ");
            push_all(&mut e, a);
            return Err(e);
        }
    }
    let k = match sk {
        None => {
            return Err(to_chars("missing required --session-key"));
        },
        Some(k) => k,
    };
    let kt = trim_exec(k.as_slice());
    if kt.len() == 0 {
        return Err(to_chars("missing required --session-key"));
    }
    let m = match model {
        Some(x) => {
            let xt = trim_exec(x.as_slice());
            if xt.len() == 0 {
                None
            } else {
                Some(x)
            }
        },
        None => None,
    };
    Ok((k, m))
}

fn chars_of_strings(v: &[String]) -> (r: Vec<Vec<char>>)
    ensures
        char_views(r@) == string_views(v@),
{
    let mut out: Vec<Vec<char>> = Vec::new();
    let mut i: usize = 0;
    while i < v.len()
        invariant
            i <= v@.len(),
            char_views(out@) == string_views(v@).subrange(0, i as int),
        decreases v@.len() - i,
    {
        let ghost before = char_views(out@);
        let x = to_chars(v[i].as_str());
        out.push(x);
        assert(char_views(out@) =~= before.push(x@));
        assert(char_views(out@) =~= string_views(v@).subrange(0, i + 1));
        i = i + 1;
    }
    assert(string_views(v@).subrange(0, v@.len() as int) =~= string_views(v@));
    out
}

fn worker_args_of(r: Result<(Vec<char>, Option<Vec<char>>), Vec<char>>) -> (w: Result<WorkerArgs, String>)
    ensures
        match r {
            Ok((k, m)) => w matches Ok(a) && a.session_key@ == k@ && opt_string(a.model) == (match m {
                Some(x) => Some(x@),
                None => None,
            }),
            Err(e) => w matches Err(x) && x@ == e@,
        },
{
    match r {
        Ok((k, m)) => Ok(WorkerArgs {
            session_key: from_chars(k.as_slice()),
            model: match m {
                Some(x) => Some(from_chars(x.as_slice())),
                None => None,
            },
        }),
        Err(e) => Err(from_chars(e.as_slice())),
    }
}

/// Parses the worker's arguments (without the program name).
pub fn parse_args(args: &[String]) -> (r: Result<WorkerArgs, String>)
    ensures
        match args_parse(string_views(args@)) {
            Ok((k, m)) => r matches Ok(a) && a.session_key@ == k && opt_string(a.model) == m,
            Err(e) => r matches Err(x) && x@ == e,
        },
{
    let cv = chars_of_strings(args);
    worker_args_of(parse_args_chars(&cv))
}

/// Parses worker arguments from a command-line text split at white space.
pub fn parse_args_str(s: &str) -> (r: Result<WorkerArgs, String>)
    ensures
        match args_parse(crate::text::words(s@, CharClass::Space)) {
            Ok((k, m)) => r matches Ok(a) && a.session_key@ == k && opt_string(a.model) == m,
            Err(e) => r matches Err(x) && x@ == e,
        },
{
    let sv = to_chars(s);
    let w = crate::text::words_exec(sv.as_slice(), CharClass::Space);
    worker_args_of(parse_args_chars(&w))
}


// ---------------------------------------------------------------------------
// Escaping and unescaping
// ---------------------------------------------------------------------------

/// Decoding from a position past a prefix is decoding what follows it.
proof fn lemma_unescape_shift(p: Seq<char>, q: Seq<char>, j: int)
    requires
        0 <= j,
    ensures
        unescape_body(p + q, p.len() + j) == unescape_body(q, j),
    decreases q.len() - j,
{
    let x = p + q;
    let i = p.len() + j;
    if j >= q.len() {
    } else {
        assert(x[i] == q[j]);
        if q[j] != '\\' {
            lemma_unescape_shift(p, q, j + 1);
        } else if j + 1 >= q.len() {
        } else {
            assert(x[i + 1] == q[j + 1]);
            if q[j + 1] == 'u' {
                let end = if j + 6 <= q.len() {
                    j + 6
                } else {
                    q.len() as int
                };
                assert(x.subrange(i + 2, p.len() + end) =~= q.subrange(j + 2, end));
                lemma_unescape_shift(p, q, end);
            } else {
                lemma_unescape_shift(p, q, j + 2);
            }
        }
    }
}

proof fn lemma_hex_lower_value(d: int)
    requires
        0 <= d <= 15,
    ensures
        hex_digit_value(hex_lower(d)) == d,
{
    if d <= 9 {
        assert(hex_lower(d) == digit_char(d));
    }
}

/// One escaped character decodes back to itself.
proof fn lemma_unescape_char(c: char, r: Seq<char>)
    ensures
        unescape_body(escape_char(c) + r, 0) == seq![c] + unescape_body(r, 0),
{
    let e = escape_char(c);
    let x = e + r;
    if c == '"' || c == '\\' || c == '\n' || c == '\r' || c == '\t' {
        assert(x[0] == '\\');
        lemma_unescape_shift(e, r, 0);
    } else if (c as u32) < 0x20 {
        let v = c as u32;
        let h1 = hex_lower((v / 16) as int);
        let h2 = hex_lower((v % 16) as int);
        assert(e == seq!['\\', 'u', '0', '0', h1, h2]);
        assert(x[0] == '\\' && x[1] == 'u');
        let h = x.subrange(2, 6);
        assert(h =~= seq!['0', '0', h1, h2]);
        lemma_hex_lower_value((v / 16) as int);
        lemma_hex_lower_value((v % 16) as int);
        let h3 = h.drop_last();
        let h2s = h3.drop_last();
        let h1s = h2s.drop_last();
        let h0 = h1s.drop_last();
        assert(h3 =~= seq!['0', '0', h1]);
        assert(h2s =~= seq!['0', '0']);
        assert(h1s =~= seq!['0']);
        assert(h0 =~= Seq::<char>::empty());
        assert(hex_digit_value('0') == 0);
        assert(hex_digits(h0) == Some(0int));
        assert(hex_digits(h1s) == Some(0int));
        assert(hex_digits(h2s) == Some(0int));
        assert(hex_digits(h3) == Some((v / 16) as int));
        assert(hex_digits(h) == Some(((v / 16) * 16 + v % 16) as int));
        assert(hex_digits(h) == Some(v as int));
        assert(hex_value(h) == Some(v as int));
        assert(is_scalar(v as int));
        assert((v as int) as char == c);
        lemma_unescape_shift(e, r, 0);
    } else {
        assert(e == seq![c]);
        assert(x[0] == c);
        lemma_unescape_shift(e, r, 0);
    }
}

/// Decoding escaped text followed by more text gives the text back, then what the rest
/// decodes to.
proof fn lemma_unescape_escaped(s: Seq<char>, r: Seq<char>)
    ensures
        unescape_body(json_escape(s) + r, 0) == s + unescape_body(r, 0),
    decreases s.len(),
{
    if s.len() == 0 {
        assert(json_escape(s) + r =~= r);
        assert(s + unescape_body(r, 0) =~= unescape_body(r, 0));
    } else {
        let w = s.drop_last();
        let c = s.last();
        let tail = escape_char(c) + r;
        assert(json_escape(s) + r =~= json_escape(w) + tail);
        lemma_unescape_escaped(w, tail);
        lemma_unescape_char(c, r);
        assert(w + (seq![c] + unescape_body(r, 0)) =~= s + unescape_body(r, 0));
    }
}

/// Unescaping undoes escaping: the body of a JSON string literal written for a text decodes
/// back to that text.
pub proof fn lemma_escape_roundtrip(s: Seq<char>)
    ensures
        unescape_body(json_escape(s), 0) == s,
{
    lemma_unescape_escaped(s, Seq::empty());
    assert(json_escape(s) + Seq::<char>::empty() =~= json_escape(s));
    assert(s + Seq::<char>::empty() =~= s);
}


/// A text written as a JSON string literal reads back as itself: quoting and escaping a
/// value, then reading it as a raw request value, gives the value.
pub proof fn lemma_quoted_roundtrip(s: Seq<char>)
    ensures
        unquoted(seq!['"'] + json_escape(s) + seq!['"']) == s,
{
    let t = seq!['"'] + json_escape(s) + seq!['"'];
    let n = t.len() as int;
    assert(t[0] == '"');
    assert(t[n - 1] == '"');
    assert(!in_class('"', CharClass::Space));
    assert(skip_fwd(t, 0, CharClass::Space) == 0);
    assert(t.subrange(0, n) =~= t);
    assert(trim_start_k(t, CharClass::Space) == t);
    assert(skip_back(t, n, CharClass::Space) == n);
    assert(trim(t) == t);
    assert(t.subrange(1, n - 1) =~= json_escape(s));
    lemma_escape_roundtrip(s);
}

} // verus!
