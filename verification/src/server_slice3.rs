//! Gateway server helpers: session bookkeeping, profile and cwd resolution, JSON-RPC frames,
//! compute-host bridging, approval prompts and image metadata.
use vstd::prelude::*;
use crate::number::{parse_u32_chars, parses_u32, int_value};
use crate::project_tree::{string_views, to_strings};
use crate::rpc_json::{int_decimal, int_decimal_exec, nat_decimal, nat_decimal_exec};
use crate::text::{
    accepts_all_text, called_with, char_views, chars_eq, chars_eq_str, find, find_exec,
    from_chars, insert_sorted_unique, join_char, join_char_exec, lex_lt, opt_string, opt_text,
    own_str, push_all, push_str, skip_back, skip_back_exec, skip_fwd, skip_fwd_exec, slice_vec,
    split_char, split_char_exec, starts_with, starts_with_str, strictly_sorted, to_chars,
    to_lowercase_str, trim, trim_exec, unicode_lower, CharClass,
};

verus! {

// ---------------------------------------------------------------------------
// Constants
// ---------------------------------------------------------------------------

/// Sources whose rows the startup sweep may close.
pub const ORPHAN_SWEEP_SOURCES: [&'static str; 3] = ["tui", "desktop", "subagent"];

/// Cwd values that are placeholders, not an explicit workspace.
pub const CWD_PLACEHOLDERS: [&'static str; 3] = [".", "auto", "cwd"];

/// Env var that marks the compute-host child process.
pub const COMPUTE_HOST_CHILD_ENV: &'static str = "HERMES_COMPUTE_HOST_CHILD";

/// Env var for the session TTL.
pub const ENV_SESSION_TTL_S: &'static str = "HERMES_TUI_SESSION_TTL_S";

/// Env var for the WS orphan grace.
pub const ENV_WS_ORPHAN_REAP_GRACE_S: &'static str = "HERMES_TUI_WS_ORPHAN_REAP_GRACE_S";

/// Marker in lifecycle status text while a conversation is being compacted.
pub const COMPACTION_STATUS_MARKER: &'static str = "[compacting]";

// ---------------------------------------------------------------------------
// Small predicates
// ---------------------------------------------------------------------------

/// Whether `raw` is a cwd placeholder (`.`, `auto`, `cwd`, exactly).
pub fn is_cwd_placeholder(raw: &str) -> (r: bool)
    ensures
        r == (raw@ == "."@ || raw@ == "auto"@ || raw@ == "cwd"@),
{
    let v = to_chars(raw);
    chars_eq_str(v.as_slice(), ".") || chars_eq_str(v.as_slice(), "auto") || chars_eq_str(
        v.as_slice(),
        "cwd",
    )
}

/// Whether `source` may have its rows closed by the startup sweep.
pub fn is_orphan_sweep_source(source: &str) -> (r: bool)
    ensures
        r == (source@ == "tui"@ || source@ == "desktop"@ || source@ == "subagent"@),
{
    let v = to_chars(source);
    chars_eq_str(v.as_slice(), "tui") || chars_eq_str(v.as_slice(), "desktop") || chars_eq_str(
        v.as_slice(),
        "subagent",
    )
}

/// Truthiness of an optional setting: absent → `default`; after trimming and lower-casing,
/// `1`/`true`/`yes`/`on` → true, `0`/`false`/`no`/`off`/empty → false, anything else →
/// `default`.
pub open spec fn truthy_or(raw: Option<Seq<char>>, default: bool) -> bool {
    match raw {
        None => default,
        Some(s) => {
            let t = unicode_lower(trim(s));
            if t == "1"@ || t == "true"@ || t == "yes"@ || t == "on"@ {
                true
            } else if t == "0"@ || t == "false"@ || t == "no"@ || t == "off"@ || t.len() == 0 {
                false
            } else {
                default
            }
        },
    }
}

pub fn is_truthy_value(raw: Option<&str>, default: bool) -> (r: bool)
    ensures
        r == truthy_or(opt_text(raw), default),
{
    match raw {
        None => default,
        Some(s) => {
            let v = to_chars(s);
            let t = trim_exec(v.as_slice());
            let ts = from_chars(t.as_slice());
            let l = to_lowercase_str(ts.as_str());
            let lc = to_chars(l.as_str());
            let x = lc.as_slice();
            if chars_eq_str(x, "1") || chars_eq_str(x, "true") || chars_eq_str(x, "yes")
                || chars_eq_str(x, "on") {
                true
            } else if chars_eq_str(x, "0") || chars_eq_str(x, "false") || chars_eq_str(x, "no")
                || chars_eq_str(x, "off") || x.len() == 0 {
                false
            } else {
                default
            }
        },
    }
}

// ---------------------------------------------------------------------------
// Startup orphan sweep
// ---------------------------------------------------------------------------

/// The once-per-process gate of the startup sweep.
#[derive(Debug)]
pub struct StartupSweepState {
    ran: bool,
}

impl Default for StartupSweepState {
    fn default() -> (r: Self)
        ensures
            !r.has_ran_spec(),
    {
        StartupSweepState { ran: false }
    }
}

impl StartupSweepState {
    pub closed spec fn has_ran_spec(&self) -> bool {
        self.ran
    }

    pub fn new() -> (r: Self)
        ensures
            !r.has_ran_spec(),
    {
        StartupSweepState { ran: false }
    }

    pub fn has_ran(&self) -> (r: bool)
        ensures
            r == self.has_ran_spec(),
    {
        self.ran
    }

    /// Marks the sweep as run; true only for the call that did so.
    pub fn mark_ran(&mut self) -> (r: bool)
        ensures
            r == !old(self).has_ran_spec(),
            final(self).has_ran_spec(),
    {
        if self.ran {
            return false;
        }
        self.ran = true;
        true
    }

    pub fn reset_for_test(&mut self)
        ensures
            !final(self).has_ran_spec(),
    {
        self.ran = false;
    }
}

/// Whether the startup orphan reaper is enabled: on when the setting is absent.
pub fn orphan_reaper_enabled(dashboard_cfg_value: Option<&str>) -> (r: bool)
    ensures
        r == truthy_or(opt_text(dashboard_cfg_value), true),
{
    match dashboard_cfg_value {
        None => true,
        Some(v) => is_truthy_value(Some(v), true),
    }
}

/// A live session as the id collector sees it.
#[derive(Debug, Clone, Default, PartialEq, Eq)]
pub struct SessionRef {
    pub sid: String,
    pub session_key: Option<String>,
    pub agent_session_id: Option<String>,
}

/// `s` is a non-empty id of some live session: its registry id, its agent's session id or
/// its session key.
pub open spec fn live_id(registry: Seq<SessionRef>, s: Seq<char>) -> bool {
    s.len() > 0 && exists|i: int|
        0 <= i < registry.len() && (registry[i].sid@ == s || opt_string(
            #[trigger] registry[i].agent_session_id,
        ) == Some(s) || opt_string(registry[i].session_key) == Some(s))
}

fn insert_nonempty(out: &mut Vec<Vec<char>>, s: &str)
    requires
        strictly_sorted(char_views(old(out)@)),
    ensures
        strictly_sorted(char_views(final(out)@)),
        forall|t: Seq<char>|
            char_views(final(out)@).contains(t) <==> (char_views(old(out)@).contains(t) || (t
                == s@ && s@.len() > 0)),
{
    let v = to_chars(s);
    if v.len() > 0 {
        insert_sorted_unique(out, v);
    }
}

/// The ids of the live sessions, each once, in sorted order.
pub fn live_session_ids_from_registry(registry: &[SessionRef]) -> (r: Vec<String>)
    ensures
        strictly_sorted(string_views(r@)),
        forall|s: Seq<char>| string_views(r@).contains(s) <==> live_id(registry@, s),
{
    let mut out: Vec<Vec<char>> = Vec::new();
    let mut i: usize = 0;
    while i < registry.len()
        invariant
            i <= registry@.len(),
            strictly_sorted(char_views(out@)),
            forall|s: Seq<char>|
                char_views(out@).contains(s) <==> live_id(registry@.subrange(0, i as int), s),
        decreases registry@.len() - i,
    {
        let ghost before = char_views(out@);
        let e = &registry[i];
        insert_nonempty(&mut out, e.sid.as_str());
        if let Some(a) = &e.agent_session_id {
            insert_nonempty(&mut out, a.as_str());
        }
        if let Some(k) = &e.session_key {
            insert_nonempty(&mut out, k.as_str());
        }
        proof {
            let pre = registry@.subrange(0, i as int);
            let post = registry@.subrange(0, i + 1);
            assert forall|s: Seq<char>| char_views(out@).contains(s) <==> live_id(post, s) by {
                if live_id(pre, s) {
                    let w = choose|w: int|
                        0 <= w < pre.len() && (pre[w].sid@ == s || opt_string(
                            #[trigger] pre[w].agent_session_id,
                        ) == Some(s) || opt_string(pre[w].session_key) == Some(s));
                    assert(post[w] == pre[w]);
                }
                if live_id(post, s) {
                    let w = choose|w: int|
                        0 <= w < post.len() && (post[w].sid@ == s || opt_string(
                            #[trigger] post[w].agent_session_id,
                        ) == Some(s) || opt_string(post[w].session_key) == Some(s));
                    if w < i {
                        assert(pre[w] == post[w]);
                    }
                }
                if s.len() > 0 && (e.sid@ == s || opt_string(e.agent_session_id) == Some(s)
                    || opt_string(e.session_key) == Some(s)) {
                    assert(post[i as int] == *e);
                }
            }
        }
        i = i + 1;
    }
    assert(registry@.subrange(0, registry@.len() as int) =~= registry@);
    to_strings(&out)
}

// ---------------------------------------------------------------------------
// Profile state database routing
// ---------------------------------------------------------------------------

/// `name` joined under the directory `base` (a `/`-separated path): `name` itself when it is
/// absolute or `base` is empty, else with one separator between them.
pub open spec fn join_path(base: Seq<char>, name: Seq<char>) -> Seq<char> {
    if name.len() > 0 && name[0] == '/' {
        name
    } else if base.len() == 0 {
        name
    } else if base.last() == '/' {
        base + name
    } else {
        base + "/"@ + name
    }
}

pub fn join_path_exec(base: &str, name: &str) -> (r: String)
    ensures
        r@ == join_path(base@, name@),
{
    let b = to_chars(base);
    let n = to_chars(name);
    if n.len() > 0 && n[0] == '/' {
        return from_chars(n.as_slice());
    }
    if b.len() == 0 {
        return from_chars(n.as_slice());
    }
    let mut out = slice_vec(b.as_slice(), 0, b.len());
    assert(b@.subrange(0, b@.len() as int) =~= b@);
    if b[b.len() - 1] != '/' {
        out.push('/');
    }
    push_all(&mut out, n.as_slice());
    proof {
        reveal_strlit("/");
    }
    assert(out@ =~= join_path(base@, name@));
    from_chars(out.as_slice())
}

/// Whether the startup orphan sweep is scheduled, and why not.
#[derive(Debug, Clone, PartialEq, Eq)]
pub enum StartupSweepGuardAction {
    /// Not scheduled, for the given reason.
    Skip(&'static str),
    /// Scheduled after the grace, in milliseconds.
    Schedule { grace_ms: i64 },
}

/// The startup orphan sweep runs once, after the orphan-reap grace, when the grace and the
/// session TTL are both positive and the reaper is enabled.
pub fn startup_sweep_guard(
    ws_grace_ms: i64,
    ttl_ms: i64,
    orphan_reaper_enabled: bool,
    already_ran: bool,
) -> (r: StartupSweepGuardAction)
    ensures
        ws_grace_ms <= 0 ==> (r matches StartupSweepGuardAction::Skip(w) && w@ == "ws_grace_disabled"@),
        ws_grace_ms > 0 && ttl_ms <= 0 ==> (r matches StartupSweepGuardAction::Skip(w) && w@
            == "ttl_disabled"@),
        ws_grace_ms > 0 && ttl_ms > 0 && !orphan_reaper_enabled ==> (r matches StartupSweepGuardAction::Skip(
            w,
        ) && w@ == "reaper_disabled"@),
        ws_grace_ms > 0 && ttl_ms > 0 && orphan_reaper_enabled && already_ran ==> (r matches StartupSweepGuardAction::Skip(
            w,
        ) && w@ == "already_ran"@),
        ws_grace_ms > 0 && ttl_ms > 0 && orphan_reaper_enabled && !already_ran ==> r
            == (StartupSweepGuardAction::Schedule { grace_ms: ws_grace_ms }),
{
    if ws_grace_ms <= 0 {
        proof {
            reveal_strlit("ws_grace_disabled");
        }
        return StartupSweepGuardAction::Skip("ws_grace_disabled");
    }
    if ttl_ms <= 0 {
        proof {
            reveal_strlit("ttl_disabled");
        }
        return StartupSweepGuardAction::Skip("ttl_disabled");
    }
    if !orphan_reaper_enabled {
        proof {
            reveal_strlit("reaper_disabled");
        }
        return StartupSweepGuardAction::Skip("reaper_disabled");
    }
    if already_ran {
        proof {
            reveal_strlit("already_ran");
        }
        return StartupSweepGuardAction::Skip("already_ran");
    }
    StartupSweepGuardAction::Schedule { grace_ms: ws_grace_ms }
}

/// The arguments of a sweep of orphaned rows: the idle limit in milliseconds, the sources
/// swept and the ids kept.
#[derive(Debug, Clone, PartialEq)]
pub struct SweepArgs {
    pub max_idle_ms: i64,
    pub sources: Vec<String>,
    pub exclude_ids: Vec<String>,
}

/// A sweep of orphaned rows runs only with a database and a positive TTL.
pub fn should_sweep_orphans(db_available: bool, ttl_ms: i64) -> (r: bool)
    ensures
        r == (db_available && ttl_ms > 0),
{
    db_available && ttl_ms > 0
}

/// The arguments of the sweep when it runs: the TTL as idle limit, the orphan-sweep sources
/// and the ids to keep.
pub fn sweep_orphaned_args(db_available: bool, ttl_ms: i64, exclude_ids: Vec<String>) -> (r: Option<
    SweepArgs,
>)
    ensures
        r is Some == (db_available && ttl_ms > 0),
        r matches Some(a) ==> a.max_idle_ms == ttl_ms && a.exclude_ids == exclude_ids && a.sources@.len()
            == 3 && forall|i: int| 0 <= i < 3 ==> #[trigger] a.sources@[i]@ == ORPHAN_SWEEP_SOURCES@[i]@,
{
    if !should_sweep_orphans(db_available, ttl_ms) {
        return None;
    }
    let table = ORPHAN_SWEEP_SOURCES;
    let mut sources: Vec<String> = Vec::new();
    let mut i: usize = 0;
    while i < 3
        invariant
            i <= 3,
            table@ == ORPHAN_SWEEP_SOURCES@,
            sources@.len() == i,
            forall|j: int| 0 <= j < i ==> #[trigger] sources@[j]@ == ORPHAN_SWEEP_SOURCES@[j]@,
        decreases 3 - i,
    {
        sources.push(own_str(table[i]));
        i = i + 1;
    }
    Some(SweepArgs { max_idle_ms: ttl_ms, sources, exclude_ids })
}

/// A handle on a session state database.
#[derive(Debug, Clone, PartialEq, Eq, Default)]
pub struct SessionDbStub {
    pub db_path: String,
    pub is_shared: bool,
}

impl SessionDbStub {
    /// The shared launch handle.
    pub fn shared() -> (r: Self)
        ensures
            r.db_path@ == "state.db"@,
            r.is_shared,
    {
        SessionDbStub { db_path: own_str("state.db"), is_shared: true }
    }

    /// A dedicated handle on the database at `path`.
    pub fn for_profile(path: &str) -> (r: Self)
        ensures
            r.db_path@ == path@,
            !r.is_shared,
    {
        SessionDbStub { db_path: own_str(path), is_shared: false }
    }

    /// The stub's sweep of orphaned rows: it removes nothing.
    pub fn sweep_orphaned_sessions(&self, max_idle_ms: i64, sources: &[String], exclude: &[String]) -> (r: Vec<
        String,
    >)
        ensures
            r@.len() == 0,
    {
        Vec::new()
    }

    /// Sweeps orphaned rows with `sweep`, handed the idle limit, sources and exclusions.
    pub fn sweep_orphaned_sessions_with<F: Fn(i64, &[String], &[String]) -> Vec<String>>(
        &self,
        max_idle_ms: i64,
        sources: &[String],
        exclude: &[String],
        sweep: F,
    ) -> (r: Vec<String>)
        requires
            call_requires(sweep, (max_idle_ms, sources, exclude)),
        ensures
            call_ensures(sweep, (max_idle_ms, sources, exclude), r),
    {
        sweep(max_idle_ms, sources, exclude)
    }
}

/// Which database a profile's requests use.
#[derive(Debug, Clone, PartialEq, Eq)]
pub enum DbProfileRoute {
    /// The shared launch handle (never closed here).
    Shared,
    /// A dedicated handle on the database at this path (closed when done).
    Dedicated(String),
    /// No database.
    Unavailable,
}

/// The launch profile uses the shared handle; another profile its own `state.db`.
pub fn db_for_profile(profile_home: Option<String>) -> (r: DbProfileRoute)
    ensures
        match profile_home {
            None => r == DbProfileRoute::Shared,
            Some(home) => r matches DbProfileRoute::Dedicated(p) && p@ == join_path(
                home@,
                "state.db"@,
            ),
        },
{
    match profile_home {
        None => DbProfileRoute::Shared,
        Some(home) => DbProfileRoute::Dedicated(join_path_exec(home.as_str(), "state.db")),
    }
}

/// Whether a database handle may pass to an agent: the agent holds this very database, and
/// it is not the shared handle.
pub fn transfer_db_to_agent(agent_db_path: Option<&str>, db_path: Option<&str>, is_shared_db: bool) -> (r:
    bool)
    ensures
        r == (agent_db_path.is_some() && db_path.is_some() && agent_db_path.unwrap()@
            == db_path.unwrap()@ && !is_shared_db),
{
    match (agent_db_path, db_path) {
        (Some(a), Some(d)) => {
            let av = to_chars(a);
            let dv = to_chars(d);
            chars_eq(av.as_slice(), dv.as_slice()) && !is_shared_db
        },
        _ => false,
    }
}

/// The database a profile's request scope uses, and whether the scope owns (and closes) it.
#[derive(Debug, Clone, PartialEq, Eq)]
pub struct ProfileDbScope {
    pub path: Option<String>,
    pub owns_handle: bool,
}

impl ProfileDbScope {
    pub fn for_params(profile_home: Option<String>) -> (r: Self)
        ensures
            match profile_home {
                None => r.path is None && !r.owns_handle,
                Some(home) => r.path matches Some(p) && p@ == join_path(home@, "state.db"@)
                    && r.owns_handle,
            },
    {
        match profile_home {
            None => ProfileDbScope { path: None, owns_handle: false },
            Some(home) => ProfileDbScope {
                path: Some(join_path_exec(home.as_str(), "state.db")),
                owns_handle: true,
            },
        }
    }

    /// Whether the handle is closed when the scope ends.
    pub fn should_close(&self, db_available: bool) -> (r: bool)
        ensures
            r == (self.owns_handle && db_available),
    {
        self.owns_handle && db_available
    }
}

/// The profile named on `session.*` payloads: the requested one (trimmed) when it names a
/// resolved profile home, else the launch profile.
pub fn response_profile_name(
    requested: Option<&str>,
    profile_home: Option<&str>,
    current_profile: &str,
) -> (r: String)
    ensures
        r@ == (if requested.is_some() && trim(requested.unwrap()@).len() > 0
            && profile_home.is_some() {
            trim(requested.unwrap()@)
        } else {
            current_profile@
        }),
{
    if let Some(name) = requested {
        let v = to_chars(name);
        let t = trim_exec(v.as_slice());
        if t.len() > 0 && profile_home.is_some() {
            return from_chars(t.as_slice());
        }
    }
    own_str(current_profile)
}

/// Error payload for an unavailable state database.
#[derive(Debug, Clone, PartialEq, Eq)]
pub struct DbUnavailableError {
    pub code: i32,
    pub message: String,
}

/// `s` with every `from` replaced by `to`.
pub open spec fn replace_char(s: Seq<char>, from: char, to: char) -> Seq<char> {
    s.map_values(|c: char| if c == from { to } else { c })
}

fn replace_char_exec(s: &[char], from: char, to: char) -> (r: Vec<char>)
    ensures
        r@ == replace_char(s@, from, to),
{
    let mut out: Vec<char> = Vec::new();
    let mut i: usize = 0;
    while i < s.len()
        invariant
            i <= s@.len(),
            out@ == replace_char(s@.subrange(0, i as int), from, to),
        decreases s@.len() - i,
    {
        let c = s[i];
        out.push(if c == from { to } else { c });
        assert(replace_char(s@.subrange(0, i + 1), from, to) =~= replace_char(s@.subrange(0, i as int), from, to).push(if c == from { to } else { c }));
        i = i + 1;
    }
    assert(s@.subrange(0, s@.len() as int) =~= s@);
    out
}

/// The JSON-RPC error line for an unavailable state database.
pub open spec fn db_unavailable_line(rid: Option<Seq<char>>, code: int, detail: Option<Seq<char>>) -> Seq<char> {
    let d = match detail {
        Some(x) => x,
        None => "state.db unavailable"@,
    };
    let id = match rid {
        Some(r) => "\""@ + r + "\""@,
        None => "null"@,
    };
    "{\"jsonrpc\":\"2.0\",\"id\":"@ + id + ",\"error\":{\"code\":"@ + int_decimal(code)
        + ",\"message\":\"state.db unavailable: "@ + replace_char(d, '"', '\'') + "\"}}"@
}

pub fn db_unavailable_error(rid: Option<&str>, code: i32, detail: Option<&str>) -> (r: String)
    ensures
        r@ == db_unavailable_line(opt_text(rid), code as int, opt_text(detail)),
{
    let d = match detail {
        Some(x) => to_chars(x),
        None => to_chars("state.db unavailable"),
    };
    let mut out: Vec<char> = Vec::new();
    push_str(&mut out, "{\"jsonrpc\":\"2.0\",\"id\":");
    match rid {
        Some(r) => {
            out.push('"');
            push_str(&mut out, r);
            out.push('"');
        },
        None => push_str(&mut out, "null"),
    }
    push_str(&mut out, ",\"error\":{\"code\":");
    let c = int_decimal_exec(code as i64);
    push_all(&mut out, c.as_slice());
    push_str(&mut out, ",\"message\":\"state.db unavailable: ");
    let rd = replace_char_exec(d.as_slice(), '"', '\'');
    push_all(&mut out, rd.as_slice());
    push_str(&mut out, "\"}}");
    proof {
        reveal_strlit("\"");
    }
    assert(out@ =~= db_unavailable_line(opt_text(rid), code as int, opt_text(detail)));
    from_chars(out.as_slice())
}

// ---------------------------------------------------------------------------
// Per-session profile scoping
// ---------------------------------------------------------------------------

/// The pieces of a `/`-separated path that name something: not empty and not `.`.
pub open spec fn normal_pieces(ps: Seq<Seq<char>>) -> Seq<Seq<char>>
    decreases ps.len(),
{
    if ps.len() == 0 {
        Seq::empty()
    } else {
        let rest = normal_pieces(ps.drop_last());
        if ps.last().len() > 0 && ps.last() != "."@ {
            rest.push(ps.last())
        } else {
            rest
        }
    }
}

/// Two paths name the same place component by component: both rooted or neither, both or
/// neither starting at `.`, and the same named pieces (repeated separators and `.` pieces
/// do not count).
pub open spec fn same_path(a: Seq<char>, b: Seq<char>) -> bool {
    let ra = a.len() > 0 && a[0] == '/';
    let rb = b.len() > 0 && b[0] == '/';
    let ca = !ra && split_char(a, '/')[0] == "."@;
    let cb = !rb && split_char(b, '/')[0] == "."@;
    ra == rb && ca == cb && normal_pieces(split_char(a, '/')) == normal_pieces(split_char(b, '/'))
}

fn normal_pieces_exec(ps: &Vec<Vec<char>>) -> (r: Vec<Vec<char>>)
    ensures
        char_views(r@) == normal_pieces(char_views(ps@)),
{
    let ghost v = char_views(ps@);
    let mut out: Vec<Vec<char>> = Vec::new();
    let mut i: usize = 0;
    while i < ps.len()
        invariant
            i <= ps@.len(),
            v == char_views(ps@),
            char_views(out@) == normal_pieces(v.subrange(0, i as int)),
        decreases ps@.len() - i,
    {
        let ghost before = char_views(out@);
        proof {
            assert(v.subrange(0, i + 1).drop_last() =~= v.subrange(0, i as int));
        }
        if ps[i].len() > 0 && !chars_eq_str(ps[i].as_slice(), ".") {
            let x = slice_vec(ps[i].as_slice(), 0, ps[i].len());
            out.push(x);
            proof {
                assert(ps@[i as int]@.subrange(0, ps@[i as int]@.len() as int) =~= ps@[i as int]@);
                assert(char_views(out@) =~= before.push(x@));
            }
        }
        i = i + 1;
    }
    assert(v.subrange(0, ps@.len() as int) =~= v);
    out
}

fn same_path_exec(a: &[char], b: &[char]) -> (r: bool)
    ensures
        r == same_path(a@, b@),
{
    let ra = a.len() > 0 && a[0] == '/';
    let rb = b.len() > 0 && b[0] == '/';
    let pa = split_char_exec(a, '/');
    let pb = split_char_exec(b, '/');
    let ca = !ra && chars_eq_str(pa[0].as_slice(), ".");
    let cb = !rb && chars_eq_str(pb[0].as_slice(), ".");
    assert(char_views(pa@)[0] == pa@[0]@);
    assert(char_views(pb@)[0] == pb@[0]@);
    if ra != rb || ca != cb {
        return false;
    }
    let na = normal_pieces_exec(&pa);
    let nb = normal_pieces_exec(&pb);
    assert(char_views(na@).len() == na@.len());
    assert(char_views(nb@).len() == nb@.len());
    assert(char_views(na@) == normal_pieces(split_char(a@, '/')));
    assert(char_views(nb@) == normal_pieces(split_char(b@, '/')));
    if na.len() != nb.len() {
        assert(char_views(na@).len() != char_views(nb@).len());
        return false;
    }
    let mut i: usize = 0;
    while i < na.len()
        invariant
            i <= na@.len(),
            na@.len() == nb@.len(),
            same_path(a@, b@) == (char_views(na@) == char_views(nb@)),
            forall|t: int| 0 <= t < i ==> char_views(na@)[t] == char_views(nb@)[t],
        decreases na@.len() - i,
    {
        if !chars_eq(na[i].as_slice(), nb[i].as_slice()) {
            assert(char_views(na@)[i as int] != char_views(nb@)[i as int]);
            return false;
        }
        i = i + 1;
    }
    assert(char_views(na@) =~= char_views(nb@));
    true
}

/// The home of a named profile other than the launch one: trims the name, asks
/// `get_profile_dir` for its home, and keeps it only when it is not the launch home and
/// `home_exists` says it exists.
pub open spec fn profile_home_outcome<G: Fn(&str) -> Option<String>, E: Fn(&str) -> bool>(
    profile: Option<Seq<char>>,
    hermes_home: Seq<char>,
    get_profile_dir: G,
    home_exists: E,
    r: Option<Seq<char>>,
) -> bool {
    match profile {
        None => r is None,
        Some(p) => if trim(p).len() == 0 {
            r is None
        } else {
            exists|home: Option<String>|
                #[trigger] called_with(get_profile_dir, trim(p), home) && match home {
                    None => r is None,
                    Some(h) => if same_path(h@, hermes_home) {
                        r is None
                    } else {
                        exists|ok: bool|
                            #[trigger] called_with(home_exists, h@, ok) && r == (if ok {
                                Some(h@)
                            } else {
                                None
                            })
                    },
                }
        },
    }
}

pub fn resolve_profile_home<G: Fn(&str) -> Option<String>, E: Fn(&str) -> bool>(
    profile: Option<&str>,
    hermes_home: &str,
    get_profile_dir: G,
    home_exists: E,
) -> (r: Option<String>)
    requires
        profile matches Some(p) ==> forall|x: &str| x@ == trim(p@) ==> #[trigger] get_profile_dir.requires((x,)),
        profile matches Some(p) ==> forall|x: &str|
            (exists|h: String| h@ == x@ && called_with(get_profile_dir, trim(p@), Some(h)))
                ==> #[trigger] home_exists.requires((x,)),
    ensures
        profile_home_outcome(
            opt_text(profile),
            hermes_home@,
            get_profile_dir,
            home_exists,
            opt_string(r),
        ),
{
    let name = match profile {
        None => {
            return None;
        },
        Some(p) => {
            let v = to_chars(p);
            trim_exec(v.as_slice())
        },
    };
    if name.len() == 0 {
        return None;
    }
    let ns = from_chars(name.as_slice());
    let got = get_profile_dir(ns.as_str());
    proof {
        assert(called_with(get_profile_dir, name@, got));
    }
    match got {
        None => None,
        Some(home) => {
            let hv = to_chars(home.as_str());
            let lv = to_chars(hermes_home);
            if same_path_exec(hv.as_slice(), lv.as_slice()) {
                return None;
            }
            let ok = home_exists(home.as_str());
            proof {
                assert(called_with(home_exists, home@, ok));
            }
            if ok {
                Some(home)
            } else {
                None
            }
        },
    }
}

/// Runs `handler` under a profile home override: with a home, sets the override first and
/// resets it with the token it gave afterwards; without one, just runs `handler`.
pub fn profile_scoped_call<R, S: FnMut(&str) -> String, T: FnMut(String), H: FnOnce() -> R>(
    home: Option<&str>,
    set_override: S,
    reset_override: T,
    handler: H,
) -> (r: R)
    requires
        home matches Some(h) ==> forall|p: &str| p@ == h@ ==> #[trigger] set_override.requires((p,)),
        home matches Some(h) ==> forall|t: String|
            (exists|p: &str| p@ == h@ && #[trigger] set_override.ensures((p,), t)) ==> #[trigger] reset_override.requires(
                (t,),
            ),
        handler.requires(()),
    ensures
        handler.ensures((), r),
        home matches Some(h) ==> exists|p: &str, t: String|
            p@ == h@ && #[trigger] set_override.ensures((p,), t) && #[trigger] reset_override.ensures((t,), ()),
{
    let ghost set0 = set_override;
    let ghost reset0 = reset_override;
    let mut set_override = set_override;
    let mut reset_override = reset_override;
    match home {
        Some(h) => {
            let token = set_override(h);
            assert(set0.ensures((h,), token));
            assert(exists|p: &str| p@ == h@ && #[trigger] set0.ensures((p,), token));
            let ghost tk = token;
            let res = handler();
            reset_override(token);
            assert(reset0.ensures((tk,), ()));
            res
        },
        None => handler(),
    }
}

// ---------------------------------------------------------------------------
// Cwd resolution
// ---------------------------------------------------------------------------

/// The directory a configured `terminal.cwd` names, before asking whether it exists: the
/// trimmed value, not blank and not a placeholder, with a leading `~` expanded to
/// `/home/test`, and absolute.
pub open spec fn cwd_candidate(raw: Option<Seq<char>>) -> Option<Seq<char>> {
    match raw {
        None => None,
        Some(r) => {
            let t = trim(r);
            if t.len() == 0 || t == "."@ || t == "auto"@ || t == "cwd"@ {
                None
            } else {
                let e = if starts_with(t, "~/"@) || t == "~"@ {
                    "/home/test"@ + t.drop_first()
                } else {
                    t
                };
                if e.len() > 0 && e[0] == '/' {
                    Some(e)
                } else {
                    None
                }
            }
        },
    }
}

/// `r` is what the cwd check gives for `raw`: the candidate directory when `is_dir` says
/// it is one.
pub open spec fn cwd_outcome<D: Fn(&str) -> bool>(raw: Option<Seq<char>>, is_dir: D, r: Option<Seq<char>>) -> bool {
    &&& cwd_candidate(raw) is None ==> r is None
    &&& cwd_candidate(raw) is Some ==> exists|ok: bool|
        #[trigger] called_with(is_dir, cwd_candidate(raw)->0, ok) && r == (if ok {
            cwd_candidate(raw)
        } else {
            None
        })
}

fn cwd_candidate_exec(raw: Option<&str>) -> (r: Option<Vec<char>>)
    ensures
        match r {
            Some(v) => cwd_candidate(opt_text(raw)) == Some(v@),
            None => cwd_candidate(opt_text(raw)) is None,
        },
{
    let rv = match raw {
        None => {
            return None;
        },
        Some(s) => to_chars(s),
    };
    let t = trim_exec(rv.as_slice());
    let ts = t.as_slice();
    if ts.len() == 0 || chars_eq_str(ts, ".") || chars_eq_str(ts, "auto") || chars_eq_str(ts, "cwd") {
        return None;
    }
    let e = if starts_with_str(ts, "~/") || chars_eq_str(ts, "~") {
        let mut out = to_chars("/home/test");
        let rest = slice_vec(ts, 1, ts.len());
        push_all(&mut out, rest.as_slice());
        proof {
            assert(t@.drop_first() =~= t@.subrange(1, t@.len() as int));
        }
        out
    } else {
        t
    };
    if e.len() > 0 && e[0] == '/' {
        Some(e)
    } else {
        None
    }
}

/// The configured cwd from a raw `terminal.cwd` value, when it names an existing directory.
pub fn configured_cwd_from_raw<D: Fn(&str) -> bool>(raw_cwd: Option<&str>, is_dir: D) -> (r:
    Option<String>)
    requires
        forall|x: &str| cwd_candidate(opt_text(raw_cwd)) == Some(x@) ==> #[trigger] is_dir.requires((x,)),
    ensures
        cwd_outcome(opt_text(raw_cwd), is_dir, opt_string(r)),
{
    match cwd_candidate_exec(raw_cwd) {
        None => {
            assert(cwd_outcome(opt_text(raw_cwd), is_dir, None));
            None
        },
        Some(c) => {
            let cs = from_chars(c.as_slice());
            let ok = is_dir(cs.as_str());
            proof {
                assert(called_with(is_dir, c@, ok));
                assert(cwd_candidate(opt_text(raw_cwd)) is Some);
                assert(cwd_candidate(opt_text(raw_cwd))->0 == c@);
                assert(called_with(is_dir, cwd_candidate(opt_text(raw_cwd))->0, ok));
            }
            if ok {
                assert(cwd_outcome(opt_text(raw_cwd), is_dir, Some(cs@)));
                Some(cs)
            } else {
                assert(cwd_outcome(opt_text(raw_cwd), is_dir, None));
                None
            }
        },
    }
}

/// The configured cwd from the `terminal.cwd` value of a config.
pub fn configured_cwd_from_cfg<D: Fn(&str) -> bool>(terminal_cwd: Option<&str>, is_dir: D) -> (r:
    Option<String>)
    requires
        forall|x: &str| cwd_candidate(opt_text(terminal_cwd)) == Some(x@) ==> #[trigger] is_dir.requires((x,)),
    ensures
        cwd_outcome(opt_text(terminal_cwd), is_dir, opt_string(r)),
{
    configured_cwd_from_raw(terminal_cwd, is_dir)
}

/// The configured cwd of a non-launch profile: reads `config.yaml` under its home with
/// `read_raw` and checks the `terminal.cwd` value it gives.
pub fn profile_configured_cwd<F: Fn(&str) -> Option<String>, D: Fn(&str) -> bool>(
    profile_home: Option<&str>,
    read_raw: F,
    is_dir: D,
) -> (r: Option<String>)
    requires
        profile_home matches Some(home) ==> forall|x: &str|
            x@ == join_path(home@, "config.yaml"@) ==> #[trigger] read_raw.requires((x,)),
        profile_home matches Some(home) ==> forall|x: &str|
            (exists|raw: String|
                called_with(read_raw, join_path(home@, "config.yaml"@), Some(raw)) && cwd_candidate(Some(raw@))
                    == Some(x@)) ==> #[trigger] is_dir.requires((x,)),
    ensures
        match profile_home {
            None => r is None,
            Some(home) => exists|raw: Option<String>|
                #[trigger] called_with(read_raw, join_path(home@, "config.yaml"@), raw) && match raw {
                    None => r is None,
                    Some(x) => cwd_outcome(Some(x@), is_dir, opt_string(r)),
                },
        },
{
    let home = match profile_home {
        None => {
            return None;
        },
        Some(h) => h,
    };
    let cfg = join_path_exec(home, "config.yaml");
    let raw = read_raw(cfg.as_str());
    proof {
        assert(called_with(read_raw, join_path(home@, "config.yaml"@), raw));
    }
    match raw {
        None => None,
        Some(x) => configured_cwd_from_raw(Some(x.as_str()), is_dir),
    }
}

/// The configured cwd of the launch profile, from the `terminal.cwd` value `load` gives.
pub fn launch_configured_cwd<L: Fn() -> Option<String>, D: Fn(&str) -> bool>(load_cfg_terminal_cwd: L, is_dir: D) -> (r:
    Option<String>)
    requires
        load_cfg_terminal_cwd.requires(()),
        forall|x: &str|
            (exists|raw: Option<String>|
                load_cfg_terminal_cwd.ensures((), raw) && cwd_candidate(opt_string(raw)) == Some(x@))
                ==> #[trigger] is_dir.requires((x,)),
    ensures
        exists|raw: Option<String>|
            #[trigger] load_cfg_terminal_cwd.ensures((), raw) && cwd_outcome(
                opt_string(raw),
                is_dir,
                opt_string(r),
            ),
{
    let raw = load_cfg_terminal_cwd();
    match raw {
        None => {
            let r = configured_cwd_from_raw(None, is_dir);
            proof {
                assert(load_cfg_terminal_cwd.ensures((), raw));
            }
            r
        },
        Some(x) => {
            proof {
                assert(load_cfg_terminal_cwd.ensures((), raw));
                assert forall|y: &str| cwd_candidate(Some(x@)) == Some(y@) implies #[trigger] is_dir.requires(
                    (y,),
                ) by {
                    assert(opt_string(raw) == Some(x@));
                    assert(load_cfg_terminal_cwd.ensures((), raw) && cwd_candidate(opt_string(raw)) == Some(y@));
                }
            }
            configured_cwd_from_raw(Some(x.as_str()), is_dir)
        },
    }
}

/// The cwd of a new session: the configured launch cwd, else the trimmed `TERMINAL_CWD`
/// when not blank, else the process cwd `getcwd` gives.
pub fn default_session_cwd<G: Fn() -> String>(
    launch_cwd: Option<String>,
    env_terminal_cwd: Option<&str>,
    getcwd: G,
) -> (r: String)
    requires
        getcwd.requires(()),
    ensures
        match launch_cwd {
            Some(p) => r == p,
            None => if env_terminal_cwd.is_some() && trim(env_terminal_cwd.unwrap()@).len() > 0 {
                r@ == trim(env_terminal_cwd.unwrap()@)
            } else {
                getcwd.ensures((), r)
            },
        },
{
    if let Some(p) = launch_cwd {
        return p;
    }
    if let Some(raw) = env_terminal_cwd {
        let v = to_chars(raw);
        let t = trim_exec(v.as_slice());
        if t.len() > 0 {
            return from_chars(t.as_slice());
        }
    }
    getcwd()
}

// ---------------------------------------------------------------------------
// Event frames and write routing
// ---------------------------------------------------------------------------

/// `s` with `\` and `"` escaped by a backslash (the only escaping these frames apply).
pub open spec fn min_escape(s: Seq<char>) -> Seq<char>
    decreases s.len(),
{
    if s.len() == 0 {
        Seq::empty()
    } else {
        let c = s.last();
        min_escape(s.drop_last()) + if c == '\\' || c == '"' {
            seq!['\\', c]
        } else {
            seq![c]
        }
    }
}

pub fn min_escape_exec(s: &str) -> (r: Vec<char>)
    ensures
        r@ == min_escape(s@),
{
    let v = to_chars(s);
    let mut out: Vec<char> = Vec::new();
    let mut i: usize = 0;
    while i < v.len()
        invariant
            i <= v@.len(),
            v@ == s@,
            out@ == min_escape(v@.subrange(0, i as int)),
        decreases v@.len() - i,
    {
        let c = v[i];
        proof {
            assert(v@.subrange(0, i + 1).drop_last() =~= v@.subrange(0, i as int));
        }
        if c == '\\' || c == '"' {
            out.push('\\');
        }
        out.push(c);
        proof {
            let before = min_escape(v@.subrange(0, i as int));
            if c == '\\' || c == '"' {
                assert(out@ =~= before + seq!['\\', c]);
            } else {
                assert(out@ =~= before + seq![c]);
            }
        }
        i = i + 1;
    }
    assert(v@.subrange(0, v@.len() as int) =~= v@);
    out
}

/// An event notification for a session.
#[derive(Debug, Clone, PartialEq, Eq)]
pub struct EventFrame {
    pub event: String,
    pub session_id: String,
    pub payload_json: Option<String>,
}

/// The JSON-RPC line of an event frame; the payload, when present, is inserted as given.
pub open spec fn event_line(event: Seq<char>, sid: Seq<char>, payload: Option<Seq<char>>) -> Seq<char> {
    "{\"jsonrpc\":\"2.0\",\"method\":\"event\",\"params\":{\"type\":\""@ + min_escape(event)
        + "\",\"session_id\":\""@ + min_escape(sid) + match payload {
        Some(p) => "\",\"payload\":"@ + p + "}}"@,
        None => "\"}}"@,
    }
}

impl EventFrame {
    pub fn new(event: &str, sid: &str, payload_json: Option<String>) -> (r: Self)
        ensures
            r.event@ == event@,
            r.session_id@ == sid@,
            r.payload_json == payload_json,
    {
        EventFrame { event: own_str(event), session_id: own_str(sid), payload_json }
    }

    pub fn to_json(&self) -> (r: String)
        ensures
            r@ == event_line(self.event@, self.session_id@, opt_string(self.payload_json)),
    {
        let mut out: Vec<char> = Vec::new();
        push_str(&mut out, "{\"jsonrpc\":\"2.0\",\"method\":\"event\",\"params\":{\"type\":\"");
        let e = min_escape_exec(self.event.as_str());
        push_all(&mut out, e.as_slice());
        push_str(&mut out, "\",\"session_id\":\"");
        let sv = min_escape_exec(self.session_id.as_str());
        push_all(&mut out, sv.as_slice());
        match &self.payload_json {
            Some(p) => {
                push_str(&mut out, "\",\"payload\":");
                push_str(&mut out, p.as_str());
                push_str(&mut out, "}}");
            },
            None => {
                push_str(&mut out, "\"}}");
            },
        }
        assert(out@ =~= event_line(self.event@, self.session_id@, opt_string(self.payload_json)));
        from_chars(out.as_slice())
    }
}

/// The JSON-RPC line of an event frame.
pub fn event_frame(event: &str, sid: &str, payload_json: Option<&str>) -> (r: String)
    ensures
        r@ == event_line(event@, sid@, opt_text(payload_json)),
{
    let p = match payload_json {
        Some(x) => Some(own_str(x)),
        None => None,
    };
    EventFrame::new(event, sid, p).to_json()
}

/// Where a JSON-RPC line goes.
#[derive(Debug, Clone, PartialEq, Eq)]
pub enum WriteTarget {
    /// The transport of the session the event names.
    SessionTransport { sid: String },
    /// The transport bound to the current context.
    CurrentTransport,
    /// Standard output.
    Stdio,
}

/// An event for a known session goes to that session's transport, else to the current
/// transport if there is one, else to standard output.
pub fn write_json_target(
    is_event: bool,
    session_id: Option<&str>,
    has_session_transport: bool,
    has_current_transport: bool,
) -> (r: WriteTarget)
    ensures
        if is_event && session_id.is_some() && session_id.unwrap()@.len() > 0
            && has_session_transport {
            r matches WriteTarget::SessionTransport { sid } && sid@ == session_id.unwrap()@
        } else if has_current_transport {
            r == WriteTarget::CurrentTransport
        } else {
            r == WriteTarget::Stdio
        },
{
    if is_event {
        if let Some(sid) = session_id {
            let v = to_chars(sid);
            if v.len() > 0 && has_session_transport {
                return WriteTarget::SessionTransport { sid: own_str(sid) };
            }
        }
    }
    if has_current_transport {
        return WriteTarget::CurrentTransport;
    }
    WriteTarget::Stdio
}

/// The set of live WebSocket peers.
#[derive(Debug, Default)]
pub struct LiveTransports {
    peers: Vec<String>,
}

impl LiveTransports {
    /// The peers, as a set of names.
    pub closed spec fn peer_set(&self) -> Set<Seq<char>> {
        string_views(self.peers@).to_set()
    }

    /// No name is held twice.
    #[verifier::type_invariant]
    spec fn wf(&self) -> bool {
        string_views(self.peers@).no_duplicates()
    }

    fn find_peer(&self, p: &[char]) -> (r: Option<usize>)
        ensures
            r matches Some(i) ==> i < self.peers@.len() && self.peers@[i as int]@ == p@,
            r is None ==> !string_views(self.peers@).contains(p@),
    {
        let mut i: usize = 0;
        while i < self.peers.len()
            invariant
                i <= self.peers@.len(),
                forall|t: int| 0 <= t < i ==> self.peers@[t]@ != p@,
            decreases self.peers@.len() - i,
        {
            let v = to_chars(self.peers[i].as_str());
            if chars_eq(v.as_slice(), p) {
                return Some(i);
            }
            i = i + 1;
        }
        proof {
            if string_views(self.peers@).contains(p@) {
                let k = choose|k: int| 0 <= k < string_views(self.peers@).len() && string_views(self.peers@)[k] == p@;
                assert(self.peers@[k]@ == p@);
            }
        }
        None
    }

    pub fn new() -> (r: Self)
        ensures
            r.peer_set() == Set::<Seq<char>>::empty(),
    {
        let r = LiveTransports { peers: Vec::new() };
        assert(string_views(r.peers@).to_set() =~= Set::<Seq<char>>::empty());
        r
    }

    /// Adds a named peer (an absent or empty name is ignored).
    pub fn register(&mut self, peer: Option<&str>)
        ensures
            final(self).peer_set() == (if peer.is_some() && peer.unwrap()@.len() > 0 {
                old(self).peer_set().insert(peer.unwrap()@)
            } else {
                old(self).peer_set()
            }),
    {
        proof {
            use_type_invariant(&*self);
        }
        if let Some(p) = peer {
            let v = to_chars(p);
            if v.len() > 0 {
                match self.find_peer(v.as_slice()) {
                    None => {
                        let ghost before = string_views(self.peers@);
                        let mut peers: Vec<String> = Vec::new();
                        std::mem::swap(&mut peers, &mut self.peers);
                        peers.push(own_str(p));
                        proof {
                            assert(string_views(peers@) =~= before.push(p@));
                            before.lemma_push_to_set_commute(p@);
                            assert forall|a: int, b: int|
                                0 <= a < b < before.len() + 1 implies string_views(peers@)[a]
                                != string_views(peers@)[b] by {
                                if b == before.len() {
                                    assert(before[a] == string_views(peers@)[a]);
                                }
                            }
                        }
                        self.peers = peers;
                    },
                    Some(i) => {
                        proof {
                            assert(string_views(self.peers@)[i as int] == self.peers@[i as int]@);
                            assert(string_views(self.peers@).contains(p@));
                            assert(string_views(self.peers@).to_set() =~= string_views(
                                self.peers@,
                            ).to_set().insert(p@));
                        }
                    },
                }
            }
        }
    }

    /// Removes a named peer (no effect when absent).
    pub fn unregister(&mut self, peer: Option<&str>)
        ensures
            final(self).peer_set() == (if peer.is_some() {
                old(self).peer_set().remove(peer.unwrap()@)
            } else {
                old(self).peer_set()
            }),
    {
        proof {
            use_type_invariant(&*self);
        }
        if let Some(p) = peer {
            let v = to_chars(p);
            match self.find_peer(v.as_slice()) {
                Some(i) => {
                    let ghost before = string_views(self.peers@);
                    let mut peers: Vec<String> = Vec::new();
                    std::mem::swap(&mut peers, &mut self.peers);
                    assert(string_views(peers@) == before);
                    peers.remove(i);
                    proof {
                        let after = string_views(peers@);
                        assert(after =~= before.remove(i as int));
                        assert(before[i as int] == p@);
                        assert forall|x: Seq<char>| after.to_set().contains(x) <==> before.to_set().remove(p@).contains(x) by {
                            if after.contains(x) {
                                let k = choose|k: int| 0 <= k < after.len() && after[k] == x;
                                if k < i {
                                    assert(before[k] == x);
                                    assert(before[k] != before[i as int]);
                                } else {
                                    assert(before[k + 1] == x);
                                    assert(before[k + 1] != before[i as int]);
                                }
                            }
                            if before.contains(x) && x != p@ {
                                let k = choose|k: int| 0 <= k < before.len() && before[k] == x;
                                assert(k != i);
                                if k < i {
                                    assert(after[k] == x);
                                } else {
                                    assert(after[k - 1] == x);
                                }
                            }
                        }
                        assert(after.to_set() =~= before.to_set().remove(p@));
                        assert forall|a: int, b: int| 0 <= a < b < after.len() implies after[a] != after[b] by {
                            if a < i && b < i {
                            } else if a < i {
                                assert(after[b] == before[b + 1]);
                            } else {
                                assert(after[a] == before[a + 1]);
                                assert(after[b] == before[b + 1]);
                            }
                        }
                    }
                    self.peers = peers;
                },
                None => {
                    proof {
                        assert(string_views(self.peers@).to_set() =~= string_views(self.peers@).to_set().remove(p@));
                    }
                },
            }
        }
    }

    /// The peers, each once, in no particular order.
    pub fn snapshot(&self) -> (r: Vec<String>)
        ensures
            string_views(r@).no_duplicates(),
            string_views(r@).to_set() == self.peer_set(),
    {
        proof {
            use_type_invariant(self);
        }
        let mut out: Vec<String> = Vec::new();
        let mut i: usize = 0;
        while i < self.peers.len()
            invariant
                i <= self.peers@.len(),
                string_views(out@) == string_views(self.peers@).subrange(0, i as int),
            decreases self.peers@.len() - i,
        {
            let ghost before = string_views(out@);
            let x = own_str(self.peers[i].as_str());
            out.push(x);
            assert(string_views(out@) =~= before.push(x@));
            assert(string_views(out@) =~= string_views(self.peers@).subrange(0, i + 1));
            i = i + 1;
        }
        assert(string_views(self.peers@).subrange(0, self.peers@.len() as int) =~= string_views(self.peers@));
        out
    }

    pub fn is_empty(&self) -> (r: bool)
        ensures
            r == (self.peer_set().len() == 0),
    {
        proof {
            use_type_invariant(self);
        }
        proof {
            string_views(self.peers@).unique_seq_to_set();
        }
        self.peers.len() == 0
    }

    pub fn len(&self) -> (r: usize)
        ensures
            r == self.peer_set().len(),
    {
        proof {
            use_type_invariant(self);
        }
        proof {
            string_views(self.peers@).unique_seq_to_set();
        }
        self.peers.len()
    }
}

/// How a global event goes out.
#[derive(Debug, Clone, PartialEq, Eq)]
pub enum BroadcastAction {
    /// No WebSocket peer: emit it on the default channel.
    EmitFallback { event: String },
    /// Send it to every peer.
    Broadcast { event: String, peer_count: usize },
}

pub fn broadcast_global_action(event: &str, peers: &[String]) -> (r: BroadcastAction)
    ensures
        if peers@.len() == 0 {
            r matches BroadcastAction::EmitFallback { event: e } && e@ == event@
        } else {
            r matches BroadcastAction::Broadcast { event: e, peer_count: n } && e@ == event@ && n
                == peers@.len()
        },
{
    if peers.len() == 0 {
        BroadcastAction::EmitFallback { event: own_str(event) }
    } else {
        BroadcastAction::Broadcast { event: own_str(event), peer_count: peers.len() }
    }
}

// ---------------------------------------------------------------------------
// Compute-host bridge
// ---------------------------------------------------------------------------

/// Inside the compute-host child exactly when the marker variable is `1`.
pub fn inside_compute_host_child(env_val: Option<&str>) -> (r: bool)
    ensures
        r == (env_val.is_some() && env_val.unwrap()@ == "1"@),
{
    match env_val {
        Some(v) => {
            let c = to_chars(v);
            chars_eq_str(c.as_slice(), "1")
        },
        None => false,
    }
}

/// Turn isolation is on when configured, and never inside the compute-host child.
pub fn turn_isolation_enabled(inside_child: bool, isolation_cfg_turn: Option<bool>) -> (r: bool)
    ensures
        r == (!inside_child && isolation_cfg_turn == Some(true)),
{
    if inside_child {
        return false;
    }
    match isolation_cfg_turn {
        Some(b) => b,
        None => false,
    }
}

/// With turn isolation on, a session uses the compute host when it is active there, or when
/// it has no local agent but an agent-ready signal.
pub fn session_uses_compute_host(
    turn_isolation_enabled: bool,
    compute_host_active: bool,
    has_agent: bool,
    has_agent_ready: bool,
) -> (r: bool)
    ensures
        r == (turn_isolation_enabled && (compute_host_active || (!has_agent && has_agent_ready))),
{
    if !turn_isolation_enabled {
        return false;
    }
    compute_host_active || (!has_agent && has_agent_ready)
}

/// Host supervisor settings.
#[derive(Debug, Clone, PartialEq, Eq)]
pub struct SupervisorConfig {
    pub heartbeat_secs: u32,
    pub respawn_max: u32,
}

/// A configured count: the trimmed text as a `u32`, else `fallback`.
pub open spec fn count_or(raw: Option<Seq<char>>, fallback: int) -> int {
    match raw {
        Some(s) => if parses_u32(trim(s)) {
            int_value(trim(s))
        } else {
            fallback
        },
        None => fallback,
    }
}

fn count_or_exec(raw: Option<&str>, fallback: u32) -> (r: u32)
    ensures
        r == count_or(opt_text(raw), fallback as int),
{
    match raw {
        Some(s) => {
            let v = to_chars(s);
            let t = trim_exec(v.as_slice());
            match parse_u32_chars(t.as_slice()) {
                Some(n) => n,
                None => fallback,
            }
        },
        None => fallback,
    }
}

impl SupervisorConfig {
    /// Heartbeat seconds and respawn limit from configured text (15 and 3 when absent or not
    /// a `u32`).
    pub fn from_cfg(heartbeat_raw: Option<&str>, respawn_raw: Option<&str>) -> (r: Self)
        ensures
            r.heartbeat_secs == count_or(opt_text(heartbeat_raw), 15),
            r.respawn_max == count_or(opt_text(respawn_raw), 3),
    {
        SupervisorConfig {
            heartbeat_secs: count_or_exec(heartbeat_raw, 15),
            respawn_max: count_or_exec(respawn_raw, 3),
        }
    }

    pub fn defaults() -> (r: Self)
        ensures
            r.heartbeat_secs == 15,
            r.respawn_max == 3,
    {
        SupervisorConfig { heartbeat_secs: 15, respawn_max: 3 }
    }
}

/// `"key":"<escaped val>"`.
pub open spec fn quoted_member(key: Seq<char>, val: Seq<char>) -> Seq<char> {
    "\""@ + key + "\":\""@ + min_escape(val) + "\""@
}

/// `"key":<raw>`.
pub open spec fn raw_member(key: Seq<char>, raw: Seq<char>) -> Seq<char> {
    "\""@ + key + "\":"@ + raw
}

fn quoted_member_exec(key: &str, val: &str) -> (r: Vec<char>)
    ensures
        r@ == quoted_member(key@, val@),
{
    let mut out: Vec<char> = Vec::new();
    push_str(&mut out, "\"");
    push_str(&mut out, key);
    push_str(&mut out, "\":\"");
    let e = min_escape_exec(val);
    push_all(&mut out, e.as_slice());
    push_str(&mut out, "\"");
    assert(out@ =~= quoted_member(key@, val@));
    out
}

fn raw_member_exec(key: &str, raw: &[char]) -> (r: Vec<char>)
    ensures
        r@ == raw_member(key@, raw@),
{
    let mut out: Vec<char> = Vec::new();
    push_str(&mut out, "\"");
    push_str(&mut out, key);
    push_str(&mut out, "\":");
    push_all(&mut out, raw);
    assert(out@ =~= raw_member(key@, raw@));
    out
}

/// The turn-start frame sent to the compute host.
#[derive(Debug, Clone, PartialEq, Eq)]
pub struct ComputeHostTurnFrame {
    pub typ: String,
    pub sid: String,
    pub request_id: String,
    pub session_key: String,
    pub text_json: String,
    pub display_kind: Option<String>,
    pub history: Vec<String>,
    pub history_version: i64,
    pub cols: u32,
    pub cwd: String,
    pub profile_home: String,
    pub model_override: Option<String>,
    pub reasoning_override_json: Option<String>,
    pub service_tier_override: Option<String>,
    pub source: String,
    pub attached_images: Vec<String>,
    pub queued_prompt_generation: Option<i64>,
}

/// The members the frame's JSON carries, in order (the text is inserted as given).
pub open spec fn turn_frame_members(f: ComputeHostTurnFrame) -> Seq<Seq<char>> {
    let base = seq![
        quoted_member("type"@, f.typ@),
        quoted_member("sid"@, f.sid@),
        quoted_member("request_id"@, f.request_id@),
        quoted_member("session_key"@, f.session_key@),
        raw_member("text"@, f.text_json@),
        raw_member("history_version"@, int_decimal(f.history_version as int)),
        raw_member("cols"@, nat_decimal(f.cols as nat)),
        quoted_member("cwd"@, f.cwd@),
        quoted_member("profile_home"@, f.profile_home@),
        quoted_member("source"@, f.source@),
    ];
    let with_kind = match f.display_kind {
        Some(dk) => base.push(quoted_member("display_kind"@, dk@)),
        None => base,
    };
    match f.queued_prompt_generation {
        Some(g) => with_kind.push(raw_member("queued_prompt_generation"@, int_decimal(g as int))),
        None => with_kind,
    }
}

impl ComputeHostTurnFrame {
    /// The frame as a JSON object of its members.
    pub fn to_json(&self) -> (r: String)
        ensures
            r@ == "{"@ + join_char(turn_frame_members(*self), ',') + "}"@,
    {
        let mut parts: Vec<Vec<char>> = Vec::new();
        parts.push(quoted_member_exec("type", self.typ.as_str()));
        parts.push(quoted_member_exec("sid", self.sid.as_str()));
        parts.push(quoted_member_exec("request_id", self.request_id.as_str()));
        parts.push(quoted_member_exec("session_key", self.session_key.as_str()));
        let t = to_chars(self.text_json.as_str());
        parts.push(raw_member_exec("text", t.as_slice()));
        let hv = int_decimal_exec(self.history_version);
        parts.push(raw_member_exec("history_version", hv.as_slice()));
        let cols = nat_decimal_exec(self.cols as u64);
        parts.push(raw_member_exec("cols", cols.as_slice()));
        parts.push(quoted_member_exec("cwd", self.cwd.as_str()));
        parts.push(quoted_member_exec("profile_home", self.profile_home.as_str()));
        parts.push(quoted_member_exec("source", self.source.as_str()));
        if let Some(dk) = &self.display_kind {
            parts.push(quoted_member_exec("display_kind", dk.as_str()));
        }
        if let Some(g) = self.queued_prompt_generation {
            let gv = int_decimal_exec(g);
            parts.push(raw_member_exec("queued_prompt_generation", gv.as_slice()));
        }
        assert(char_views(parts@) =~= turn_frame_members(*self));
        let body = join_char_exec(parts.as_slice(), ',');
        let mut out: Vec<char> = Vec::new();
        out.push('{');
        push_all(&mut out, body.as_slice());
        out.push('}');
        proof {
            reveal_strlit("{");
            reveal_strlit("}");
        }
        assert(out@ =~= "{"@ + join_char(turn_frame_members(*self), ',') + "}"@);
        from_chars(out.as_slice())
    }
}

/// The turn-start frame for a prompt: the session key defaults to the session id, the
/// profile home to "", and explicit image paths replace the attached images.
pub fn compute_host_turn_frame(
    rid: &str,
    sid: &str,
    session_key: Option<&str>,
    text_json: &str,
    display_kind: Option<&str>,
    history: Vec<String>,
    history_version: i64,
    cols: u32,
    cwd: &str,
    profile_home: Option<&str>,
    model_override: Option<String>,
    reasoning_override_json: Option<String>,
    service_tier_override: Option<String>,
    source: &str,
    image_paths: Option<Vec<String>>,
    attached_images: Vec<String>,
    queued_prompt_generation: Option<i64>,
) -> (r: ComputeHostTurnFrame)
    ensures
        r.typ@ == "turn.start"@,
        r.sid@ == sid@,
        r.request_id@ == rid@,
        r.session_key@ == (match session_key {
            Some(k) => k@,
            None => sid@,
        }),
        r.text_json@ == text_json@,
        opt_string(r.display_kind) == opt_text(display_kind),
        r.history == history,
        r.history_version == history_version,
        r.cols == cols,
        r.cwd@ == cwd@,
        r.profile_home@ == (match profile_home {
            Some(h) => h@,
            None => Seq::empty(),
        }),
        r.model_override == model_override,
        r.reasoning_override_json == reasoning_override_json,
        r.service_tier_override == service_tier_override,
        r.source@ == source@,
        r.attached_images == (match image_paths {
            Some(p) => p,
            None => attached_images,
        }),
        r.queued_prompt_generation == queued_prompt_generation,
{
    let key = match session_key {
        Some(k) => own_str(k),
        None => own_str(sid),
    };
    let dk = match display_kind {
        Some(d) => Some(own_str(d)),
        None => None,
    };
    let ph = match profile_home {
        Some(h) => own_str(h),
        None => {
            let e = String::new();
            assert(e@ =~= Seq::<char>::empty());
            e
        },
    };
    let images = match image_paths {
        Some(p) => p,
        None => attached_images,
    };
    ComputeHostTurnFrame {
        typ: own_str("turn.start"),
        sid: own_str(sid),
        request_id: own_str(rid),
        session_key: key,
        text_json: own_str(text_json),
        display_kind: dk,
        history,
        history_version,
        cols,
        cwd: own_str(cwd),
        profile_home: ph,
        model_override,
        reasoning_override_json,
        service_tier_override,
        source: own_str(source),
        attached_images: images,
        queued_prompt_generation,
    }
}

/// The session's metadata mirror, `{}` when it has none.
pub fn metadata_mirror(mirror_json: Option<&str>) -> (r: String)
    ensures
        r@ == (match mirror_json {
            Some(m) => m@,
            None => "{}"@,
        }),
{
    match mirror_json {
        Some(m) => own_str(m),
        None => own_str("{}"),
    }
}

/// What applying a host metadata frame gives.
#[derive(Debug, Clone, PartialEq, Eq)]
pub struct ApplyMirrorResult {
    pub history_version: i64,
    pub message_count: Option<i64>,
    pub mirror_json: Option<String>,
    pub should_stamp: bool,
}

/// Applies a host metadata frame: the history version never goes back, the message count is
/// the frame's, and session info in the frame becomes the mirror (stamped).
pub fn apply_metadata_mirror(
    cur_history_version: i64,
    frame_history_version: Option<i64>,
    frame_message_count: Option<i64>,
    frame_session_info_json: Option<&str>,
    existing_mirror_json: Option<&str>,
) -> (r: ApplyMirrorResult)
    ensures
        r.history_version == (match frame_history_version {
            Some(v) => if v > cur_history_version {
                v
            } else {
                cur_history_version
            },
            None => cur_history_version,
        }),
        r.message_count == frame_message_count,
        opt_string(r.mirror_json) == opt_text(frame_session_info_json),
        r.should_stamp == frame_session_info_json.is_some(),
{
    let hv = match frame_history_version {
        Some(v) => if v > cur_history_version {
            v
        } else {
            cur_history_version
        },
        None => cur_history_version,
    };
    let (mirror_json, stamp) = match frame_session_info_json {
        Some(info) => (Some(own_str(info)), true),
        None => (None, false),
    };
    ApplyMirrorResult {
        history_version: hv,
        message_count: frame_message_count,
        mirror_json,
        should_stamp: stamp,
    }
}

/// What to do when a compute-host turn ends.
#[derive(Debug, Clone, PartialEq, Eq)]
pub enum TurnDoneAction {
    /// Complete the turn with this error text.
    Error { message: String },
    /// Emit session info (unless already emitted) and drain the prompt queue.
    InfoAndDrain { emit_info: bool },
}

pub fn on_compute_host_turn_done(
    frame_type: &str,
    frame_message: Option<&str>,
    frame_session_info_emitted: bool,
) -> (r: TurnDoneAction)
    ensures
        if frame_type@ == "turn.error"@ {
            r matches TurnDoneAction::Error { message } && message@ == "Error: "@ + (
            match frame_message {
                Some(m) => m@,
                None => "compute host turn failed"@,
            })
        } else {
            r == TurnDoneAction::InfoAndDrain { emit_info: !frame_session_info_emitted }
        },
{
    let t = to_chars(frame_type);
    if chars_eq_str(t.as_slice(), "turn.error") {
        let mut out = to_chars("Error: ");
        match frame_message {
            Some(m) => push_str(&mut out, m),
            None => push_str(&mut out, "compute host turn failed"),
        }
        TurnDoneAction::Error { message: from_chars(out.as_slice()) }
    } else {
        TurnDoneAction::InfoAndDrain { emit_info: !frame_session_info_emitted }
    }
}

/// The answer to a prompt submitted to the compute host.
#[derive(Debug, Clone, PartialEq, Eq)]
pub enum SubmitPromptResult {
    Streaming,
    Error { code: i32, message: String },
}

/// Streaming when the submit went through with no dispatch error; otherwise error 5019.
pub fn submit_prompt_result(submit_ok: bool, dispatch_err: Option<&str>) -> (r: SubmitPromptResult)
    ensures
        match dispatch_err {
            Some(m) => r matches SubmitPromptResult::Error { code, message } && code == 5019
                && message@ == "compute-host dispatch failed: "@ + m@,
            None => if submit_ok {
                r == SubmitPromptResult::Streaming
            } else {
                r matches SubmitPromptResult::Error { code, message } && code == 5019 && message@
                    == "compute-host dispatch failed: unknown"@
            },
        },
{
    if let Some(m) = dispatch_err {
        let mut out = to_chars("compute-host dispatch failed: ");
        push_str(&mut out, m);
        return SubmitPromptResult::Error { code: 5019, message: from_chars(out.as_slice()) };
    }
    if submit_ok {
        SubmitPromptResult::Streaming
    } else {
        SubmitPromptResult::Error {
            code: 5019,
            message: own_str("compute-host dispatch failed: unknown"),
        }
    }
}

/// A control frame for the compute host.
#[derive(Debug, Clone, PartialEq, Eq)]
pub struct ControlFrame {
    pub typ: String,
    pub command: String,
    pub extra_json: Option<String>,
}

/// The members of an extra payload object as inserted into a control frame: trimmed, with
/// its leading `{`s and trailing `}`s taken off.
pub open spec fn extra_inner(extra: Seq<char>) -> Seq<char> {
    crate::text::trim_end_k(crate::text::trim_start_k(trim(extra), CharClass::Exactly('{')), CharClass::Exactly('}'))
}

pub open spec fn control_line(typ: Seq<char>, command: Seq<char>, extra: Option<Seq<char>>) -> Seq<char> {
    "{\"type\":\""@ + min_escape(typ) + "\",\"command\":\""@ + min_escape(command) + "\""@
        + match extra {
        Some(e) => if trim(extra_inner(e)).len() > 0 {
            ","@ + extra_inner(e)
        } else {
            Seq::empty()
        },
        None => Seq::empty(),
    } + "}"@
}

impl ControlFrame {
    pub fn new(payload_json: Option<&str>, command: &str) -> (r: Self)
        ensures
            r.typ@ == "control"@,
            r.command@ == command@,
            opt_string(r.extra_json) == opt_text(payload_json),
    {
        ControlFrame {
            typ: own_str("control"),
            command: own_str(command),
            extra_json: match payload_json {
                Some(p) => Some(own_str(p)),
                None => None,
            },
        }
    }

    pub fn to_json(&self) -> (r: String)
        ensures
            r@ == control_line(self.typ@, self.command@, opt_string(self.extra_json)),
    {
        let mut out: Vec<char> = Vec::new();
        push_str(&mut out, "{\"type\":\"");
        let t = min_escape_exec(self.typ.as_str());
        push_all(&mut out, t.as_slice());
        push_str(&mut out, "\",\"command\":\"");
        let c = min_escape_exec(self.command.as_str());
        push_all(&mut out, c.as_slice());
        push_str(&mut out, "\"");
        let ghost mid = out@;
        if let Some(extra) = &self.extra_json {
            let ev = to_chars(extra.as_str());
            let te = trim_exec(ev.as_slice());
            let a = crate::text::trim_start_k_exec(te.as_slice(), CharClass::Exactly('{'));
            let inner = crate::text::trim_end_k_exec(a.as_slice(), CharClass::Exactly('}'));
            let ti = trim_exec(inner.as_slice());
            if ti.len() > 0 {
                out.push(',');
                push_all(&mut out, inner.as_slice());
            }
            proof {
                reveal_strlit(",");
                assert(out@ =~= mid + if trim(extra_inner(extra@)).len() > 0 {
                    ","@ + extra_inner(extra@)
                } else {
                    Seq::empty()
                });
            }
        }
        out.push('}');
        proof {
            reveal_strlit("}");
        }
        assert(out@ =~= control_line(self.typ@, self.command@, opt_string(self.extra_json)));
        from_chars(out.as_slice())
    }
}

// ---------------------------------------------------------------------------
// Approval, clarify, status and image helpers
// ---------------------------------------------------------------------------

/// An approval request as the approval module hands it over.
#[derive(Debug, Clone, PartialEq, Eq, Default)]
pub struct ApprovalRaw {
    pub smart_denied: bool,
    pub allow_session: Option<bool>,
    pub allow_permanent: Option<bool>,
    pub command: Option<String>,
    pub choices: Option<Vec<String>>,
    pub extra: Vec<(String, String)>,
}

/// The approval request as sent to the client.
#[derive(Debug, Clone, PartialEq, Eq)]
pub struct ApprovalPayload {
    pub choices: Vec<String>,
    pub command: Option<String>,
    pub extra: Vec<(String, String)>,
}

pub open spec fn pair_views(v: Seq<(String, String)>) -> Seq<(Seq<char>, Seq<char>)> {
    v.map_values(|p: (String, String)| (p.0@, p.1@))
}

/// The choices offered when the request names none: `once` and `deny` after a smart denial;
/// otherwise `once`, then `session` unless sessions are disallowed (and then `always` unless
/// permanent approval is disallowed), then `deny`.
pub open spec fn default_choices(smart_denied: bool, allow_session: Option<bool>, allow_permanent: Option<bool>) -> Seq<Seq<char>> {
    if smart_denied {
        seq!["once"@, "deny"@]
    } else if allow_session == Some(false) {
        seq!["once"@, "deny"@]
    } else if allow_permanent == Some(false) {
        seq!["once"@, "session"@, "deny"@]
    } else {
        seq!["once"@, "session"@, "always"@, "deny"@]
    }
}

/// `p` is the client payload for `raw` (absent: a default request), its command redacted by
/// `redact`.
pub open spec fn approval_outcome<R: Fn(&str) -> String>(raw: Option<ApprovalRaw>, redact: R, p: ApprovalPayload) -> bool {
    match raw {
        None => string_views(p.choices@) == default_choices(false, None, None) && p.command is None
            && p.extra@.len() == 0,
        Some(a) => {
            &&& string_views(p.choices@) == (match a.choices {
                Some(c) => string_views(c@),
                None => default_choices(a.smart_denied, a.allow_session, a.allow_permanent),
            })
            &&& match a.command {
                None => p.command is None,
                Some(c) => p.command matches Some(x) && called_with(redact, c@, x),
            }
            &&& pair_views(p.extra@) == pair_views(a.extra@)
        },
    }
}

fn copy_strings(v: &Vec<String>) -> (r: Vec<String>)
    ensures
        string_views(r@) == string_views(v@),
{
    let mut out: Vec<String> = Vec::new();
    let mut i: usize = 0;
    while i < v.len()
        invariant
            i <= v@.len(),
            string_views(out@) == string_views(v@).subrange(0, i as int),
        decreases v@.len() - i,
    {
        let ghost before = string_views(out@);
        let x = own_str(v[i].as_str());
        out.push(x);
        assert(string_views(out@) =~= before.push(x@));
        assert(string_views(out@) =~= string_views(v@).subrange(0, i + 1));
        i = i + 1;
    }
    assert(string_views(v@).subrange(0, v@.len() as int) =~= string_views(v@));
    out
}

fn copy_pairs(v: &Vec<(String, String)>) -> (r: Vec<(String, String)>)
    ensures
        pair_views(r@) == pair_views(v@),
{
    let mut out: Vec<(String, String)> = Vec::new();
    let mut i: usize = 0;
    while i < v.len()
        invariant
            i <= v@.len(),
            pair_views(out@) == pair_views(v@).subrange(0, i as int),
        decreases v@.len() - i,
    {
        let ghost before = pair_views(out@);
        let x = (own_str(v[i].0.as_str()), own_str(v[i].1.as_str()));
        out.push(x);
        assert(pair_views(out@) =~= before.push((x.0@, x.1@)));
        assert(pair_views(out@) =~= pair_views(v@).subrange(0, i + 1));
        i = i + 1;
    }
    assert(pair_views(v@).subrange(0, v@.len() as int) =~= pair_views(v@));
    out
}

fn strings_of(words: &[&str]) -> (r: Vec<String>)
    ensures
        string_views(r@) == words@.map_values(|w: &str| w@),
{
    let mut out: Vec<String> = Vec::new();
    let mut i: usize = 0;
    while i < words.len()
        invariant
            i <= words@.len(),
            string_views(out@) == words@.map_values(|w: &str| w@).subrange(0, i as int),
        decreases words@.len() - i,
    {
        let ghost before = string_views(out@);
        let x = own_str(words[i]);
        out.push(x);
        assert(string_views(out@) =~= before.push(x@));
        assert(string_views(out@) =~= words@.map_values(|w: &str| w@).subrange(0, i + 1));
        i = i + 1;
    }
    assert(words@.map_values(|w: &str| w@).subrange(0, words@.len() as int) =~= words@.map_values(|w: &str| w@));
    out
}

fn default_choices_exec(smart_denied: bool, allow_session: Option<bool>, allow_permanent: Option<bool>) -> (r: Vec<String>)
    ensures
        string_views(r@) == default_choices(smart_denied, allow_session, allow_permanent),
{
    let words: Vec<&str> = if smart_denied || allow_session == Some(false) {
        vec!["once", "deny"]
    } else if allow_permanent == Some(false) {
        vec!["once", "session", "deny"]
    } else {
        vec!["once", "session", "always", "deny"]
    };
    let r = strings_of(words.as_slice());
    assert(string_views(r@) =~= default_choices(smart_denied, allow_session, allow_permanent));
    r
}

/// The client payload of an approval request.
pub fn approval_request_payload<R: Fn(&str) -> String>(raw: Option<&ApprovalRaw>, redact: R) -> (r:
    ApprovalPayload)
    requires
        raw matches Some(a) ==> (a.command matches Some(c) ==> forall|x: &str|
            x@ == c@ ==> #[trigger] redact.requires((x,))),
    ensures
        approval_outcome(
            match raw {
                Some(a) => Some(*a),
                None => None,
            },
            redact,
            r,
        ),
{
    match raw {
        None => ApprovalPayload {
            choices: default_choices_exec(false, None, None),
            command: None,
            extra: Vec::new(),
        },
        Some(a) => {
            let choices = match &a.choices {
                Some(c) => copy_strings(c),
                None => default_choices_exec(a.smart_denied, a.allow_session, a.allow_permanent),
            };
            let command = match &a.command {
                Some(c) => {
                    let x = redact(c.as_str());
                    proof {
                        assert(called_with(redact, c@, x));
                    }
                    Some(x)
                },
                None => None,
            };
            ApprovalPayload { choices, command, extra: copy_pairs(&a.extra) }
        },
    }
}

/// `{k1: v1, k2: v2}` in `Debug` form, the pairs in the given order.
pub open spec fn debug_pairs(ps: Seq<(Seq<char>, Seq<char>)>) -> Seq<char> {
    "{"@ + join_char_sep(
        ps.map_values(|p: (Seq<char>, Seq<char>)| crate::text::debug_quoted(p.0) + ": "@ + crate::text::debug_quoted(p.1)),
        ", "@,
    ) + "}"@
}

/// Pieces joined with `sep` between them.
pub open spec fn join_char_sep(parts: Seq<Seq<char>>, sep: Seq<char>) -> Seq<char>
    decreases parts.len(),
{
    if parts.len() == 0 {
        Seq::empty()
    } else if parts.len() == 1 {
        parts[0]
    } else {
        join_char_sep(parts.drop_last(), sep) + sep + parts.last()
    }
}

fn debug_pairs_exec(ps: &Vec<(String, String)>) -> (r: Vec<char>)
    ensures
        r@ == debug_pairs(pair_views(ps@)),
{
    let ghost items = pair_views(ps@).map_values(|p: (Seq<char>, Seq<char>)| crate::text::debug_quoted(p.0) + ": "@ + crate::text::debug_quoted(p.1));
    let mut body: Vec<char> = Vec::new();
    let mut i: usize = 0;
    while i < ps.len()
        invariant
            i <= ps@.len(),
            items == pair_views(ps@).map_values(|p: (Seq<char>, Seq<char>)| crate::text::debug_quoted(p.0) + ": "@ + crate::text::debug_quoted(p.1)),
            body@ == join_char_sep(items.subrange(0, i as int), ", "@),
        decreases ps@.len() - i,
    {
        let ghost prev = body@;
        proof {
            assert(items.subrange(0, i + 1).drop_last() =~= items.subrange(0, i as int));
        }
        if i > 0 {
            push_str(&mut body, ", ");
        }
        let k = crate::text::debug_str(ps[i].0.as_str());
        let v = crate::text::debug_str(ps[i].1.as_str());
        push_str(&mut body, k.as_str());
        push_str(&mut body, ": ");
        push_str(&mut body, v.as_str());
        proof {
            assert(items[i as int] == crate::text::debug_quoted(ps@[i as int].0@) + ": "@ + crate::text::debug_quoted(ps@[i as int].1@));
            if i == 0 {
                assert(prev =~= Seq::<char>::empty());
                assert(body@ =~= items.subrange(0, 1)[0]);
            } else {
                assert(body@ =~= prev + ", "@ + items[i as int]);
            }
        }
        i = i + 1;
    }
    assert(items.subrange(0, ps@.len() as int) =~= items);
    let mut out: Vec<char> = Vec::new();
    push_str(&mut out, "{");
    push_all(&mut out, body.as_slice());
    push_str(&mut out, "}");
    out
}

/// The text of the first pair whose key is `key`.
pub open spec fn pair_lookup<V>(ps: Seq<(String, V)>, key: Seq<char>, i: int) -> Option<V>
    decreases ps.len() - i,
{
    if i < 0 || i >= ps.len() {
        None
    } else if ps[i].0@ == key {
        Some(ps[i].1)
    } else {
        pair_lookup(ps, key, i + 1)
    }
}

/// The suffix listing a batch's answers, when the batch has any.
pub open spec fn answers_suffix(batch: Option<Vec<(String, String)>>) -> Seq<char> {
    match batch {
        Some(a) => if a@.len() > 0 {
            " answers="@ + debug_pairs(pair_views(a@))
        } else {
            Seq::empty()
        },
        None => Seq::empty(),
    }
}

/// The pending clarify prompt of session `sid`, scanning the pending requests from index `i`:
/// the first one it owns whose recorded prompt is a `clarify.request`, with the answers of
/// its batch appended.
pub open spec fn clarify_from(
    sid: Seq<char>,
    pending: Seq<(String, (String, String))>,
    payloads: Seq<(String, (String, String))>,
    batches: Seq<(String, Vec<(String, String)>)>,
    i: int,
) -> Option<Seq<char>>
    decreases pending.len() - i,
{
    if i < 0 || i >= pending.len() {
        None
    } else {
        let (rid, (owner, _ev)) = pending[i];
        match pair_lookup(payloads, rid@, 0) {
            Some((event, prompt)) => if owner@ == sid && event@ == "clarify.request"@ {
                Some(prompt@ + answers_suffix(pair_lookup(batches, rid@, 0)))
            } else {
                clarify_from(sid, pending, payloads, batches, i + 1)
            },
            None => clarify_from(sid, pending, payloads, batches, i + 1),
        }
    }
}

pub(crate) fn pair_lookup_exec<V>(ps: &[(String, V)], key: &[char]) -> (r: Option<usize>)
    ensures
        match r {
            Some(i) => i < ps@.len() && pair_lookup(ps@, key@, 0) == Some(ps@[i as int].1),
            None => pair_lookup(ps@, key@, 0) is None,
        },
{
    let mut i: usize = 0;
    while i < ps.len()
        invariant
            i <= ps@.len(),
            pair_lookup(ps@, key@, i as int) == pair_lookup(ps@, key@, 0),
        decreases ps@.len() - i,
    {
        let k = to_chars(ps[i].0.as_str());
        if chars_eq(k.as_slice(), key) {
            return Some(i);
        }
        i = i + 1;
    }
    None
}

/// The pending clarify prompt of session `sid`, if any.
pub fn pending_clarify_payload(
    sid: &str,
    pending: &[(String, (String, String))],
    payloads: &[(String, (String, String))],
    batches: &[(String, Vec<(String, String)>)],
) -> (r: Option<String>)
    ensures
        opt_string(r) == clarify_from(sid@, pending@, payloads@, batches@, 0),
{
    let sv = to_chars(sid);
    let mut i: usize = 0;
    while i < pending.len()
        invariant
            i <= pending@.len(),
            sv@ == sid@,
            clarify_from(sid@, pending@, payloads@, batches@, i as int) == clarify_from(sid@, pending@, payloads@, batches@, 0),
        decreases pending@.len() - i,
    {
        let (rid_s, (owner_s, _ev)) = &pending[i];
        let owner = to_chars(owner_s.as_str());
        let rid = to_chars(rid_s.as_str());
        if let Some(j) = pair_lookup_exec(payloads, rid.as_slice()) {
            let (event_s, prompt_s) = &payloads[j].1;
            let ev = to_chars(event_s.as_str());
            if chars_eq(owner.as_slice(), sv.as_slice()) && chars_eq_str(ev.as_slice(), "clarify.request") {
                let mut out = to_chars(prompt_s.as_str());
                match pair_lookup_exec(batches, rid.as_slice()) {
                    Some(b) => {
                        if batches[b].1.len() > 0 {
                            push_str(&mut out, " answers=");
                            let d = debug_pairs_exec(&batches[b].1);
                            push_all(&mut out, d.as_slice());
                        }
                    },
                    None => {},
                }
                assert(out@ =~= prompt_s@ + answers_suffix(pair_lookup(batches@, rid@, 0)));
                return Some(from_chars(out.as_slice()));
            }
        }
        i = i + 1;
    }
    None
}

/// The pending approval request of a session, as a client payload.
pub fn pending_approval_payload<G: Fn(&str) -> Option<ApprovalRaw>, R: Fn(&str) -> String>(
    session_key: &str,
    get_pending: G,
    redact: R,
) -> (r: Option<ApprovalPayload>)
    requires
        forall|x: &str| x@ == session_key@ ==> #[trigger] get_pending.requires((x,)),
        forall|x: &str|
            (exists|a: ApprovalRaw|
                called_with(get_pending, session_key@, Some(a)) && a.command is Some && x@
                    == a.command->0@) ==> #[trigger] redact.requires((x,)),
    ensures
        exists|raw: Option<ApprovalRaw>|
            #[trigger] called_with(get_pending, session_key@, raw) && match raw {
                None => r is None,
                Some(a) => r matches Some(p) && approval_outcome(Some(a), redact, p),
            },
{
    let raw = get_pending(session_key);
    proof {
        assert(called_with(get_pending, session_key@, raw));
    }
    match raw {
        None => None,
        Some(a) => {
            assert(called_with(get_pending, session_key@, Some(a)));
            let p = approval_request_payload(Some(&a), redact);
            Some(p)
        },
    }
}

/// A status line for the client.
#[derive(Debug, Clone, PartialEq, Eq)]
pub struct StatusUpdate {
    pub kind: String,
    pub text: String,
}

/// The status update for `kind` and `text`: the trimmed text (or kind, when there is no
/// text), none when blank; the kind is `status` without text, and a lifecycle line carrying
/// the compaction marker becomes `compacting`.
pub open spec fn status_spec(kind: Seq<char>, text: Option<Seq<char>>, marker: Seq<char>) -> Option<(Seq<char>, Seq<char>)> {
    let body = trim(match text {
        Some(t) => t,
        None => kind,
    });
    if body.len() == 0 {
        None
    } else {
        let k = if text.is_some() {
            kind
        } else {
            "status"@
        };
        if k == "lifecycle"@ && find(body, marker) is Some {
            Some(("compacting"@, body))
        } else {
            Some((k, body))
        }
    }
}

pub fn status_update(sid: &str, kind: &str, text: Option<&str>, compaction_marker: &str) -> (r: Option<StatusUpdate>)
    ensures
        match r {
            Some(u) => status_spec(kind@, opt_text(text), compaction_marker@) == Some((u.kind@, u.text@)),
            None => status_spec(kind@, opt_text(text), compaction_marker@) is None,
        },
{
    let src = match text {
        Some(t) => to_chars(t),
        None => to_chars(kind),
    };
    let body = trim_exec(src.as_slice());
    if body.len() == 0 {
        return None;
    }
    let k = if text.is_some() {
        to_chars(kind)
    } else {
        to_chars("status")
    };
    let m = to_chars(compaction_marker);
    if chars_eq_str(k.as_slice(), "lifecycle") && find_exec(body.as_slice(), m.as_slice()).is_some() {
        return Some(StatusUpdate { kind: own_str("compacting"), text: from_chars(body.as_slice()) });
    }
    Some(StatusUpdate { kind: from_chars(k.as_slice()), text: from_chars(body.as_slice()) })
}

/// Estimated tokens of an image: 85 per 512×512 tile (at least one each way), 0 for an
/// empty size.
pub open spec fn image_tokens(width: int, height: int) -> int {
    if width <= 0 || height <= 0 {
        0
    } else {
        ((width + 511) / 512) * ((height + 511) / 512) * 85
    }
}

pub fn estimate_image_tokens(width: i64, height: i64) -> (r: i64)
    requires
        width > 0 && height > 0 ==> width <= i64::MAX - 511 && height <= i64::MAX - 511
            && image_tokens(width as int, height as int) <= i64::MAX,
    ensures
        r == image_tokens(width as int, height as int),
{
    if width <= 0 || height <= 0 {
        return 0;
    }
    let tiles_w = (width + 511) / 512;
    let tiles_h = (height + 511) / 512;
    assert(tiles_w >= 1 && tiles_h >= 1);
    assert(tiles_w * tiles_h <= tiles_w * tiles_h * 85) by (nonlinear_arith)
        requires
            tiles_w >= 1,
            tiles_h >= 1,
    ;
    let tw = if tiles_w > 1 { tiles_w } else { 1 };
    let th = if tiles_h > 1 { tiles_h } else { 1 };
    tw * th * 85
}

/// Name, size and token estimate of an image.
#[derive(Debug, Clone, PartialEq, Eq)]
pub struct ImageMeta {
    pub name: String,
    pub width: Option<u32>,
    pub height: Option<u32>,
    pub token_estimate: Option<i64>,
}

/// The final named component of a `/`-separated path; none when the path ends at its root,
/// at `.` or at `..`.
pub open spec fn file_name(path: Seq<char>) -> Option<Seq<char>> {
    let n = normal_pieces(split_char(path, '/'));
    if n.len() == 0 || n.last() == ".."@ {
        None
    } else {
        Some(n.last())
    }
}

fn file_name_exec(path: &str) -> (r: Vec<char>)
    ensures
        r@ == (match file_name(path@) {
            Some(n) => n,
            None => Seq::empty(),
        }),
{
    let p = to_chars(path);
    let parts = split_char_exec(p.as_slice(), '/');
    let n = normal_pieces_exec(&parts);
    if n.len() == 0 {
        return Vec::new();
    }
    let last = &n[n.len() - 1];
    assert(char_views(n@).last() == last@);
    if chars_eq_str(last.as_slice(), "..") {
        return Vec::new();
    }
    let r = slice_vec(last.as_slice(), 0, last.len());
    assert(last@.subrange(0, last@.len() as int) =~= last@);
    r
}

/// The metadata of the image at `path`, with the size `get_dims` reads.
pub fn image_meta<D: Fn(&str) -> Option<(u32, u32)>>(path: &str, get_dims: D) -> (r: ImageMeta)
    requires
        accepts_all_text(get_dims),
    ensures
        r.name@ == (match file_name(path@) {
            Some(n) => n,
            None => Seq::empty(),
        }),
        exists|dims: Option<(u32, u32)>|
            #[trigger] called_with(get_dims, path@, dims) && match dims {
                Some((w, h)) => r.width == Some(w) && r.height == Some(h) && r.token_estimate
                    == Some(image_tokens(w as int, h as int) as i64),
                None => r.width is None && r.height is None && r.token_estimate is None,
            },
{
    let name = from_chars(file_name_exec(path).as_slice());
    let dims = get_dims(path);
    proof {
        assert(called_with(get_dims, path@, dims));
    }
    match dims {
        Some((w, h)) => {
            let ww = w as i64;
            let hh = h as i64;
            proof {
                if ww > 0 && hh > 0 {
                    let a = (ww + 511) / 512;
                    let b = (hh + 511) / 512;
                    assert(a <= 0x80_0000 && b <= 0x80_0000);
                    assert(a * b * 85 <= 0x80_0000 * 0x80_0000 * 85) by (nonlinear_arith)
                        requires
                            0 <= a <= 0x80_0000,
                            0 <= b <= 0x80_0000,
                    ;
                }
            }
            let t = estimate_image_tokens(ww, hh);
            ImageMeta { name, width: Some(w), height: Some(h), token_estimate: Some(t) }
        },
        None => ImageMeta { name, width: None, height: None, token_estimate: None },
    }
}

// ---------------------------------------------------------------------------
// JSON-RPC envelopes and the method registry
// ---------------------------------------------------------------------------

/// `{"jsonrpc":"2.0","id":<rid>,"result":<result>}`.
pub fn ok_response(rid_json: &str, result_json: &str) -> (r: String)
    ensures
        r@ == crate::rpc_json::ok_envelope(rid_json@, result_json@),
{
    crate::rpc_json::ok_response(rid_json, result_json)
}

/// The error envelope, with `data` when given; the message escapes only `\` and `"`.
pub open spec fn error_line(rid_json: Seq<char>, code: int, message: Seq<char>, data: Option<Seq<char>>) -> Seq<char> {
    "{\"jsonrpc\":\"2.0\",\"id\":"@ + rid_json + ",\"error\":{\"code\":"@ + int_decimal(code)
        + ",\"message\":\""@ + min_escape(message) + match data {
        Some(d) => "\",\"data\":"@ + d + "}}"@,
        None => "\"}}"@,
    }
}

pub fn err_response(rid_json: &str, code: i32, message: &str, data_json: Option<&str>) -> (r: String)
    ensures
        r@ == error_line(rid_json@, code as int, message@, opt_text(data_json)),
{
    let mut out: Vec<char> = Vec::new();
    push_str(&mut out, "{\"jsonrpc\":\"2.0\",\"id\":");
    push_str(&mut out, rid_json);
    push_str(&mut out, ",\"error\":{\"code\":");
    let c = int_decimal_exec(code as i64);
    push_all(&mut out, c.as_slice());
    push_str(&mut out, ",\"message\":\"");
    let m = min_escape_exec(message);
    push_all(&mut out, m.as_slice());
    match data_json {
        Some(d) => {
            push_str(&mut out, "\",\"data\":");
            push_str(&mut out, d);
            push_str(&mut out, "}}");
        },
        None => push_str(&mut out, "\"}}"),
    }
    assert(out@ =~= error_line(rid_json@, code as int, message@, opt_text(data_json)));
    from_chars(out.as_slice())
}

/// The methods the gateway answers: method name → handler id.
#[derive(Debug, Default)]
pub struct MethodRegistry {
    inner: Vec<(String, String)>,
}

impl Clone for MethodRegistry {
    fn clone(&self) -> (r: Self)
        ensures
            r.entries() == self.entries(),
    {
        proof {
            use_type_invariant(self);
        }
        let mut inner: Vec<(String, String)> = Vec::new();
        let mut i: usize = 0;
        while i < self.inner.len()
            invariant
                i <= self.inner@.len(),
                pair_views(inner@) == pair_views(self.inner@).subrange(0, i as int),
            decreases self.inner@.len() - i,
        {
            let ghost before = pair_views(inner@);
            let a = own_str(self.inner[i].0.as_str());
            let b = own_str(self.inner[i].1.as_str());
            inner.push((a, b));
            proof {
                assert(pair_views(inner@) =~= before.push((a@, b@)));
                assert(pair_views(self.inner@)[i as int] == (a@, b@));
                assert(pair_views(inner@) =~= pair_views(self.inner@).subrange(0, i + 1));
            }
            i = i + 1;
        }
        assert(pair_views(self.inner@).subrange(0, self.inner@.len() as int) =~= pair_views(self.inner@));
        assert(pair_views(inner@) == pair_views(self.inner@));
        MethodRegistry { inner }
    }
}

impl MethodRegistry {
    /// The registrations, in first-registration order.
    pub closed spec fn entries(&self) -> Seq<(Seq<char>, Seq<char>)> {
        pair_views(self.inner@)
    }

    /// The handler id registered for `name`.
    pub open spec fn lookup(&self, name: Seq<char>) -> Option<Seq<char>> {
        entry_lookup(self.entries(), name, 0)
    }

    /// No name is registered twice.
    #[verifier::type_invariant]
    spec fn names_unique(&self) -> bool {
        unique_keys(self.entries())
    }

    pub fn new() -> (r: Self)
        ensures
            r.entries().len() == 0,
    {
        let inner: Vec<(String, String)> = Vec::new();
        assert(pair_views(inner@).len() == 0);
        MethodRegistry { inner }
    }

    fn position(&self, name: &[char]) -> (r: Option<usize>)
        ensures
            match r {
                Some(i) => i < self.entries().len() && self.entries()[i as int].0 == name@
                    && entry_lookup(self.entries(), name@, 0) == Some(self.entries()[i as int].1),
                None => entry_lookup(self.entries(), name@, 0) is None,
            },
    {
        let mut i: usize = 0;
        while i < self.inner.len()
            invariant
                i <= self.inner@.len(),
                entry_lookup(self.entries(), name@, i as int) == entry_lookup(self.entries(), name@, 0),
            decreases self.inner@.len() - i,
        {
            let k = to_chars(self.inner[i].0.as_str());
            if chars_eq(k.as_slice(), name) {
                return Some(i);
            }
            i = i + 1;
        }
        None
    }

    /// Registers `name` → `handler_id`, replacing an earlier handler; true when the name is
    /// new.
    pub fn register(&mut self, name: &str, handler_id: &str) -> (r: bool)
        ensures
            r == old(self).lookup(name@) is None,
            final(self).lookup(name@) == Some(handler_id@),
            forall|other: Seq<char>| other != name@ ==> final(self).lookup(other) == old(self).lookup(other),
            final(self).entries().len() == old(self).entries().len() + (if r { 1int } else { 0 }),
    {
        proof {
            use_type_invariant(&*self);
        }
        let nv = to_chars(name);
        let ghost before = self.entries();
        let pos = self.position(nv.as_slice());
        let mut inner: Vec<(String, String)> = Vec::new();
        assert(pair_views(inner@).len() == 0);
        std::mem::swap(&mut inner, &mut self.inner);
        assert(pair_views(inner@) == before);
        match pos {
            Some(i) => {
                inner.set(i, (own_str(name), own_str(handler_id)));
                proof {
                    assert(pair_views(inner@) =~= before.update(i as int, (name@, handler_id@)));
                    lemma_entry_lookup_update(before, i as int, name@, handler_id@);
                }
                self.inner = inner;
                false
            },
            None => {
                inner.push((own_str(name), own_str(handler_id)));
                proof {
                    assert(pair_views(inner@) =~= before.push((name@, handler_id@)));
                    lemma_entry_lookup_push(before, name@, handler_id@);
                }
                self.inner = inner;
                true
            },
        }
    }

    pub fn contains(&self, name: &str) -> (r: bool)
        ensures
            r == self.lookup(name@) is Some,
    {
        let nv = to_chars(name);
        self.position(nv.as_slice()).is_some()
    }

    /// The number of registered names.
    pub fn len(&self) -> (r: usize)
        ensures
            r == self.entries().len(),
    {
        self.inner.len()
    }

    pub fn get(&self, name: &str) -> (r: Option<&String>)
        ensures
            match r {
                Some(h) => self.lookup(name@) == Some(h@),
                None => self.lookup(name@) is None,
            },
    {
        let nv = to_chars(name);
        match self.position(nv.as_slice()) {
            Some(i) => Some(&self.inner[i].1),
            None => None,
        }
    }

    /// The registered names, in first-registration order.
    pub fn names(&self) -> (r: Vec<String>)
        ensures
            r@.len() == self.entries().len(),
            forall|i: int| 0 <= i < r@.len() ==> #[trigger] r@[i]@ == self.entries()[i].0,
    {
        let mut out: Vec<String> = Vec::new();
        let mut i: usize = 0;
        while i < self.inner.len()
            invariant
                i <= self.inner@.len(),
                self.entries().len() == self.inner@.len(),
                out@.len() == i,
                forall|k: int| 0 <= k < i ==> #[trigger] out@[k]@ == self.entries()[k].0,
            decreases self.inner@.len() - i,
        {
            out.push(own_str(self.inner[i].0.as_str()));
            i = i + 1;
        }
        out
    }

    /// Registers `names[k]` → `ids[k]` for each `k` in turn. With no name listed twice, each
    /// listed name ends up with its own id; other names keep what they had; and when none was
    /// registered before, the registry grows by one entry per name.
    pub fn register_pairs(&mut self, names: &[&str], ids: &[&str])
        requires
            names@.len() == ids@.len(),
        ensures
            (forall|a: int, b: int| 0 <= a < b < names@.len() ==> (#[trigger] names@[a])@ != (#[trigger] names@[b])@)
                ==> forall|k: int| 0 <= k < names@.len() ==> final(self).lookup(#[trigger] names@[k]@) == Some(ids@[k]@),
            forall|n: Seq<char>|
                (forall|k: int| 0 <= k < names@.len() ==> (#[trigger] names@[k])@ != n) ==> final(self).lookup(n)
                    == old(self).lookup(n),
            (forall|a: int, b: int| 0 <= a < b < names@.len() ==> (#[trigger] names@[a])@ != (#[trigger] names@[b])@)
                && (forall|k: int| 0 <= k < names@.len() ==> old(self).lookup(#[trigger] names@[k]@) is None)
                ==> final(self).entries().len() == old(self).entries().len() + names@.len(),
    {
        let ghost start = *self;
        let ghost distinct = forall|a: int, b: int|
            0 <= a < b < names@.len() ==> (#[trigger] names@[a])@ != (#[trigger] names@[b])@;
        let ghost fresh = distinct && (forall|k: int|
            0 <= k < names@.len() ==> start.lookup(#[trigger] names@[k]@) is None);
        let mut i: usize = 0;
        while i < names.len()
            invariant
                i <= names@.len(),
                names@.len() == ids@.len(),
                distinct == (forall|a: int, b: int|
                    0 <= a < b < names@.len() ==> (#[trigger] names@[a])@ != (#[trigger] names@[b])@),
                distinct ==> forall|k: int| 0 <= k < i ==> self.lookup(#[trigger] names@[k]@) == Some(ids@[k]@),
                forall|n: Seq<char>|
                    (forall|k: int| 0 <= k < i ==> (#[trigger] names@[k])@ != n) ==> self.lookup(n) == start.lookup(n),
                fresh == (distinct && (forall|k: int|
                    0 <= k < names@.len() ==> start.lookup(#[trigger] names@[k]@) is None)),
                fresh ==> self.entries().len() == start.entries().len() + i,
            decreases names@.len() - i,
        {
            let name = names[i];
            let id = ids[i];
            proof {
                if distinct {
                    assert(forall|k: int| 0 <= k < i ==> (#[trigger] names@[k])@ != name@);
                }
                if fresh {
                    assert(start.lookup(names@[i as int]@) is None);
                }
            }
            self.register(name, id);
            proof {
                assert forall|n: Seq<char>|
                    (forall|k: int| 0 <= k < i + 1 ==> (#[trigger] names@[k])@ != n) implies self.lookup(n) == start.lookup(n) by {
                    assert(names@[i as int]@ != n);
                }
            }
            i = i + 1;
        }
    }

    /// Registers each of `names` with the name itself as handler id. Names listed twice, or
    /// registered before, keep one entry; when none is, the registry grows by one entry per
    /// name.
    pub fn register_names(&mut self, names: &[&str])
        ensures
            forall|k: int| 0 <= k < names@.len() ==> final(self).lookup(#[trigger] names@[k]@) == Some(names@[k]@),
            forall|n: Seq<char>|
                (forall|k: int| 0 <= k < names@.len() ==> (#[trigger] names@[k])@ != n) ==> final(self).lookup(n)
                    == old(self).lookup(n),
            (forall|a: int, b: int| 0 <= a < b < names@.len() ==> (#[trigger] names@[a])@ != (#[trigger] names@[b])@)
                && (forall|k: int| 0 <= k < names@.len() ==> old(self).lookup(#[trigger] names@[k]@) is None)
                ==> final(self).entries().len() == old(self).entries().len() + names@.len(),
    {
        let ghost start = *self;
        let ghost fresh = (forall|a: int, b: int| 0 <= a < b < names@.len() ==> (#[trigger] names@[a])@ != (#[trigger] names@[b])@)
            && (forall|k: int| 0 <= k < names@.len() ==> start.lookup(#[trigger] names@[k]@) is None);
        let mut i: usize = 0;
        while i < names.len()
            invariant
                i <= names@.len(),
                forall|k: int| 0 <= k < i ==> self.lookup(#[trigger] names@[k]@) == Some(names@[k]@),
                forall|n: Seq<char>|
                    (forall|k: int| 0 <= k < i ==> (#[trigger] names@[k])@ != n) ==> self.lookup(n) == start.lookup(n),
                fresh == ((forall|a: int, b: int| 0 <= a < b < names@.len() ==> (#[trigger] names@[a])@ != (#[trigger] names@[b])@)
                    && (forall|k: int| 0 <= k < names@.len() ==> start.lookup(#[trigger] names@[k]@) is None)),
                fresh ==> self.entries().len() == start.entries().len() + i,
            decreases names@.len() - i,
        {
            let name = names[i];
            proof {
                if fresh {
                    assert(forall|k: int| 0 <= k < i ==> (#[trigger] names@[k])@ != name@);
                    assert(start.lookup(names@[i as int]@) is None);
                }
            }
            self.register(name, name);
            proof {
                assert forall|n: Seq<char>|
                    (forall|k: int| 0 <= k < i + 1 ==> (#[trigger] names@[k])@ != n) implies self.lookup(n) == start.lookup(n) by {
                    assert(names@[i as int]@ != n);
                }
            }
            i = i + 1;
        }
    }
}

/// No key occurs twice in `es`.
pub open spec fn unique_keys(es: Seq<(Seq<char>, Seq<char>)>) -> bool {
    forall|a: int, b: int| 0 <= a < b < es.len() ==> (#[trigger] es[a]).0 != (#[trigger] es[b]).0
}

/// The value of the first entry whose key is `key`, from index `i` on.
pub open spec fn entry_lookup(es: Seq<(Seq<char>, Seq<char>)>, key: Seq<char>, i: int) -> Option<Seq<char>>
    decreases es.len() - i,
{
    if i < 0 || i >= es.len() {
        None
    } else if es[i].0 == key {
        Some(es[i].1)
    } else {
        entry_lookup(es, key, i + 1)
    }
}

proof fn lemma_entry_lookup_props(es: Seq<(Seq<char>, Seq<char>)>, key: Seq<char>, i: int)
    requires
        0 <= i,
    ensures
        entry_lookup(es, key, i) is None <==> forall|t: int| i <= t < es.len() ==> (#[trigger] es[t]).0 != key,
        entry_lookup(es, key, i) matches Some(v) ==> exists|t: int| i <= t < es.len() && (#[trigger] es[t]).0 == key && es[t].1 == v && forall|u: int| i <= u < t ==> (#[trigger] es[u]).0 != key,
    decreases es.len() - i,
{
    if i < es.len() {
        lemma_entry_lookup_props(es, key, i + 1);
    }
}

proof fn lemma_entry_lookup_update(es: Seq<(Seq<char>, Seq<char>)>, i: int, key: Seq<char>, v: Seq<char>)
    requires
        0 <= i < es.len(),
        es[i].0 == key,
        forall|a: int, b: int| 0 <= a < b < es.len() ==> (#[trigger] es[a]).0 != (#[trigger] es[b]).0,
    ensures
        entry_lookup(es.update(i, (key, v)), key, 0) == Some(v),
        forall|other: Seq<char>| other != key ==> entry_lookup(es.update(i, (key, v)), other, 0) == entry_lookup(es, other, 0),
        forall|a: int, b: int| 0 <= a < b < es.len() ==> (#[trigger] es.update(i, (key, v))[a]).0 != (#[trigger] es.update(i, (key, v))[b]).0,
{
    let u = es.update(i, (key, v));
    assert forall|other: Seq<char>| other != key implies entry_lookup(u, other, 0) == entry_lookup(es, other, 0) by {
        lemma_lookup_same_keys(es, u, other, 0);
    }
    lemma_entry_lookup_props(u, key, 0);
    lemma_entry_lookup_props(es, key, 0);
    if entry_lookup(u, key, 0) != Some(v) {
        if entry_lookup(u, key, 0) is None {
            assert(u[i].0 == key);
        } else {
            let t = choose|t: int| 0 <= t < u.len() && (#[trigger] u[t]).0 == key && u[t].1 == entry_lookup(u, key, 0)->0 && forall|w: int| 0 <= w < t ==> (#[trigger] u[w]).0 != key;
            if t < i {
                assert(es[t].0 == key);
            } else if t > i {
                assert(u[i].0 == key);
            }
        }
    }
}

/// Lookups of keys that sit at the same places in two sequences agree.
proof fn lemma_lookup_same_keys(es: Seq<(Seq<char>, Seq<char>)>, u: Seq<(Seq<char>, Seq<char>)>, key: Seq<char>, i: int)
    requires
        0 <= i,
        es.len() == u.len(),
        forall|t: int| 0 <= t < es.len() ==> (#[trigger] es[t]).0 == u[t].0,
        forall|t: int| 0 <= t < es.len() && es[t].0 == key ==> (#[trigger] es[t]).1 == u[t].1,
    ensures
        entry_lookup(u, key, i) == entry_lookup(es, key, i),
    decreases es.len() - i,
{
    if i < es.len() {
        lemma_lookup_same_keys(es, u, key, i + 1);
    }
}

proof fn lemma_entry_lookup_push(es: Seq<(Seq<char>, Seq<char>)>, key: Seq<char>, v: Seq<char>)
    requires
        entry_lookup(es, key, 0) is None,
        forall|a: int, b: int| 0 <= a < b < es.len() ==> (#[trigger] es[a]).0 != (#[trigger] es[b]).0,
    ensures
        entry_lookup(es.push((key, v)), key, 0) == Some(v),
        forall|other: Seq<char>| other != key ==> entry_lookup(es.push((key, v)), other, 0) == entry_lookup(es, other, 0),
        forall|a: int, b: int| 0 <= a < b < es.len() + 1 ==> (#[trigger] es.push((key, v))[a]).0 != (#[trigger] es.push((key, v))[b]).0,
{
    let p = es.push((key, v));
    lemma_entry_lookup_props(es, key, 0);
    lemma_push_lookup(es, key, v, key, 0);
    assert forall|other: Seq<char>| other != key implies entry_lookup(p, other, 0) == entry_lookup(es, other, 0) by {
        lemma_push_lookup(es, key, v, other, 0);
    }
}

proof fn lemma_push_lookup(es: Seq<(Seq<char>, Seq<char>)>, key: Seq<char>, v: Seq<char>, q: Seq<char>, i: int)
    requires
        0 <= i <= es.len(),
    ensures
        entry_lookup(es.push((key, v)), q, i) == (match entry_lookup(es, q, i) {
            Some(x) => Some(x),
            None => if q == key {
                Some(v)
            } else {
                None
            },
        }),
    decreases es.len() - i,
{
    let p = es.push((key, v));
    if i < es.len() {
        assert(p[i] == es[i]);
        lemma_push_lookup(es, key, v, q, i + 1);
    } else {
        assert(p[i] == (key, v));
        assert(entry_lookup(p, q, i + 1) is None);
    }
}

} // verus!
