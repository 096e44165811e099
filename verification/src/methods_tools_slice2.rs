//! Tools & system JSON-RPC handlers: slash.exec, insights, rollback, browser,
//! plugins/config/tools/toolsets/agents listings, cron and learning frames, plus the
//! helpers of the undo / snapshot / compress tail of `command.dispatch`.
use vstd::prelude::*;
use crate::number::{float_nonzero_finite, float_nonzero_finite_chars, int_value, parse_i64_chars, parses_i64};
use crate::rpc_json::{
    coded_reply, err_envelope, err_response_chars, fixed_reply, int_decimal,
    nat_decimal, nat_decimal_exec, raw_field, raw_field_exec, reply_coded, reply_fixed,
    string_field, string_field_exec,
};
use crate::text::{
    ascii_lower, ascii_lower_exec, chars_eq_str, find_class_exec, find_class_from, find_from,
    from_chars, is_ws, push_all, push_str, skip_fwd, skip_fwd_exec, slice_vec, starts_with,
    to_chars, trim, trim_exec, trim_k, trim_k_exec, CharClass, debug_quoted, debug_str,
    lemma_find_class_from, lemma_skip_fwd_bounds, find_str, find,
};

use crate::server_slice3::MethodRegistry;
use crate::rpc_json::rid_json;
use crate::text::{opt_string, own_str};

pub use crate::rpc_json::{
    err_response, encode_rid, extract_bool_field, extract_raw_value, extract_string_field,
    extract_string_or_empty, ok_response,
};

verus! {

// ---------------------------------------------------------------------------
// Method names
// ---------------------------------------------------------------------------

pub const METHOD_SLASH_EXEC: &'static str = "slash.exec";
pub const METHOD_INSIGHTS_GET: &'static str = "insights.get";
pub const METHOD_ROLLBACK_LIST: &'static str = "rollback.list";
pub const METHOD_ROLLBACK_RESTORE: &'static str = "rollback.restore";
pub const METHOD_ROLLBACK_DIFF: &'static str = "rollback.diff";
pub const METHOD_BROWSER_MANAGE: &'static str = "browser.manage";
pub const METHOD_PLUGINS_LIST: &'static str = "plugins.list";
pub const METHOD_CONFIG_SHOW: &'static str = "config.show";
pub const METHOD_TOOLS_LIST: &'static str = "tools.list";
pub const METHOD_TOOLS_SHOW: &'static str = "tools.show";
pub const METHOD_TOOLS_CONFIGURE: &'static str = "tools.configure";
pub const METHOD_TOOLSETS_LIST: &'static str = "toolsets.list";
pub const METHOD_AGENTS_LIST: &'static str = "agents.list";
pub const METHOD_CRON_MANAGE: &'static str = "cron.manage";
pub const METHOD_LEARNING_FRAMES: &'static str = "learning.frames";

// ---------------------------------------------------------------------------
// Error codes
// ---------------------------------------------------------------------------

pub const ERR_EMPTY_COMMAND: i32 = 4004;
pub const ERR_HASH_REQUIRED: i32 = 4014;
pub const ERR_UNKNOWN_BROWSER_ACTION: i32 = 4015;
pub const ERR_UNKNOWN_TOOLS_ACTION: i32 = 4017;
pub const ERR_NAMES_REQUIRED: i32 = 4018;
pub const ERR_UNKNOWN_CRON_ACTION: i32 = 4016;
pub const ERR_SLASH_WORKER: i32 = 5030;
pub const ERR_SNAPSHOT_RESTORE: i32 = 4018;
pub const ERR_SKILL_COMMAND: i32 = 4018;
pub const ERR_SESSION_BUSY: i32 = 4009;
pub const ERR_DB_UNAVAILABLE_INSIGHTS: i32 = 5017;
pub const ERR_ROLLBACK_LIST: i32 = 5020;
pub const ERR_ROLLBACK_RESTORE: i32 = 5021;
pub const ERR_ROLLBACK_DIFF: i32 = 5022;
pub const ERR_PLUGINS_LIST: i32 = 5032;
pub const ERR_CONFIG_SHOW: i32 = 5030;
pub const ERR_TOOLS_LIST: i32 = 5031;
pub const ERR_TOOLS_SHOW: i32 = 5034;
pub const ERR_TOOLS_CONFIGURE: i32 = 5035;
pub const ERR_TOOLSETS_LIST: i32 = 5032;
pub const ERR_AGENTS_LIST: i32 = 5033;
pub const ERR_CRON_MANAGE: i32 = 5023;
pub const ERR_PROFILE_NOT_FOUND: i32 = 4064;
pub const ERR_LEARNING_FRAMES: i32 = 5000;
pub const ERR_NO_SESSION: i32 = 4001;
pub const ERR_NO_USER_MESSAGES: i32 = 4018;
pub const ERR_UNDO_INVALID_COUNT: i32 = 4004;
pub const ERR_UNDO_LOAD_HISTORY: i32 = 5008;
pub const ERR_COMPRESS_FAILED: i32 = 5009;
pub const ERR_COMPRESS_BUSY: i32 = 4009;

// ---------------------------------------------------------------------------
// Truthiness
// ---------------------------------------------------------------------------

pub open spec fn falsy_word(t: Seq<char>) -> bool {
    t.len() == 0 || t == "0"@ || t == "false"@ || t == "no"@ || t == "off"@ || t == "n"@ || t
        == "f"@
}

pub open spec fn truthy_word(t: Seq<char>) -> bool {
    t == "true"@ || t == "1"@ || t == "yes"@ || t == "on"@ || t == "y"@ || t == "t"@
}

/// Truthiness of a text value: the known words, else a nonzero number.
pub open spec fn truthy_text(s: Seq<char>) -> bool {
    let t = ascii_lower(trim(s));
    if falsy_word(t) {
        false
    } else if truthy_word(t) {
        true
    } else if parses_i64(t) {
        int_value(t) != 0
    } else {
        float_nonzero_finite(t)
    }
}

pub open spec fn truthy_value(raw: Option<Seq<char>>) -> bool {
    match raw {
        None => false,
        Some(s) => truthy_text(s),
    }
}

fn truthy_chars(s: &[char]) -> (r: bool)
    ensures
        r == truthy_text(s@),
{
    let tr = trim_exec(s);
    let t = ascii_lower_exec(tr.as_slice());
    let ts = t.as_slice();
    if ts.len() == 0 || chars_eq_str(ts, "0") || chars_eq_str(ts, "false") || chars_eq_str(ts, "no")
        || chars_eq_str(ts, "off") || chars_eq_str(ts, "n") || chars_eq_str(ts, "f") {
        return false;
    }
    if chars_eq_str(ts, "true") || chars_eq_str(ts, "1") || chars_eq_str(ts, "yes")
        || chars_eq_str(ts, "on") || chars_eq_str(ts, "y") || chars_eq_str(ts, "t") {
        return true;
    }
    match parse_i64_chars(ts) {
        Some(n) => n != 0,
        None => float_nonzero_finite_chars(ts),
    }
}

/// Truthiness of an optional text value: `true`/`1`/`yes`/`on`/`y`/`t` (any case, trimmed)
/// and nonzero finite numbers are true; absent, empty, the negative words and everything
/// else are false.
pub fn is_truthy_value(raw: Option<&str>) -> (r: bool)
    ensures
        r == truthy_value(match raw {
            Some(s) => Some(s@),
            None => None,
        }),
{
    match raw {
        None => false,
        Some(s) => {
            let v = to_chars(s);
            truthy_chars(v.as_slice())
        },
    }
}

/// Truthiness of a field's raw value, after trimming white space and double quotes.
pub open spec fn truthy_field(params: Seq<char>, field: Seq<char>) -> bool {
    match raw_field(params, field) {
        None => false,
        Some(raw) => truthy_text(trim_k(trim(raw), CharClass::Exactly('"'))),
    }
}

pub fn is_truthy_field(params_json: &str, field: &str) -> (r: bool)
    ensures
        r == truthy_field(params_json@, field@),
{
    let p = to_chars(params_json);
    let f = to_chars(field);
    match raw_field_exec(p.as_slice(), f.as_slice()) {
        None => false,
        Some(raw) => {
            let t = trim_exec(raw.as_slice());
            let u = trim_k_exec(t.as_slice(), CharClass::Exactly('"'));
            truthy_chars(u.as_slice())
        },
    }
}


// ---------------------------------------------------------------------------
// Parameter helpers
// ---------------------------------------------------------------------------

/// The trimmed string value of `field`, or the empty string.
pub open spec fn trimmed_field(params: Seq<char>, field: Seq<char>) -> Seq<char> {
    match string_field(params, field) {
        Some(v) => trim(v),
        None => Seq::empty(),
    }
}

pub fn trimmed_field_exec(params: &[char], field: &str) -> (r: Vec<char>)
    ensures
        r@ == trimmed_field(params@, field@),
{
    let f = to_chars(field);
    match string_field_exec(params, f.as_slice()) {
        Some(v) => trim_exec(v.as_slice()),
        None => Vec::new(),
    }
}

/// The non-blank `hash` parameter, trimmed.
pub fn extract_hash_param(params_json: &str) -> (r: Option<String>)
    ensures
        r matches Some(v) ==> v@ == trimmed_field(params_json@, "hash"@) && v@.len() > 0,
        r is None ==> trimmed_field(params_json@, "hash"@).len() == 0,
{
    let p = to_chars(params_json);
    let t = trimmed_field_exec(p.as_slice(), "hash");
    if t.len() == 0 {
        None
    } else {
        Some(from_chars(t.as_slice()))
    }
}

/// The `action` parameter, `status` when absent.
pub open spec fn browser_action(params: Seq<char>) -> Seq<char> {
    match string_field(params, "action"@) {
        Some(v) => v,
        None => "status"@,
    }
}

pub fn extract_browser_action(params_json: &str) -> (r: String)
    ensures
        r@ == browser_action(params_json@),
{
    match extract_string_field(params_json, "action") {
        Some(v) => v,
        None => from_chars(to_chars("status").as_slice()),
    }
}

pub open spec fn valid_browser_action(a: Seq<char>) -> bool {
    a == "status"@ || a == "disconnect"@ || a == "connect"@
}

pub fn is_valid_browser_action(action: &str) -> (r: bool)
    ensures
        r == valid_browser_action(action@),
        r == (action@ == "status"@ || action@ == "disconnect"@ || action@ == "connect"@),
{
    let a = to_chars(action);
    chars_eq_str(a.as_slice(), "status") || chars_eq_str(a.as_slice(), "disconnect")
        || chars_eq_str(a.as_slice(), "connect")
}

pub open spec fn valid_tools_action(a: Seq<char>) -> bool {
    a == "enable"@ || a == "disable"@
}

pub fn is_valid_tools_action(action: &str) -> (r: bool)
    ensures
        r == valid_tools_action(action@),
{
    let a = to_chars(action);
    chars_eq_str(a.as_slice(), "enable") || chars_eq_str(a.as_slice(), "disable")
}

// ---------------------------------------------------------------------------
// Handlers
// ---------------------------------------------------------------------------

/// `slash.exec`: a blank `command` is refused with 4004 before the backend runs;
/// otherwise the backend's outcome is the reply.
pub fn handle_slash_exec<F>(rid_json: &str, params_json: &str, op: F) -> (r: String) where
    F: Fn(&str) -> Result<String, (i32, String)>,

    requires
        trimmed_field(params_json@, "command"@).len() > 0 ==> op.requires((params_json,)),
    ensures
        trimmed_field(params_json@, "command"@).len() == 0 ==> r@ == err_envelope(
            rid_json@,
            4004,
            "empty command"@,
        ),
        trimmed_field(params_json@, "command"@).len() > 0 ==> exists|res|
            op.ensures((params_json,), res) && r@ == coded_reply(rid_json@, res),
{
    let p = to_chars(params_json);
    let cmd = trimmed_field_exec(p.as_slice(), "command");
    if cmd.len() == 0 {
        return err_response(rid_json, ERR_EMPTY_COMMAND, "empty command");
    }
    let res = op(params_json);
    reply_coded(rid_json, res)
}


/// `insights.get`: the backend outcome, errors under 5017.
pub fn handle_insights_get<F>(rid_json: &str, params_json: &str, op: F) -> (r: String) where
    F: Fn(&str) -> Result<String, String>,

    requires
        op.requires((params_json,)),
    ensures
        exists|res| op.ensures((params_json,), res) && r@ == fixed_reply(rid_json@, 5017, res),
{
    let res = op(params_json);
    reply_fixed(rid_json, ERR_DB_UNAVAILABLE_INSIGHTS, res)
}

/// `plugins.list`: the backend outcome, errors under 5032.
pub fn handle_plugins_list<F>(rid_json: &str, params_json: &str, op: F) -> (r: String) where
    F: Fn(&str) -> Result<String, String>,

    requires
        op.requires((params_json,)),
    ensures
        exists|res| op.ensures((params_json,), res) && r@ == fixed_reply(rid_json@, 5032, res),
{
    let res = op(params_json);
    reply_fixed(rid_json, ERR_PLUGINS_LIST, res)
}

/// `config.show`: the backend outcome, errors under 5030.
pub fn handle_config_show<F>(rid_json: &str, params_json: &str, op: F) -> (r: String) where
    F: Fn(&str) -> Result<String, String>,

    requires
        op.requires((params_json,)),
    ensures
        exists|res| op.ensures((params_json,), res) && r@ == fixed_reply(rid_json@, 5030, res),
{
    let res = op(params_json);
    reply_fixed(rid_json, ERR_CONFIG_SHOW, res)
}

/// `tools.list`: the backend outcome, errors under 5031.
pub fn handle_tools_list<F>(rid_json: &str, params_json: &str, op: F) -> (r: String) where
    F: Fn(&str) -> Result<String, String>,

    requires
        op.requires((params_json,)),
    ensures
        exists|res| op.ensures((params_json,), res) && r@ == fixed_reply(rid_json@, 5031, res),
{
    let res = op(params_json);
    reply_fixed(rid_json, ERR_TOOLS_LIST, res)
}

/// `tools.show`: the backend outcome, errors under 5034.
pub fn handle_tools_show<F>(rid_json: &str, params_json: &str, op: F) -> (r: String) where
    F: Fn(&str) -> Result<String, String>,

    requires
        op.requires((params_json,)),
    ensures
        exists|res| op.ensures((params_json,), res) && r@ == fixed_reply(rid_json@, 5034, res),
{
    let res = op(params_json);
    reply_fixed(rid_json, ERR_TOOLS_SHOW, res)
}

/// `toolsets.list`: the backend outcome, errors under 5032.
pub fn handle_toolsets_list<F>(rid_json: &str, params_json: &str, op: F) -> (r: String) where
    F: Fn(&str) -> Result<String, String>,

    requires
        op.requires((params_json,)),
    ensures
        exists|res| op.ensures((params_json,), res) && r@ == fixed_reply(rid_json@, 5032, res),
{
    let res = op(params_json);
    reply_fixed(rid_json, ERR_TOOLSETS_LIST, res)
}

/// `agents.list`: the backend outcome, errors under 5033.
pub fn handle_agents_list<F>(rid_json: &str, params_json: &str, op: F) -> (r: String) where
    F: Fn(&str) -> Result<String, String>,

    requires
        op.requires((params_json,)),
    ensures
        exists|res| op.ensures((params_json,), res) && r@ == fixed_reply(rid_json@, 5033, res),
{
    let res = op(params_json);
    reply_fixed(rid_json, ERR_AGENTS_LIST, res)
}

/// `learning.frames`: the backend outcome, errors under 5000.
pub fn handle_learning_frames<F>(rid_json: &str, params_json: &str, op: F) -> (r: String) where
    F: Fn(&str) -> Result<String, String>,

    requires
        op.requires((params_json,)),
    ensures
        exists|res| op.ensures((params_json,), res) && r@ == fixed_reply(rid_json@, 5000, res),
{
    let res = op(params_json);
    reply_fixed(rid_json, ERR_LEARNING_FRAMES, res)
}

/// `rollback.list`: the backend outcome with its own error code.
pub fn handle_rollback_list<F>(rid_json: &str, params_json: &str, op: F) -> (r: String) where
    F: Fn(&str) -> Result<String, (i32, String)>,

    requires
        op.requires((params_json,)),
    ensures
        exists|res| op.ensures((params_json,), res) && r@ == coded_reply(rid_json@, res),
{
    let res = op(params_json);
    reply_coded(rid_json, res)
}

/// `cron.manage`: the backend outcome with its own error code.
pub fn handle_cron_manage<F>(rid_json: &str, params_json: &str, op: F) -> (r: String) where
    F: Fn(&str) -> Result<String, (i32, String)>,

    requires
        op.requires((params_json,)),
    ensures
        exists|res| op.ensures((params_json,), res) && r@ == coded_reply(rid_json@, res),
{
    let res = op(params_json);
    reply_coded(rid_json, res)
}

/// `rollback.restore`: a blank `hash` is refused with 4014; otherwise the backend outcome.
pub fn handle_rollback_restore<F>(rid_json: &str, params_json: &str, op: F) -> (r: String) where
    F: Fn(&str) -> Result<String, (i32, String)>,

    requires
        trimmed_field(params_json@, "hash"@).len() > 0 ==> op.requires((params_json,)),
    ensures
        trimmed_field(params_json@, "hash"@).len() == 0 ==> r@ == err_envelope(
            rid_json@,
            4014,
            "hash required"@,
        ),
        trimmed_field(params_json@, "hash"@).len() > 0 ==> exists|res|
            op.ensures((params_json,), res) && r@ == coded_reply(rid_json@, res),
{
    let p = to_chars(params_json);
    let target = trimmed_field_exec(p.as_slice(), "hash");
    if target.len() == 0 {
        return err_response(rid_json, ERR_HASH_REQUIRED, "hash required");
    }
    let res = op(params_json);
    reply_coded(rid_json, res)
}

/// `rollback.diff`: a blank `hash` is refused with 4014; otherwise the backend outcome.
pub fn handle_rollback_diff<F>(rid_json: &str, params_json: &str, op: F) -> (r: String) where
    F: Fn(&str) -> Result<String, (i32, String)>,

    requires
        trimmed_field(params_json@, "hash"@).len() > 0 ==> op.requires((params_json,)),
    ensures
        trimmed_field(params_json@, "hash"@).len() == 0 ==> r@ == err_envelope(
            rid_json@,
            4014,
            "hash required"@,
        ),
        trimmed_field(params_json@, "hash"@).len() > 0 ==> exists|res|
            op.ensures((params_json,), res) && r@ == coded_reply(rid_json@, res),
{
    let p = to_chars(params_json);
    let target = trimmed_field_exec(p.as_slice(), "hash");
    if target.len() == 0 {
        return err_response(rid_json, ERR_HASH_REQUIRED, "hash required");
    }
    let res = op(params_json);
    reply_coded(rid_json, res)
}

/// `browser.manage`: an `action` other than status/disconnect/connect is refused with 4015
/// naming it; otherwise the backend outcome.
pub fn handle_browser_manage<F>(rid_json: &str, params_json: &str, op: F) -> (r: String) where
    F: Fn(&str) -> Result<String, (i32, String)>,

    requires
        valid_browser_action(browser_action(params_json@)) ==> op.requires((params_json,)),
    ensures
        !valid_browser_action(browser_action(params_json@)) ==> r@ == err_envelope(
            rid_json@,
            4015,
            "unknown action: "@ + browser_action(params_json@),
        ),
        valid_browser_action(browser_action(params_json@)) ==> exists|res|
            op.ensures((params_json,), res) && r@ == coded_reply(rid_json@, res),
        browser_action(params_json@) == "status"@ || browser_action(params_json@) == "disconnect"@
            || browser_action(params_json@) == "connect"@ ==> exists|res|
            op.ensures((params_json,), res) && r@ == coded_reply(rid_json@, res),
        !(browser_action(params_json@) == "status"@ || browser_action(params_json@) == "disconnect"@
            || browser_action(params_json@) == "connect"@) ==> r@ == err_envelope(
            rid_json@,
            4015,
            "unknown action: "@ + browser_action(params_json@),
        ),
{
    let action = extract_browser_action(params_json);
    if !is_valid_browser_action(action.as_str()) {
        let mut msg: Vec<char> = Vec::new();
        push_str(&mut msg, "unknown action: ");
        push_str(&mut msg, action.as_str());
        return err_response_chars(rid_json, ERR_UNKNOWN_BROWSER_ACTION, msg.as_slice());
    }
    let res = op(params_json);
    reply_coded(rid_json, res)
}


// ---------------------------------------------------------------------------
// tools.configure
// ---------------------------------------------------------------------------

/// Scans a JSON array text for its double-quoted strings; each is kept trimmed when it
/// is not blank. Escapes are kept verbatim.
pub open spec fn target_scan(
    t: Seq<char>,
    i: int,
    in_str: bool,
    esc: bool,
    cur: Seq<char>,
    out: Seq<Seq<char>>,
) -> Seq<Seq<char>>
    decreases t.len() - i,
{
    if i < 0 || i >= t.len() {
        out
    } else {
        let ch = t[i];
        if esc {
            target_scan(t, i + 1, in_str, false, cur.push(ch), out)
        } else if ch == '\\' && in_str {
            target_scan(t, i + 1, in_str, true, cur.push(ch), out)
        } else if ch == '"' {
            if in_str {
                let tr = trim(cur);
                target_scan(
                    t,
                    i + 1,
                    false,
                    false,
                    Seq::empty(),
                    if tr.len() > 0 {
                        out.push(tr)
                    } else {
                        out
                    },
                )
            } else {
                target_scan(t, i + 1, true, false, Seq::empty(), out)
            }
        } else if in_str {
            target_scan(t, i + 1, in_str, false, cur.push(ch), out)
        } else {
            target_scan(t, i + 1, in_str, false, cur, out)
        }
    }
}

/// The non-blank names listed in the `names` array parameter.
pub open spec fn tools_targets(params: Seq<char>) -> Seq<Seq<char>> {
    match raw_field(params, "names"@) {
        None => Seq::empty(),
        Some(raw) => {
            let t = trim(raw);
            if t == "null"@ || t == "[]"@ || t.len() == 0 {
                Seq::empty()
            } else if t[0] == '[' {
                target_scan(t, 0, false, false, Seq::empty(), Seq::empty())
            } else {
                Seq::empty()
            }
        },
    }
}

pub open spec fn string_views(v: Seq<String>) -> Seq<Seq<char>> {
    v.map_values(|s: String| s@)
}

fn target_scan_exec(t: &[char]) -> (r: Vec<String>)
    ensures
        string_views(r@) == target_scan(t@, 0, false, false, Seq::empty(), Seq::empty()),
{
    let mut out: Vec<String> = Vec::new();
    let mut cur: Vec<char> = Vec::new();
    let mut in_str = false;
    let mut esc = false;
    let mut i: usize = 0;
    assert(string_views(out@) =~= Seq::<Seq<char>>::empty());
    while i < t.len()
        invariant
            i <= t@.len(),
            target_scan(t@, i as int, in_str, esc, cur@, string_views(out@)) == target_scan(
                t@,
                0,
                false,
                false,
                Seq::empty(),
                Seq::empty(),
            ),
        decreases t@.len() - i,
    {
        let ch = t[i];
        if esc {
            cur.push(ch);
            esc = false;
        } else if ch == '\\' && in_str {
            esc = true;
            cur.push(ch);
        } else if ch == '"' {
            if in_str {
                let tr = trim_exec(cur.as_slice());
                if tr.len() > 0 {
                    let ghost before = string_views(out@);
                    out.push(from_chars(tr.as_slice()));
                    assert(string_views(out@) =~= before.push(tr@));
                }
                cur = Vec::new();
                assert(cur@ =~= Seq::<char>::empty());
                in_str = false;
            } else {
                in_str = true;
                cur = Vec::new();
                assert(cur@ =~= Seq::<char>::empty());
            }
        } else if in_str {
            cur.push(ch);
        }
        i = i + 1;
    }
    out
}

/// The names listed in the `names` array parameter, trimmed, blanks dropped.
pub fn extract_tools_targets(params_json: &str) -> (r: Vec<String>)
    ensures
        string_views(r@) == tools_targets(params_json@),
{
    let p = to_chars(params_json);
    let f = to_chars("names");
    match raw_field_exec(p.as_slice(), f.as_slice()) {
        None => {
            let v: Vec<String> = Vec::new();
            assert(string_views(v@) =~= Seq::<Seq<char>>::empty());
            v
        },
        Some(raw) => {
            let t = trim_exec(raw.as_slice());
            let ts = t.as_slice();
            if chars_eq_str(ts, "null") || chars_eq_str(ts, "[]") || ts.len() == 0 {
                let v: Vec<String> = Vec::new();
                assert(string_views(v@) =~= Seq::<Seq<char>>::empty());
                v
            } else if ts[0] == '[' {
                target_scan_exec(ts)
            } else {
                let v: Vec<String> = Vec::new();
                assert(string_views(v@) =~= Seq::<Seq<char>>::empty());
                v
            }
        },
    }
}

/// The `action` parameter, trimmed and lower-cased.
pub open spec fn tools_action(params: Seq<char>) -> Seq<char> {
    trim(ascii_lower(trimmed_field(params, "action"@)))
}

/// `tools.configure`: an action other than enable/disable is refused with 4017 naming it,
/// an empty `names` list with 4018; otherwise the backend outcome.
pub fn handle_tools_configure<F>(rid_json: &str, params_json: &str, op: F) -> (r: String) where
    F: Fn(&str) -> Result<String, (i32, String)>,

    requires
        valid_tools_action(tools_action(params_json@)) && tools_targets(params_json@).len() > 0 ==> op.requires((params_json,)),
    ensures
        !valid_tools_action(tools_action(params_json@)) ==> r@ == err_envelope(
            rid_json@,
            4017,
            "unknown tools action: "@ + tools_action(params_json@),
        ),
        valid_tools_action(tools_action(params_json@)) && tools_targets(params_json@).len() == 0
            ==> r@ == err_envelope(rid_json@, 4018, "names required"@),
        valid_tools_action(tools_action(params_json@)) && tools_targets(params_json@).len() > 0
            ==> exists|res| op.ensures((params_json,), res) && r@ == coded_reply(rid_json@, res),
{
    let p = to_chars(params_json);
    let raw = trimmed_field_exec(p.as_slice(), "action");
    let lower = ascii_lower_exec(raw.as_slice());
    let action = trim_exec(lower.as_slice());
    if !(chars_eq_str(action.as_slice(), "enable") || chars_eq_str(action.as_slice(), "disable")) {
        let mut msg: Vec<char> = Vec::new();
        push_str(&mut msg, "unknown tools action: ");
        push_all(&mut msg, action.as_slice());
        return err_response_chars(rid_json, ERR_UNKNOWN_TOOLS_ACTION, msg.as_slice());
    }
    let targets = extract_tools_targets(params_json);
    if targets.len() == 0 {
        return err_response(rid_json, ERR_NAMES_REQUIRED, "names required");
    }
    let res = op(params_json);
    reply_coded(rid_json, res)
}


// ---------------------------------------------------------------------------
// Undo / snapshot / compress
// ---------------------------------------------------------------------------

/// The first white-space separated word of a trimmed, non-blank text.
pub open spec fn first_word(t: Seq<char>) -> Seq<char> {
    match find_class_from(t, 0, CharClass::Space) {
        Some(e) => t.subrange(0, e),
        None => t,
    }
}

/// The `/undo [N]` count: 1 when blank, else the first word as an integer, at least 1;
/// a first word that is no integer is refused with 4004.
pub open spec fn undo_count(arg: Seq<char>) -> Result<int, (int, Seq<char>)> {
    let t = trim(arg);
    if t.len() == 0 {
        Ok(1)
    } else {
        let w = first_word(t);
        if parses_i64(w) {
            Ok(if int_value(w) < 1 { 1 } else { int_value(w) })
        } else {
            Err((4004, "undo: invalid count "@ + debug_quoted(w) + " \u{2014} use /undo or /undo N"@))
        }
    }
}

/// Parses the `/undo [N]` count (see `undo_count`).
pub fn parse_undo_count(arg: &str) -> (r: Result<usize, (i32, String)>)
    ensures
        r matches Ok(n) ==> undo_count(arg@) matches Ok(v) && n == v as usize,
        r matches Err((code, msg)) ==> undo_count(arg@) == Err::<int, (int, Seq<char>)>(
            (code as int, msg@),
        ),
        r is Ok <==> undo_count(arg@) is Ok,
{
    let a = to_chars(arg);
    let t = trim_exec(a.as_slice());
    if t.len() == 0 {
        return Ok(1);
    }
    let w = match find_class_exec(t.as_slice(), 0, CharClass::Space) {
        Some(e) => slice_vec(t.as_slice(), 0, e),
        None => slice_vec(t.as_slice(), 0, t.len()),
    };
    assert(t@.subrange(0, t@.len() as int) =~= t@);
    match parse_i64_chars(w.as_slice()) {
        Some(n) => {
            let v: i64 = if n < 1 {
                1
            } else {
                n
            };
            Ok(v as usize)
        },
        None => {
            let ws = from_chars(w.as_slice());
            let d = debug_str(ws.as_str());
            let mut msg: Vec<char> = Vec::new();
            push_str(&mut msg, "undo: invalid count ");
            push_str(&mut msg, d.as_str());
            push_str(&mut msg, " \u{2014} use /undo or /undo N");
            Err((ERR_UNDO_INVALID_COUNT, from_chars(msg.as_slice())))
        },
    }
}

/// The notice after an undo, e.g. `\u{21b6} Undid 2 turns (7 message(s)). ...`.
pub open spec fn undo_notice(turns: nat, rewound: nat) -> Seq<char> {
    "\u{21b6} Undid "@ + nat_decimal(turns) + (if turns == 1 {
        " turn"@
    } else {
        " turns"@
    }) + " ("@ + nat_decimal(rewound) + " message(s)). Edit and resubmit, or send a new message."@
}

pub fn format_undo_notice(turns_undone: usize, rewound_count: usize) -> (r: String)
    ensures
        r@ == undo_notice(turns_undone as nat, rewound_count as nat),
{
    let mut out: Vec<char> = Vec::new();
    push_str(&mut out, "\u{21b6} Undid ");
    let a = nat_decimal_exec(turns_undone as u64);
    push_all(&mut out, a.as_slice());
    if turns_undone == 1 {
        push_str(&mut out, " turn");
    } else {
        push_str(&mut out, " turns");
    }
    push_str(&mut out, " (");
    let b = nat_decimal_exec(rewound_count as u64);
    push_all(&mut out, b.as_slice());
    push_str(&mut out, " message(s)). Edit and resubmit, or send a new message.");
    from_chars(out.as_slice())
}

/// The output shown when `/snapshot restore` is tried from the TUI.
pub fn snapshot_restore_blocked_output() -> (r: String)
    ensures
        r@ == "/snapshot restore is blocked in the TUI because it changes config/state on disk while the live agent has cached settings. Run it in the classic CLI, then restart the TUI."@,
{
    from_chars(
        to_chars(
            "/snapshot restore is blocked in the TUI because it changes config/state on disk while the live agent has cached settings. Run it in the classic CLI, then restart the TUI.",
        ).as_slice(),
    )
}

/// Whether a slash command name is `compress` or `compact`.
pub fn is_compress_command(name: &str) -> (r: bool)
    ensures
        r == (name@ == "compress"@ || name@ == "compact"@),
{
    let n = to_chars(name);
    chars_eq_str(n.as_slice(), "compress") || chars_eq_str(n.as_slice(), "compact")
}

// ---------------------------------------------------------------------------
// learning.frames dimensions
// ---------------------------------------------------------------------------

/// One dimension: the integer value of `field` (bare or quoted), else `default`.
pub open spec fn learning_dim(params: Seq<char>, field: Seq<char>, default: int) -> int {
    match raw_field(params, field) {
        None => default,
        Some(v) => {
            let t = trim(trim_k(trim(v), CharClass::Exactly('"')));
            if t.len() == 0 || t == "null"@ {
                default
            } else if parses_i64(t) {
                int_value(t)
            } else {
                default
            }
        },
    }
}

fn learning_dim_exec(params: &[char], field: &str, default: i64) -> (r: i64)
    ensures
        r == learning_dim(params@, field@, default as int),
{
    let f = to_chars(field);
    match raw_field_exec(params, f.as_slice()) {
        None => default,
        Some(v) => {
            let a = trim_exec(v.as_slice());
            let b = trim_k_exec(a.as_slice(), CharClass::Exactly('"'));
            let t = trim_exec(b.as_slice());
            if t.len() == 0 || chars_eq_str(t.as_slice(), "null") {
                default
            } else {
                match parse_i64_chars(t.as_slice()) {
                    Some(n) => n,
                    None => default,
                }
            }
        },
    }
}

/// `cols`/`rows`/`frames`, defaulting to 80/24/48 field by field.
pub fn parse_learning_dims(params_json: &str) -> (r: (i64, i64, i64))
    ensures
        r.0 == learning_dim(params_json@, "cols"@, 80),
        r.1 == learning_dim(params_json@, "rows"@, 24),
        r.2 == learning_dim(params_json@, "frames"@, 48),
{
    let p = to_chars(params_json);
    let cols = learning_dim_exec(p.as_slice(), "cols", 80);
    let rows = learning_dim_exec(p.as_slice(), "rows", 24);
    let frames = learning_dim_exec(p.as_slice(), "frames", 48);
    (cols, rows, frames)
}

/// At least 20 columns and 10 rows.
pub fn clamp_learning_dims(cols: i64, rows: i64) -> (r: (i64, i64))
    ensures
        r.0 == (if cols >= 20 { cols } else { 20 }),
        r.1 == (if rows >= 10 { rows } else { 10 }),
{
    let c = if cols >= 20 {
        cols
    } else {
        20
    };
    let w = if rows >= 10 {
        rows
    } else {
        10
    };
    (c, w)
}


// ---------------------------------------------------------------------------
// Undo prefill text
// ---------------------------------------------------------------------------

pub open spec fn text_unescape_char(e: char) -> char {
    if e == 'n' {
        '\n'
    } else if e == 'r' {
        '\r'
    } else if e == 't' {
        '\t'
    } else {
        e
    }
}

/// Reads a string body from `t[i..]` up to its closing unescaped `"`: the index of that
/// quote and the unescaped text.
pub open spec fn text_str_close(t: Seq<char>, i: int, esc: bool, out: Seq<char>) -> Option<
    (int, Seq<char>),
>
    decreases t.len() - i,
{
    if i < 0 || i >= t.len() {
        None
    } else if esc {
        text_str_close(t, i + 1, false, out.push(text_unescape_char(t[i])))
    } else if t[i] == '\\' {
        text_str_close(t, i + 1, true, out)
    } else if t[i] == '"' {
        Some((i, out))
    } else {
        text_str_close(t, i + 1, false, out.push(t[i]))
    }
}

/// Collects the string values of `"text"` keys from index `idx` on. After a value whose
/// closing quote is at `q` (opening quote at `r0`, colon at `c`) the scan resumes at
/// `c + q - r0 + 3`; after a key whose value is not a string, at the key plus 7.
pub open spec fn text_parts_from(t: Seq<char>, idx: int, parts: Seq<Seq<char>>) -> Seq<Seq<char>>
    decreases t.len() + 1 - idx,
{
    if idx < 0 || idx > t.len() {
        parts
    } else {
        match find_from(t, "\"text\""@, idx) {
            None => parts,
            Some(abs) => match find_class_from(t, abs + 6, CharClass::Exactly(':')) {
                None => parts,
                Some(c) => {
                    let r0 = skip_fwd(t, c + 1, CharClass::Space);
                    if abs < idx || c < abs + 6 || r0 < c + 1 {
                        parts
                    } else if r0 < t.len() && t[r0] == '"' {
                        match text_str_close(t, r0 + 1, false, Seq::empty()) {
                            None => parts,
                            Some((q, v)) => if q <= r0 || q >= t.len() {
                                parts
                            } else {
                                text_parts_from(t, c + q - r0 + 3, parts.push(v))
                            },
                        }
                    } else {
                        text_parts_from(t, abs + 7, parts)
                    }
                },
            },
        }
    }
}

/// Joins lines with `\n`.
pub open spec fn join_lines(parts: Seq<Seq<char>>) -> Seq<char>
    decreases parts.len(),
{
    if parts.len() == 0 {
        Seq::empty()
    } else if parts.len() == 1 {
        parts[0]
    } else {
        join_lines(parts.drop_last()) + seq!['\n'] + parts.last()
    }
}

/// The prefill text of an undone message: blank or `null` gives the empty text, a JSON
/// list gives its `"text"` string values joined by new lines, anything else is kept.
pub open spec fn target_text(content: Seq<char>) -> Seq<char> {
    let t = trim(content);
    if t.len() == 0 || t == "null"@ {
        Seq::empty()
    } else if t[0] == '[' {
        join_lines(text_parts_from(t, 0, Seq::empty()))
    } else {
        content
    }
}

fn text_str_close_exec(t: &[char], start: usize) -> (r: Option<(usize, Vec<char>)>)
    requires
        start <= t@.len(),
    ensures
        r matches Some((q, v)) ==> text_str_close(t@, start as int, false, Seq::empty()) == Some(
            (q as int, v@),
        ) && start <= q < t@.len(),
        r is None ==> text_str_close(t@, start as int, false, Seq::empty()) is None,
{
    let mut out: Vec<char> = Vec::new();
    let mut esc = false;
    let mut i = start;
    while i < t.len()
        invariant
            start <= i <= t@.len(),
            text_str_close(t@, i as int, esc, out@) == text_str_close(
                t@,
                start as int,
                false,
                Seq::empty(),
            ),
        decreases t@.len() - i,
    {
        let ch = t[i];
        if esc {
            let u = if ch == 'n' {
                '\n'
            } else if ch == 'r' {
                '\r'
            } else if ch == 't' {
                '\t'
            } else {
                ch
            };
            out.push(u);
            esc = false;
        } else if ch == '\\' {
            esc = true;
        } else if ch == '"' {
            return Some((i, out));
        } else {
            out.push(ch);
        }
        i = i + 1;
    }
    None
}

fn join_lines_exec(parts: &Vec<Vec<char>>) -> (r: Vec<char>)
    ensures
        r@ == join_lines(parts@.map_values(|v: Vec<char>| v@)),
{
    let ghost views = parts@.map_values(|v: Vec<char>| v@);
    let mut out: Vec<char> = Vec::new();
    let mut i: usize = 0;
    while i < parts.len()
        invariant
            i <= parts@.len(),
            views == parts@.map_values(|v: Vec<char>| v@),
            out@ == join_lines(views.subrange(0, i as int)),
        decreases parts@.len() - i,
    {
        proof {
            let next = views.subrange(0, i + 1);
            assert(next.drop_last() =~= views.subrange(0, i as int));
            assert(next.last() == parts@[i as int]@);
            if i == 0 {
                assert(out@ =~= Seq::<char>::empty());
            }
        }
        if i > 0 {
            out.push('\n');
        }
        push_all(&mut out, parts[i].as_slice());
        proof {
            let next = views.subrange(0, i + 1);
            if i == 0 {
                assert(out@ =~= next[0]);
            }
        }
        i = i + 1;
    }
    assert(views.subrange(0, parts@.len() as int) =~= views);
    out
}

fn text_parts_exec(t: &[char]) -> (r: Vec<Vec<char>>)
    ensures
        r@.map_values(|v: Vec<char>| v@) == text_parts_from(t@, 0, Seq::empty()),
{
    let mut parts: Vec<Vec<char>> = Vec::new();
    let mut idx: usize = 0;
    let key = to_chars("\"text\"");
    proof {
        reveal_strlit("\"text\"");
    }
    assert(key@.len() == 6);
    let n = t.len();
    assert(parts@.map_values(|v: Vec<char>| v@) =~= Seq::<Seq<char>>::empty());
    while idx <= n
        invariant
            n == t@.len(),
            key@ == "\"text\""@,
            key@.len() == 6,
            text_parts_from(t@, idx as int, parts@.map_values(|v: Vec<char>| v@))
                == text_parts_from(t@, 0, Seq::empty()),
        decreases n + 1 - idx,
    {
        let ghost pv = parts@.map_values(|v: Vec<char>| v@);
        let abs = match crate::text::find_from_exec(t, key.as_slice(), idx) {
            None => {
                return parts;
            },
            Some(p) => p,
        };
        let c = match find_class_exec(t, abs + 6, CharClass::Exactly(':')) {
            None => {
                return parts;
            },
            Some(c) => c,
        };
        let r0 = skip_fwd_exec(t, c + 1, CharClass::Space);
        if r0 < n && t[r0] == '"' {
            match text_str_close_exec(t, r0 + 1) {
                None => {
                    return parts;
                },
                Some((q, v)) => {
                    parts.push(v);
                    assert(parts@.map_values(|v: Vec<char>| v@) =~= pv.push(v@));
                    let d = q - (r0 - c);
                    if n - d < 3 {
                        assert(text_parts_from(t@, d + 3, pv.push(v@)) == pv.push(v@));
                        return parts;
                    }
                    idx = d + 3;
                },
            }
        } else {
            if abs + 6 == n {
                assert(text_parts_from(t@, abs + 7, pv) == pv);
                return parts;
            }
            idx = abs + 7;
        }
    }
    parts
}

/// Where a scan resumes after a string value whose closing quote is at `q`, with `k` white
/// spaces between the colon and the opening quote, it counts the place as `q + 2 - k`
/// UTF-8 bytes. That place is a character boundary, and the same place as `q + 2 - k`
/// characters, exactly when the characters it steps over are ASCII, and the place is not
/// past the end.
pub open spec fn resume_in_step(t: Seq<char>, q: int, k: int) -> bool {
    if k == 0 {
        q + 1 < t.len() && (t[q + 1] as u32) < 0x80
    } else if k == 1 {
        true
    } else {
        forall|j: int| q - (k - 2) <= j < q ==> (#[trigger] t[j] as u32) < 0x80
    }
}

/// The scan of `text_parts_from` from `idx` ends: every `"text"` string value it reads is
/// closed, and every place it resumes at is in step (see `resume_in_step`).
pub open spec fn text_scan_ends(t: Seq<char>, idx: int) -> bool
    decreases t.len() + 1 - idx,
{
    if idx < 0 || idx > t.len() {
        false
    } else {
        match find_from(t, "\"text\""@, idx) {
            None => true,
            Some(abs) => match find_class_from(t, abs + 6, CharClass::Exactly(':')) {
                None => true,
                Some(c) => {
                    let r0 = skip_fwd(t, c + 1, CharClass::Space);
                    if abs < idx || c < abs + 6 || r0 < c + 1 {
                        true
                    } else if r0 < t.len() && t[r0] == '"' {
                        match text_str_close(t, r0 + 1, false, Seq::empty()) {
                            None => false,
                            Some((q, v)) => if q <= r0 || q >= t.len() {
                                true
                            } else {
                                resume_in_step(t, q, r0 - c - 1) && text_scan_ends(t, c + q - r0 + 3)
                            },
                        }
                    } else {
                        text_scan_ends(t, abs + 7)
                    }
                },
            },
        }
    }
}

/// The text a prefill is taken from is one the extraction finishes on: not a list, or a
/// list whose scan ends (see `text_scan_ends`).
pub open spec fn target_text_defined(content: Seq<char>) -> bool {
    let t = trim(content);
    t.len() == 0 || t == "null"@ || t[0] != '[' || text_scan_ends(t, 0)
}

/// The prefill text of an undone message (see `target_text`), for a content the extraction
/// finishes on: in a list, a `"text"` value left open, or a scan that would resume past the
/// end or inside a multi-byte character, is left out.
pub fn extract_target_text_content(content: &str) -> (r: String)
    requires
        target_text_defined(content@),
    ensures
        r@ == target_text(content@),
{
    let cv = to_chars(content);
    let t = trim_exec(cv.as_slice());
    if t.len() == 0 || chars_eq_str(t.as_slice(), "null") {
        return from_chars(&[]);
    }
    if t[0] == '[' {
        let parts = text_parts_exec(t.as_slice());
        let joined = join_lines_exec(&parts);
        return from_chars(joined.as_slice());
    }
    from_chars(cv.as_slice())
}

// ---------------------------------------------------------------------------
// Registry wiring
// ---------------------------------------------------------------------------

/// A backend that is not there: it fails with `code` and the message `no backend`.
pub(crate) fn no_backend_coded(code: i32) -> (r: Result<String, (i32, String)>)
    ensures
        r matches Err((c, m)) && c == code && m@ == "no backend"@,
{
    Err((code, own_str("no backend")))
}

/// A backend that is not there: it fails with the message `no backend`.
pub(crate) fn no_backend() -> (r: Result<String, String>)
    ensures
        r matches Err(m) && m@ == "no backend"@,
{
    Err(own_str("no backend"))
}

/// The methods this module answers, in registration order.
pub open spec fn registered_methods() -> Seq<Seq<char>> {
    seq![
        METHOD_SLASH_EXEC@, METHOD_INSIGHTS_GET@, METHOD_ROLLBACK_LIST@, METHOD_ROLLBACK_RESTORE@,
        METHOD_ROLLBACK_DIFF@, METHOD_BROWSER_MANAGE@, METHOD_PLUGINS_LIST@, METHOD_CONFIG_SHOW@,
        METHOD_TOOLS_LIST@, METHOD_TOOLS_SHOW@, METHOD_TOOLS_CONFIGURE@, METHOD_TOOLSETS_LIST@,
        METHOD_AGENTS_LIST@, METHOD_CRON_MANAGE@, METHOD_LEARNING_FRAMES@,
    ]
}

fn method_names() -> (r: Vec<&'static str>)
    ensures
        r@.len() == registered_methods().len(),
        forall|k: int| 0 <= k < r@.len() ==> (#[trigger] r@[k])@ == registered_methods()[k],
{
    let v = vec![
        METHOD_SLASH_EXEC, METHOD_INSIGHTS_GET, METHOD_ROLLBACK_LIST, METHOD_ROLLBACK_RESTORE,
        METHOD_ROLLBACK_DIFF, METHOD_BROWSER_MANAGE, METHOD_PLUGINS_LIST, METHOD_CONFIG_SHOW,
        METHOD_TOOLS_LIST, METHOD_TOOLS_SHOW, METHOD_TOOLS_CONFIGURE, METHOD_TOOLSETS_LIST,
        METHOD_AGENTS_LIST, METHOD_CRON_MANAGE, METHOD_LEARNING_FRAMES,
    ];
    v
}

/// The method names of this module are pairwise distinct.
pub proof fn lemma_registered_methods_distinct()
    ensures
        forall|a: int, b: int|
            0 <= a < b < registered_methods().len() ==> #[trigger] registered_methods()[a]
                != #[trigger] registered_methods()[b],
{
    reveal_strlit("slash.exec");
    reveal_strlit("insights.get");
    reveal_strlit("rollback.list");
    reveal_strlit("rollback.restore");
    reveal_strlit("rollback.diff");
    reveal_strlit("browser.manage");
    reveal_strlit("plugins.list");
    reveal_strlit("config.show");
    reveal_strlit("tools.list");
    reveal_strlit("tools.show");
    reveal_strlit("tools.configure");
    reveal_strlit("toolsets.list");
    reveal_strlit("agents.list");
    reveal_strlit("cron.manage");
    reveal_strlit("learning.frames");
    let m = registered_methods();
    assert forall|a: int, b: int| 0 <= a < b < m.len() implies #[trigger] m[a] != #[trigger] m[b] by {
        assert(m[a].len() != m[b].len() || m[a][0] != m[b][0] || m[a][1] != m[b][1] || m[a][6]
            != m[b][6] || m[a][9] != m[b][9]);
    }
}

/// Registers the methods of this module, each under its own name as handler id; their
/// replies with no backend behind them are `default_reply`. Other names keep what they had.
pub fn register(registry: &mut MethodRegistry)
    ensures
        forall|k: int|
            0 <= k < registered_methods().len() ==> final(registry).lookup(
                #[trigger] registered_methods()[k],
            ) == Some(registered_methods()[k]),
        forall|n: Seq<char>|
            !registered_methods().contains(n) ==> final(registry).lookup(n) == old(registry).lookup(n),
        (forall|k: int|
            0 <= k < registered_methods().len() ==> old(registry).lookup(#[trigger] registered_methods()[k])
                is None) ==> final(registry).entries().len() == old(registry).entries().len()
            + registered_methods().len(),
{
    let names = method_names();
    proof {
        lemma_registered_methods_distinct();
        if forall|k: int|
            0 <= k < registered_methods().len() ==> old(registry).lookup(#[trigger] registered_methods()[k])
                is None {
            assert forall|k: int| 0 <= k < names@.len() implies registry.lookup(#[trigger] names@[k]@) is None by {
                assert(names@[k]@ == registered_methods()[k]);
            }
            assert forall|a: int, b: int| 0 <= a < b < names@.len() implies (#[trigger] names@[a])@
                != (#[trigger] names@[b])@ by {
                assert(names@[a]@ == registered_methods()[a]);
                assert(names@[b]@ == registered_methods()[b]);
            }
        }
    }
    registry.register_names(names.as_slice());
    proof {
        assert forall|k: int| 0 <= k < registered_methods().len() implies registry.lookup(
            #[trigger] registered_methods()[k],
        ) == Some(registered_methods()[k]) by {
            assert(names@[k]@ == registered_methods()[k]);
        }
        assert forall|n: Seq<char>| !registered_methods().contains(n) implies (forall|k: int|
            0 <= k < names@.len() ==> (#[trigger] names@[k])@ != n) by {
            assert forall|k: int| 0 <= k < names@.len() implies (#[trigger] names@[k])@ != n by {
                if names@[k]@ == n {
                    assert(registered_methods()[k] == n);
                }
            }
        }
    }
}

/// Registers the methods of this module onto `registry` with the caller's handlers: method
/// `registered_methods()[k]` under handler id `handler_ids[k]`. Other names keep what they
/// had; when none of the methods was registered, the registry grows by one entry per method.
pub fn register_with(registry: &mut MethodRegistry, handler_ids: &[&str])
    requires
        handler_ids@.len() == registered_methods().len(),
    ensures
        forall|k: int|
            0 <= k < registered_methods().len() ==> final(registry).lookup(
                #[trigger] registered_methods()[k],
            ) == Some(handler_ids@[k]@),
        forall|n: Seq<char>|
            !registered_methods().contains(n) ==> final(registry).lookup(n) == old(registry).lookup(n),
        (forall|k: int|
            0 <= k < registered_methods().len() ==> old(registry).lookup(#[trigger] registered_methods()[k])
                is None) ==> final(registry).entries().len() == old(registry).entries().len()
            + registered_methods().len(),
{
    let names = method_names();
    proof {
        lemma_registered_methods_distinct();
        assert forall|a: int, b: int| 0 <= a < b < names@.len() implies (#[trigger] names@[a])@
            != (#[trigger] names@[b])@ by {
            assert(names@[a]@ == registered_methods()[a]);
            assert(names@[b]@ == registered_methods()[b]);
        }
        if forall|k: int|
            0 <= k < registered_methods().len() ==> old(registry).lookup(#[trigger] registered_methods()[k])
                is None {
            assert forall|k: int| 0 <= k < names@.len() implies registry.lookup(#[trigger] names@[k]@) is None by {
                assert(names@[k]@ == registered_methods()[k]);
            }
        }
    }
    registry.register_pairs(names.as_slice(), handler_ids);
    proof {
        assert forall|k: int| 0 <= k < registered_methods().len() implies registry.lookup(
            #[trigger] registered_methods()[k],
        ) == Some(handler_ids@[k]@) by {
            assert(names@[k]@ == registered_methods()[k]);
        }
        assert forall|n: Seq<char>| !registered_methods().contains(n) implies (forall|k: int|
            0 <= k < names@.len() ==> (#[trigger] names@[k])@ != n) by {
            assert forall|k: int| 0 <= k < names@.len() implies (#[trigger] names@[k])@ != n by {
                if names@[k]@ == n {
                    assert(registered_methods()[k] == n);
                }
            }
        }
    }
}

/// A fresh registry holding exactly the methods of this module, under the caller's handler
/// ids (see `register_with`).
pub fn build_registry(handler_ids: &[&str]) -> (r: MethodRegistry)
    requires
        handler_ids@.len() == registered_methods().len(),
    ensures
        r.entries().len() == registered_methods().len(),
        forall|k: int|
            0 <= k < registered_methods().len() ==> r.lookup(#[trigger] registered_methods()[k])
                == Some(handler_ids@[k]@),
        forall|n: Seq<char>| !registered_methods().contains(n) ==> r.lookup(n) is None,
{
    let mut reg = MethodRegistry::new();
    proof {
        assert forall|n: Seq<char>| reg.lookup(n) is None by {
            assert(reg.entries().len() == 0);
        }
    }
    register_with(&mut reg, handler_ids);
    reg
}

/// A fresh registry holding exactly the methods of this module.
pub fn build_registry_default() -> (r: MethodRegistry)
    ensures
        r.entries().len() == registered_methods().len(),
        forall|k: int|
            0 <= k < registered_methods().len() ==> r.lookup(#[trigger] registered_methods()[k])
                == Some(registered_methods()[k]),
        forall|n: Seq<char>| !registered_methods().contains(n) ==> r.lookup(n) is None,
{
    let mut reg = MethodRegistry::new();
    let names = method_names();
    proof {
        lemma_registered_methods_distinct();
        assert forall|k: int| 0 <= k < names@.len() implies reg.lookup(#[trigger] names@[k]@) is None by {
            assert(reg.entries().len() == 0);
        }
    }
    reg.register_names(names.as_slice());
    proof {
        assert forall|k: int| 0 <= k < registered_methods().len() implies reg.lookup(
            #[trigger] registered_methods()[k],
        ) == Some(registered_methods()[k]) by {
            assert(names@[k]@ == registered_methods()[k]);
        }
        assert forall|n: Seq<char>| !registered_methods().contains(n) implies reg.lookup(n) is None by {
            assert forall|k: int| 0 <= k < names@.len() implies (#[trigger] names@[k])@ != n by {
                if names@[k]@ == n {
                    assert(registered_methods()[k] == n);
                }
            }
        }
    }
    reg
}

/// The reply of method `method` to a request with id `rid` and parameters `params` when no
/// backend stands behind the handlers: a handler's own refusals as it states them, else the
/// backend failure `no backend` under the handler's code. `None` for a method this module
/// does not answer.
pub open spec fn default_reply_spec(method: Seq<char>, rid: Seq<char>, params: Seq<char>) -> Option<
    Seq<char>,
> {
    let id = rid_json(rid);
    let nb = "no backend"@;
    if method == METHOD_SLASH_EXEC@ {
        Some(
            if trimmed_field(params, "command"@).len() == 0 {
                err_envelope(id, 4004, "empty command"@)
            } else {
                err_envelope(id, ERR_SLASH_WORKER as int, nb)
            },
        )
    } else if method == METHOD_INSIGHTS_GET@ {
        Some(err_envelope(id, ERR_DB_UNAVAILABLE_INSIGHTS as int, nb))
    } else if method == METHOD_ROLLBACK_LIST@ {
        Some(err_envelope(id, ERR_ROLLBACK_LIST as int, nb))
    } else if method == METHOD_ROLLBACK_RESTORE@ || method == METHOD_ROLLBACK_DIFF@ {
        Some(
            if trimmed_field(params, "hash"@).len() == 0 {
                err_envelope(id, 4014, "hash required"@)
            } else if method == METHOD_ROLLBACK_RESTORE@ {
                err_envelope(id, ERR_ROLLBACK_RESTORE as int, nb)
            } else {
                err_envelope(id, ERR_ROLLBACK_DIFF as int, nb)
            },
        )
    } else if method == METHOD_BROWSER_MANAGE@ {
        Some(
            if !valid_browser_action(browser_action(params)) {
                err_envelope(id, 4015, "unknown action: "@ + browser_action(params))
            } else {
                err_envelope(id, ERR_UNKNOWN_BROWSER_ACTION as int, nb)
            },
        )
    } else if method == METHOD_PLUGINS_LIST@ {
        Some(err_envelope(id, ERR_PLUGINS_LIST as int, nb))
    } else if method == METHOD_CONFIG_SHOW@ {
        Some(err_envelope(id, ERR_CONFIG_SHOW as int, nb))
    } else if method == METHOD_TOOLS_LIST@ {
        Some(err_envelope(id, ERR_TOOLS_LIST as int, nb))
    } else if method == METHOD_TOOLS_SHOW@ {
        Some(err_envelope(id, ERR_TOOLS_SHOW as int, nb))
    } else if method == METHOD_TOOLS_CONFIGURE@ {
        Some(
            if !valid_tools_action(tools_action(params)) {
                err_envelope(id, 4017, "unknown tools action: "@ + tools_action(params))
            } else if tools_targets(params).len() == 0 {
                err_envelope(id, 4018, "names required"@)
            } else {
                err_envelope(id, ERR_TOOLS_CONFIGURE as int, nb)
            },
        )
    } else if method == METHOD_TOOLSETS_LIST@ {
        Some(err_envelope(id, ERR_TOOLSETS_LIST as int, nb))
    } else if method == METHOD_AGENTS_LIST@ {
        Some(err_envelope(id, ERR_AGENTS_LIST as int, nb))
    } else if method == METHOD_CRON_MANAGE@ {
        Some(err_envelope(id, ERR_CRON_MANAGE as int, nb))
    } else if method == METHOD_LEARNING_FRAMES@ {
        Some(err_envelope(id, ERR_LEARNING_FRAMES as int, nb))
    } else {
        None
    }
}

/// `res` is the failure of a missing backend under `code`.
pub open spec fn failed_for_want_of_backend(res: Result<String, (i32, String)>, code: i32) -> bool {
    res matches Err((c, e)) && c == code && e@ == "no backend"@
}

/// Answers `method` for a raw request id `rid` with the handlers of this module and no
/// backend behind them (see `default_reply_spec`).
pub fn default_reply(method: &str, rid: &str, params_json: &str) -> (r: Option<String>)
    ensures
        opt_string(r) == default_reply_spec(method@, rid@, params_json@),
        method@ == METHOD_BROWSER_MANAGE@ && (browser_action(params_json@) == "status"@ || browser_action(
            params_json@,
        ) == "disconnect"@ || browser_action(params_json@) == "connect"@) ==> opt_string(r) == Some(
            err_envelope(rid_json(rid@), 4015, "no backend"@),
        ),
        method@ == METHOD_BROWSER_MANAGE@ && !(browser_action(params_json@) == "status"@ || browser_action(
            params_json@,
        ) == "disconnect"@ || browser_action(params_json@) == "connect"@) ==> opt_string(r) == Some(
            err_envelope(rid_json(rid@), 4015, "unknown action: "@ + browser_action(params_json@)),
        ),
{
    let id = encode_rid(rid);
    let idr = id.as_str();
    let m = to_chars(method);
    let ms = m.as_slice();
    let p = params_json;
    proof {
        reveal_strlit("no backend");
    }
    let r = if chars_eq_str(ms, METHOD_SLASH_EXEC) {
        Some(handle_slash_exec(idr, p, |_q: &str| -> (res: Result<String, (i32, String)>)
            ensures
                failed_for_want_of_backend(res, ERR_SLASH_WORKER),
            { no_backend_coded(ERR_SLASH_WORKER) }
        ))
    } else if chars_eq_str(ms, METHOD_INSIGHTS_GET) {
        Some(handle_insights_get(idr, p, |_q: &str| -> (res: Result<String, String>)
            ensures
                res matches Err(e) && e@ == "no backend"@,
            { no_backend() }
        ))
    } else if chars_eq_str(ms, METHOD_ROLLBACK_LIST) {
        Some(handle_rollback_list(idr, p, |_q: &str| -> (res: Result<String, (i32, String)>)
            ensures
                failed_for_want_of_backend(res, ERR_ROLLBACK_LIST),
            { no_backend_coded(ERR_ROLLBACK_LIST) }
        ))
    } else if chars_eq_str(ms, METHOD_ROLLBACK_RESTORE) {
        Some(handle_rollback_restore(idr, p, |_q: &str| -> (res: Result<String, (i32, String)>)
            ensures
                failed_for_want_of_backend(res, ERR_ROLLBACK_RESTORE),
            { no_backend_coded(ERR_ROLLBACK_RESTORE) }
        ))
    } else if chars_eq_str(ms, METHOD_ROLLBACK_DIFF) {
        Some(handle_rollback_diff(idr, p, |_q: &str| -> (res: Result<String, (i32, String)>)
            ensures
                failed_for_want_of_backend(res, ERR_ROLLBACK_DIFF),
            { no_backend_coded(ERR_ROLLBACK_DIFF) }
        ))
    } else if chars_eq_str(ms, METHOD_BROWSER_MANAGE) {
        Some(handle_browser_manage(idr, p, |_q: &str| -> (res: Result<String, (i32, String)>)
            ensures
                failed_for_want_of_backend(res, ERR_UNKNOWN_BROWSER_ACTION),
            { no_backend_coded(ERR_UNKNOWN_BROWSER_ACTION) }
        ))
    } else if chars_eq_str(ms, METHOD_PLUGINS_LIST) {
        Some(handle_plugins_list(idr, p, |_q: &str| -> (res: Result<String, String>)
            ensures
                res matches Err(e) && e@ == "no backend"@,
            { no_backend() }
        ))
    } else if chars_eq_str(ms, METHOD_CONFIG_SHOW) {
        Some(handle_config_show(idr, p, |_q: &str| -> (res: Result<String, String>)
            ensures
                res matches Err(e) && e@ == "no backend"@,
            { no_backend() }
        ))
    } else if chars_eq_str(ms, METHOD_TOOLS_LIST) {
        Some(handle_tools_list(idr, p, |_q: &str| -> (res: Result<String, String>)
            ensures
                res matches Err(e) && e@ == "no backend"@,
            { no_backend() }
        ))
    } else if chars_eq_str(ms, METHOD_TOOLS_SHOW) {
        Some(handle_tools_show(idr, p, |_q: &str| -> (res: Result<String, String>)
            ensures
                res matches Err(e) && e@ == "no backend"@,
            { no_backend() }
        ))
    } else if chars_eq_str(ms, METHOD_TOOLS_CONFIGURE) {
        Some(handle_tools_configure(idr, p, |_q: &str| -> (res: Result<String, (i32, String)>)
            ensures
                failed_for_want_of_backend(res, ERR_TOOLS_CONFIGURE),
            { no_backend_coded(ERR_TOOLS_CONFIGURE) }
        ))
    } else if chars_eq_str(ms, METHOD_TOOLSETS_LIST) {
        Some(handle_toolsets_list(idr, p, |_q: &str| -> (res: Result<String, String>)
            ensures
                res matches Err(e) && e@ == "no backend"@,
            { no_backend() }
        ))
    } else if chars_eq_str(ms, METHOD_AGENTS_LIST) {
        Some(handle_agents_list(idr, p, |_q: &str| -> (res: Result<String, String>)
            ensures
                res matches Err(e) && e@ == "no backend"@,
            { no_backend() }
        ))
    } else if chars_eq_str(ms, METHOD_CRON_MANAGE) {
        Some(handle_cron_manage(idr, p, |_q: &str| -> (res: Result<String, (i32, String)>)
            ensures
                failed_for_want_of_backend(res, ERR_CRON_MANAGE),
            { no_backend_coded(ERR_CRON_MANAGE) }
        ))
    } else if chars_eq_str(ms, METHOD_LEARNING_FRAMES) {
        Some(handle_learning_frames(idr, p, |_q: &str| -> (res: Result<String, String>)
            ensures
                res matches Err(e) && e@ == "no backend"@,
            { no_backend() }
        ))
    } else {
        None
    };
    proof {
        if method@ == METHOD_BROWSER_MANAGE@ {
            lemma_registered_methods_distinct();
            let m = registered_methods();
            assert(m[5] == METHOD_BROWSER_MANAGE@);
            assert(m[0] != m[5] && m[1] != m[5] && m[2] != m[5] && m[3] != m[5] && m[4] != m[5]);
        }
    }
    r
}

} // verus!
