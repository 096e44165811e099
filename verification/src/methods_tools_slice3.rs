//! Tools & system JSON-RPC handlers: learning detail/edit/delete, skills, MCP catalog and
//! servers (add, API key, test, remove, OAuth), skills reload, plugins and shell.
use vstd::prelude::*;
use crate::methods_tools_slice2::{trimmed_field, trimmed_field_exec};
use crate::rpc_json::{
    coded_reply, err_envelope, err_response_chars, fixed_reply, raw_field, raw_field_exec,
    reply_coded, reply_fixed, string_field, string_field_exec,
};
use crate::text::{chars_eq_str, from_chars, push_all, push_str, to_chars, trim, trim_exec, trim_k, trim_k_exec, CharClass};

use crate::methods_tools_slice2::{failed_for_want_of_backend, no_backend, no_backend_coded};
use crate::server_slice3::MethodRegistry;
use crate::rpc_json::rid_json;
use crate::text::opt_string;

pub use crate::rpc_json::{
    encode_rid, err_response, extract_bool_field, extract_raw_value, extract_string_field,
    extract_string_or_empty, ok_response,
};

verus! {

pub const METHOD_LEARNING_DETAIL: &'static str = "learning.detail";
pub const METHOD_LEARNING_DELETE: &'static str = "learning.delete";
pub const METHOD_LEARNING_EDIT: &'static str = "learning.edit";
pub const METHOD_SKILLS_MANAGE: &'static str = "skills.manage";
pub const METHOD_MCP_CATALOG: &'static str = "mcp.catalog";
pub const METHOD_MCP_SERVERS_LIST: &'static str = "mcp.servers.list";
pub const METHOD_MCP_SERVERS_ADD: &'static str = "mcp.servers.add";
pub const METHOD_MCP_SERVERS_SET_API_KEY: &'static str = "mcp.servers.set_api_key";
pub const METHOD_MCP_SERVERS_TEST: &'static str = "mcp.servers.test";
pub const METHOD_MCP_SERVERS_REMOVE: &'static str = "mcp.servers.remove";
pub const METHOD_MCP_SERVERS_OAUTH_START: &'static str = "mcp.servers.oauth.start";
pub const METHOD_MCP_SERVERS_OAUTH_POLL: &'static str = "mcp.servers.oauth.poll";
pub const METHOD_SKILLS_RELOAD: &'static str = "skills.reload";
pub const METHOD_PLUGINS_MANAGE: &'static str = "plugins.manage";
pub const METHOD_SHELL_EXEC: &'static str = "shell.exec";

pub const ERR_LEARNING_DETAIL: i32 = 5000;
pub const ERR_LEARNING_DELETE: i32 = 5000;
pub const ERR_LEARNING_EDIT: i32 = 5000;
pub const ERR_SKILLS_MANAGE: i32 = 5024;
pub const ERR_SKILLS_MANAGE_PROFILE: i32 = 4064;
pub const ERR_SKILLS_UNKNOWN_ACTION: i32 = 4017;
pub const ERR_MCP_CATALOG: i32 = 5024;
pub const ERR_MCP_PROFILE_NOT_FOUND: i32 = 4064;
pub const ERR_MCP_NAME_REQUIRED: i32 = 4063;
pub const ERR_MCP_SERVER_NOT_FOUND: i32 = 4064;
pub const ERR_MCP_SERVER_EXISTS: i32 = 4090;
pub const ERR_MCP_MALFORMED: i32 = 4001;
pub const ERR_MCP_SERVERS: i32 = 5024;
pub const ERR_SKILLS_RELOAD: i32 = 5025;
pub const ERR_PLUGINS_UNKNOWN_ACTION: i32 = 4017;
pub const ERR_PLUGINS_IDENT_REQUIRED: i32 = 4019;
pub const ERR_PLUGINS_MANAGE: i32 = 5026;
pub const ERR_SHELL_EMPTY: i32 = 4004;
pub const ERR_SHELL_BLOCKED: i32 = 4005;
pub const ERR_SHELL_UNAVAILABLE: i32 = 5001;
pub const ERR_SHELL_TIMEOUT: i32 = 5002;
pub const ERR_SHELL_FAILED: i32 = 5003;

// ---------------------------------------------------------------------------
// Parameter helpers
// ---------------------------------------------------------------------------

/// The `action` parameter, `list` when absent.
pub open spec fn action_or_list(params: Seq<char>) -> Seq<char> {
    match string_field(params, "action"@) {
        Some(v) => v,
        None => "list"@,
    }
}

pub fn extract_action(params_json: &str) -> (r: String)
    ensures
        r@ == action_or_list(params_json@),
{
    match extract_string_field(params_json, "action") {
        Some(v) => v,
        None => from_chars(to_chars("list").as_slice()),
    }
}

pub open spec fn valid_skills_action(a: Seq<char>) -> bool {
    a == "list"@ || a == "search"@ || a == "install"@ || a == "browse"@ || a == "inspect"@
}

pub fn is_valid_skills_action(action: &str) -> (r: bool)
    ensures
        r == valid_skills_action(action@),
{
    let a = to_chars(action);
    let s = a.as_slice();
    chars_eq_str(s, "list") || chars_eq_str(s, "search") || chars_eq_str(s, "install")
        || chars_eq_str(s, "browse") || chars_eq_str(s, "inspect")
}

pub open spec fn valid_plugins_action(a: Seq<char>) -> bool {
    a == "list"@ || a == "toggle"@ || a == "install"@
}

pub fn is_valid_plugins_action(action: &str) -> (r: bool)
    ensures
        r == valid_plugins_action(action@),
{
    let a = to_chars(action);
    let s = a.as_slice();
    chars_eq_str(s, "list") || chars_eq_str(s, "toggle") || chars_eq_str(s, "install")
}

fn nonblank_field(params_json: &str, field: &str) -> (r: Option<String>)
    ensures
        r matches Some(v) ==> v@ == trimmed_field(params_json@, field@) && v@.len() > 0,
        r is None ==> trimmed_field(params_json@, field@).len() == 0,
{
    let p = to_chars(params_json);
    let t = trimmed_field_exec(p.as_slice(), field);
    if t.len() == 0 {
        None
    } else {
        Some(from_chars(t.as_slice()))
    }
}

/// The non-blank `name` parameter, trimmed.
pub fn extract_name_param(params_json: &str) -> (r: Option<String>)
    ensures
        r matches Some(v) ==> v@ == trimmed_field(params_json@, "name"@) && v@.len() > 0,
        r is None ==> trimmed_field(params_json@, "name"@).len() == 0,
{
    nonblank_field(params_json, "name")
}

/// The non-blank `session_id` parameter, trimmed.
pub fn extract_session_id_param(params_json: &str) -> (r: Option<String>)
    ensures
        r matches Some(v) ==> v@ == trimmed_field(params_json@, "session_id"@) && v@.len() > 0,
        r is None ==> trimmed_field(params_json@, "session_id"@).len() == 0,
{
    nonblank_field(params_json, "session_id")
}

/// The `command` parameter, or the empty string.
pub fn extract_command_param(params_json: &str) -> (r: String)
    ensures
        r@ == (match string_field(params_json@, "command"@) {
            Some(v) => v,
            None => Seq::empty(),
        }),
{
    extract_string_or_empty(params_json, "command")
}

pub fn is_empty_command(cmd: &str) -> (r: bool)
    ensures
        r == (trim(cmd@).len() == 0),
{
    let c = to_chars(cmd);
    trim_exec(c.as_slice()).len() == 0
}

// ---------------------------------------------------------------------------
// Handlers
// ---------------------------------------------------------------------------

/// `learning.detail`: the backend outcome, errors under 5000.
pub fn handle_learning_detail<F>(rid_json: &str, params_json: &str, op: F) -> (r: String) where
    F: Fn(&str) -> Result<String, String>,

    requires
        op.requires((params_json,)),
    ensures
        exists|res| op.ensures((params_json,), res) && r@ == fixed_reply(rid_json@, 5000, res),
{
    let res = op(params_json);
    reply_fixed(rid_json, ERR_LEARNING_DETAIL, res)
}

/// `learning.delete`: the backend outcome, errors under 5000.
pub fn handle_learning_delete<F>(rid_json: &str, params_json: &str, op: F) -> (r: String) where
    F: Fn(&str) -> Result<String, String>,

    requires
        op.requires((params_json,)),
    ensures
        exists|res| op.ensures((params_json,), res) && r@ == fixed_reply(rid_json@, 5000, res),
{
    let res = op(params_json);
    reply_fixed(rid_json, ERR_LEARNING_DELETE, res)
}

/// `learning.edit`: the backend outcome, errors under 5000.
pub fn handle_learning_edit<F>(rid_json: &str, params_json: &str, op: F) -> (r: String) where
    F: Fn(&str) -> Result<String, String>,

    requires
        op.requires((params_json,)),
    ensures
        exists|res| op.ensures((params_json,), res) && r@ == fixed_reply(rid_json@, 5000, res),
{
    let res = op(params_json);
    reply_fixed(rid_json, ERR_LEARNING_EDIT, res)
}

/// `skills.reload`: the backend outcome, errors under 5025.
pub fn handle_skills_reload<F>(rid_json: &str, params_json: &str, op: F) -> (r: String) where
    F: Fn(&str) -> Result<String, String>,

    requires
        op.requires((params_json,)),
    ensures
        exists|res| op.ensures((params_json,), res) && r@ == fixed_reply(rid_json@, 5025, res),
{
    let res = op(params_json);
    reply_fixed(rid_json, ERR_SKILLS_RELOAD, res)
}

/// `mcp.catalog`: the backend outcome with its own error code.
pub fn handle_mcp_catalog<F>(rid_json: &str, params_json: &str, op: F) -> (r: String) where
    F: Fn(&str) -> Result<String, (i32, String)>,

    requires
        op.requires((params_json,)),
    ensures
        exists|res| op.ensures((params_json,), res) && r@ == coded_reply(rid_json@, res),
{
    let res = op(params_json);
    reply_coded(rid_json, res)
}

/// `mcp.servers.list`: the backend outcome with its own error code.
pub fn handle_mcp_servers_list<F>(rid_json: &str, params_json: &str, op: F) -> (r: String) where
    F: Fn(&str) -> Result<String, (i32, String)>,

    requires
        op.requires((params_json,)),
    ensures
        exists|res| op.ensures((params_json,), res) && r@ == coded_reply(rid_json@, res),
{
    let res = op(params_json);
    reply_coded(rid_json, res)
}

/// `mcp.servers.add`: a blank `name` is refused with 4063; otherwise the backend outcome.
pub fn handle_mcp_servers_add<F>(rid_json: &str, params_json: &str, op: F) -> (r: String) where
    F: Fn(&str) -> Result<String, (i32, String)>,

    requires
        trimmed_field(params_json@, "name"@).len() > 0 ==> op.requires((params_json,)),
    ensures
        trimmed_field(params_json@, "name"@).len() == 0 ==> r@ == err_envelope(
            rid_json@,
            4063,
            "name required"@,
        ),
        trimmed_field(params_json@, "name"@).len() > 0 ==> exists|res|
            op.ensures((params_json,), res) && r@ == coded_reply(rid_json@, res),
{
    let p = to_chars(params_json);
    let name = trimmed_field_exec(p.as_slice(), "name");
    if name.len() == 0 {
        return err_response(rid_json, ERR_MCP_NAME_REQUIRED, "name required");
    }
    let res = op(params_json);
    reply_coded(rid_json, res)
}

/// `mcp.servers.test`: a blank `name` is refused with 4063; otherwise the backend outcome.
pub fn handle_mcp_servers_test<F>(rid_json: &str, params_json: &str, op: F) -> (r: String) where
    F: Fn(&str) -> Result<String, (i32, String)>,

    requires
        trimmed_field(params_json@, "name"@).len() > 0 ==> op.requires((params_json,)),
    ensures
        trimmed_field(params_json@, "name"@).len() == 0 ==> r@ == err_envelope(
            rid_json@,
            4063,
            "name required"@,
        ),
        trimmed_field(params_json@, "name"@).len() > 0 ==> exists|res|
            op.ensures((params_json,), res) && r@ == coded_reply(rid_json@, res),
{
    let p = to_chars(params_json);
    let name = trimmed_field_exec(p.as_slice(), "name");
    if name.len() == 0 {
        return err_response(rid_json, ERR_MCP_NAME_REQUIRED, "name required");
    }
    let res = op(params_json);
    reply_coded(rid_json, res)
}

/// `mcp.servers.remove`: a blank `name` is refused with 4063; otherwise the backend outcome.
pub fn handle_mcp_servers_remove<F>(rid_json: &str, params_json: &str, op: F) -> (r: String) where
    F: Fn(&str) -> Result<String, (i32, String)>,

    requires
        trimmed_field(params_json@, "name"@).len() > 0 ==> op.requires((params_json,)),
    ensures
        trimmed_field(params_json@, "name"@).len() == 0 ==> r@ == err_envelope(
            rid_json@,
            4063,
            "name required"@,
        ),
        trimmed_field(params_json@, "name"@).len() > 0 ==> exists|res|
            op.ensures((params_json,), res) && r@ == coded_reply(rid_json@, res),
{
    let p = to_chars(params_json);
    let name = trimmed_field_exec(p.as_slice(), "name");
    if name.len() == 0 {
        return err_response(rid_json, ERR_MCP_NAME_REQUIRED, "name required");
    }
    let res = op(params_json);
    reply_coded(rid_json, res)
}

/// `mcp.servers.oauth.start`: a blank `name` is refused with 4063; otherwise the backend outcome.
pub fn handle_mcp_servers_oauth_start<F>(rid_json: &str, params_json: &str, op: F) -> (r: String) where
    F: Fn(&str) -> Result<String, (i32, String)>,

    requires
        trimmed_field(params_json@, "name"@).len() > 0 ==> op.requires((params_json,)),
    ensures
        trimmed_field(params_json@, "name"@).len() == 0 ==> r@ == err_envelope(
            rid_json@,
            4063,
            "name required"@,
        ),
        trimmed_field(params_json@, "name"@).len() > 0 ==> exists|res|
            op.ensures((params_json,), res) && r@ == coded_reply(rid_json@, res),
{
    let p = to_chars(params_json);
    let name = trimmed_field_exec(p.as_slice(), "name");
    if name.len() == 0 {
        return err_response(rid_json, ERR_MCP_NAME_REQUIRED, "name required");
    }
    let res = op(params_json);
    reply_coded(rid_json, res)
}

/// The `value` parameter counts as missing: its raw value is absent, blank or `null`
/// (after trimming quotes), and its string value is blank.
pub open spec fn api_value_missing(params: Seq<char>) -> bool {
    let raw_empty = match raw_field(params, "value"@) {
        None => true,
        Some(v) => {
            let t = trim(trim_k(trim(v), CharClass::Exactly('"')));
            t.len() == 0 || t == "null"@
        },
    };
    raw_empty && trimmed_field(params, "value"@).len() == 0
}

/// `mcp.servers.set_api_key`: a blank `name` is refused with 4063, then a missing `value`
/// with 4063; otherwise the backend outcome.
pub fn handle_mcp_servers_set_api_key<F>(rid_json: &str, params_json: &str, op: F) -> (r: String) where
    F: Fn(&str) -> Result<String, (i32, String)>,

    requires
        trimmed_field(params_json@, "name"@).len() > 0 && !api_value_missing(params_json@) ==> op.requires((params_json,)),
    ensures
        trimmed_field(params_json@, "name"@).len() == 0 ==> r@ == err_envelope(
            rid_json@,
            4063,
            "name required"@,
        ),
        trimmed_field(params_json@, "name"@).len() > 0 && api_value_missing(params_json@) ==> r@
            == err_envelope(rid_json@, 4063, "value required"@),
        trimmed_field(params_json@, "name"@).len() > 0 && !api_value_missing(params_json@)
            ==> exists|res| op.ensures((params_json,), res) && r@ == coded_reply(rid_json@, res),
{
    let p = to_chars(params_json);
    let name = trimmed_field_exec(p.as_slice(), "name");
    if name.len() == 0 {
        return err_response(rid_json, ERR_MCP_NAME_REQUIRED, "name required");
    }
    let vf = to_chars("value");
    let raw_empty = match raw_field_exec(p.as_slice(), vf.as_slice()) {
        None => true,
        Some(v) => {
            let a = trim_exec(v.as_slice());
            let b = trim_k_exec(a.as_slice(), CharClass::Exactly('"'));
            let t = trim_exec(b.as_slice());
            t.len() == 0 || chars_eq_str(t.as_slice(), "null")
        },
    };
    if raw_empty {
        let s = trimmed_field_exec(p.as_slice(), "value");
        if s.len() == 0 {
            return err_response(rid_json, ERR_MCP_NAME_REQUIRED, "value required");
        }
    }
    let res = op(params_json);
    reply_coded(rid_json, res)
}

/// `mcp.servers.oauth.poll`: a blank `name` is refused with 4063, then a blank
/// `session_id` with 4063; otherwise the backend outcome.
pub fn handle_mcp_servers_oauth_poll<F>(rid_json: &str, params_json: &str, op: F) -> (r: String) where
    F: Fn(&str) -> Result<String, (i32, String)>,

    requires
        trimmed_field(params_json@, "name"@).len() > 0 && trimmed_field(params_json@, "session_id"@).len() > 0 ==> op.requires((params_json,)),
    ensures
        trimmed_field(params_json@, "name"@).len() == 0 ==> r@ == err_envelope(
            rid_json@,
            4063,
            "name required"@,
        ),
        trimmed_field(params_json@, "name"@).len() > 0 && trimmed_field(
            params_json@,
            "session_id"@,
        ).len() == 0 ==> r@ == err_envelope(rid_json@, 4063, "session_id required"@),
        trimmed_field(params_json@, "name"@).len() > 0 && trimmed_field(
            params_json@,
            "session_id"@,
        ).len() > 0 ==> exists|res|
            op.ensures((params_json,), res) && r@ == coded_reply(rid_json@, res),
{
    let p = to_chars(params_json);
    let name = trimmed_field_exec(p.as_slice(), "name");
    if name.len() == 0 {
        return err_response(rid_json, ERR_MCP_NAME_REQUIRED, "name required");
    }
    let sid = trimmed_field_exec(p.as_slice(), "session_id");
    if sid.len() == 0 {
        return err_response(rid_json, ERR_MCP_NAME_REQUIRED, "session_id required");
    }
    let res = op(params_json);
    reply_coded(rid_json, res)
}

/// `skills.manage`: an unknown action is refused with 4017 naming it; otherwise the
/// backend outcome.
pub fn handle_skills_manage<F>(rid_json: &str, params_json: &str, op: F) -> (r: String) where
    F: Fn(&str) -> Result<String, (i32, String)>,

    requires
        valid_skills_action(action_or_list(params_json@)) ==> op.requires((params_json,)),
    ensures
        !valid_skills_action(action_or_list(params_json@)) ==> r@ == err_envelope(
            rid_json@,
            4017,
            "unknown skills action: "@ + action_or_list(params_json@),
        ),
        valid_skills_action(action_or_list(params_json@)) ==> exists|res|
            op.ensures((params_json,), res) && r@ == coded_reply(rid_json@, res),
{
    let action = extract_action(params_json);
    if !is_valid_skills_action(action.as_str()) {
        let mut msg: Vec<char> = Vec::new();
        push_str(&mut msg, "unknown skills action: ");
        push_str(&mut msg, action.as_str());
        return err_response_chars(rid_json, ERR_SKILLS_UNKNOWN_ACTION, msg.as_slice());
    }
    let res = op(params_json);
    reply_coded(rid_json, res)
}

/// The trimmed string value of `first`, or of `second` when `first` has none.
pub open spec fn either_field(params: Seq<char>, first: Seq<char>, second: Seq<char>) -> Seq<
    char,
> {
    match string_field(params, first) {
        Some(v) => trim(v),
        None => trimmed_field(params, second),
    }
}

fn either_field_exec(params: &[char], first: &str, second: &str) -> (r: Vec<char>)
    ensures
        r@ == either_field(params@, first@, second@),
{
    let f = to_chars(first);
    match string_field_exec(params, f.as_slice()) {
        Some(v) => trim_exec(v.as_slice()),
        None => trimmed_field_exec(params, second),
    }
}

/// A `plugins.manage` request that gets past the checks: a known action, `toggle` naming a
/// `key` or `name`, `install` naming an `identifier` or `repo`.
pub open spec fn plugins_request_ok(params: Seq<char>) -> bool {
    let a = action_or_list(params);
    &&& valid_plugins_action(a)
    &&& a == "toggle"@ ==> either_field(params, "key"@, "name"@).len() > 0
    &&& a == "install"@ ==> either_field(params, "identifier"@, "repo"@).len() > 0
}

/// `plugins.manage`: an unknown action is refused with 4017 naming it; `toggle` without a
/// `key` or `name`, and `install` without an `identifier` or `repo`, with 4019;
/// otherwise the backend outcome.
pub fn handle_plugins_manage<F>(rid_json: &str, params_json: &str, op: F) -> (r: String) where
    F: Fn(&str) -> Result<String, (i32, String)>,

    requires
        plugins_request_ok(params_json@) ==> op.requires((params_json,)),
    ensures
        ({
            let a = action_or_list(params_json@);
            if !valid_plugins_action(a) {
                r@ == err_envelope(rid_json@, 4017, "unknown plugins action: "@ + a)
            } else if a == "toggle"@ && either_field(params_json@, "key"@, "name"@).len() == 0 {
                r@ == err_envelope(rid_json@, 4019, "plugins.toggle requires a 'key' or 'name'"@)
            } else if a == "install"@ && either_field(params_json@, "identifier"@, "repo"@).len()
                == 0 {
                r@ == err_envelope(
                    rid_json@,
                    4019,
                    "plugins.install requires 'identifier' or 'repo'"@,
                )
            } else {
                exists|res| op.ensures((params_json,), res) && r@ == coded_reply(rid_json@, res)
            }
        }),
{
    let action = extract_action(params_json);
    if !is_valid_plugins_action(action.as_str()) {
        let mut msg: Vec<char> = Vec::new();
        push_str(&mut msg, "unknown plugins action: ");
        push_str(&mut msg, action.as_str());
        return err_response_chars(rid_json, ERR_PLUGINS_UNKNOWN_ACTION, msg.as_slice());
    }
    let p = to_chars(params_json);
    let a = to_chars(action.as_str());
    if chars_eq_str(a.as_slice(), "toggle") {
        let ident = either_field_exec(p.as_slice(), "key", "name");
        if ident.len() == 0 {
            return err_response(
                rid_json,
                ERR_PLUGINS_IDENT_REQUIRED,
                "plugins.toggle requires a 'key' or 'name'",
            );
        }
    }
    if chars_eq_str(a.as_slice(), "install") {
        let ident = either_field_exec(p.as_slice(), "identifier", "repo");
        if ident.len() == 0 {
            return err_response(
                rid_json,
                ERR_PLUGINS_IDENT_REQUIRED,
                "plugins.install requires 'identifier' or 'repo'",
            );
        }
    }
    let res = op(params_json);
    reply_coded(rid_json, res)
}

/// `shell.exec`: a blank `command` is refused with 4004; otherwise the backend outcome.
pub fn handle_shell_exec<F>(rid_json: &str, params_json: &str, op: F) -> (r: String) where
    F: Fn(&str) -> Result<String, (i32, String)>,

    requires
        trimmed_field(params_json@, "command"@).len() > 0 ==> op.requires((params_json,)),
    ensures
        trimmed_field(params_json@, "command"@).len() == 0 ==> r@ == err_envelope(
            rid_json@,
            4004,
            "empty command"@,
        ),
        trimmed_field(params_json@, "command"@).len() > 0 ==> exists|res|
            op.ensures((params_json,), res) && r@ == coded_reply(rid_json@, res),
{
    let p = to_chars(params_json);
    let cmd = trimmed_field_exec(p.as_slice(), "command");
    if cmd.len() == 0 {
        return err_response(rid_json, ERR_SHELL_EMPTY, "empty command");
    }
    let res = op(params_json);
    reply_coded(rid_json, res)
}

// ---------------------------------------------------------------------------
// Registry wiring
// ---------------------------------------------------------------------------

/// The methods this module answers, in registration order.
pub open spec fn registered_methods() -> Seq<Seq<char>> {
    seq![
        METHOD_LEARNING_DETAIL@, METHOD_LEARNING_DELETE@, METHOD_LEARNING_EDIT@,
        METHOD_SKILLS_MANAGE@, METHOD_MCP_CATALOG@, METHOD_MCP_SERVERS_LIST@,
        METHOD_MCP_SERVERS_ADD@, METHOD_MCP_SERVERS_SET_API_KEY@, METHOD_MCP_SERVERS_TEST@,
        METHOD_MCP_SERVERS_REMOVE@, METHOD_MCP_SERVERS_OAUTH_START@, METHOD_MCP_SERVERS_OAUTH_POLL@,
        METHOD_SKILLS_RELOAD@, METHOD_PLUGINS_MANAGE@, METHOD_SHELL_EXEC@,
    ]
}

fn method_names() -> (r: Vec<&'static str>)
    ensures
        r@.len() == registered_methods().len(),
        forall|k: int| 0 <= k < r@.len() ==> (#[trigger] r@[k])@ == registered_methods()[k],
{
    let v = vec![
        METHOD_LEARNING_DETAIL, METHOD_LEARNING_DELETE, METHOD_LEARNING_EDIT,
        METHOD_SKILLS_MANAGE, METHOD_MCP_CATALOG, METHOD_MCP_SERVERS_LIST,
        METHOD_MCP_SERVERS_ADD, METHOD_MCP_SERVERS_SET_API_KEY, METHOD_MCP_SERVERS_TEST,
        METHOD_MCP_SERVERS_REMOVE, METHOD_MCP_SERVERS_OAUTH_START, METHOD_MCP_SERVERS_OAUTH_POLL,
        METHOD_SKILLS_RELOAD, METHOD_PLUGINS_MANAGE, METHOD_SHELL_EXEC,
    ];
    v
}

/// The method names of this module are pairwise distinct.
pub proof fn lemma_registered_methods_distinct()
    ensures
        forall|a: int, b: int|
            0 <= a < b < registered_methods().len() ==> #[trigger] registered_methods()[a]
                != #[trigger] registered_methods()[b],
{
    reveal_strlit("learning.detail");
    reveal_strlit("learning.delete");
    reveal_strlit("learning.edit");
    reveal_strlit("skills.manage");
    reveal_strlit("mcp.catalog");
    reveal_strlit("mcp.servers.list");
    reveal_strlit("mcp.servers.add");
    reveal_strlit("mcp.servers.set_api_key");
    reveal_strlit("mcp.servers.test");
    reveal_strlit("mcp.servers.remove");
    reveal_strlit("mcp.servers.oauth.start");
    reveal_strlit("mcp.servers.oauth.poll");
    reveal_strlit("skills.reload");
    reveal_strlit("plugins.manage");
    reveal_strlit("shell.exec");
    let m = registered_methods();
    assert forall|a: int, b: int| 0 <= a < b < m.len() implies #[trigger] m[a] != #[trigger] m[b] by {
        assert(m[a].len() != m[b].len() || m[a][0] != m[b][0] || m[a][7] != m[b][7] || m[a][11]
            != m[b][11] || m[a][12] != m[b][12]);
    }
}

/// Registers the methods of this module, each under its own name as handler id; their
/// replies with no backend behind them are `default_reply`. Other names keep what they had.
pub fn register(registry: &mut MethodRegistry)
    ensures
        forall|k: int|
            0 <= k < registered_methods().len() ==> final(registry).lookup(
                #[trigger] registered_methods()[k],
            ) == Some(registered_methods()[k]),
        forall|n: Seq<char>|
            !registered_methods().contains(n) ==> final(registry).lookup(n) == old(registry).lookup(n),
        (forall|k: int|
            0 <= k < registered_methods().len() ==> old(registry).lookup(#[trigger] registered_methods()[k])
                is None) ==> final(registry).entries().len() == old(registry).entries().len()
            + registered_methods().len(),
{
    let names = method_names();
    proof {
        lemma_registered_methods_distinct();
        if forall|k: int|
            0 <= k < registered_methods().len() ==> old(registry).lookup(#[trigger] registered_methods()[k])
                is None {
            assert forall|k: int| 0 <= k < names@.len() implies registry.lookup(#[trigger] names@[k]@) is None by {
                assert(names@[k]@ == registered_methods()[k]);
            }
            assert forall|a: int, b: int| 0 <= a < b < names@.len() implies (#[trigger] names@[a])@
                != (#[trigger] names@[b])@ by {
                assert(names@[a]@ == registered_methods()[a]);
                assert(names@[b]@ == registered_methods()[b]);
            }
        }
    }
    registry.register_names(names.as_slice());
    proof {
        assert forall|k: int| 0 <= k < registered_methods().len() implies registry.lookup(
            #[trigger] registered_methods()[k],
        ) == Some(registered_methods()[k]) by {
            assert(names@[k]@ == registered_methods()[k]);
        }
        assert forall|n: Seq<char>| !registered_methods().contains(n) implies (forall|k: int|
            0 <= k < names@.len() ==> (#[trigger] names@[k])@ != n) by {
            assert forall|k: int| 0 <= k < names@.len() implies (#[trigger] names@[k])@ != n by {
                if names@[k]@ == n {
                    assert(registered_methods()[k] == n);
                }
            }
        }
    }
}

/// Registers the methods of this module onto `registry` with the caller's handlers: method
/// `registered_methods()[k]` under handler id `handler_ids[k]`. Other names keep what they
/// had; when none of the methods was registered, the registry grows by one entry per method.
pub fn register_with(registry: &mut MethodRegistry, handler_ids: &[&str])
    requires
        handler_ids@.len() == registered_methods().len(),
    ensures
        forall|k: int|
            0 <= k < registered_methods().len() ==> final(registry).lookup(
                #[trigger] registered_methods()[k],
            ) == Some(handler_ids@[k]@),
        forall|n: Seq<char>|
            !registered_methods().contains(n) ==> final(registry).lookup(n) == old(registry).lookup(n),
        (forall|k: int|
            0 <= k < registered_methods().len() ==> old(registry).lookup(#[trigger] registered_methods()[k])
                is None) ==> final(registry).entries().len() == old(registry).entries().len()
            + registered_methods().len(),
{
    let names = method_names();
    proof {
        lemma_registered_methods_distinct();
        assert forall|a: int, b: int| 0 <= a < b < names@.len() implies (#[trigger] names@[a])@
            != (#[trigger] names@[b])@ by {
            assert(names@[a]@ == registered_methods()[a]);
            assert(names@[b]@ == registered_methods()[b]);
        }
        if forall|k: int|
            0 <= k < registered_methods().len() ==> old(registry).lookup(#[trigger] registered_methods()[k])
                is None {
            assert forall|k: int| 0 <= k < names@.len() implies registry.lookup(#[trigger] names@[k]@) is None by {
                assert(names@[k]@ == registered_methods()[k]);
            }
        }
    }
    registry.register_pairs(names.as_slice(), handler_ids);
    proof {
        assert forall|k: int| 0 <= k < registered_methods().len() implies registry.lookup(
            #[trigger] registered_methods()[k],
        ) == Some(handler_ids@[k]@) by {
            assert(names@[k]@ == registered_methods()[k]);
        }
        assert forall|n: Seq<char>| !registered_methods().contains(n) implies (forall|k: int|
            0 <= k < names@.len() ==> (#[trigger] names@[k])@ != n) by {
            assert forall|k: int| 0 <= k < names@.len() implies (#[trigger] names@[k])@ != n by {
                if names@[k]@ == n {
                    assert(registered_methods()[k] == n);
                }
            }
        }
    }
}

/// A fresh registry holding exactly the methods of this module, under the caller's handler
/// ids (see `register_with`).
pub fn build_registry(handler_ids: &[&str]) -> (r: MethodRegistry)
    requires
        handler_ids@.len() == registered_methods().len(),
    ensures
        r.entries().len() == registered_methods().len(),
        forall|k: int|
            0 <= k < registered_methods().len() ==> r.lookup(#[trigger] registered_methods()[k])
                == Some(handler_ids@[k]@),
        forall|n: Seq<char>| !registered_methods().contains(n) ==> r.lookup(n) is None,
{
    let mut reg = MethodRegistry::new();
    proof {
        assert forall|n: Seq<char>| reg.lookup(n) is None by {
            assert(reg.entries().len() == 0);
        }
    }
    register_with(&mut reg, handler_ids);
    reg
}

/// A fresh registry holding exactly the methods of this module.
pub fn build_registry_default() -> (r: MethodRegistry)
    ensures
        r.entries().len() == registered_methods().len(),
        forall|k: int|
            0 <= k < registered_methods().len() ==> r.lookup(#[trigger] registered_methods()[k])
                == Some(registered_methods()[k]),
        forall|n: Seq<char>| !registered_methods().contains(n) ==> r.lookup(n) is None,
{
    let mut reg = MethodRegistry::new();
    let names = method_names();
    proof {
        lemma_registered_methods_distinct();
        assert forall|k: int| 0 <= k < names@.len() implies reg.lookup(#[trigger] names@[k]@) is None by {
            assert(reg.entries().len() == 0);
        }
    }
    reg.register_names(names.as_slice());
    proof {
        assert forall|k: int| 0 <= k < registered_methods().len() implies reg.lookup(
            #[trigger] registered_methods()[k],
        ) == Some(registered_methods()[k]) by {
            assert(names@[k]@ == registered_methods()[k]);
        }
        assert forall|n: Seq<char>| !registered_methods().contains(n) implies reg.lookup(n) is None by {
            assert forall|k: int| 0 <= k < names@.len() implies (#[trigger] names@[k])@ != n by {
                if names@[k]@ == n {
                    assert(registered_methods()[k] == n);
                }
            }
        }
    }
    reg
}

/// The reply of method `method` to a request with id `rid` and parameters `params` when no
/// backend stands behind the handlers: a handler's own refusals as it states them, else the
/// backend failure `no backend` under the handler's code. `None` for a method this module
/// does not answer.
pub open spec fn default_reply_spec(method: Seq<char>, rid: Seq<char>, params: Seq<char>) -> Option<
    Seq<char>,
> {
    let id = rid_json(rid);
    let nb = "no backend"@;
    let no_name = trimmed_field(params, "name"@).len() == 0;
    let name_gated = if no_name {
        err_envelope(id, 4063, "name required"@)
    } else {
        err_envelope(id, ERR_MCP_SERVERS as int, nb)
    };
    if method == METHOD_LEARNING_DETAIL@ || method == METHOD_LEARNING_DELETE@ || method
        == METHOD_LEARNING_EDIT@ {
        Some(err_envelope(id, ERR_LEARNING_DETAIL as int, nb))
    } else if method == METHOD_SKILLS_MANAGE@ {
        Some(
            if !valid_skills_action(action_or_list(params)) {
                err_envelope(id, 4017, "unknown skills action: "@ + action_or_list(params))
            } else {
                err_envelope(id, ERR_SKILLS_MANAGE as int, nb)
            },
        )
    } else if method == METHOD_MCP_CATALOG@ {
        Some(err_envelope(id, ERR_MCP_CATALOG as int, nb))
    } else if method == METHOD_MCP_SERVERS_LIST@ {
        Some(err_envelope(id, ERR_MCP_SERVERS as int, nb))
    } else if method == METHOD_MCP_SERVERS_ADD@ {
        Some(name_gated)
    } else if method == METHOD_MCP_SERVERS_SET_API_KEY@ {
        Some(
            if no_name {
                err_envelope(id, 4063, "name required"@)
            } else if api_value_missing(params) {
                err_envelope(id, 4063, "value required"@)
            } else {
                err_envelope(id, ERR_MCP_SERVERS as int, nb)
            },
        )
    } else if method == METHOD_MCP_SERVERS_TEST@ || method == METHOD_MCP_SERVERS_REMOVE@ || method
        == METHOD_MCP_SERVERS_OAUTH_START@ {
        Some(name_gated)
    } else if method == METHOD_MCP_SERVERS_OAUTH_POLL@ {
        Some(
            if no_name {
                err_envelope(id, 4063, "name required"@)
            } else if trimmed_field(params, "session_id"@).len() == 0 {
                err_envelope(id, 4063, "session_id required"@)
            } else {
                err_envelope(id, ERR_MCP_SERVERS as int, nb)
            },
        )
    } else if method == METHOD_SKILLS_RELOAD@ {
        Some(err_envelope(id, ERR_SKILLS_RELOAD as int, nb))
    } else if method == METHOD_PLUGINS_MANAGE@ {
        let a = action_or_list(params);
        Some(
            if !valid_plugins_action(a) {
                err_envelope(id, 4017, "unknown plugins action: "@ + a)
            } else if a == "toggle"@ && either_field(params, "key"@, "name"@).len() == 0 {
                err_envelope(id, 4019, "plugins.toggle requires a 'key' or 'name'"@)
            } else if a == "install"@ && either_field(params, "identifier"@, "repo"@).len() == 0 {
                err_envelope(id, 4019, "plugins.install requires 'identifier' or 'repo'"@)
            } else {
                err_envelope(id, ERR_PLUGINS_MANAGE as int, nb)
            },
        )
    } else if method == METHOD_SHELL_EXEC@ {
        Some(
            if trimmed_field(params, "command"@).len() == 0 {
                err_envelope(id, 4004, "empty command"@)
            } else {
                err_envelope(id, ERR_SHELL_FAILED as int, nb)
            },
        )
    } else {
        None
    }
}

/// Answers `method` for a raw request id `rid` with the handlers of this module and no
/// backend behind them (see `default_reply_spec`).
pub fn default_reply(method: &str, rid: &str, params_json: &str) -> (r: Option<String>)
    ensures
        opt_string(r) == default_reply_spec(method@, rid@, params_json@),
{
    let id = encode_rid(rid);
    let idr = id.as_str();
    let m = to_chars(method);
    let ms = m.as_slice();
    let p = params_json;
    proof {
        reveal_strlit("no backend");
    }
    let r = if chars_eq_str(ms, METHOD_LEARNING_DETAIL) {
        Some(handle_learning_detail(idr, p, |_q: &str| -> (res: Result<String, String>)
            ensures
                res matches Err(e) && e@ == "no backend"@,
            { no_backend() }
        ))
    } else if chars_eq_str(ms, METHOD_LEARNING_DELETE) {
        Some(handle_learning_delete(idr, p, |_q: &str| -> (res: Result<String, String>)
            ensures
                res matches Err(e) && e@ == "no backend"@,
            { no_backend() }
        ))
    } else if chars_eq_str(ms, METHOD_LEARNING_EDIT) {
        Some(handle_learning_edit(idr, p, |_q: &str| -> (res: Result<String, String>)
            ensures
                res matches Err(e) && e@ == "no backend"@,
            { no_backend() }
        ))
    } else if chars_eq_str(ms, METHOD_SKILLS_MANAGE) {
        Some(handle_skills_manage(idr, p, |_q: &str| -> (res: Result<String, (i32, String)>)
            ensures
                failed_for_want_of_backend(res, ERR_SKILLS_MANAGE),
            { no_backend_coded(ERR_SKILLS_MANAGE) }
        ))
    } else if chars_eq_str(ms, METHOD_MCP_CATALOG) {
        Some(handle_mcp_catalog(idr, p, |_q: &str| -> (res: Result<String, (i32, String)>)
            ensures
                failed_for_want_of_backend(res, ERR_MCP_CATALOG),
            { no_backend_coded(ERR_MCP_CATALOG) }
        ))
    } else if chars_eq_str(ms, METHOD_MCP_SERVERS_LIST) {
        Some(handle_mcp_servers_list(idr, p, |_q: &str| -> (res: Result<String, (i32, String)>)
            ensures
                failed_for_want_of_backend(res, ERR_MCP_SERVERS),
            { no_backend_coded(ERR_MCP_SERVERS) }
        ))
    } else if chars_eq_str(ms, METHOD_MCP_SERVERS_ADD) {
        Some(handle_mcp_servers_add(idr, p, |_q: &str| -> (res: Result<String, (i32, String)>)
            ensures
                failed_for_want_of_backend(res, ERR_MCP_SERVERS),
            { no_backend_coded(ERR_MCP_SERVERS) }
        ))
    } else if chars_eq_str(ms, METHOD_MCP_SERVERS_SET_API_KEY) {
        Some(handle_mcp_servers_set_api_key(idr, p, |_q: &str| -> (res: Result<String, (i32, String)>)
            ensures
                failed_for_want_of_backend(res, ERR_MCP_SERVERS),
            { no_backend_coded(ERR_MCP_SERVERS) }
        ))
    } else if chars_eq_str(ms, METHOD_MCP_SERVERS_TEST) {
        Some(handle_mcp_servers_test(idr, p, |_q: &str| -> (res: Result<String, (i32, String)>)
            ensures
                failed_for_want_of_backend(res, ERR_MCP_SERVERS),
            { no_backend_coded(ERR_MCP_SERVERS) }
        ))
    } else if chars_eq_str(ms, METHOD_MCP_SERVERS_REMOVE) {
        Some(handle_mcp_servers_remove(idr, p, |_q: &str| -> (res: Result<String, (i32, String)>)
            ensures
                failed_for_want_of_backend(res, ERR_MCP_SERVERS),
            { no_backend_coded(ERR_MCP_SERVERS) }
        ))
    } else if chars_eq_str(ms, METHOD_MCP_SERVERS_OAUTH_START) {
        Some(handle_mcp_servers_oauth_start(idr, p, |_q: &str| -> (res: Result<String, (i32, String)>)
            ensures
                failed_for_want_of_backend(res, ERR_MCP_SERVERS),
            { no_backend_coded(ERR_MCP_SERVERS) }
        ))
    } else if chars_eq_str(ms, METHOD_MCP_SERVERS_OAUTH_POLL) {
        Some(handle_mcp_servers_oauth_poll(idr, p, |_q: &str| -> (res: Result<String, (i32, String)>)
            ensures
                failed_for_want_of_backend(res, ERR_MCP_SERVERS),
            { no_backend_coded(ERR_MCP_SERVERS) }
        ))
    } else if chars_eq_str(ms, METHOD_SKILLS_RELOAD) {
        Some(handle_skills_reload(idr, p, |_q: &str| -> (res: Result<String, String>)
            ensures
                res matches Err(e) && e@ == "no backend"@,
            { no_backend() }
        ))
    } else if chars_eq_str(ms, METHOD_PLUGINS_MANAGE) {
        Some(handle_plugins_manage(idr, p, |_q: &str| -> (res: Result<String, (i32, String)>)
            ensures
                failed_for_want_of_backend(res, ERR_PLUGINS_MANAGE),
            { no_backend_coded(ERR_PLUGINS_MANAGE) }
        ))
    } else if chars_eq_str(ms, METHOD_SHELL_EXEC) {
        Some(handle_shell_exec(idr, p, |_q: &str| -> (res: Result<String, (i32, String)>)
            ensures
                failed_for_want_of_backend(res, ERR_SHELL_FAILED),
            { no_backend_coded(ERR_SHELL_FAILED) }
        ))
    } else {
        None
    };
    r
}

} // verus!
