//! The synthetic heavy turn: an agent whose turn is a CPU burn driven by a small JSON spec,
//! used to reproduce interpreter starvation without spending model tokens.

use std::sync::Arc;
use std::sync::atomic::AtomicBool;
use std::sync::atomic::Ordering;
use vstd::prelude::*;
use crate::number::{int_value, parse_i64_chars, parses_i64};
use crate::server_slice3::{pair_lookup, pair_lookup_exec, pair_views};
use crate::text::{
    find_class_exec, find_class_from, from_chars, is_ws, opt_string, opt_text, own_str,
    push_all, slice_vec, starts_with, starts_with_str, to_chars, trim, trim_exec, trim_start,
    trim_start_k_exec, CharClass,
};

verus! {

// ---------------------------------------------------------------------------
// Settings
// ---------------------------------------------------------------------------

/// The variable that arms the synthetic turn.
pub const ENV_SYNTH_TURN: &'static str = "HERMES_ISO_CERTIFY_SYNTH_TURN";

/// The variable holding the turn's wall duration in seconds.
pub const ENV_DURATION_S: &'static str = "HERMES_ISO_CERTIFY_DURATION_S";

/// The variable holding the number of integer steps between interrupt checks.
pub const ENV_CHUNK: &'static str = "HERMES_ISO_CERTIFY_CHUNK";

/// The variable holding the delta cadence in seconds.
pub const ENV_DELTA_S: &'static str = "HERMES_ISO_CERTIFY_DELTA_S";

/// The variable holding the tokens counted per delta.
pub const ENV_TPD: &'static str = "HERMES_ISO_CERTIFY_TPD";

/// Integer steps between interrupt checks when nothing says otherwise.
pub const DEFAULT_CHUNK: i64 = 20_000;

/// Tokens counted per delta when nothing says otherwise.
pub const DEFAULT_TPD: i64 = 512;

/// The integer a raw setting stands for: its trimmed text read as an `i64`, or `default` where
/// the setting is absent, blank or not such an integer.
pub open spec fn int_setting(raw: Option<Seq<char>>, default: i64) -> i64 {
    match raw {
        Some(s) => if parses_i64(trim(s)) {
            int_value(trim(s)) as i64
        } else {
            default
        },
        None => default,
    }
}

/// Reads an integer setting from its raw environment value, with `default` where it is
/// absent, blank or no `i64`.
pub fn env_int(raw: Option<&str>, default: i64) -> (r: i64)
    ensures
        r == int_setting(opt_text(raw), default),
{
    match raw {
        None => default,
        Some(s) => {
            let c = to_chars(s);
            let t = trim_exec(c.as_slice());
            match parse_i64_chars(t.as_slice()) {
                Some(v) => v,
                None => default,
            }
        },
    }
}

/// Whether the raw value of the arming variable arms the synthetic turn: exactly `"1"`.
pub fn synth_turn_armed_with(raw: Option<&str>) -> (r: bool)
    ensures
        r == (opt_text(raw) == Some(seq!['1'])),
{
    match raw {
        None => false,
        Some(s) => {
            let c = to_chars(s);
            if c.len() == 1 && c[0] == '1' {
                assert(c@ =~= seq!['1']);
                true
            } else {
                assert(c@ != seq!['1']);
                false
            }
        },
    }
}

// ---------------------------------------------------------------------------
// The turn spec carried in the prompt
// ---------------------------------------------------------------------------

/// One step of the shallow object check; the state is (depth, inside a string, after a
/// backslash, closed more than opened).
pub open spec fn brace_step(st: (int, bool, bool, bool), c: char) -> (int, bool, bool, bool) {
    let (d, in_str, esc, bad) = st;
    if bad {
        st
    } else if esc {
        (d, in_str, false, false)
    } else if in_str {
        if c == '\\' {
            (d, true, true, false)
        } else if c == '"' {
            (d, false, false, false)
        } else {
            st
        }
    } else if c == '"' {
        (d, true, false, false)
    } else if c == '{' {
        (d + 1, false, false, false)
    } else if c == '}' {
        (d - 1, false, false, d - 1 < 0)
    } else {
        st
    }
}

/// The state of the shallow object check after reading all of `s`.
pub open spec fn brace_scan(s: Seq<char>) -> (int, bool, bool, bool)
    decreases s.len(),
{
    if s.len() == 0 {
        (0, false, false, false)
    } else {
        brace_step(brace_scan(s.drop_last()), s.last())
    }
}

/// A shallow check that `s` reads as one JSON object: not empty, braces outside strings
/// balanced and never closed more than opened, and no string left open.
pub open spec fn shallow_object(s: Seq<char>) -> bool {
    s.len() > 0 && !brace_scan(s).3 && !brace_scan(s).1 && brace_scan(s).0 == 0
}

proof fn lemma_bad_sticky(s: Seq<char>, k: int)
    requires
        0 <= k <= s.len(),
        brace_scan(s.take(k)).3,
    ensures
        brace_scan(s).3,
    decreases s.len() - k,
{
    if k < s.len() {
        assert(s.take(k + 1).drop_last() =~= s.take(k));
        lemma_bad_sticky(s, k + 1);
    } else {
        assert(s.take(k) =~= s);
    }
}

fn is_valid_json_object_shallow(s: &[char]) -> (r: bool)
    ensures
        r == shallow_object(s@),
{
    if s.len() == 0 {
        return false;
    }
    let mut depth: usize = 0;
    let mut in_str = false;
    let mut esc = false;
    let mut i: usize = 0;
    while i < s.len()
        invariant
            i <= s@.len(),
            depth <= i,
            brace_scan(s@.take(i as int)) == (depth as int, in_str, esc, false),
        decreases s@.len() - i,
    {
        assert(s@.take(i + 1).drop_last() =~= s@.take(i as int));
        let c = s[i];
        if esc {
            esc = false;
        } else if in_str {
            if c == '\\' {
                esc = true;
            } else if c == '"' {
                in_str = false;
            }
        } else if c == '"' {
            in_str = true;
        } else if c == '{' {
            depth = depth + 1;
        } else if c == '}' {
            if depth == 0 {
                proof {
                    lemma_bad_sticky(s@, i + 1);
                }
                return false;
            }
            depth = depth - 1;
        }
        i = i + 1;
    }
    assert(s@.take(s@.len() as int) =~= s@);
    !in_str && depth == 0
}

/// The text after `"key"` and the first `:` that follows it, without leading white space.
pub open spec fn value_after_key(json: Seq<char>, key: Seq<char>) -> Option<Seq<char>> {
    let needle = seq!['"'] + key + seq!['"'];
    match crate::text::find(json, needle) {
        Some(p) => {
            let after = json.subrange(p + needle.len(), json.len() as int);
            match find_class_from(after, 0, CharClass::Exactly(':')) {
                Some(c) => Some(trim_start(after.subrange(c + 1, after.len() as int))),
                None => None,
            }
        },
        None => None,
    }
}

fn value_after_key_exec(json: &[char], key: &str) -> (r: Option<Vec<char>>)
    ensures
        match r {
            Some(v) => value_after_key(json@, key@) == Some(v@),
            None => value_after_key(json@, key@) is None,
        },
{
    let mut needle: Vec<char> = Vec::new();
    needle.push('"');
    crate::text::push_str(&mut needle, key);
    needle.push('"');
    assert(needle@ =~= seq!['"'] + key@ + seq!['"']);
    let ns = needle.as_slice();
    match crate::text::find_exec(json, ns) {
        Some(p) => {
            let nlen = ns.len();
            let jlen = json.len();
            assert(p + nlen <= jlen);
            let after = slice_vec(json, p + nlen, jlen);
            match find_class_exec(after.as_slice(), 0, CharClass::Exactly(':')) {
                Some(c) => {
                    let rest = slice_vec(after.as_slice(), c + 1, after.len());
                    Some(trim_start_k_exec(rest.as_slice(), CharClass::Space))
                },
                None => None,
            }
        },
        None => None,
    }
}

/// A character that ends an unquoted value: `,`, `}` or white space.
pub open spec fn ends_value(c: char) -> bool {
    c == ',' || c == '}' || is_ws(c)
}

/// The index of the first character at or after `i` that ends an unquoted value, or the length.
pub open spec fn value_end(v: Seq<char>, i: int) -> int
    decreases v.len() - i,
{
    if i < 0 || i >= v.len() {
        v.len() as int
    } else if ends_value(v[i]) {
        i
    } else {
        value_end(v, i + 1)
    }
}

/// A character that may appear in a number: a digit, a sign, a point or an exponent mark.
pub open spec fn number_char(c: char) -> bool {
    ('0' <= c && c <= '9') || number_mark(c)
}

/// A sign, a point or an exponent mark.
pub open spec fn number_mark(c: char) -> bool {
    c == '-' || c == '+' || c == '.' || c == 'e' || c == 'E'
}

/// The unquoted value of `key` in `json` when it looks like a number: a token of number
/// characters with at least one digit, up to the first `,`, `}` or white space.
pub open spec fn number_raw(json: Seq<char>, key: Seq<char>) -> Option<Seq<char>> {
    match value_after_key(json, key) {
        Some(val) => {
            let raw = trim(val.subrange(0, value_end(val, 0)));
            if val.len() == 0 || val[0] == '"' || starts_with(val, "true"@) || starts_with(
                val,
                "false"@,
            ) || starts_with(val, "null"@) || raw.len() == 0 || !(forall|i: int|
                0 <= i < raw.len() ==> number_char(#[trigger] raw[i])) || (forall|i: int|
                0 <= i < raw.len() ==> number_mark(#[trigger] raw[i])) {
                None
            } else {
                Some(raw)
            }
        },
        None => None,
    }
}

proof fn lemma_value_end(v: Seq<char>, i: int)
    requires
        0 <= i <= v.len(),
    ensures
        i <= value_end(v, i) <= v.len(),
    decreases v.len() - i,
{
    if i < v.len() && !ends_value(v[i]) {
        lemma_value_end(v, i + 1);
    }
}

fn value_end_exec(v: &[char]) -> (r: usize)
    ensures
        r == value_end(v@, 0),
        r <= v@.len(),
{
    proof {
        lemma_value_end(v@, 0);
    }
    let mut i: usize = 0;
    while i < v.len()
        invariant
            i <= v@.len(),
            value_end(v@, i as int) == value_end(v@, 0),
        decreases v@.len() - i,
    {
        let c = v[i];
        if c == ',' || c == '}' || crate::text::char_in_class(c, CharClass::Space) {
            return i;
        }
        i = i + 1;
    }
    i
}

/// Whether every character of `s` is a number character, and whether every one is a mark.
fn number_shape(s: &[char]) -> (r: (bool, bool))
    ensures
        r.0 == (forall|i: int| 0 <= i < s@.len() ==> number_char(#[trigger] s@[i])),
        r.1 == (forall|i: int| 0 <= i < s@.len() ==> number_mark(#[trigger] s@[i])),
{
    let mut all_num = true;
    let mut all_mark = true;
    let mut i: usize = 0;
    while i < s.len()
        invariant
            i <= s@.len(),
            all_num == (forall|j: int| 0 <= j < i ==> number_char(#[trigger] s@[j])),
            all_mark == (forall|j: int| 0 <= j < i ==> number_mark(#[trigger] s@[j])),
        decreases s@.len() - i,
    {
        let c = s[i];
        let mark = c == '-' || c == '+' || c == '.' || c == 'e' || c == 'E';
        let digit = '0' <= c && c <= '9';
        if !(digit || mark) {
            all_num = false;
        }
        if !mark {
            all_mark = false;
        }
        i = i + 1;
    }
    (all_num, all_mark)
}

fn extract_json_number_raw(json: &[char], key: &str) -> (r: Option<Vec<char>>)
    ensures
        match r {
            Some(v) => number_raw(json@, key@) == Some(v@),
            None => number_raw(json@, key@) is None,
        },
{
    let val = match value_after_key_exec(json, key) {
        Some(v) => v,
        None => return None,
    };
    if val.len() == 0 || val[0] == '"' || starts_with_str(val.as_slice(), "true")
        || starts_with_str(val.as_slice(), "false") || starts_with_str(val.as_slice(), "null") {
        return None;
    }
    let end = value_end_exec(val.as_slice());
    let head = slice_vec(val.as_slice(), 0, end);
    let raw = trim_exec(head.as_slice());
    if raw.len() == 0 {
        return None;
    }
    let (all_num, all_mark) = number_shape(raw.as_slice());
    if !all_num || all_mark {
        return None;
    }
    Some(raw)
}

/// How an escaped character reads inside a quoted value: `n`, `r` and `t` stand for line feed,
/// carriage return and tab; any other character stands for itself.
pub open spec fn unescaped(c: char) -> char {
    if c == 'n' {
        '\n'
    } else if c == 'r' {
        '\r'
    } else if c == 't' {
        '\t'
    } else {
        c
    }
}

/// The quoted text read from `s[i..]` after `acc`, up to the closing quote, with escapes
/// mapped; `None` when no closing quote comes.
pub open spec fn quoted_body(s: Seq<char>, i: int, acc: Seq<char>) -> Option<Seq<char>>
    decreases s.len() - i,
{
    if i < 0 || i >= s.len() {
        None
    } else if s[i] == '\\' {
        if i + 1 >= s.len() {
            None
        } else {
            quoted_body(s, i + 2, acc.push(unescaped(s[i + 1])))
        }
    } else if s[i] == '"' {
        Some(acc)
    } else {
        quoted_body(s, i + 1, acc.push(s[i]))
    }
}

/// The quoted value of `key` in `json`, unescaped.
pub open spec fn string_raw(json: Seq<char>, key: Seq<char>) -> Option<Seq<char>> {
    match value_after_key(json, key) {
        Some(val) => if val.len() > 0 && val[0] == '"' {
            quoted_body(val, 1, Seq::empty())
        } else {
            None
        },
        None => None,
    }
}

fn extract_json_string_raw(json: &[char], key: &str) -> (r: Option<Vec<char>>)
    ensures
        match r {
            Some(v) => string_raw(json@, key@) == Some(v@),
            None => string_raw(json@, key@) is None,
        },
{
    let val = match value_after_key_exec(json, key) {
        Some(v) => v,
        None => return None,
    };
    if val.len() == 0 || val[0] != '"' {
        return None;
    }
    assert(string_raw(json@, key@) == quoted_body(val@, 1, Seq::empty()));
    let mut out: Vec<char> = Vec::new();
    let mut i: usize = 1;
    while i < val.len()
        invariant
            1 <= i <= val@.len() + 1,
            string_raw(json@, key@) == quoted_body(val@, 1, Seq::empty()),
            quoted_body(val@, i as int, out@) == quoted_body(val@, 1, Seq::empty()),
        decreases val@.len() - i,
    {
        let c = val[i];
        if c == '\\' {
            if i + 1 >= val.len() {
                assert(quoted_body(val@, i as int, out@) is None);
                return None;
            }
            let e = val[i + 1];
            let m = if e == 'n' {
                '\n'
            } else if e == 'r' {
                '\r'
            } else if e == 't' {
                '\t'
            } else {
                e
            };
            out.push(m);
            i = i + 2;
        } else if c == '"' {
            assert(quoted_body(val@, i as int, out@) == Some(out@));
            return Some(out);
        } else {
            out.push(c);
            i = i + 1;
        }
    }
    None
}

/// The raw value of `key`: the number token where there is one, else the quoted text.
pub open spec fn field_raw(json: Seq<char>, key: Seq<char>) -> Option<Seq<char>> {
    match number_raw(json, key) {
        Some(r) => Some(r),
        None => string_raw(json, key),
    }
}

/// `fields` with `(key, raw value)` appended when `key` has a value in `json`.
pub open spec fn with_field(fields: Seq<(Seq<char>, Seq<char>)>, json: Seq<char>, key: Seq<char>) -> Seq<(Seq<char>, Seq<char>)> {
    match field_raw(json, key) {
        Some(r) => fields.push((key, r)),
        None => fields,
    }
}

/// The fields of a turn spec read from `s`: where its trimmed text is a shallow JSON object,
/// the raw values of `duration_s`, `chunk`, `delta_interval_s`, `tokens_per_delta` and
/// `sleep_s` that it holds, in that order; otherwise `None`.
pub open spec fn spec_fields(s: Seq<char>) -> Option<Seq<(Seq<char>, Seq<char>)>> {
    let t = trim(s);
    if t.len() > 0 && t[0] == '{' && t.last() == '}' && shallow_object(t) {
        Some(
            with_field(
                with_field(
                    with_field(
                        with_field(with_field(Seq::empty(), t, "duration_s"@), t, "chunk"@),
                        t,
                        "delta_interval_s"@,
                    ),
                    t,
                    "tokens_per_delta"@,
                ),
                t,
                "sleep_s"@,
            ),
        )
    } else {
        None
    }
}

fn add_field(fields: &mut Vec<(String, String)>, json: &[char], key: &str)
    ensures
        pair_views(final(fields)@) == with_field(pair_views(old(fields)@), json@, key@),
{
    let found = match extract_json_number_raw(json, key) {
        Some(v) => Some(v),
        None => extract_json_string_raw(json, key),
    };
    match found {
        Some(v) => {
            let k = own_str(key);
            let val = from_chars(v.as_slice());
            fields.push((k, val));
            assert(pair_views(fields@) =~= pair_views(old(fields)@).push((key@, v@)));
        },
        None => {},
    }
}

/// Reads the fields of a turn spec from `s`, as [`spec_fields`] says.
pub fn try_parse_json_object(s: &str) -> (r: Option<Vec<(String, String)>>)
    ensures
        match r {
            Some(f) => spec_fields(s@) == Some(pair_views(f@)),
            None => spec_fields(s@) is None,
        },
{
    let c = to_chars(s);
    let t = trim_exec(c.as_slice());
    if t.len() == 0 || t[0] != '{' || t[t.len() - 1] != '}' || !is_valid_json_object_shallow(t.as_slice()) {
        return None;
    }
    let mut fields: Vec<(String, String)> = Vec::new();
    assert(pair_views(fields@) =~= Seq::empty());
    add_field(&mut fields, t.as_slice(), "duration_s");
    add_field(&mut fields, t.as_slice(), "chunk");
    add_field(&mut fields, t.as_slice(), "delta_interval_s");
    add_field(&mut fields, t.as_slice(), "tokens_per_delta");
    add_field(&mut fields, t.as_slice(), "sleep_s");
    Some(fields)
}

/// Reads the integer field `key` of a parsed turn spec, with `default` where it is missing,
/// blank or no `i64`.
pub fn parse_int_field(map: &[(String, String)], key: &str, default: i64) -> (r: i64)
    ensures
        r == int_setting(opt_string(pair_lookup(map@, key@, 0)), default),
{
    let k = to_chars(key);
    match pair_lookup_exec(map, k.as_slice()) {
        Some(i) => env_int(Some(map[i].1.as_str()), default),
        None => default,
    }
}

// ---------------------------------------------------------------------------
// Messages and turn results
// ---------------------------------------------------------------------------

/// One chat message: a role and its content.
#[derive(Debug, Clone, PartialEq, Eq)]
pub struct ChatMessage {
    pub role: String,
    pub content: String,
}

impl ChatMessage {
    /// A message with the given role and content.
    pub fn new(role: &str, content: &str) -> (r: Self)
        ensures
            r.role@ == role@,
            r.content@ == content@,
    {
        ChatMessage { role: own_str(role), content: own_str(content) }
    }

    /// A message from the user.
    pub fn user(content: &str) -> (r: Self)
        ensures
            r.role@ == "user"@,
            r.content@ == content@,
    {
        Self::new("user", content)
    }

    /// A message from the assistant.
    pub fn assistant(content: &str) -> (r: Self)
        ensures
            r.role@ == "assistant"@,
            r.content@ == content@,
    {
        Self::new("assistant", content)
    }
}

fn copy_message(m: &ChatMessage) -> (r: ChatMessage)
    ensures
        r == *m,
{
    ChatMessage { role: m.role.clone(), content: m.content.clone() }
}

fn copy_messages(v: &[ChatMessage]) -> (r: Vec<ChatMessage>)
    ensures
        r@ == v@,
{
    let mut out: Vec<ChatMessage> = Vec::new();
    let mut i: usize = 0;
    while i < v.len()
        invariant
            i <= v@.len(),
            out@ == v@.take(i as int),
        decreases v@.len() - i,
    {
        out.push(copy_message(&v[i]));
        i = i + 1;
        assert(out@ =~= v@.take(i as int));
    }
    assert(v@.take(v@.len() as int) =~= v@);
    out
}

/// What a synthetic turn returns.
#[derive(Debug, Clone, PartialEq, Eq)]
pub struct TurnResult {
    /// The assistant's reply.
    pub final_response: String,
    /// The conversation after the turn.
    pub messages: Vec<ChatMessage>,
    /// Whether the turn stopped on an interrupt.
    pub interrupted: bool,
    /// Always `None` for a synthetic turn.
    pub error: Option<String>,
    /// Always `None` for a synthetic turn.
    pub last_reasoning: Option<String>,
}

// ---------------------------------------------------------------------------
// The agent
// ---------------------------------------------------------------------------

/// An agent-shaped value whose turn is a CPU burn: the attributes the turn path and the
/// status helpers read, the token counters, the history and a shared interrupt flag.
#[derive(Debug, Clone)]
pub struct SyntheticHeavyAgent {
    pub session_id: String,
    pub model: String,
    pub provider: String,
    pub api_mode: String,
    pub base_url: String,
    pub api_key: String,
    pub platform: String,
    pub tools: Vec<String>,
    pub reasoning_config: Option<String>,
    pub service_tier: Option<String>,
    pub context_compressor: Option<()>,
    pub config_context_length: usize,
    pub cached_system_prompt: String,
    pub session_input_tokens: u64,
    pub session_output_tokens: u64,
    pub session_prompt_tokens: u64,
    pub session_completion_tokens: u64,
    pub session_reasoning_tokens: u64,
    pub session_total_tokens: u64,
    pub session_api_calls: u64,
    pub history: Vec<ChatMessage>,
    /// The interrupt flag, shared with clones and handles.
    pub interrupt: Arc<AtomicBool>,
}

/// The model a synthetic agent reports when none is given.
pub open spec fn default_model() -> Seq<char> {
    "synthetic-heavy"@
}

/// `a` is a new agent of session `sid` on model `model`: the fixed attributes, zero counters,
/// an empty history.
pub open spec fn fresh_agent(a: SyntheticHeavyAgent, sid: Seq<char>, model: Seq<char>) -> bool {
    &&& a.session_id@ == sid
    &&& a.model@ == model
    &&& a.provider@ == "synthetic"@
    &&& a.api_mode@ == "chat_completions"@
    &&& a.base_url@.len() == 0
    &&& a.api_key@.len() == 0
    &&& a.platform@.len() == 0
    &&& a.tools@.len() == 0
    &&& a.reasoning_config is None
    &&& a.service_tier is None
    &&& a.context_compressor is None
    &&& a.config_context_length == 200_000
    &&& a.cached_system_prompt@.len() == 0
    &&& a.session_input_tokens == 0
    &&& a.session_output_tokens == 0
    &&& a.session_prompt_tokens == 0
    &&& a.session_completion_tokens == 0
    &&& a.session_reasoning_tokens == 0
    &&& a.session_total_tokens == 0
    &&& a.session_api_calls == 0
    &&& a.history@.len() == 0
}

/// `Arc::clone`: another pointer to the same flag.
#[verifier::external_body]
fn share_flag(flag: &Arc<AtomicBool>) -> (r: Arc<AtomicBool>)
    ensures
        r == *flag,
{
    Arc::clone(flag)
}

/// One step of the turn's integer burn, `acc * 1_000_003 + 12_345` wrapping at 64 bits.
pub open spec fn burn_step(acc: u64) -> u64 {
    vstd::wrapping::u64_specs::wrapping_add(
        vstd::wrapping::u64_specs::wrapping_mul(acc, 1_000_003),
        12_345,
    )
}

/// The accumulator after `n` burn steps from `acc`.
pub open spec fn burned(acc: u64, n: nat) -> u64
    decreases n,
{
    if n == 0 {
        acc
    } else {
        burn_step(burned(acc, (n - 1) as nat))
    }
}

/// `d` padded on the left with zeros to `width` characters (`{:0width}`).
pub open spec fn zero_pad(d: Seq<char>, width: nat) -> Seq<char> {
    if d.len() >= width {
        d
    } else {
        Seq::new((width - d.len()) as nat, |i: int| '0') + d
    }
}

/// The delta streamed for the `deltas`-th interval: `synthtok-`, the count padded to five
/// digits, a space.
pub open spec fn delta_text_of(deltas: u64) -> Seq<char> {
    "synthtok-"@ + zero_pad(crate::rpc_json::nat_decimal(deltas as nat), 5) + " "@
}

/// Four lower-case hexadecimal digits of `v` (`{:04x}` of a value below 65536).
pub open spec fn hex4(v: nat) -> Seq<char> {
    seq![
        crate::rpc_json::hex_lower(((v / 4096) % 16) as int),
        crate::rpc_json::hex_lower(((v / 256) % 16) as int),
        crate::rpc_json::hex_lower(((v / 16) % 16) as int),
        crate::rpc_json::hex_lower((v % 16) as int),
    ]
}

/// The reply of a synthetic turn: the delta count, the output tokens, whether it was
/// interrupted, and the low 16 bits of the accumulator in hexadecimal.
pub open spec fn turn_reply(deltas: u64, out_tokens: u64, interrupted: bool, acc: u64) -> Seq<char> {
    "[synthetic heavy turn] deltas="@ + crate::rpc_json::nat_decimal(deltas as nat)
        + " out_tokens="@ + crate::rpc_json::nat_decimal(out_tokens as nat) + " interrupted="@
        + (if interrupted {
        "true"@
    } else {
        "false"@
    }) + " checksum="@ + hex4((acc % 65536) as nat)
}

/// The user message recorded for a turn: its first 200 characters.
pub open spec fn recorded_prompt(message: Seq<char>) -> Seq<char> {
    if message.len() <= 200 {
        message
    } else {
        message.take(200)
    }
}

impl SyntheticHeavyAgent {
    /// A new agent for `session_id`, on `model` or on `synthetic-heavy`.
    pub fn new(session_id: &str, model: Option<String>) -> (r: Self)
        ensures
            fresh_agent(r, session_id@, match model {
                Some(m) => m@,
                None => default_model(),
            }),
    {
        let model = match model {
            Some(m) => m,
            None => own_str("synthetic-heavy"),
        };
        proof {
            reveal_strlit("");
        }
        SyntheticHeavyAgent {
            session_id: own_str(session_id),
            model,
            provider: own_str("synthetic"),
            api_mode: own_str("chat_completions"),
            base_url: own_str(""),
            api_key: own_str(""),
            platform: own_str(""),
            tools: Vec::new(),
            reasoning_config: None,
            service_tier: None,
            context_compressor: None,
            config_context_length: 200_000,
            cached_system_prompt: own_str(""),
            session_input_tokens: 0,
            session_output_tokens: 0,
            session_prompt_tokens: 0,
            session_completion_tokens: 0,
            session_reasoning_tokens: 0,
            session_total_tokens: 0,
            session_api_calls: 0,
            history: Vec::new(),
            interrupt: Arc::new(AtomicBool::new(false)),
        }
    }

    /// A new agent for `session_id` on the default model.
    pub fn with_session(session_id: &str) -> (r: Self)
        ensures
            fresh_agent(r, session_id@, default_model()),
    {
        Self::new(session_id, None)
    }

    /// Lowers the interrupt flag.
    pub fn clear_interrupt(&self) {
        self.interrupt.store(false, Ordering::SeqCst);
    }

    /// Raises the interrupt flag.
    pub fn interrupt(&self) {
        self.interrupt.store(true, Ordering::SeqCst);
    }

    /// Whether a stream consumer is attached: always.
    pub fn has_stream_consumers(&self) -> (r: bool)
        ensures
            r,
    {
        true
    }

    /// Teardown: raises the interrupt flag.
    pub fn close(&self) {
        self.interrupt.store(true, Ordering::SeqCst);
    }

    /// Whether the interrupt flag is raised; another thread may change it at any time.
    pub fn is_interrupted(&self) -> bool {
        self.interrupt.load(Ordering::SeqCst)
    }

    /// A handle to the interrupt flag, for another thread to raise it.
    pub fn interrupt_handle(&self) -> (r: Arc<AtomicBool>)
        ensures
            r == self.interrupt,
    {
        share_flag(&self.interrupt)
    }

    /// The history a turn builds on: the one given, else the agent's own.
    pub fn base_history(&self, conversation_history: Option<&[ChatMessage]>) -> (r: Vec<ChatMessage>)
        ensures
            r@ == match conversation_history {
                Some(h) => h@,
                None => self.history@,
            },
    {
        match conversation_history {
            Some(h) => copy_messages(h),
            None => copy_messages(self.history.as_slice()),
        }
    }

    /// Counts one streamed delta of `tokens_per_delta` tokens in the output, completion and
    /// total counters (wrapping), leaving everything else as it was.
    pub fn record_delta(&mut self, tokens_per_delta: u64)
        ensures
            *final(self) == (SyntheticHeavyAgent {
                session_output_tokens: vstd::wrapping::u64_specs::wrapping_add(
                    old(self).session_output_tokens,
                    tokens_per_delta,
                ),
                session_completion_tokens: vstd::wrapping::u64_specs::wrapping_add(
                    old(self).session_completion_tokens,
                    tokens_per_delta,
                ),
                session_total_tokens: vstd::wrapping::u64_specs::wrapping_add(
                    old(self).session_total_tokens,
                    tokens_per_delta,
                ),
                ..*old(self)
            }),
    {
        self.session_output_tokens = self.session_output_tokens.wrapping_add(tokens_per_delta);
        self.session_completion_tokens = self.session_completion_tokens.wrapping_add(
            tokens_per_delta,
        );
        self.session_total_tokens = self.session_total_tokens.wrapping_add(tokens_per_delta);
    }

    /// Ends a turn: counts the call, appends the user message (its first 200 characters) and
    /// the reply to `base_history`, makes that the agent's history and returns it with the
    /// reply.
    pub fn finish_turn(
        &mut self,
        message: &str,
        base_history: Vec<ChatMessage>,
        deltas: u64,
        interrupted: bool,
        acc: u64,
    ) -> (r: TurnResult)
        ensures
            r.final_response@ == turn_reply(deltas, old(self).session_output_tokens, interrupted, acc),
            r.messages@.len() == base_history@.len() + 2,
            r.messages@.take(base_history@.len() as int) == base_history@,
            r.messages@[base_history@.len() as int].role@ == "user"@,
            r.messages@[base_history@.len() as int].content@ == recorded_prompt(message@),
            r.messages@[base_history@.len() + 1int].role@ == "assistant"@,
            r.messages@[base_history@.len() + 1int].content@ == r.final_response@,
            r.interrupted == interrupted,
            r.error is None,
            r.last_reasoning is None,
            *final(self) == (SyntheticHeavyAgent {
                session_api_calls: vstd::wrapping::u64_specs::wrapping_add(
                    old(self).session_api_calls,
                    1,
                ),
                history: final(self).history,
                ..*old(self)
            }),
            final(self).history@ == r.messages@,
    {
        let reply = turn_reply_exec(deltas, self.session_output_tokens, interrupted, acc);
        self.session_api_calls = self.session_api_calls.wrapping_add(1);
        let text = to_chars(message);
        let head = if text.len() <= 200 {
            text
        } else {
            slice_vec(text.as_slice(), 0, 200)
        };
        proof {
            if message@.len() > 200 {
                assert(message@.subrange(0, 200) =~= message@.take(200));
            }
        }
        let user = ChatMessage { role: own_str("user"), content: from_chars(head.as_slice()) };
        let reply_text = from_chars(reply.as_slice());
        let assistant = ChatMessage { role: own_str("assistant"), content: reply_text.clone() };
        let mut messages = base_history;
        let ghost base = messages@;
        messages.push(user);
        messages.push(assistant);
        assert(messages@.take(base.len() as int) =~= base);
        self.history = copy_messages(messages.as_slice());
        TurnResult {
            final_response: reply_text,
            messages,
            interrupted,
            error: None,
            last_reasoning: None,
        }
    }
}

/// What a synthetic turn does at one step of its loop.
#[derive(Debug, Clone, Copy, PartialEq, Eq)]
pub enum TurnStep {
    /// End the turn, saying whether it stops on an interrupt.
    Finish { interrupted: bool },
    /// Burn one chunk; then, when `delta`, count one delta and stream it.
    Burn { delta: bool },
}

/// The step of a turn: it ends on an interrupt, else once `elapsed_ns` reaches its
/// duration; otherwise it burns, and a delta is due once `since_delta_ns` reaches the
/// interval.
pub fn turn_step(
    interrupted: bool,
    elapsed_ns: u128,
    since_delta_ns: u128,
    duration_ns: u128,
    interval_ns: u128,
) -> (r: TurnStep)
    ensures
        r == (if interrupted {
            TurnStep::Finish { interrupted: true }
        } else if elapsed_ns >= duration_ns {
            TurnStep::Finish { interrupted: false }
        } else {
            TurnStep::Burn { delta: since_delta_ns >= interval_ns }
        }),
{
    if interrupted {
        TurnStep::Finish { interrupted: true }
    } else if elapsed_ns >= duration_ns {
        TurnStep::Finish { interrupted: false }
    } else {
        TurnStep::Burn { delta: since_delta_ns >= interval_ns }
    }
}

/// The chunk a turn burns per step: the one asked for, at least one.
pub fn turn_chunk(chunk: i64) -> (r: usize)
    ensures
        r == (if chunk < 1 {
            1
        } else {
            chunk
        }) as usize,
{
    let c: i64 = if chunk < 1 {
        1
    } else {
        chunk
    };
    c as usize
}

/// The tokens a delta counts: the ones asked for, never below zero.
pub fn turn_tokens_per_delta(tokens_per_delta: i64) -> (r: u64)
    ensures
        r == (if tokens_per_delta < 0 {
            0
        } else {
            tokens_per_delta
        }) as u64,
{
    if tokens_per_delta < 0 {
        0
    } else {
        tokens_per_delta as u64
    }
}

/// Runs `chunk` steps of the integer burn from `acc`.
pub fn burn_chunk(acc: u64, chunk: usize) -> (r: u64)
    ensures
        r == burned(acc, chunk as nat),
{
    let mut a = acc;
    let mut i: usize = 0;
    while i < chunk
        invariant
            i <= chunk,
            a == burned(acc, i as nat),
        decreases chunk - i,
    {
        a = a.wrapping_mul(1_000_003).wrapping_add(12_345);
        i = i + 1;
    }
    a
}

/// The delta text streamed for the `deltas`-th interval, as [`delta_text_of`] says.
pub fn delta_text(deltas: u64) -> (r: String)
    ensures
        r@ == delta_text_of(deltas),
{
    let digits = crate::rpc_json::nat_decimal_exec(deltas);
    let mut out: Vec<char> = Vec::new();
    crate::text::push_str(&mut out, "synthtok-");
    let mut k: usize = digits.len();
    let ghost before = out@;
    while k < 5
        invariant
            digits.len() <= k <= 5 || (digits.len() > 5 && k == digits.len()),
            out@ == before + Seq::new((k - digits@.len()) as nat, |i: int| '0'),
        decreases 5 - k,
    {
        out.push('0');
        k = k + 1;
        assert(out@ =~= before + Seq::new((k - digits@.len()) as nat, |i: int| '0'));
    }
    push_all(&mut out, digits.as_slice());
    crate::text::push_str(&mut out, " ");
    proof {
        if digits@.len() >= 5 {
            assert(Seq::new((k - digits@.len()) as nat, |i: int| '0') =~= Seq::<char>::empty());
        }
        assert(out@ =~= delta_text_of(deltas));
    }
    from_chars(out.as_slice())
}

fn turn_reply_exec(deltas: u64, out_tokens: u64, interrupted: bool, acc: u64) -> (r: Vec<char>)
    ensures
        r@ == turn_reply(deltas, out_tokens, interrupted, acc),
{
    let mut out: Vec<char> = Vec::new();
    crate::text::push_str(&mut out, "[synthetic heavy turn] deltas=");
    let d = crate::rpc_json::nat_decimal_exec(deltas);
    push_all(&mut out, d.as_slice());
    crate::text::push_str(&mut out, " out_tokens=");
    let o = crate::rpc_json::nat_decimal_exec(out_tokens);
    push_all(&mut out, o.as_slice());
    crate::text::push_str(&mut out, " interrupted=");
    if interrupted {
        crate::text::push_str(&mut out, "true");
    } else {
        crate::text::push_str(&mut out, "false");
    }
    crate::text::push_str(&mut out, " checksum=");
    let v: u64 = acc % 65536;
    out.push(crate::rpc_json::hex_lower_exec(((v / 4096) % 16) as u32));
    out.push(crate::rpc_json::hex_lower_exec(((v / 256) % 16) as u32));
    out.push(crate::rpc_json::hex_lower_exec(((v / 16) % 16) as u32));
    out.push(crate::rpc_json::hex_lower_exec((v % 16) as u32));
    assert(out@ =~= turn_reply(deltas, out_tokens, interrupted, acc));
    out
}

// ---------------------------------------------------------------------------
// Choosing the model and building the agent
// ---------------------------------------------------------------------------

/// What may override the model of a synthetic agent: nothing, a model name, or a dictionary
/// whose `model` entry names it.
#[derive(Debug, Clone, PartialEq, Eq)]
pub enum ModelOverride {
    Absent,
    Str(String),
    Dict(Vec<(String, String)>),
}

/// The model an override names, if it names a non-empty one.
pub open spec fn chosen_model(o: ModelOverride) -> Option<Seq<char>> {
    match o {
        ModelOverride::Absent => None,
        ModelOverride::Str(s) => if s@.len() > 0 {
            Some(s@)
        } else {
            None
        },
        ModelOverride::Dict(m) => match pair_lookup(m@, "model"@, 0) {
            Some(v) => if v@.len() > 0 {
                Some(v@)
            } else {
                None
            },
            None => None,
        },
    }
}

/// The model a built agent runs on: the override's, else `synthetic-heavy`.
pub open spec fn built_model(o: ModelOverride) -> Seq<char> {
    match chosen_model(o) {
        Some(m) => m,
        None => default_model(),
    }
}

impl ModelOverride {
    /// An override from an optional name: none where it is absent or empty.
    pub fn from_str_opt(s: Option<&str>) -> (r: Self)
        ensures
            match s {
                Some(t) => if t@.len() > 0 {
                    r matches ModelOverride::Str(v) && v@ == t@
                } else {
                    r is Absent
                },
                None => r is Absent,
            },
    {
        match s {
            None => ModelOverride::Absent,
            Some(v) => {
                let c = to_chars(v);
                if c.len() == 0 {
                    ModelOverride::Absent
                } else {
                    ModelOverride::Str(own_str(v))
                }
            },
        }
    }

    /// An override from a dictionary: the dictionary where its `model` entry is non-empty,
    /// none otherwise.
    pub fn from_map(map: Vec<(String, String)>) -> (r: Self)
        ensures
            (match pair_lookup(map@, "model"@, 0) {
                Some(v) => v@.len() > 0,
                None => false,
            }) ==> r == ModelOverride::Dict(map),
            !(match pair_lookup(map@, "model"@, 0) {
                Some(v) => v@.len() > 0,
                None => false,
            }) ==> r is Absent,
    {
        let key = to_chars("model");
        match pair_lookup_exec(map.as_slice(), key.as_slice()) {
            Some(i) => {
                let v = to_chars(map[i].1.as_str());
                if v.len() > 0 {
                    ModelOverride::Dict(map)
                } else {
                    ModelOverride::Absent
                }
            },
            None => ModelOverride::Absent,
        }
    }

    /// The model this override names, as [`chosen_model`] says.
    pub fn resolve_model(&self) -> (r: Option<String>)
        ensures
            opt_string(r) == chosen_model(*self),
    {
        match self {
            ModelOverride::Absent => None,
            ModelOverride::Str(s) => {
                let c = to_chars(s.as_str());
                if c.len() == 0 {
                    None
                } else {
                    Some(s.clone())
                }
            },
            ModelOverride::Dict(m) => {
                let key = to_chars("model");
                match pair_lookup_exec(m.as_slice(), key.as_slice()) {
                    Some(i) => {
                        let c = to_chars(m[i].1.as_str());
                        if c.len() == 0 {
                            None
                        } else {
                            Some(m[i].1.clone())
                        }
                    },
                    None => None,
                }
            },
        }
    }
}

/// A synthetic agent for `session_id` on the override's model when `armed`, else `None`.
pub fn maybe_build_synthetic_agent_with_armed(
    session_id: &str,
    model_override: &ModelOverride,
    armed: bool,
) -> (r: Option<SyntheticHeavyAgent>)
    ensures
        r is Some <==> armed,
        r matches Some(a) ==> fresh_agent(a, session_id@, built_model(*model_override)),
{
    if !armed {
        return None;
    }
    let model = match model_override.resolve_model() {
        Some(m) => m,
        None => own_str("synthetic-heavy"),
    };
    Some(SyntheticHeavyAgent::new(session_id, Some(model)))
}

/// A synthetic agent for `session_id` when the raw value of the arming variable is `"1"`,
/// on the override's model.
pub fn maybe_build_synthetic_agent_with_override(
    session_id: &str,
    model_override: &ModelOverride,
    armed_env: Option<&str>,
) -> (r: Option<SyntheticHeavyAgent>)
    ensures
        r is Some <==> opt_text(armed_env) == Some(seq!['1']),
        r matches Some(a) ==> fresh_agent(a, session_id@, built_model(*model_override)),
{
    let armed = synth_turn_armed_with(armed_env);
    maybe_build_synthetic_agent_with_armed(session_id, model_override, armed)
}

/// A synthetic agent for `session_id` when the raw value of the arming variable is `"1"`,
/// on the named model where the name is non-empty.
pub fn maybe_build_synthetic_agent(
    session_id: &str,
    model_override: Option<&str>,
    armed_env: Option<&str>,
) -> (r: Option<SyntheticHeavyAgent>)
    ensures
        r is Some <==> opt_text(armed_env) == Some(seq!['1']),
        r matches Some(a) ==> fresh_agent(a, session_id@, match model_override {
            Some(m) => if m@.len() > 0 {
                m@
            } else {
                default_model()
            },
            None => default_model(),
        }),
{
    let o = ModelOverride::from_str_opt(model_override);
    maybe_build_synthetic_agent_with_override(session_id, &o, armed_env)
}

/// A synthetic agent for `session_id` when the raw value of the arming variable is `"1"`,
/// on the dictionary's `model` entry where that is non-empty.
pub fn maybe_build_synthetic_agent_with_map(
    session_id: &str,
    model_override: Option<&[(String, String)]>,
    armed_env: Option<&str>,
) -> (r: Option<SyntheticHeavyAgent>)
    ensures
        r is Some <==> opt_text(armed_env) == Some(seq!['1']),
        r matches Some(a) ==> fresh_agent(a, session_id@, match model_override {
            Some(m) => match pair_lookup(m@, "model"@, 0) {
                Some(v) => if v@.len() > 0 {
                    v@
                } else {
                    default_model()
                },
                None => default_model(),
            },
            None => default_model(),
        }),
{
    if !synth_turn_armed_with(armed_env) {
        return None;
    }
    let mut model = own_str("synthetic-heavy");
    match model_override {
        Some(m) => {
            let key = to_chars("model");
            match pair_lookup_exec(m, key.as_slice()) {
                Some(i) => {
                    let c = to_chars(m[i].1.as_str());
                    if c.len() > 0 {
                        model = m[i].1.clone();
                    }
                },
                None => {},
            }
        },
        None => {},
    }
    Some(SyntheticHeavyAgent::new(session_id, Some(model)))
}

} // verus!
