use vstd::prelude::*;
use crate::number::{float_syntax, float_syntax_chars, parse_i64_chars, parses_i64};
use crate::text::{
    ascii_lower, ascii_lower_exec,
    chars_eq_str, find, find_class_exec, find_class_from, find_exec, from_chars, push_all,
    push_str, skip_fwd, skip_fwd_exec, slice_vec, starts_with, starts_with_str, to_chars,
    trim, trim_exec, trim_k, trim_k_exec, CharClass, lemma_find_from, lemma_skip_fwd_bounds,
    lemma_find_class_from,
};

verus! {

// ---------------------------------------------------------------------------
// Decimal rendering of integers
// ---------------------------------------------------------------------------

pub open spec fn digit_char(d: int) -> char {
    if 0 <= d <= 9 {
        (('0' as u32) + d) as char
    } else {
        '0'
    }
}

/// Decimal digits of a natural number, most significant first, no leading zeros.
pub open spec fn nat_decimal(n: nat) -> Seq<char>
    decreases n,
{
    if n < 10 {
        seq![digit_char(n as int)]
    } else {
        nat_decimal(n / 10) + seq![digit_char((n % 10) as int)]
    }
}

/// `format!("{}", n)` of an integer.
pub open spec fn int_decimal(n: int) -> Seq<char> {
    if n < 0 {
        seq!['-'] + nat_decimal((-n) as nat)
    } else {
        nat_decimal(n as nat)
    }
}

fn digit_char_exec(d: u64) -> (c: char)
    requires
        d <= 9,
    ensures
        c == digit_char(d as int),
{
    let b: u8 = 48u8 + (d as u8);
    b as char
}

pub fn nat_decimal_exec(n: u64) -> (r: Vec<char>)
    ensures
        r@ == nat_decimal(n as nat),
    decreases n,
{
    if n < 10 {
        let mut v: Vec<char> = Vec::new();
        v.push(digit_char_exec(n));
        proof {
            assert(v@ =~= nat_decimal(n as nat));
        }
        v
    } else {
        let mut v = nat_decimal_exec(n / 10);
        v.push(digit_char_exec(n % 10));
        proof {
            assert(v@ =~= nat_decimal(n as nat));
        }
        v
    }
}

pub fn int_decimal_exec(n: i64) -> (r: Vec<char>)
    ensures
        r@ == int_decimal(n as int),
{
    if n < 0 {
        let m: u64 = if n == i64::MIN {
            9223372036854775808u64
        } else {
            (-n) as u64
        };
        let d = nat_decimal_exec(m);
        let mut v: Vec<char> = Vec::new();
        v.push('-');
        push_all(&mut v, d.as_slice());
        proof {
            assert(v@ =~= int_decimal(n as int));
        }
        v
    } else {
        nat_decimal_exec(n as u64)
    }
}

// ---------------------------------------------------------------------------
// JSON string escaping
// ---------------------------------------------------------------------------

pub open spec fn hex_lower(d: int) -> char {
    if 0 <= d <= 9 {
        digit_char(d)
    } else if 10 <= d <= 15 {
        (('a' as u32) + (d - 10)) as char
    } else {
        '0'
    }
}

/// How one character is written inside a JSON string literal.
pub open spec fn escape_char(c: char) -> Seq<char> {
    if c == '"' {
        seq!['\\', '"']
    } else if c == '\\' {
        seq!['\\', '\\']
    } else if c == '\n' {
        seq!['\\', 'n']
    } else if c == '\r' {
        seq!['\\', 'r']
    } else if c == '\t' {
        seq!['\\', 't']
    } else if (c as u32) < 0x20 {
        seq!['\\', 'u', '0', '0', hex_lower(((c as u32) / 16) as int), hex_lower(((c as u32) % 16) as int)]
    } else {
        seq![c]
    }
}

/// The body of a JSON string literal holding `s`.
pub open spec fn json_escape(s: Seq<char>) -> Seq<char>
    decreases s.len(),
{
    if s.len() == 0 {
        Seq::empty()
    } else {
        json_escape(s.drop_last()) + escape_char(s.last())
    }
}

pub(crate) fn hex_lower_exec(d: u32) -> (c: char)
    requires
        d <= 15,
    ensures
        c == hex_lower(d as int),
{
    if d <= 9 {
        let b: u8 = 48u8 + (d as u8);
        b as char
    } else {
        let b: u8 = 87u8 + (d as u8);
        b as char
    }
}

pub fn push_escaped_char(out: &mut Vec<char>, c: char)
    ensures
        final(out)@ == old(out)@ + escape_char(c),
{
    let ghost start = out@;
    if c == '"' {
        out.push('\\');
        out.push('"');
    } else if c == '\\' {
        out.push('\\');
        out.push('\\');
    } else if c == '\n' {
        out.push('\\');
        out.push('n');
    } else if c == '\r' {
        out.push('\\');
        out.push('r');
    } else if c == '\t' {
        out.push('\\');
        out.push('t');
    } else if (c as u32) < 0x20 {
        let u = c as u32;
        out.push('\\');
        out.push('u');
        out.push('0');
        out.push('0');
        out.push(hex_lower_exec(u / 16));
        out.push(hex_lower_exec(u % 16));
    } else {
        out.push(c);
    }
    assert(out@ =~= start + escape_char(c));
}

pub fn json_escape_exec(s: &[char]) -> (r: Vec<char>)
    ensures
        r@ == json_escape(s@),
{
    let mut out: Vec<char> = Vec::new();
    let mut i: usize = 0;
    while i < s.len()
        invariant
            i <= s@.len(),
            out@ == json_escape(s@.subrange(0, i as int)),
        decreases s@.len() - i,
    {
        proof {
            let t = s@.subrange(0, i + 1);
            assert(t.drop_last() =~= s@.subrange(0, i as int));
            assert(t.last() == s@[i as int]);
        }
        push_escaped_char(&mut out, s[i]);
        i = i + 1;
    }
    assert(s@.subrange(0, s@.len() as int) =~= s@);
    out
}

// ---------------------------------------------------------------------------
// JSON-RPC envelopes
// ---------------------------------------------------------------------------

/// `{"jsonrpc":"2.0","id":<rid>,"result":<result>}`.
pub open spec fn ok_envelope(rid_json: Seq<char>, result_json: Seq<char>) -> Seq<char> {
    "{\"jsonrpc\":\"2.0\",\"id\":"@ + rid_json + ",\"result\":"@ + result_json + "}"@
}

/// `{"jsonrpc":"2.0","id":<rid>,"error":{"code":<code>,"message":"<escaped msg>"}}`.
pub open spec fn err_envelope(rid_json: Seq<char>, code: int, msg: Seq<char>) -> Seq<char> {
    "{\"jsonrpc\":\"2.0\",\"id\":"@ + rid_json + ",\"error\":{\"code\":"@ + int_decimal(code)
        + ",\"message\":\""@ + json_escape(msg) + "\"}}"@
}

/// Builds a success envelope around an already-serialized result.
pub fn ok_response(rid_json: &str, result_json: &str) -> (r: String)
    ensures
        r@ == ok_envelope(rid_json@, result_json@),
{
    let mut out: Vec<char> = Vec::new();
    push_str(&mut out, "{\"jsonrpc\":\"2.0\",\"id\":");
    push_str(&mut out, rid_json);
    push_str(&mut out, ",\"result\":");
    push_str(&mut out, result_json);
    push_str(&mut out, "}");
    from_chars(out.as_slice())
}

pub fn ok_response_chars(rid_json: &str, result_json: &[char]) -> (r: String)
    ensures
        r@ == ok_envelope(rid_json@, result_json@),
{
    let mut out: Vec<char> = Vec::new();
    push_str(&mut out, "{\"jsonrpc\":\"2.0\",\"id\":");
    push_str(&mut out, rid_json);
    push_str(&mut out, ",\"result\":");
    push_all(&mut out, result_json);
    push_str(&mut out, "}");
    from_chars(out.as_slice())
}

/// Builds an error envelope; the message is escaped as a JSON string.
pub fn err_response(rid_json: &str, code: i32, msg: &str) -> (r: String)
    ensures
        r@ == err_envelope(rid_json@, code as int, msg@),
{
    let m = to_chars(msg);
    err_response_chars(rid_json, code, m.as_slice())
}

pub fn err_response_chars(rid_json: &str, code: i32, msg: &[char]) -> (r: String)
    ensures
        r@ == err_envelope(rid_json@, code as int, msg@),
{
    let mut out: Vec<char> = Vec::new();
    push_str(&mut out, "{\"jsonrpc\":\"2.0\",\"id\":");
    push_str(&mut out, rid_json);
    push_str(&mut out, ",\"error\":{\"code\":");
    let d = int_decimal_exec(code as i64);
    push_all(&mut out, d.as_slice());
    push_str(&mut out, ",\"message\":\"");
    let e = json_escape_exec(msg);
    push_all(&mut out, e.as_slice());
    push_str(&mut out, "\"}}");
    from_chars(out.as_slice())
}


// ---------------------------------------------------------------------------
// Field lookup in a flat JSON object text
// ---------------------------------------------------------------------------

/// `"<field>"`.
pub open spec fn quoted_key(field: Seq<char>) -> Seq<char> {
    seq!['"'] + field + seq!['"']
}

/// Where the value of `field` starts: after the first `:` that follows the first
/// occurrence of the quoted key, with leading white space skipped.
pub open spec fn value_start(json: Seq<char>, field: Seq<char>) -> Option<int> {
    match find(json, quoted_key(field)) {
        None => None,
        Some(pos) => match find_class_from(json, pos + field.len() + 2, CharClass::Exactly(':')) {
            None => None,
            Some(c) => Some(skip_fwd(json, c + 1, CharClass::Space)),
        },
    }
}

/// The text from where the value of `field` starts to the end of `json`.
pub open spec fn value_text(json: Seq<char>, field: Seq<char>) -> Option<Seq<char>> {
    match value_start(json, field) {
        None => None,
        Some(v) => Some(json.subrange(v, json.len() as int)),
    }
}

pub fn value_text_exec(json: &[char], field: &[char]) -> (r: Option<Vec<char>>)
    ensures
        r matches Some(v) ==> value_text(json@, field@) == Some(v@),
        r is None ==> value_text(json@, field@) is None,
{
    let mut key: Vec<char> = Vec::new();
    key.push('"');
    push_all(&mut key, field);
    key.push('"');
    assert(key@ =~= quoted_key(field@));
    match find_exec(json, key.as_slice()) {
        None => None,
        Some(pos) => {
            let n = json.len();
            assert(pos + key@.len() <= n);
            let a = pos + key.len();
            match find_class_exec(json, a, CharClass::Exactly(':')) {
                None => None,
                Some(c) => {
                    proof {
                        lemma_find_class_from(json@, a as int, CharClass::Exactly(':'));
                    }
                    assert(c < n);
                    let v = skip_fwd_exec(json, c + 1, CharClass::Space);
                    Some(slice_vec(json, v, json.len()))
                },
            }
        },
    }
}

/// How an escaped character after a backslash reads back.
pub open spec fn unescape_char(e: char) -> char {
    if e == 'n' {
        '\n'
    } else if e == 'r' {
        '\r'
    } else if e == 't' {
        '\t'
    } else {
        e
    }
}

/// Reads a double-quoted string body from `val[i..]` up to the first unescaped `"`,
/// resolving backslash escapes; `\u` skips the next three characters and reads as `?`.
/// `None` when the closing quote is missing.
pub open spec fn unescape_from(val: Seq<char>, i: int, out: Seq<char>) -> Option<Seq<char>>
    decreases val.len() - i,
{
    if i < 0 || i >= val.len() {
        None
    } else if val[i] == '\\' {
        if i + 1 >= val.len() {
            None
        } else if val[i + 1] == 'u' {
            let next = if i + 5 <= val.len() { i + 5 } else { val.len() as int };
            unescape_from(val, next, out.push('?'))
        } else {
            unescape_from(val, i + 2, out.push(unescape_char(val[i + 1])))
        }
    } else if val[i] == '"' {
        Some(out)
    } else {
        unescape_from(val, i + 1, out.push(val[i]))
    }
}

/// The string value at the start of a value text (see `extract_string_field`).
pub open spec fn string_value(val: Seq<char>) -> Option<Seq<char>> {
    if starts_with(val, "null"@) {
        None
    } else if val.len() > 0 && val[0] == '\'' {
        match find_class_from(val, 1, CharClass::Exactly('\'')) {
            Some(e) => Some(val.subrange(1, e)),
            None => None,
        }
    } else if !(val.len() > 0 && val[0] == '"') {
        let end = match find_class_from(val, 0, CharClass::EitherOf(',', '}')) {
            Some(e) => e,
            None => val.len() as int,
        };
        let raw = trim_k(
            trim_k(trim(val.subrange(0, end)), CharClass::Exactly('"')),
            CharClass::Exactly('\''),
        );
        if raw.len() == 0 || raw == "null"@ {
            None
        } else {
            Some(raw)
        }
    } else {
        unescape_from(val, 1, Seq::empty())
    }
}

/// A character the reader of string values gives back as written: no control character but
/// the newline, carriage return and tab (each other one reads back as `?`).
pub open spec fn reads_back(c: char) -> bool {
    (c as u32) >= 0x20 || c == '\n' || c == '\r' || c == '\t'
}

proof fn lemma_unescape_step(x: Seq<char>, j: int, o: Seq<char>, c: char)
    requires
        reads_back(c),
        0 <= j,
        j + escape_char(c).len() <= x.len(),
        x.subrange(j, j + escape_char(c).len() as int) == escape_char(c),
    ensures
        unescape_from(x, j, o) == unescape_from(x, j + escape_char(c).len() as int, o.push(c)),
{
    let e = escape_char(c);
    assert(x[j] == e[0]);
    if e.len() == 2 {
        assert(x[j + 1] == e[1]);
    }
}

proof fn lemma_unescape_escaped_from(p: Seq<char>, s: Seq<char>, q: Seq<char>, o: Seq<char>)
    requires
        forall|i: int| 0 <= i < s.len() ==> reads_back(#[trigger] s[i]),
    ensures
        unescape_from(p + json_escape(s) + q, p.len() as int, o) == unescape_from(
            p + json_escape(s) + q,
            (p.len() + json_escape(s).len()) as int,
            o + s,
        ),
    decreases s.len(),
{
    if s.len() == 0 {
        assert(o + s =~= o);
    } else {
        let w = s.drop_last();
        let c = s.last();
        let q2 = escape_char(c) + q;
        let x = p + json_escape(s) + q;
        assert(x =~= p + json_escape(w) + q2);
        assert forall|i: int| 0 <= i < w.len() implies reads_back(#[trigger] w[i]) by {
            assert(w[i] == s[i]);
        }
        lemma_unescape_escaped_from(p, w, q2, o);
        let j = (p.len() + json_escape(w).len()) as int;
        assert(x.subrange(j, j + escape_char(c).len() as int) =~= escape_char(c));
        assert(reads_back(s[s.len() - 1]));
        lemma_unescape_step(x, j, o + w, c);
        assert((o + w).push(c) =~= o + s);
    }
}

/// Reading a string value gives back what was written: a text without other control
/// characters than newline, carriage return and tab, escaped and double-quoted, reads as
/// itself, whatever follows the closing quote.
pub proof fn lemma_string_value_roundtrip(s: Seq<char>, rest: Seq<char>)
    requires
        forall|i: int| 0 <= i < s.len() ==> reads_back(#[trigger] s[i]),
    ensures
        string_value(seq!['"'] + json_escape(s) + seq!['"'] + rest) == Some(s),
{
    let val = seq!['"'] + json_escape(s) + seq!['"'] + rest;
    let q = seq!['"'] + rest;
    assert(val =~= seq!['"'] + json_escape(s) + q);
    lemma_unescape_escaped_from(seq!['"'], s, q, Seq::empty());
    assert(Seq::<char>::empty() + s =~= s);
    let k = (1 + json_escape(s).len()) as int;
    assert(val[k] == '"');
    assert(val[0] == '"');
    assert(!starts_with(val, "null"@)) by {
        reveal_strlit("null");
        if starts_with(val, "null"@) {
            assert(val[0] == "null"@[0]);
        }
    }
}

/// The string value of `field` in a flat JSON object text.
pub open spec fn string_field(json: Seq<char>, field: Seq<char>) -> Option<Seq<char>> {
    match value_text(json, field) {
        None => None,
        Some(val) => string_value(val),
    }
}

fn unescape_exec(val: &[char]) -> (r: Option<Vec<char>>)
    ensures
        r matches Some(v) ==> unescape_from(val@, 1, Seq::empty()) == Some(v@),
        r is None ==> unescape_from(val@, 1, Seq::empty()) is None,
{
    let mut out: Vec<char> = Vec::new();
    let mut i: usize = 1;
    let n = val.len();
    while i < n
        invariant
            1 <= i,
            n == val@.len(),
            unescape_from(val@, i as int, out@) == unescape_from(val@, 1, Seq::empty()),
        decreases val@.len() - i,
    {
        let c = val[i];
        if c == '\\' {
            if i + 1 >= n {
                return None;
            }
            let e = val[i + 1];
            if e == 'u' {
                out.push('?');
                if n - i >= 5 {
                    i = i + 5;
                } else {
                    i = n;
                }
            } else {
                let u = if e == 'n' {
                    '\n'
                } else if e == 'r' {
                    '\r'
                } else if e == 't' {
                    '\t'
                } else {
                    e
                };
                out.push(u);
                i = i + 2;
            }
        } else if c == '"' {
            return Some(out);
        } else {
            out.push(c);
            i = i + 1;
        }
    }
    None
}

pub fn string_value_exec(val: &[char]) -> (r: Option<Vec<char>>)
    ensures
        r matches Some(v) ==> string_value(val@) == Some(v@),
        r is None ==> string_value(val@) is None,
{
    if starts_with_str(val, "null") {
        return None;
    }
    if val.len() > 0 && val[0] == '\'' {
        return match find_class_exec(val, 1, CharClass::Exactly('\'')) {
            Some(e) => Some(slice_vec(val, 1, e)),
            None => None,
        };
    }
    if !(val.len() > 0 && val[0] == '"') {
        let end = match find_class_exec(val, 0, CharClass::EitherOf(',', '}')) {
            Some(e) => e,
            None => val.len(),
        };
        let head = slice_vec(val, 0, end);
        let t1 = trim_exec(head.as_slice());
        let t2 = trim_k_exec(t1.as_slice(), CharClass::Exactly('"'));
        let raw = trim_k_exec(t2.as_slice(), CharClass::Exactly('\''));
        if raw.len() == 0 || chars_eq_str(raw.as_slice(), "null") {
            return None;
        }
        return Some(raw);
    }
    unescape_exec(val)
}

pub fn string_field_exec(json: &[char], field: &[char]) -> (r: Option<Vec<char>>)
    ensures
        r matches Some(v) ==> string_field(json@, field@) == Some(v@),
        r is None ==> string_field(json@, field@) is None,
{
    match value_text_exec(json, field) {
        None => None,
        Some(val) => string_value_exec(val.as_slice()),
    }
}

/// The string value of `field` in a flat JSON object text: a double-quoted value is
/// unescaped, a single-quoted one is taken verbatim, a bare token is trimmed of white
/// space and quotes; `null`, an empty bare token and a missing key or colon give `None`.
pub fn extract_string_field(json: &str, field: &str) -> (r: Option<String>)
    ensures
        r matches Some(v) ==> string_field(json@, field@) == Some(v@),
        r is None ==> string_field(json@, field@) is None,
{
    let j = to_chars(json);
    let f = to_chars(field);
    match string_field_exec(j.as_slice(), f.as_slice()) {
        None => None,
        Some(v) => Some(from_chars(v.as_slice())),
    }
}

/// The string value of `field`, or the empty string.
pub fn extract_string_or_empty(json: &str, field: &str) -> (r: String)
    ensures
        r@ == (match string_field(json@, field@) {
            Some(v) => v,
            None => Seq::empty(),
        }),
{
    match extract_string_field(json, field) {
        Some(v) => v,
        None => from_chars(&[]),
    }
}


/// Scans a bracketed value from index `i` with the given nesting depth and string state;
/// the index of the bracket that closes the outermost one, if any.
pub open spec fn bracket_close(
    rest: Seq<char>,
    i: int,
    open: char,
    close: char,
    depth: nat,
    in_str: bool,
    esc: bool,
) -> Option<int>
    decreases rest.len() - i,
{
    if i < 0 || i >= rest.len() {
        None
    } else {
        let ch = rest[i];
        if esc {
            bracket_close(rest, i + 1, open, close, depth, in_str, false)
        } else if ch == '\\' && in_str {
            bracket_close(rest, i + 1, open, close, depth, in_str, true)
        } else if ch == '"' {
            bracket_close(rest, i + 1, open, close, depth, !in_str, false)
        } else if in_str {
            bracket_close(rest, i + 1, open, close, depth, in_str, false)
        } else if ch == open {
            bracket_close(rest, i + 1, open, close, depth + 1, in_str, false)
        } else if ch == close && depth > 0 {
            if depth == 1 {
                Some(i)
            } else {
                bracket_close(rest, i + 1, open, close, (depth - 1) as nat, in_str, false)
            }
        } else {
            bracket_close(rest, i + 1, open, close, depth, in_str, false)
        }
    }
}

/// The index of the first unescaped `q` at or after `i`, if any.
pub open spec fn quote_close(rest: Seq<char>, i: int, q: char, esc: bool) -> Option<int>
    decreases rest.len() - i,
{
    if i < 0 || i >= rest.len() {
        None
    } else if esc {
        quote_close(rest, i + 1, q, false)
    } else if rest[i] == '\\' {
        quote_close(rest, i + 1, q, true)
    } else if rest[i] == q {
        Some(i)
    } else {
        quote_close(rest, i + 1, q, false)
    }
}

/// The raw JSON text of a value at the start of a value text: a balanced `[...]` or
/// `{...}`, a quoted string with its quotes, or a bare token up to `,` or `}`, trimmed.
pub open spec fn raw_value(rest: Seq<char>) -> Option<Seq<char>> {
    if rest.len() == 0 {
        None
    } else if rest[0] == '[' || rest[0] == '{' {
        let close = if rest[0] == '[' { ']' } else { '}' };
        match bracket_close(rest, 0, rest[0], close, 0, false, false) {
            Some(e) => Some(rest.subrange(0, e + 1)),
            None => None,
        }
    } else if rest[0] == '"' || rest[0] == '\'' {
        match quote_close(rest, 1, rest[0], false) {
            Some(e) => Some(rest.subrange(0, e + 1)),
            None => None,
        }
    } else {
        let end = match find_class_from(rest, 0, CharClass::EitherOf(',', '}')) {
            Some(e) => e,
            None => rest.len() as int,
        };
        Some(trim(rest.subrange(0, end)))
    }
}

/// The raw JSON text of the value of `field`.
pub open spec fn raw_field(json: Seq<char>, field: Seq<char>) -> Option<Seq<char>> {
    match value_text(json, field) {
        None => None,
        Some(rest) => raw_value(rest),
    }
}

fn bracket_close_exec(rest: &[char], open: char, close: char) -> (r: Option<usize>)
    ensures
        r matches Some(e) ==> bracket_close(rest@, 0, open, close, 0, false, false) == Some(
            e as int,
        ) && e < rest@.len(),
        r is None ==> bracket_close(rest@, 0, open, close, 0, false, false) is None,
{
    let n = rest.len();
    let mut i: usize = 0;
    let mut depth: usize = 0;
    let mut in_str = false;
    let mut esc = false;
    while i < n
        invariant
            n == rest@.len(),
            i <= n,
            depth <= i,
            bracket_close(rest@, i as int, open, close, depth as nat, in_str, esc)
                == bracket_close(rest@, 0, open, close, 0, false, false),
        decreases n - i,
    {
        let ch = rest[i];
        if esc {
            esc = false;
        } else if ch == '\\' && in_str {
            esc = true;
        } else if ch == '"' {
            in_str = !in_str;
        } else if in_str {
        } else if ch == open {
            depth = depth + 1;
        } else if ch == close && depth > 0 {
            if depth == 1 {
                return Some(i);
            }
            depth = depth - 1;
        }
        i = i + 1;
    }
    None
}

pub(crate) fn quote_close_exec(rest: &[char], q: char) -> (r: Option<usize>)
    ensures
        r matches Some(e) ==> quote_close(rest@, 1, q, false) == Some(e as int) && e
            < rest@.len(),
        r is None ==> quote_close(rest@, 1, q, false) is None,
{
    let n = rest.len();
    let mut i: usize = 1;
    let mut esc = false;
    while i < n
        invariant
            n == rest@.len(),
            1 <= i,
            quote_close(rest@, i as int, q, esc) == quote_close(rest@, 1, q, false),
        decreases n - i,
    {
        if esc {
            esc = false;
        } else if rest[i] == '\\' {
            esc = true;
        } else if rest[i] == q {
            return Some(i);
        }
        i = i + 1;
    }
    None
}

pub fn raw_value_exec(rest: &[char]) -> (r: Option<Vec<char>>)
    ensures
        r matches Some(v) ==> raw_value(rest@) == Some(v@),
        r is None ==> raw_value(rest@) is None,
{
    if rest.len() == 0 {
        return None;
    }
    let first = rest[0];
    if first == '[' || first == '{' {
        let close = if first == '[' {
            ']'
        } else {
            '}'
        };
        match bracket_close_exec(rest, first, close) {
            Some(e) => Some(slice_vec(rest, 0, e + 1)),
            None => None,
        }
    } else if first == '"' || first == '\'' {
        match quote_close_exec(rest, first) {
            Some(e) => Some(slice_vec(rest, 0, e + 1)),
            None => None,
        }
    } else {
        let end = match find_class_exec(rest, 0, CharClass::EitherOf(',', '}')) {
            Some(e) => e,
            None => rest.len(),
        };
        let head = slice_vec(rest, 0, end);
        Some(trim_exec(head.as_slice()))
    }
}

pub fn raw_field_exec(json: &[char], field: &[char]) -> (r: Option<Vec<char>>)
    ensures
        r matches Some(v) ==> raw_field(json@, field@) == Some(v@),
        r is None ==> raw_field(json@, field@) is None,
{
    match value_text_exec(json, field) {
        None => None,
        Some(rest) => raw_value_exec(rest.as_slice()),
    }
}

/// The raw JSON text of the value of `field` in a flat JSON object text.
pub fn extract_raw_value(json: &str, field: &str) -> (r: Option<String>)
    ensures
        r matches Some(v) ==> raw_field(json@, field@) == Some(v@),
        r is None ==> raw_field(json@, field@) is None,
{
    let j = to_chars(json);
    let f = to_chars(field);
    match raw_field_exec(j.as_slice(), f.as_slice()) {
        None => None,
        Some(v) => Some(from_chars(v.as_slice())),
    }
}

/// `Some(true)` / `Some(false)` when the raw value of `field` is the literal `true` / `false`.
pub open spec fn bool_field(json: Seq<char>, field: Seq<char>) -> Option<bool> {
    match raw_field(json, field) {
        None => None,
        Some(raw) => if trim(raw) == "true"@ {
            Some(true)
        } else if trim(raw) == "false"@ {
            Some(false)
        } else {
            None
        },
    }
}

/// The boolean value of `field`, when its raw value is `true` or `false`.
pub fn extract_bool_field(json: &str, field: &str) -> (r: Option<bool>)
    ensures
        r == bool_field(json@, field@),
{
    let j = to_chars(json);
    let f = to_chars(field);
    match raw_field_exec(j.as_slice(), f.as_slice()) {
        None => None,
        Some(raw) => {
            let t = trim_exec(raw.as_slice());
            if chars_eq_str(t.as_slice(), "true") {
                Some(true)
            } else if chars_eq_str(t.as_slice(), "false") {
                Some(false)
            } else {
                None
            }
        },
    }
}


// ---------------------------------------------------------------------------
// Replies from a handler's backend outcome
// ---------------------------------------------------------------------------

/// The reply for a backend outcome that carries its own error code: the trimmed
/// result as a success, or the code and message as an error.
pub open spec fn coded_reply(rid_json: Seq<char>, res: Result<String, (i32, String)>) -> Seq<
    char,
> {
    match res {
        Ok(j) => ok_envelope(rid_json, trim(j@)),
        Err((code, msg)) => err_envelope(rid_json, code as int, msg@),
    }
}

/// The reply for a backend outcome whose errors all map to one code.
pub open spec fn fixed_reply(rid_json: Seq<char>, code: int, res: Result<String, String>) -> Seq<
    char,
> {
    match res {
        Ok(j) => ok_envelope(rid_json, trim(j@)),
        Err(msg) => err_envelope(rid_json, code, msg@),
    }
}

/// Turns a backend outcome with its own error code into the JSON-RPC reply.
pub fn reply_coded(rid_json: &str, res: Result<String, (i32, String)>) -> (r: String)
    ensures
        r@ == coded_reply(rid_json@, res),
{
    match res {
        Ok(j) => {
            let jc = to_chars(j.as_str());
            let t = trim_exec(jc.as_slice());
            ok_response_chars(rid_json, t.as_slice())
        },
        Err((code, msg)) => err_response(rid_json, code, msg.as_str()),
    }
}

/// Turns a backend outcome into the JSON-RPC reply, errors under `code`.
pub fn reply_fixed(rid_json: &str, code: i32, res: Result<String, String>) -> (r: String)
    ensures
        r@ == fixed_reply(rid_json@, code as int, res),
{
    match res {
        Ok(j) => {
            let jc = to_chars(j.as_str());
            let t = trim_exec(jc.as_slice());
            ok_response_chars(rid_json, t.as_slice())
        },
        Err(msg) => err_response(rid_json, code, msg.as_str()),
    }
}


// ---------------------------------------------------------------------------
// Request ids
// ---------------------------------------------------------------------------

/// `"` + `body` + `"`.
pub open spec fn dq(body: Seq<char>) -> Seq<char> {
    seq!['"'] + body + seq!['"']
}

/// The JSON text of a request id given as text: `null` for blank, literals and numbers
/// kept (except the non-finite spellings `inf`, `nan`, `-inf`, which become strings),
/// a quoted id re-quoted with its body escaped, anything else a JSON string.
pub open spec fn rid_json(rid: Seq<char>) -> Seq<char> {
    let t = trim(rid);
    if t.len() == 0 {
        "null"@
    } else if t == "null"@ || t == "true"@ || t == "false"@ {
        t
    } else if parses_i64(t) || float_syntax(t) {
        if ascii_lower(t) == "inf"@ || ascii_lower(t) == "nan"@ || ascii_lower(t) == "-inf"@ {
            dq(json_escape(t))
        } else {
            t
        }
    } else if t.len() >= 2 && ((t[0] == '"' && t.last() == '"') || (t[0] == '\'' && t.last()
        == '\'')) {
        dq(json_escape(t.subrange(1, t.len() - 1)))
    } else {
        dq(json_escape(t))
    }
}

fn dq_exec(body: &[char]) -> (r: Vec<char>)
    ensures
        r@ == dq(json_escape(body@)),
{
    let mut out: Vec<char> = Vec::new();
    out.push('"');
    let e = json_escape_exec(body);
    push_all(&mut out, e.as_slice());
    out.push('"');
    assert(out@ =~= dq(json_escape(body@)));
    out
}

/// Encodes a request id given as text into JSON text.
pub fn encode_rid(rid: &str) -> (r: String)
    ensures
        r@ == rid_json(rid@),
{
    let v = to_chars(rid);
    let t = trim_exec(v.as_slice());
    let ts = t.as_slice();
    if ts.len() == 0 {
        return from_chars(to_chars("null").as_slice());
    }
    if chars_eq_str(ts, "null") || chars_eq_str(ts, "true") || chars_eq_str(ts, "false") {
        return from_chars(ts);
    }
    let numeric = match parse_i64_chars(ts) {
        Some(_) => true,
        None => float_syntax_chars(ts),
    };
    if numeric {
        let l = ascii_lower_exec(ts);
        if chars_eq_str(l.as_slice(), "inf") || chars_eq_str(l.as_slice(), "nan") || chars_eq_str(
            l.as_slice(),
            "-inf",
        ) {
            return from_chars(dq_exec(ts).as_slice());
        }
        return from_chars(ts);
    }
    let n = ts.len();
    if n >= 2 && ((ts[0] == '"' && ts[n - 1] == '"') || (ts[0] == '\'' && ts[n - 1] == '\'')) {
        let inner = slice_vec(ts, 1, n - 1);
        return from_chars(dq_exec(inner.as_slice()).as_slice());
    }
    from_chars(dq_exec(ts).as_slice())
}

} // verus!
