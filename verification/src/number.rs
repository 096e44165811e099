use vstd::prelude::*;
use crate::text::{
    ascii_lower, ascii_lower_exec, chars_eq_str, find_class_exec, find_class_from,
    lemma_find_class_from, push_all, slice_vec, CharClass,
};

verus! {

// ---------------------------------------------------------------------------
// Digit strings
// ---------------------------------------------------------------------------

pub open spec fn is_digit(c: char) -> bool {
    '0' <= c && c <= '9'
}

pub open spec fn digit_value(c: char) -> nat {
    if is_digit(c) {
        ((c as u32) - 48) as nat
    } else {
        0
    }
}

pub open spec fn all_digits(s: Seq<char>) -> bool {
    forall|i: int| 0 <= i < s.len() ==> is_digit(#[trigger] s[i])
}

/// The value of a decimal digit string (0 for the empty string).
pub open spec fn digits_value(s: Seq<char>) -> nat
    decreases s.len(),
{
    if s.len() == 0 {
        0
    } else {
        digits_value(s.drop_last()) * 10 + digit_value(s.last())
    }
}

pub proof fn lemma_digits_value_grows(s: Seq<char>, a: int, i: int, j: int)
    requires
        0 <= a <= i <= j <= s.len(),
    ensures
        digits_value(s.subrange(a, i)) <= digits_value(s.subrange(a, j)),
    decreases j - i,
{
    if i < j {
        lemma_digits_value_grows(s, a, i, j - 1);
        assert(s.subrange(a, j).drop_last() =~= s.subrange(a, j - 1));
    }
}

pub fn all_digits_exec(s: &[char], a: usize, b: usize) -> (r: bool)
    requires
        a <= b <= s@.len(),
    ensures
        r == all_digits(s@.subrange(a as int, b as int)),
{
    let mut i = a;
    while i < b
        invariant
            a <= i <= b <= s@.len(),
            forall|m: int| a <= m < i ==> is_digit(#[trigger] s@[m]),
        decreases b - i,
    {
        if !(s[i] >= '0' && s[i] <= '9') {
            assert(!is_digit(s@.subrange(a as int, b as int)[i - a]));
            return false;
        }
        i = i + 1;
    }
    assert forall|m: int| 0 <= m < b - a implies is_digit(
        #[trigger] s@.subrange(a as int, b as int)[m],
    ) by {
        assert(s@.subrange(a as int, b as int)[m] == s@[a + m]);
    }
    true
}

fn digit_value_exec(c: char) -> (r: u128)
    requires
        is_digit(c),
    ensures
        r == digit_value(c),
{
    ((c as u32) - 48) as u128
}

/// The value of the digit string `s[a..b]`, saturated at `cap + 1`.
pub fn digits_value_capped(s: &[char], a: usize, b: usize, cap: u128) -> (r: u128)
    requires
        a <= b <= s@.len(),
        all_digits(s@.subrange(a as int, b as int)),
        cap < 0x1_0000_0000_0000_0000_0000_0000,
    ensures
        digits_value(s@.subrange(a as int, b as int)) <= cap ==> r == digits_value(
            s@.subrange(a as int, b as int),
        ),
        digits_value(s@.subrange(a as int, b as int)) > cap ==> r == cap + 1,
{
    let mut acc: u128 = 0;
    let mut i = a;
    while i < b
        invariant
            a <= i <= b <= s@.len(),
            all_digits(s@.subrange(a as int, b as int)),
            cap < 0x1_0000_0000_0000_0000_0000_0000,
            digits_value(s@.subrange(a as int, i as int)) <= cap ==> acc == digits_value(
                s@.subrange(a as int, i as int),
            ),
            digits_value(s@.subrange(a as int, i as int)) > cap ==> acc == cap + 1,
        decreases b - i,
    {
        let ghost prev = s@.subrange(a as int, i as int);
        let ghost next = s@.subrange(a as int, i + 1);
        proof {
            assert(next.drop_last() =~= prev);
            assert(next.last() == s@[i as int]);
            assert(s@.subrange(a as int, b as int)[i - a] == s@[i as int]);
            lemma_digits_value_grows(s@, a as int, i as int, i + 1);
        }
        if acc <= cap {
            let d = digit_value_exec(s[i]);
            let v = acc * 10 + d;
            if v > cap {
                acc = cap + 1;
            } else {
                acc = v;
            }
        }
        i = i + 1;
    }
    acc
}

// ---------------------------------------------------------------------------
// Integer syntax (`str::parse::<i64>` / `::<u32>`)
// ---------------------------------------------------------------------------

/// `s` without one leading `+` or `-`.
pub open spec fn strip_sign(s: Seq<char>) -> Seq<char> {
    if s.len() > 0 && (s[0] == '+' || s[0] == '-') {
        s.drop_first()
    } else {
        s
    }
}

pub open spec fn is_negative(s: Seq<char>) -> bool {
    s.len() > 0 && s[0] == '-'
}

/// An optional sign followed by at least one decimal digit.
pub open spec fn int_syntax(s: Seq<char>) -> bool {
    strip_sign(s).len() > 0 && all_digits(strip_sign(s))
}

pub open spec fn int_value(s: Seq<char>) -> int {
    if is_negative(s) {
        -(digits_value(strip_sign(s)) as int)
    } else {
        digits_value(strip_sign(s)) as int
    }
}

/// `s.parse::<i64>().is_ok()`.
pub open spec fn parses_i64(s: Seq<char>) -> bool {
    int_syntax(s) && i64::MIN <= int_value(s) <= i64::MAX
}

/// `s.parse::<u32>().is_ok()`.
pub open spec fn parses_u32(s: Seq<char>) -> bool {
    !is_negative(s) && int_syntax(s) && int_value(s) <= u32::MAX
}

fn sign_len(s: &[char]) -> (r: usize)
    ensures
        r <= s@.len(),
        strip_sign(s@) == s@.subrange(r as int, s@.len() as int),
        r == 1 <==> (s@.len() > 0 && (s@[0] == '+' || s@[0] == '-')),
{
    if s.len() > 0 && (s[0] == '+' || s[0] == '-') {
        assert(s@.drop_first() =~= s@.subrange(1, s@.len() as int));
        1
    } else {
        assert(s@ =~= s@.subrange(0, s@.len() as int));
        0
    }
}

/// `s.parse::<i64>()` over characters.
pub fn parse_i64_chars(s: &[char]) -> (r: Option<i64>)
    ensures
        r matches Some(v) ==> parses_i64(s@) && v == int_value(s@),
        r is None ==> !parses_i64(s@),
{
    let start = sign_len(s);
    if start == s.len() {
        return None;
    }
    if !all_digits_exec(s, start, s.len()) {
        return None;
    }
    let mag = digits_value_capped(s, start, s.len(), 0x8000_0000_0000_0000u128);
    let neg = start == 1 && s[0] == '-';
    if neg {
        if mag <= 0x8000_0000_0000_0000u128 {
            let m = mag as i128;
            Some((-m) as i64)
        } else {
            None
        }
    } else {
        if mag <= 0x7fff_ffff_ffff_ffffu128 {
            Some(mag as i64)
        } else {
            None
        }
    }
}

/// `s.parse::<u32>()` over characters.
pub fn parse_u32_chars(s: &[char]) -> (r: Option<u32>)
    ensures
        r matches Some(v) ==> parses_u32(s@) && v == int_value(s@),
        r is None ==> !parses_u32(s@),
{
    let start = sign_len(s);
    if start == s.len() {
        return None;
    }
    if start == 1 && s[0] == '-' {
        return None;
    }
    if !all_digits_exec(s, start, s.len()) {
        return None;
    }
    let mag = digits_value_capped(s, start, s.len(), 0xffff_ffffu128);
    if mag <= 0xffff_ffffu128 {
        Some(mag as u32)
    } else {
        None
    }
}


// ---------------------------------------------------------------------------
// Float syntax (`str::parse::<f64>`)
// ---------------------------------------------------------------------------

/// `inf`, `infinity` or `nan`, in any letter case.
pub open spec fn special_word(b: Seq<char>) -> bool {
    ascii_lower(b) == "inf"@ || ascii_lower(b) == "infinity"@ || ascii_lower(b) == "nan"@
}

pub open spec fn exp_pos(b: Seq<char>) -> Option<int> {
    find_class_from(b, 0, CharClass::EitherOf('e', 'E'))
}

/// The part before the exponent marker.
pub open spec fn mantissa(b: Seq<char>) -> Seq<char> {
    match exp_pos(b) {
        Some(e) => b.subrange(0, e),
        None => b,
    }
}

/// The part after the exponent marker, if there is one.
pub open spec fn exponent_text(b: Seq<char>) -> Option<Seq<char>> {
    match exp_pos(b) {
        Some(e) => Some(b.subrange(e + 1, b.len() as int)),
        None => None,
    }
}

pub open spec fn int_part(m: Seq<char>) -> Seq<char> {
    match find_class_from(m, 0, CharClass::Exactly('.')) {
        Some(d) => m.subrange(0, d),
        None => m,
    }
}

pub open spec fn frac_part(m: Seq<char>) -> Seq<char> {
    match find_class_from(m, 0, CharClass::Exactly('.')) {
        Some(d) => m.subrange(d + 1, m.len() as int),
        None => Seq::empty(),
    }
}

/// Digits with at most one `.`, and at least one digit.
pub open spec fn mantissa_syntax(m: Seq<char>) -> bool {
    all_digits(int_part(m)) && all_digits(frac_part(m)) && int_part(m).len() + frac_part(
        m,
    ).len() > 0
}

/// A mantissa, then optionally `e`/`E`, an optional sign and at least one digit.
pub open spec fn decimal_syntax(b: Seq<char>) -> bool {
    mantissa_syntax(mantissa(b)) && match exponent_text(b) {
        Some(x) => int_syntax(x),
        None => true,
    }
}

/// `s.parse::<f64>().is_ok()`: an optional sign, then a special word or a decimal.
pub open spec fn float_syntax(s: Seq<char>) -> bool {
    special_word(strip_sign(s)) || decimal_syntax(strip_sign(s))
}

/// Significant digits of a decimal: the integer part followed by the fraction part.
pub open spec fn all_mantissa_digits(b: Seq<char>) -> Seq<char> {
    int_part(mantissa(b)) + frac_part(mantissa(b))
}

pub open spec fn exp_value(b: Seq<char>) -> int {
    match exponent_text(b) {
        Some(x) => int_value(x),
        None => 0,
    }
}

/// The decimal digits of the smallest value that rounds up to infinity (2^1024 - 2^970).
pub open spec fn overflow_digits() -> Seq<char> {
    "179769313486231580793728971405303415079934132710037826936173778980444968292764750946649017977587207096330286416692887910946555547851940402630657488671505820681908902000708383676273854845817711531764475730270069855571366959622842914819860834936475292719074168444365510704342711559699508093042880177904174497792"@
}

/// The decimal digits of half the smallest subnormal (2^-1075), whose exponent is -324.
pub open spec fn underflow_digits() -> Seq<char> {
    "24703282292062327208828439643411068618252990130716238221279284125033775363510437593264991818081799618989828234772285886546332835517796989819938739800539093906315035659515570226392290858392449105184435931802849936536152500319370457678249219365623669863658480757001585769269903706311928279558551332927834338409351978015531246597263579574622766465272827220056374006485499977096599470454020828166226237857393450736339007967761930577506740176324673600968951340535537458516661134223766678604162159680461914467291840300530057530849048765391711386591646239524912623653881879636239373280423891018672348497668235089863388587925628302755995657524455507255189313690836254779186948667994968324049705821028513185451396213837722826145437693412532098591327667236328125"@
}

/// `a < b` for digit strings read as `d.ddd...`, missing digits counting as `0`.
pub open spec fn digits_lt_from(a: Seq<char>, b: Seq<char>, i: int) -> bool
    decreases a.len() + b.len() - i,
{
    if i < 0 || (i >= a.len() && i >= b.len()) {
        false
    } else {
        let x = if i < a.len() { a[i] } else { '0' };
        let y = if i < b.len() { b[i] } else { '0' };
        if x < y {
            true
        } else if x > y {
            false
        } else {
            digits_lt_from(a, b, i + 1)
        }
    }
}

pub open spec fn digits_lt(a: Seq<char>, b: Seq<char>) -> bool {
    digits_lt_from(a, b, 0)
}

/// Whether a nonzero decimal whose leading significant digit has weight `10^e` and whose
/// significant digits are `sig` rounds to a finite nonzero `f64`.
pub open spec fn nonzero_finite_at(e: int, sig: Seq<char>) -> bool {
    if e >= 309 {
        false
    } else if e <= -325 {
        false
    } else if e == 308 {
        digits_lt(sig, overflow_digits())
    } else if e == -324 {
        digits_lt(underflow_digits(), sig)
    } else {
        true
    }
}

/// `s.parse::<f64>()` gives a value `v` with `v != 0.0 && v.is_finite()`.
pub open spec fn float_nonzero_finite(s: Seq<char>) -> bool {
    let b = strip_sign(s);
    let d = all_mantissa_digits(b);
    &&& !special_word(b)
    &&& decimal_syntax(b)
    &&& match find_class_from(d, 0, CharClass::NotChar('0')) {
        None => false,
        Some(k) => nonzero_finite_at(
            int_part(mantissa(b)).len() - 1 - k + exp_value(b),
            d.subrange(k, d.len() as int),
        ),
    }
}

struct DecimalParts {
    mant: Vec<char>,
    int_p: Vec<char>,
    frac_p: Vec<char>,
    exp_t: Option<Vec<char>>,
}

fn decimal_parts(b: &[char]) -> (r: DecimalParts)
    ensures
        r.mant@ == mantissa(b@),
        r.int_p@ == int_part(mantissa(b@)),
        r.frac_p@ == frac_part(mantissa(b@)),
        r.exp_t matches Some(x) ==> exponent_text(b@) == Some(x@),
        r.exp_t is None ==> exponent_text(b@) is None,
{
    let (mant, exp_t) = match find_class_exec(b, 0, CharClass::EitherOf('e', 'E')) {
        Some(e) => {
            let n = b.len();
            assert(e < n);
            (slice_vec(b, 0, e), Some(slice_vec(b, e + 1, n)))
        },
        None => (slice_vec(b, 0, b.len()), None),
    };
    assert(b@.subrange(0, b@.len() as int) =~= b@);
    let (int_p, frac_p) = match find_class_exec(mant.as_slice(), 0, CharClass::Exactly('.')) {
        Some(d) => {
            let n = mant.len();
            assert(d < n);
            (slice_vec(mant.as_slice(), 0, d), slice_vec(mant.as_slice(), d + 1, n))
        },
        None => {
            let empty: Vec<char> = Vec::new();
            assert(empty@ =~= Seq::<char>::empty());
            (slice_vec(mant.as_slice(), 0, mant.len()), empty)
        },
    };
    assert(mant@.subrange(0, mant@.len() as int) =~= mant@);
    DecimalParts { mant, int_p, frac_p, exp_t }
}

fn special_word_exec(b: &[char]) -> (r: bool)
    ensures
        r == special_word(b@),
{
    let l = ascii_lower_exec(b);
    chars_eq_str(l.as_slice(), "inf") || chars_eq_str(l.as_slice(), "infinity") || chars_eq_str(
        l.as_slice(),
        "nan",
    )
}

fn int_syntax_exec(x: &[char]) -> (r: bool)
    ensures
        r == int_syntax(x@),
{
    let st = sign_len(x);
    st < x.len() && all_digits_exec(x, st, x.len())
}

fn decimal_syntax_exec(b: &[char], parts: &DecimalParts) -> (r: bool)
    requires
        parts.mant@ == mantissa(b@),
        parts.int_p@ == int_part(mantissa(b@)),
        parts.frac_p@ == frac_part(mantissa(b@)),
        parts.exp_t matches Some(x) ==> exponent_text(b@) == Some(x@),
        parts.exp_t is None ==> exponent_text(b@) is None,
    ensures
        r == decimal_syntax(b@),
{
    let ip = parts.int_p.as_slice();
    let fp = parts.frac_p.as_slice();
    assert(ip@.subrange(0, ip@.len() as int) =~= ip@);
    assert(fp@.subrange(0, fp@.len() as int) =~= fp@);
    let m_ok = all_digits_exec(ip, 0, ip.len()) && all_digits_exec(fp, 0, fp.len()) && (ip.len()
        > 0 || fp.len() > 0);
    if !m_ok {
        return false;
    }
    match &parts.exp_t {
        Some(x) => int_syntax_exec(x.as_slice()),
        None => true,
    }
}

/// `s.parse::<f64>().is_ok()` over characters.
pub fn float_syntax_chars(s: &[char]) -> (r: bool)
    ensures
        r == float_syntax(s@),
{
    let st = sign_len(s);
    let b = slice_vec(s, st, s.len());
    if special_word_exec(b.as_slice()) {
        return true;
    }
    let parts = decimal_parts(b.as_slice());
    decimal_syntax_exec(b.as_slice(), &parts)
}

fn digits_lt_exec(a: &[char], b: &[char]) -> (r: bool)
    ensures
        r == digits_lt(a@, b@),
{
    let n = if a.len() >= b.len() {
        a.len()
    } else {
        b.len()
    };
    let mut i: usize = 0;
    while i < n
        invariant
            i <= n,
            n == a@.len() || n == b@.len(),
            n >= a@.len() && n >= b@.len(),
            digits_lt_from(a@, b@, i as int) == digits_lt(a@, b@),
        decreases n - i,
    {
        let x = if i < a.len() {
            a[i]
        } else {
            '0'
        };
        let y = if i < b.len() {
            b[i]
        } else {
            '0'
        };
        if x < y {
            return true;
        }
        if x > y {
            return false;
        }
        i = i + 1;
    }
    false
}

/// Cap on exponent magnitudes; any larger exponent puts the value out of range anyway.
const EXP_CAP: u128 = 0x4_0000_0000_0000_0000u128;

/// `s.parse::<f64>()` gives a finite nonzero value.
pub fn float_nonzero_finite_chars(s: &[char]) -> (r: bool)
    ensures
        r == float_nonzero_finite(s@),
{
    let st = sign_len(s);
    let b = slice_vec(s, st, s.len());
    if special_word_exec(b.as_slice()) {
        return false;
    }
    let parts = decimal_parts(b.as_slice());
    if !decimal_syntax_exec(b.as_slice(), &parts) {
        return false;
    }
    let mut d: Vec<char> = Vec::new();
    push_all(&mut d, parts.int_p.as_slice());
    push_all(&mut d, parts.frac_p.as_slice());
    assert(d@ =~= all_mantissa_digits(b@));
    let k = match find_class_exec(d.as_slice(), 0, CharClass::NotChar('0')) {
        None => {
            return false;
        },
        Some(k) => k,
    };
    let sig = slice_vec(d.as_slice(), k, d.len());
    // exponent magnitude, saturated
    let ghost bv = b@;
    let (neg, mag): (bool, u128) = match &parts.exp_t {
        None => (false, 0u128),
        Some(x) => {
            let xs = x.as_slice();
            let xst = sign_len(xs);
            let m = digits_value_capped(xs, xst, xs.len(), EXP_CAP);
            (xst == 1 && xs[0] == '-', m)
        },
    };
    let l = parts.int_p.len();
    let base: i128 = (l as i128) - 1 - (k as i128);
    let e: i128 = if neg {
        base - (mag as i128)
    } else {
        base + (mag as i128)
    };
    proof {
        let ev = exp_value(bv);
        let te = l - 1 - k + ev;
        if mag > EXP_CAP {
            assert(te >= 309 <==> e >= 309);
            assert(te <= -325 <==> e <= -325);
            assert(te != 308 && e != 308 && te != -324 && e != -324);
        } else {
            assert(te == e);
        }
    }
    if e >= 309 {
        false
    } else if e <= -325 {
        false
    } else if e == 308 {
        let hv = crate::text::to_chars("179769313486231580793728971405303415079934132710037826936173778980444968292764750946649017977587207096330286416692887910946555547851940402630657488671505820681908902000708383676273854845817711531764475730270069855571366959622842914819860834936475292719074168444365510704342711559699508093042880177904174497792");
        digits_lt_exec(sig.as_slice(), hv.as_slice())
    } else if e == -324 {
        let tv = crate::text::to_chars("24703282292062327208828439643411068618252990130716238221279284125033775363510437593264991818081799618989828234772285886546332835517796989819938739800539093906315035659515570226392290858392449105184435931802849936536152500319370457678249219365623669863658480757001585769269903706311928279558551332927834338409351978015531246597263579574622766465272827220056374006485499977096599470454020828166226237857393450736339007967761930577506740176324673600968951340535537458516661134223766678604162159680461914467291840300530057530849048765391711386591646239524912623653881879636239373280423891018672348497668235089863388587925628302755995657524455507255189313690836254779186948667994968324049705821028513185451396213837722826145437693412532098591327667236328125");
        digits_lt_exec(tv.as_slice(), sig.as_slice())
    } else {
        true
    }
}

} // verus!
