use vstd::prelude::*;

verus! {

// ---------------------------------------------------------------------------
// Character classes
// ---------------------------------------------------------------------------

/// Unicode `White_Space`, the set `char::is_whitespace` and `str::trim` use.
pub open spec fn is_ws(c: char) -> bool {
    ||| ('\u{9}' <= c && c <= '\u{d}')
    ||| c == ' '
    ||| c == '\u{85}'
    ||| c == '\u{a0}'
    ||| c == '\u{1680}'
    ||| ('\u{2000}' <= c && c <= '\u{200a}')
    ||| c == '\u{2028}'
    ||| c == '\u{2029}'
    ||| c == '\u{202f}'
    ||| c == '\u{205f}'
    ||| c == '\u{3000}'
}

/// A class of characters that a scan skips or stops at.
#[derive(Clone, Copy, Debug, PartialEq, Eq)]
pub enum CharClass {
    /// Unicode white space.
    Space,
    /// A path separator, `/` or `\`.
    PathSep,
    /// One given character.
    Exactly(char),
    /// Either of two given characters.
    EitherOf(char, char),
    /// Any character but the given one.
    NotChar(char),
    /// Any character but an ASCII lower-case letter or digit.
    NotWordAscii,
}

pub open spec fn in_class(c: char, k: CharClass) -> bool {
    match k {
        CharClass::Space => is_ws(c),
        CharClass::PathSep => c == '/' || c == '\\',
        CharClass::Exactly(x) => c == x,
        CharClass::EitherOf(x, y) => c == x || c == y,
        CharClass::NotChar(x) => c != x,
        CharClass::NotWordAscii => !(('a' <= c && c <= 'z') || ('0' <= c && c <= '9')),
    }
}

pub fn char_in_class(c: char, k: CharClass) -> (r: bool)
    ensures
        r == in_class(c, k),
{
    match k {
        CharClass::Space => {
            ('\u{9}' <= c && c <= '\u{d}') || c == ' ' || c == '\u{85}' || c == '\u{a0}'
                || c == '\u{1680}' || ('\u{2000}' <= c && c <= '\u{200a}') || c == '\u{2028}'
                || c == '\u{2029}' || c == '\u{202f}' || c == '\u{205f}' || c == '\u{3000}'
        },
        CharClass::PathSep => c == '/' || c == '\\',
        CharClass::Exactly(x) => c == x,
        CharClass::EitherOf(x, y) => c == x || c == y,
        CharClass::NotChar(x) => c != x,
        CharClass::NotWordAscii => !(('a' <= c && c <= 'z') || ('0' <= c && c <= '9')),
    }
}

// ---------------------------------------------------------------------------
// Scans
// ---------------------------------------------------------------------------

/// The first index at or after `i` whose character is outside class `k` (or `s.len()`).
pub open spec fn skip_fwd(s: Seq<char>, i: int, k: CharClass) -> int
    decreases s.len() - i,
{
    if 0 <= i < s.len() && in_class(s[i], k) {
        skip_fwd(s, i + 1, k)
    } else {
        i
    }
}

/// The end index left after dropping the characters of class `k` that end `s[..j]`.
pub open spec fn skip_back(s: Seq<char>, j: int, k: CharClass) -> int
    decreases j,
{
    if 0 < j <= s.len() && in_class(s[j - 1], k) {
        skip_back(s, j - 1, k)
    } else {
        j
    }
}

/// The first index at or after `i` whose character is in class `k`, if any.
pub open spec fn find_class_from(s: Seq<char>, i: int, k: CharClass) -> Option<int>
    decreases s.len() - i,
{
    if i < 0 || i >= s.len() {
        None
    } else if in_class(s[i], k) {
        Some(i)
    } else {
        find_class_from(s, i + 1, k)
    }
}

/// The last index before `j` whose character is in class `k`, if any.
pub open spec fn rfind_class_before(s: Seq<char>, j: int, k: CharClass) -> Option<int>
    decreases j,
{
    if j <= 0 || j > s.len() {
        None
    } else if in_class(s[j - 1], k) {
        Some(j - 1)
    } else {
        rfind_class_before(s, j - 1, k)
    }
}

pub proof fn lemma_skip_fwd_bounds(s: Seq<char>, i: int, k: CharClass)
    requires
        0 <= i <= s.len(),
    ensures
        i <= skip_fwd(s, i, k) <= s.len(),
        skip_fwd(s, i, k) < s.len() ==> !in_class(s[skip_fwd(s, i, k)], k),
        forall|m: int| i <= m < skip_fwd(s, i, k) ==> in_class(#[trigger] s[m], k),
    decreases s.len() - i,
{
    if i < s.len() && in_class(s[i], k) {
        lemma_skip_fwd_bounds(s, i + 1, k);
    }
}

pub proof fn lemma_skip_back_bounds(s: Seq<char>, j: int, k: CharClass)
    requires
        0 <= j <= s.len(),
    ensures
        0 <= skip_back(s, j, k) <= j,
        skip_back(s, j, k) > 0 ==> !in_class(s[skip_back(s, j, k) - 1], k),
        forall|m: int| skip_back(s, j, k) <= m < j ==> in_class(#[trigger] s[m], k),
    decreases j,
{
    if j > 0 && in_class(s[j - 1], k) {
        lemma_skip_back_bounds(s, j - 1, k);
    }
}

pub proof fn lemma_find_class_from(s: Seq<char>, i: int, k: CharClass)
    requires
        0 <= i,
    ensures
        find_class_from(s, i, k) matches Some(p) ==> i <= p < s.len() && in_class(s[p], k)
            && forall|m: int| i <= m < p ==> !in_class(#[trigger] s[m], k),
        find_class_from(s, i, k) is None ==> forall|m: int|
            i <= m < s.len() ==> !in_class(#[trigger] s[m], k),
    decreases s.len() - i,
{
    if i < s.len() && !in_class(s[i], k) {
        lemma_find_class_from(s, i + 1, k);
    }
}

pub proof fn lemma_rfind_class_before(s: Seq<char>, j: int, k: CharClass)
    requires
        j <= s.len(),
    ensures
        rfind_class_before(s, j, k) matches Some(p) ==> 0 <= p < j && in_class(s[p], k)
            && forall|m: int| p < m < j ==> !in_class(#[trigger] s[m], k),
        rfind_class_before(s, j, k) is None ==> forall|m: int|
            0 <= m < j ==> !in_class(#[trigger] s[m], k),
    decreases j,
{
    if j > 0 && !in_class(s[j - 1], k) {
        lemma_rfind_class_before(s, j - 1, k);
    }
}

pub fn skip_fwd_exec(s: &[char], i: usize, k: CharClass) -> (r: usize)
    requires
        i <= s@.len(),
    ensures
        r == skip_fwd(s@, i as int, k),
        i <= r <= s@.len(),
{
    let mut j = i;
    while j < s.len() && char_in_class(s[j], k)
        invariant
            i <= j <= s@.len(),
            skip_fwd(s@, j as int, k) == skip_fwd(s@, i as int, k),
        decreases s@.len() - j,
    {
        j = j + 1;
    }
    j
}

pub fn skip_back_exec(s: &[char], j: usize, k: CharClass) -> (r: usize)
    requires
        j <= s@.len(),
    ensures
        r == skip_back(s@, j as int, k),
        r <= j,
{
    let mut e = j;
    while e > 0 && char_in_class(s[e - 1], k)
        invariant
            e <= j <= s@.len(),
            skip_back(s@, e as int, k) == skip_back(s@, j as int, k),
        decreases e,
    {
        e = e - 1;
    }
    e
}

pub fn find_class_exec(s: &[char], i: usize, k: CharClass) -> (r: Option<usize>)
    requires
        i <= s@.len(),
    ensures
        r matches Some(p) ==> find_class_from(s@, i as int, k) == Some(p as int),
        r is None ==> find_class_from(s@, i as int, k) is None,
        r matches Some(p) ==> i <= p < s@.len(),
{
    let mut j = i;
    while j < s.len()
        invariant
            i <= j <= s@.len(),
            find_class_from(s@, j as int, k) == find_class_from(s@, i as int, k),
        decreases s@.len() - j,
    {
        if char_in_class(s[j], k) {
            return Some(j);
        }
        j = j + 1;
    }
    None
}

pub fn rfind_class_exec(s: &[char], j: usize, k: CharClass) -> (r: Option<usize>)
    requires
        j <= s@.len(),
    ensures
        r matches Some(p) ==> rfind_class_before(s@, j as int, k) == Some(p as int),
        r is None ==> rfind_class_before(s@, j as int, k) is None,
        r matches Some(p) ==> p < j,
{
    let mut e = j;
    while e > 0
        invariant
            e <= j <= s@.len(),
            rfind_class_before(s@, e as int, k) == rfind_class_before(s@, j as int, k),
        decreases e,
    {
        if char_in_class(s[e - 1], k) {
            return Some(e - 1);
        }
        e = e - 1;
    }
    None
}

// ---------------------------------------------------------------------------
// Trimming
// ---------------------------------------------------------------------------

/// `s` without the leading characters of class `k`.
pub open spec fn trim_start_k(s: Seq<char>, k: CharClass) -> Seq<char> {
    s.subrange(skip_fwd(s, 0, k), s.len() as int)
}

/// `s` without the trailing characters of class `k`.
pub open spec fn trim_end_k(s: Seq<char>, k: CharClass) -> Seq<char> {
    s.subrange(0, skip_back(s, s.len() as int, k))
}

/// `s` without leading or trailing characters of class `k`.
pub open spec fn trim_k(s: Seq<char>, k: CharClass) -> Seq<char> {
    trim_end_k(trim_start_k(s, k), k)
}

/// `str::trim`: no leading or trailing white space.
pub open spec fn trim(s: Seq<char>) -> Seq<char> {
    trim_k(s, CharClass::Space)
}

pub open spec fn trim_start(s: Seq<char>) -> Seq<char> {
    trim_start_k(s, CharClass::Space)
}

pub open spec fn trim_end(s: Seq<char>) -> Seq<char> {
    trim_end_k(s, CharClass::Space)
}

pub fn trim_start_k_exec(s: &[char], k: CharClass) -> (r: Vec<char>)
    ensures
        r@ == trim_start_k(s@, k),
{
    let a = skip_fwd_exec(s, 0, k);
    slice_vec(s, a, s.len())
}

pub fn trim_end_k_exec(s: &[char], k: CharClass) -> (r: Vec<char>)
    ensures
        r@ == trim_end_k(s@, k),
{
    let b = skip_back_exec(s, s.len(), k);
    slice_vec(s, 0, b)
}

pub fn trim_k_exec(s: &[char], k: CharClass) -> (r: Vec<char>)
    ensures
        r@ == trim_k(s@, k),
{
    let a = trim_start_k_exec(s, k);
    trim_end_k_exec(a.as_slice(), k)
}

pub fn trim_exec(s: &[char]) -> (r: Vec<char>)
    ensures
        r@ == trim(s@),
{
    trim_k_exec(s, CharClass::Space)
}

// ---------------------------------------------------------------------------
// Slicing, equality, searching
// ---------------------------------------------------------------------------

/// A copy of `s[a..b]`.
pub fn slice_vec(s: &[char], a: usize, b: usize) -> (r: Vec<char>)
    requires
        a <= b <= s@.len(),
    ensures
        r@ == s@.subrange(a as int, b as int),
{
    let mut out: Vec<char> = Vec::new();
    let mut i = a;
    while i < b
        invariant
            a <= i <= b <= s@.len(),
            out@ == s@.subrange(a as int, i as int),
        decreases b - i,
    {
        out.push(s[i]);
        i = i + 1;
        assert(out@ =~= s@.subrange(a as int, i as int));
    }
    out
}

/// Appends `s` to `out`.
pub fn push_all(out: &mut Vec<char>, s: &[char])
    ensures
        final(out)@ == old(out)@ + s@,
{
    let ghost start = out@;
    let mut i: usize = 0;
    while i < s.len()
        invariant
            i <= s@.len(),
            out@ == start + s@.subrange(0, i as int),
        decreases s@.len() - i,
    {
        out.push(s[i]);
        i = i + 1;
        assert(out@ =~= start + s@.subrange(0, i as int));
    }
    assert(s@.subrange(0, s@.len() as int) =~= s@);
}

/// Appends the characters of `s` to `out`.
pub fn push_str(out: &mut Vec<char>, s: &str)
    ensures
        final(out)@ == old(out)@ + s@,
{
    let v = to_chars(s);
    push_all(out, v.as_slice());
}

pub fn chars_eq(a: &[char], b: &[char]) -> (r: bool)
    ensures
        r == (a@ == b@),
{
    if a.len() != b.len() {
        return false;
    }
    let mut i: usize = 0;
    while i < a.len()
        invariant
            i <= a@.len(),
            a@.len() == b@.len(),
            forall|m: int| 0 <= m < i ==> a@[m] == b@[m],
        decreases a@.len() - i,
    {
        if a[i] != b[i] {
            return false;
        }
        i = i + 1;
    }
    assert(a@ =~= b@);
    true
}

/// Whether the characters of `a` spell the string `b`.
pub fn chars_eq_str(a: &[char], b: &str) -> (r: bool)
    ensures
        r == (a@ == b@),
{
    let bv = to_chars(b);
    chars_eq(a, bv.as_slice())
}

/// `needle` occurs in `hay` starting at index `i`.
pub open spec fn occurs_at(hay: Seq<char>, needle: Seq<char>, i: int) -> bool {
    0 <= i && i + needle.len() <= hay.len() && hay.subrange(i, i + needle.len()) == needle
}

pub open spec fn starts_with(s: Seq<char>, p: Seq<char>) -> bool {
    occurs_at(s, p, 0)
}

pub open spec fn ends_with(s: Seq<char>, p: Seq<char>) -> bool {
    p.len() <= s.len() && s.subrange(s.len() - p.len(), s.len() as int) == p
}

/// The first index at or after `i` where `needle` occurs in `hay`, if any.
pub open spec fn find_from(hay: Seq<char>, needle: Seq<char>, i: int) -> Option<int>
    decreases hay.len() + 1 - i,
{
    if i < 0 || i + needle.len() > hay.len() {
        None
    } else if occurs_at(hay, needle, i) {
        Some(i)
    } else {
        find_from(hay, needle, i + 1)
    }
}

/// `str::find`: the first index where `needle` occurs in `hay`.
pub open spec fn find(hay: Seq<char>, needle: Seq<char>) -> Option<int> {
    find_from(hay, needle, 0)
}

pub proof fn lemma_find_from(hay: Seq<char>, needle: Seq<char>, i: int)
    requires
        0 <= i,
    ensures
        find_from(hay, needle, i) matches Some(p) ==> i <= p && occurs_at(hay, needle, p)
            && forall|m: int| i <= m < p ==> !occurs_at(hay, needle, m),
        find_from(hay, needle, i) is None ==> forall|m: int|
            i <= m ==> !occurs_at(hay, needle, m),
    decreases hay.len() + 1 - i,
{
    if i + needle.len() <= hay.len() && !occurs_at(hay, needle, i) {
        lemma_find_from(hay, needle, i + 1);
    }
}

pub fn occurs_at_exec(hay: &[char], needle: &[char], i: usize) -> (r: bool)
    ensures
        r == occurs_at(hay@, needle@, i as int),
{
    if i > hay.len() || needle.len() > hay.len() - i {
        return false;
    }
    let mut m: usize = 0;
    while m < needle.len()
        invariant
            m <= needle@.len(),
            i + needle@.len() <= hay@.len(),
            hay@.len() <= usize::MAX,
            forall|q: int| 0 <= q < m ==> hay@[i + q] == needle@[q],
        decreases needle@.len() - m,
    {
        if hay[i + m] != needle[m] {
            assert(hay@.subrange(i as int, i + needle@.len())[m as int] != needle@[m as int]);
            return false;
        }
        m = m + 1;
    }
    assert(hay@.subrange(i as int, i + needle@.len()) =~= needle@);
    true
}

pub fn starts_with_exec(s: &[char], p: &[char]) -> (r: bool)
    ensures
        r == starts_with(s@, p@),
{
    occurs_at_exec(s, p, 0)
}

pub fn starts_with_str(s: &[char], p: &str) -> (r: bool)
    ensures
        r == starts_with(s@, p@),
{
    let pv = to_chars(p);
    occurs_at_exec(s, pv.as_slice(), 0)
}

pub fn ends_with_exec(s: &[char], p: &[char]) -> (r: bool)
    ensures
        r == ends_with(s@, p@),
{
    if p.len() > s.len() {
        return false;
    }
    let r = occurs_at_exec(s, p, s.len() - p.len());
    r
}

pub fn find_exec(hay: &[char], needle: &[char]) -> (r: Option<usize>)
    ensures
        r matches Some(p) ==> find(hay@, needle@) == Some(p as int),
        r is None ==> find(hay@, needle@) is None,
        r matches Some(p) ==> p + needle@.len() <= hay@.len(),
{
    if needle.len() > hay.len() {
        return None;
    }
    let last = hay.len() - needle.len();
    let mut i: usize = 0;
    loop
        invariant
            last + needle@.len() == hay@.len(),
            i <= last,
            find_from(hay@, needle@, i as int) == find_from(hay@, needle@, 0),
        decreases last - i,
    {
        if occurs_at_exec(hay, needle, i) {
            return Some(i);
        }
        if i == last {
            assert(find_from(hay@, needle@, i + 1) is None);
            return None;
        }
        i = i + 1;
    }
}

/// The first index at or after `start` where `needle` occurs in `hay`.
pub fn find_from_exec(hay: &[char], needle: &[char], start: usize) -> (r: Option<usize>)
    ensures
        r matches Some(p) ==> find_from(hay@, needle@, start as int) == Some(p as int),
        r is None ==> find_from(hay@, needle@, start as int) is None,
        r matches Some(p) ==> start <= p && p + needle@.len() <= hay@.len(),
{
    if needle.len() > hay.len() || start > hay.len() - needle.len() {
        return None;
    }
    let last = hay.len() - needle.len();
    let mut i: usize = start;
    loop
        invariant
            last + needle@.len() == hay@.len(),
            start <= i <= last,
            find_from(hay@, needle@, i as int) == find_from(hay@, needle@, start as int),
        decreases last - i,
    {
        if occurs_at_exec(hay, needle, i) {
            return Some(i);
        }
        if i == last {
            assert(find_from(hay@, needle@, i + 1) is None);
            return None;
        }
        i = i + 1;
    }
}

pub fn find_str(hay: &[char], needle: &str) -> (r: Option<usize>)
    ensures
        r matches Some(p) ==> find(hay@, needle@) == Some(p as int),
        r is None ==> find(hay@, needle@) is None,
        r matches Some(p) ==> p + needle@.len() <= hay@.len(),
{
    let nv = to_chars(needle);
    find_exec(hay, nv.as_slice())
}

// ---------------------------------------------------------------------------
// Case
// ---------------------------------------------------------------------------

pub open spec fn ascii_lower_char(c: char) -> char {
    if 'A' <= c && c <= 'Z' {
        ((c as u32) + 32) as char
    } else {
        c
    }
}

/// `str::to_ascii_lowercase`.
pub open spec fn ascii_lower(s: Seq<char>) -> Seq<char> {
    s.map_values(|c: char| ascii_lower_char(c))
}

pub fn ascii_lower_char_exec(c: char) -> (r: char)
    ensures
        r == ascii_lower_char(c),
{
    if 'A' <= c && c <= 'Z' {
        let u: u32 = (c as u32) + 32;
        proof {
            assert(0x61 <= u <= 0x7a);
        }
        char_from_ascii(u)
    } else {
        c
    }
}

/// The character with the given ASCII code.
fn char_from_ascii(u: u32) -> (c: char)
    requires
        u < 0x80,
    ensures
        c == u as char,
{
    let b: u8 = u as u8;
    b as char
}

pub fn ascii_lower_exec(s: &[char]) -> (r: Vec<char>)
    ensures
        r@ == ascii_lower(s@),
{
    let mut out: Vec<char> = Vec::new();
    let mut i: usize = 0;
    while i < s.len()
        invariant
            i <= s@.len(),
            out@ == ascii_lower(s@.subrange(0, i as int)),
        decreases s@.len() - i,
    {
        out.push(ascii_lower_char_exec(s[i]));
        i = i + 1;
        assert(out@ =~= ascii_lower(s@.subrange(0, i as int)));
    }
    assert(s@.subrange(0, s@.len() as int) =~= s@);
    out
}

// ---------------------------------------------------------------------------
// Conversions at the edge of `str` and `String`
// ---------------------------------------------------------------------------

/// The characters of `s`, in order.
pub fn to_chars(s: &str) -> (r: Vec<char>)
    ensures
        r@ == s@,
{
    let mut out: Vec<char> = Vec::new();
    for c in it: s.chars()
        invariant
            out@ == it.seq().take(it.index() as int),
            it.seq() == s@,
    {
        out.push(c);
    }
    out
}

/// Collects a character sequence into an owned string (`FromIterator<&char> for String`).
#[verifier::external_body]
pub(crate) fn from_chars(v: &[char]) -> (r: String)
    ensures
        r@ == v@,
{
    v.iter().collect()
}


/// What `format!("{:?}", s)` renders for a string: the `Debug` form, in double quotes
/// with escapes.
pub uninterp spec fn debug_quoted(s: Seq<char>) -> Seq<char>;

/// `format!("{:?}", s)` on a string; the result is named `debug_quoted` of its text.
#[verifier::external_body]
pub(crate) fn debug_str(s: &str) -> (r: String)
    ensures
        r@ == debug_quoted(s@),
{
    format!("{:?}", s)
}


/// What `str::to_lowercase` gives for a text: Unicode lower case mapping.
pub uninterp spec fn unicode_lower(s: Seq<char>) -> Seq<char>;

/// `str::to_lowercase`; the result is named `unicode_lower` of its text.
#[verifier::external_body]
pub(crate) fn to_lowercase_str(s: &str) -> (r: String)
    ensures
        r@ == unicode_lower(s@),
{
    s.to_lowercase()
}

/// Splits `s` at every `c`, keeping empty pieces (`str::split`).
pub open spec fn split_char(s: Seq<char>, c: char) -> Seq<Seq<char>>
    decreases s.len(),
{
    match find_class_from(s, 0, CharClass::Exactly(c)) {
        None => seq![s],
        Some(p) => if 0 <= p < s.len() {
            seq![s.subrange(0, p)] + split_char(s.subrange(p + 1, s.len() as int), c)
        } else {
            seq![s]
        },
    }
}

/// Joins pieces with `c` between them.
pub open spec fn join_char(parts: Seq<Seq<char>>, c: char) -> Seq<char>
    decreases parts.len(),
{
    if parts.len() == 0 {
        Seq::empty()
    } else if parts.len() == 1 {
        parts[0]
    } else {
        join_char(parts.drop_last(), c) + seq![c] + parts.last()
    }
}

pub open spec fn char_views(v: Seq<Vec<char>>) -> Seq<Seq<char>> {
    v.map_values(|x: Vec<char>| x@)
}

pub fn split_char_exec(s: &[char], c: char) -> (r: Vec<Vec<char>>)
    ensures
        char_views(r@) == split_char(s@, c),
        r@.len() >= 1,
{
    let mut out: Vec<Vec<char>> = Vec::new();
    let mut start: usize = 0;
    let n = s.len();
    let ghost mut acc: Seq<Seq<char>> = Seq::empty();
    assert(s@.subrange(0, n as int) =~= s@);
    while start <= n
        invariant
            n == s@.len(),
            start <= n,
            char_views(out@) + split_char(s@.subrange(start as int, n as int), c) == split_char(
                s@,
                c,
            ),
        decreases n - start,
    {
        let rest = slice_vec(s, start, n);
        match find_class_exec(rest.as_slice(), 0, CharClass::Exactly(c)) {
            None => {
                let ghost before = char_views(out@);
                out.push(rest);
                assert(char_views(out@) =~= before + seq![rest@]);
                assert(split_char(rest@, c) == seq![rest@]);
                return out;
            },
            Some(p) => {
                let ghost before = char_views(out@);
                let piece = slice_vec(rest.as_slice(), 0, p);
                out.push(piece);
                proof {
                    assert(char_views(out@) =~= before + seq![piece@]);
                    assert(rest@.subrange(p + 1, rest@.len() as int) =~= s@.subrange(
                        start + p + 1,
                        n as int,
                    ));
                    assert(split_char(rest@, c) == seq![rest@.subrange(0, p as int)] + split_char(
                        rest@.subrange(p + 1, rest@.len() as int),
                        c,
                    ));
                    assert(before + split_char(rest@, c) =~= char_views(out@) + split_char(
                        s@.subrange(start + p + 1, n as int),
                        c,
                    ));
                }
                start = start + p + 1;
            },
        }
    }
    out
}

/// Joins the first `n` pieces with `c` between them.
pub fn join_first_exec(parts: &[Vec<char>], n: usize, c: char) -> (r: Vec<char>)
    requires
        n <= parts@.len(),
    ensures
        r@ == join_char(char_views(parts@).subrange(0, n as int), c),
{
    let ghost views = char_views(parts@);
    let mut out: Vec<char> = Vec::new();
    let mut i: usize = 0;
    while i < n
        invariant
            i <= n <= parts@.len(),
            views == char_views(parts@),
            out@ == join_char(views.subrange(0, i as int), c),
        decreases n - i,
    {
        proof {
            let next = views.subrange(0, i + 1);
            assert(next.drop_last() =~= views.subrange(0, i as int));
            assert(next.last() == parts@[i as int]@);
            if i == 0 {
                assert(out@ =~= Seq::<char>::empty());
            }
        }
        if i > 0 {
            out.push(c);
        }
        push_all(&mut out, parts[i].as_slice());
        proof {
            let next = views.subrange(0, i + 1);
            if i == 0 {
                assert(out@ =~= next[0]);
            }
        }
        i = i + 1;
    }
    out
}

pub fn join_char_exec(parts: &[Vec<char>], c: char) -> (r: Vec<char>)
    ensures
        r@ == join_char(char_views(parts@), c),
{
    let r = join_first_exec(parts, parts.len(), c);
    assert(char_views(parts@).subrange(0, parts@.len() as int) =~= char_views(parts@));
    r
}

// ---------------------------------------------------------------------------
// Lexicographic order (the order of `str` and `String`)
// ---------------------------------------------------------------------------

/// `a` sorts strictly before `b`, character by character (code point order, which is the
/// byte order of their UTF-8 forms).
pub open spec fn lex_lt(a: Seq<char>, b: Seq<char>) -> bool
    decreases a.len(),
{
    if a.len() == 0 {
        b.len() > 0
    } else if b.len() == 0 {
        false
    } else if a[0] != b[0] {
        a[0] < b[0]
    } else {
        lex_lt(a.drop_first(), b.drop_first())
    }
}

pub proof fn lemma_lex_irreflexive(a: Seq<char>)
    ensures
        !lex_lt(a, a),
    decreases a.len(),
{
    if a.len() > 0 {
        lemma_lex_irreflexive(a.drop_first());
    }
}

pub proof fn lemma_lex_transitive(a: Seq<char>, b: Seq<char>, c: Seq<char>)
    requires
        lex_lt(a, b),
        lex_lt(b, c),
    ensures
        lex_lt(a, c),
    decreases a.len(),
{
    if a.len() > 0 && b.len() > 0 && c.len() > 0 && a[0] == b[0] && b[0] == c[0] {
        lemma_lex_transitive(a.drop_first(), b.drop_first(), c.drop_first());
    }
}

pub proof fn lemma_lex_total(a: Seq<char>, b: Seq<char>)
    requires
        a != b,
    ensures
        lex_lt(a, b) || lex_lt(b, a),
    decreases a.len(),
{
    if a.len() > 0 && b.len() > 0 && a[0] == b[0] {
        if a.drop_first() == b.drop_first() {
            assert(a =~= seq![a[0]] + a.drop_first());
            assert(b =~= seq![b[0]] + b.drop_first());
        }
        lemma_lex_total(a.drop_first(), b.drop_first());
    } else if a.len() == 0 && b.len() == 0 {
        assert(a =~= b);
    }
}

pub proof fn lemma_lex_asymmetric(a: Seq<char>, b: Seq<char>)
    requires
        lex_lt(a, b),
    ensures
        !lex_lt(b, a),
{
    if lex_lt(b, a) {
        lemma_lex_transitive(a, b, a);
        lemma_lex_irreflexive(a);
    }
}

pub fn lex_lt_exec(a: &[char], b: &[char]) -> (r: bool)
    ensures
        r == lex_lt(a@, b@),
{
    let mut i: usize = 0;
    proof {
        assert(a@.subrange(0, a@.len() as int) =~= a@);
        assert(b@.subrange(0, b@.len() as int) =~= b@);
    }
    while i < a.len() && i < b.len() && a[i] == b[i]
        invariant
            i <= a@.len(),
            i <= b@.len(),
            lex_lt(a@, b@) == lex_lt(a@.subrange(i as int, a@.len() as int), b@.subrange(i as int, b@.len() as int)),
        decreases a@.len() - i,
    {
        proof {
            let sa = a@.subrange(i as int, a@.len() as int);
            let sb = b@.subrange(i as int, b@.len() as int);
            assert(sa.drop_first() =~= a@.subrange(i + 1, a@.len() as int));
            assert(sb.drop_first() =~= b@.subrange(i + 1, b@.len() as int));
        }
        i = i + 1;
    }
    if i == a.len() {
        i < b.len()
    } else if i == b.len() {
        false
    } else {
        a[i] < b[i]
    }
}

/// `s` is strictly increasing in lexicographic order.
pub open spec fn strictly_sorted(s: Seq<Seq<char>>) -> bool {
    forall|i: int, j: int| 0 <= i < j < s.len() ==> lex_lt(#[trigger] s[i], #[trigger] s[j])
}

/// Inserts `x` into the strictly sorted `out` unless it is already there.
pub fn insert_sorted_unique(out: &mut Vec<Vec<char>>, x: Vec<char>)
    requires
        strictly_sorted(char_views(old(out)@)),
    ensures
        strictly_sorted(char_views(final(out)@)),
        forall|s: Seq<char>|
            char_views(final(out)@).contains(s) <==> (char_views(old(out)@).contains(s) || s == x@),
{
    let ghost v0 = char_views(out@);
    let mut i: usize = 0;
    while i < out.len() && lex_lt_exec(out[i].as_slice(), x.as_slice())
        invariant
            i <= out@.len(),
            v0 == char_views(out@),
            strictly_sorted(v0),
            forall|t: int| 0 <= t < i ==> lex_lt(#[trigger] v0[t], x@),
        decreases out@.len() - i,
    {
        i = i + 1;
    }
    if i < out.len() && chars_eq(out[i].as_slice(), x.as_slice()) {
        assert(v0[i as int] == x@);
        return;
    }
    proof {
        if i < out@.len() {
            assert(!lex_lt(v0[i as int], x@));
            assert(v0[i as int] != x@);
            lemma_lex_total(v0[i as int], x@);
        }
    }
    let ghost xv = x@;
    out.insert(i, x);
    proof {
        let v1 = char_views(out@);
        assert(v1 =~= v0.insert(i as int, xv));
        assert forall|a: int, b: int| 0 <= a < b < v1.len() implies lex_lt(#[trigger] v1[a], #[trigger] v1[b]) by {
            if b == i {
                assert(v1[a] == v0[a]);
            } else if a == i {
                assert(v1[b] == v0[b - 1]);
                if b - 1 > i {
                    lemma_lex_transitive(xv, v0[i as int], v0[b - 1]);
                }
            } else if a < i && b > i {
                assert(v1[a] == v0[a]);
                assert(v1[b] == v0[b - 1]);
            } else if a > i {
                assert(v1[a] == v0[a - 1]);
                assert(v1[b] == v0[b - 1]);
            } else {
                assert(v1[a] == v0[a]);
                assert(v1[b] == v0[b]);
            }
        }
        assert forall|s: Seq<char>| v1.contains(s) <==> (v0.contains(s) || s == xv) by {
            if v0.contains(s) {
                let k = choose|k: int| 0 <= k < v0.len() && v0[k] == s;
                if k < i {
                    assert(v1[k] == s);
                } else {
                    assert(v1[k + 1] == s);
                }
            }
            if s == xv {
                assert(v1[i as int] == s);
            }
            if v1.contains(s) {
                let k = choose|k: int| 0 <= k < v1.len() && v1[k] == s;
                if k < i {
                    assert(v0[k] == s);
                } else if k > i {
                    assert(v0[k - 1] == s);
                }
            }
        }
    }
}

// ---------------------------------------------------------------------------
// Calls of caller-supplied functions on text
// ---------------------------------------------------------------------------

/// `out` is a result that `f` may give when called with a `&str` whose text is `arg`.
pub open spec fn called_with<T, F: Fn(&str) -> T>(f: F, arg: Seq<char>, out: T) -> bool {
    exists|s: &str| s@ == arg && #[trigger] f.ensures((s,), out)
}

/// `f` accepts every `&str`.
pub open spec fn accepts_all_text<T, F: Fn(&str) -> T>(f: F) -> bool {
    forall|s: &str| #[trigger] f.requires((s,))
}

/// Copies the text of `s` into an owned string.
pub fn own_str(s: &str) -> (r: String)
    ensures
        r@ == s@,
{
    from_chars(to_chars(s).as_slice())
}

/// The text of an optional borrowed string.
pub open spec fn opt_text(o: Option<&str>) -> Option<Seq<char>> {
    match o {
        Some(s) => Some(s@),
        None => None,
    }
}

/// The text of an optional owned string.
pub open spec fn opt_string(o: Option<String>) -> Option<Seq<char>> {
    match o {
        Some(s) => Some(s@),
        None => None,
    }
}

// ---------------------------------------------------------------------------
// Splitting into words
// ---------------------------------------------------------------------------

/// Splits `s` from `i` at characters of class `k`, dropping empty pieces; `cur` is the piece
/// being built and `out` the pieces so far.
pub open spec fn words_scan(s: Seq<char>, k: CharClass, i: int, cur: Seq<char>, out: Seq<Seq<char>>) -> Seq<Seq<char>>
    decreases s.len() - i,
{
    if i < 0 || i >= s.len() {
        if cur.len() > 0 {
            out.push(cur)
        } else {
            out
        }
    } else if in_class(s[i], k) {
        words_scan(s, k, i + 1, Seq::empty(), if cur.len() > 0 {
            out.push(cur)
        } else {
            out
        })
    } else {
        words_scan(s, k, i + 1, cur.push(s[i]), out)
    }
}

/// The non-empty pieces of `s` between characters of class `k` (`split_whitespace` for
/// white space).
pub open spec fn words(s: Seq<char>, k: CharClass) -> Seq<Seq<char>> {
    words_scan(s, k, 0, Seq::empty(), Seq::empty())
}

pub fn words_exec(s: &[char], k: CharClass) -> (r: Vec<Vec<char>>)
    ensures
        char_views(r@) == words(s@, k),
{
    let mut out: Vec<Vec<char>> = Vec::new();
    let mut cur: Vec<char> = Vec::new();
    let mut i: usize = 0;
    assert(char_views(out@) =~= Seq::<Seq<char>>::empty());
    while i < s.len()
        invariant
            i <= s@.len(),
            words_scan(s@, k, i as int, cur@, char_views(out@)) == words(s@, k),
        decreases s@.len() - i,
    {
        let c = s[i];
        if char_in_class(c, k) {
            if cur.len() > 0 {
                let ghost before = char_views(out@);
                out.push(cur);
                assert(char_views(out@) =~= before.push(cur@));
            }
            cur = Vec::new();
            assert(cur@ =~= Seq::<char>::empty());
        } else {
            cur.push(c);
        }
        i = i + 1;
    }
    if cur.len() > 0 {
        let ghost before = char_views(out@);
        out.push(cur);
        assert(char_views(out@) =~= before.push(cur@));
    }
    out
}

} // verus!
