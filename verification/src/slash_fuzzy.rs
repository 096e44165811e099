//! Description-aware fuzzy scoring for slash-menu completions.
//!
//! A candidate scores in tiers against a normalized query: on its command token an exact
//! match is 0, a prefix 1, a substring 2; on the words of its description the same tiers
//! count 3, 4 and 5. The lower score wins; `None` means no match.

use vstd::prelude::*;
use crate::project_tree::{string_views, to_strings};
use crate::text::{
    char_views, find, find_exec, from_chars, occurs_at_exec, own_str, starts_with, to_chars,
    to_lowercase_str, trim, trim_exec, trim_start_k, trim_start_k_exec, unicode_lower, words,
    words_exec, CharClass,
};

verus! {

/// A completion row: the replacement token and its description.
#[derive(Clone, Debug, PartialEq, Eq, Hash)]
pub struct SlashCompletionItem {
    /// The replacement token, such as `/recaps` (a leading slash or trailing space may come).
    pub text: String,
    /// The human description.
    pub meta: String,
}

impl SlashCompletionItem {
    /// A row with the given token and description.
    pub fn new(text: &str, meta: &str) -> (r: Self)
        ensures
            r.text@ == text@,
            r.meta@ == meta@,
    {
        SlashCompletionItem { text: own_str(text), meta: own_str(meta) }
    }
}

fn copy_item(it: &SlashCompletionItem) -> (r: SlashCompletionItem)
    ensures
        r == *it,
{
    SlashCompletionItem { text: it.text.clone(), meta: it.meta.clone() }
}

// ---------------------------------------------------------------------------
// Normalizing
// ---------------------------------------------------------------------------

/// The fields a text is searched by: its lower-case form, then its words of ASCII lower-case
/// letters and digits.
pub open spec fn search_fields(value: Seq<char>) -> Seq<Seq<char>> {
    seq![unicode_lower(value)] + words(unicode_lower(value), CharClass::NotWordAscii)
}

/// The lower-cased text followed by its alphanumeric words.
pub fn tokenize_search_text(value: &str) -> (r: Vec<String>)
    ensures
        string_views(r@) == search_fields(value@),
{
    let normalized = to_lowercase_str(value);
    let chars = to_chars(normalized.as_str());
    let pieces = words_exec(chars.as_slice(), CharClass::NotWordAscii);
    let tail = to_strings(&pieces);
    let mut out: Vec<String> = Vec::new();
    out.push(normalized);
    let mut i: usize = 0;
    while i < tail.len()
        invariant
            i <= tail@.len(),
            string_views(out@) == seq![unicode_lower(value@)] + string_views(tail@).take(i as int),
        decreases tail@.len() - i,
    {
        let ghost before = string_views(out@);
        let x = tail[i].clone();
        assert(x@ == string_views(tail@)[i as int]);
        out.push(x);
        assert(string_views(out@) =~= before.push(x@));
        assert(string_views(tail@).take(i + 1) =~= string_views(tail@).take(i as int).push(x@));
        i = i + 1;
    }
    assert(string_views(tail@).take(tail@.len() as int) =~= string_views(tail@));
    out
}

/// The query the scorer compares against: trimmed, leading slashes dropped, lower-cased.
pub open spec fn normalized_query(query: Seq<char>) -> Seq<char> {
    unicode_lower(trim_start_k(trim(query), CharClass::Exactly('/')))
}

/// Trims, drops leading slashes and lower-cases, so `/Model` and `model` read alike.
pub fn normalize_slash_search_query(query: &str) -> (r: String)
    ensures
        r@ == normalized_query(query@),
{
    let c = to_chars(query);
    let t = trim_exec(c.as_slice());
    let u = trim_start_k_exec(t.as_slice(), CharClass::Exactly('/'));
    let s = from_chars(u.as_slice());
    to_lowercase_str(s.as_str())
}

// ---------------------------------------------------------------------------
// Scoring
// ---------------------------------------------------------------------------

/// `f` with a slash in front.
pub open spec fn slashed(f: Seq<char>) -> Seq<char> {
    seq!['/'] + f
}

/// The field equals the query, with or without a slash in front of the field.
pub open spec fn exact_hit(f: Seq<char>, q: Seq<char>) -> bool {
    f == q || slashed(f) == q
}

/// The field starts with the query, with or without a slash in front of the field.
pub open spec fn prefix_hit(f: Seq<char>, q: Seq<char>) -> bool {
    starts_with(f, q) || starts_with(slashed(f), q)
}

/// The query occurs inside the field.
pub open spec fn substring_hit(f: Seq<char>, q: Seq<char>) -> bool {
    find(f, q) is Some
}

/// The tier of `q` against `fields` above `offset`: `offset` when a field matches exactly,
/// else `offset + 1` when one starts with it, else `offset + 2` when one contains it.
pub open spec fn field_score(fields: Seq<Seq<char>>, q: Seq<char>, offset: nat) -> Option<nat> {
    if exists|i: int| 0 <= i < fields.len() && exact_hit(#[trigger] fields[i], q) {
        Some(offset)
    } else if exists|i: int| 0 <= i < fields.len() && prefix_hit(#[trigger] fields[i], q) {
        Some(offset + 1)
    } else if exists|i: int| 0 <= i < fields.len() && substring_hit(#[trigger] fields[i], q) {
        Some(offset + 2)
    } else {
        None
    }
}

/// The better of two scores, where `None` is no match.
pub open spec fn best_score(a: Option<nat>, b: Option<nat>) -> Option<nat> {
    match (a, b) {
        (Some(x), Some(y)) => Some(if x <= y {
            x
        } else {
            y
        }),
        (Some(x), None) => Some(x),
        (None, y) => y,
    }
}

/// The command token of a row: its text trimmed and without leading slashes.
pub open spec fn command_name(text: Seq<char>) -> Seq<char> {
    trim_start_k(trim(text), CharClass::Exactly('/'))
}

/// The score of a row with token `text` and description `meta` against the normalized query
/// `q`: the better of its command tier and its description tier.
pub open spec fn item_score(text: Seq<char>, meta: Seq<char>, q: Seq<char>) -> Option<nat> {
    best_score(
        field_score(search_fields(command_name(text)), q, 0),
        field_score(search_fields(meta), q, 3),
    )
}

fn slashed_exec(f: &[char]) -> (r: Vec<char>)
    ensures
        r@ == slashed(f@),
{
    let mut v: Vec<char> = Vec::new();
    v.push('/');
    crate::text::push_all(&mut v, f);
    assert(v@ =~= slashed(f@));
    v
}

/// The tier of `query` against `fields` above `offset`, as [`field_score`] says.
pub fn score_fields(fields: &[String], query: &str, offset: u32) -> (r: Option<u32>)
    requires
        offset <= 1000,
    ensures
        match r {
            Some(v) => field_score(string_views(fields@), query@, offset as nat) == Some(v as nat),
            None => field_score(string_views(fields@), query@, offset as nat) is None,
        },
{
    let q = to_chars(query);
    let ghost fv = string_views(fields@);
    let mut i: usize = 0;
    while i < fields.len()
        invariant
            i <= fields@.len(),
            fv == string_views(fields@),
            q@ == query@,
            forall|j: int| 0 <= j < i ==> !exact_hit(#[trigger] fv[j], q@),
        decreases fields@.len() - i,
    {
        let f = to_chars(fields[i].as_str());
        let sf = slashed_exec(f.as_slice());
        if crate::text::chars_eq(f.as_slice(), q.as_slice()) || crate::text::chars_eq(sf.as_slice(), q.as_slice()) {
            assert(exact_hit(fv[i as int], q@));
            return Some(offset);
        }
        i = i + 1;
    }
    let mut i: usize = 0;
    while i < fields.len()
        invariant
            i <= fields@.len(),
            fv == string_views(fields@),
            q@ == query@,
            offset <= 1000,
            forall|j: int| 0 <= j < fv.len() ==> !exact_hit(#[trigger] fv[j], q@),
            forall|j: int| 0 <= j < i ==> !prefix_hit(#[trigger] fv[j], q@),
        decreases fields@.len() - i,
    {
        let f = to_chars(fields[i].as_str());
        let sf = slashed_exec(f.as_slice());
        if occurs_at_exec(f.as_slice(), q.as_slice(), 0) || occurs_at_exec(sf.as_slice(), q.as_slice(), 0) {
            assert(prefix_hit(fv[i as int], q@));
            return Some(offset + 1);
        }
        i = i + 1;
    }
    let mut i: usize = 0;
    while i < fields.len()
        invariant
            i <= fields@.len(),
            fv == string_views(fields@),
            q@ == query@,
            offset <= 1000,
            forall|j: int| 0 <= j < fv.len() ==> !exact_hit(#[trigger] fv[j], q@),
            forall|j: int| 0 <= j < fv.len() ==> !prefix_hit(#[trigger] fv[j], q@),
            forall|j: int| 0 <= j < i ==> !substring_hit(#[trigger] fv[j], q@),
        decreases fields@.len() - i,
    {
        let f = to_chars(fields[i].as_str());
        match find_exec(f.as_slice(), q.as_slice()) {
            Some(_) => {
                assert(substring_hit(fv[i as int], q@));
                return Some(offset + 2);
            },
            None => {},
        }
        i = i + 1;
    }
    None
}

/// The score of `item` against the normalized `query`, as [`item_score`] says.
pub fn score_slash_completion_item(item: &SlashCompletionItem, query: &str) -> (r: Option<u32>)
    ensures
        match r {
            Some(v) => item_score(item.text@, item.meta@, query@) == Some(v as nat),
            None => item_score(item.text@, item.meta@, query@) is None,
        },
{
    let c = to_chars(item.text.as_str());
    let t = trim_exec(c.as_slice());
    let n = trim_start_k_exec(t.as_slice(), CharClass::Exactly('/'));
    let name = from_chars(n.as_slice());
    let command_fields = tokenize_search_text(name.as_str());
    let description_fields = tokenize_search_text(item.meta.as_str());
    let a = score_fields(command_fields.as_slice(), query, 0);
    let b = score_fields(description_fields.as_slice(), query, 3);
    match (a, b) {
        (Some(x), Some(y)) => Some(if x <= y {
            x
        } else {
            y
        }),
        (Some(x), None) => Some(x),
        (None, y) => y,
    }
}

// ---------------------------------------------------------------------------
// Ranking
// ---------------------------------------------------------------------------

/// Some row of `items` has the trimmed token `t`.
pub open spec fn token_seen(items: Seq<SlashCompletionItem>, t: Seq<char>) -> bool {
    exists|i: int| 0 <= i < items.len() && trim((#[trigger] items[i]).text@) == t
}

/// The rows of `catalog` that join the completer's rows: those whose trimmed token no row of
/// `items` has and that match the query, in catalog order.
pub open spec fn catalog_extra(items: Seq<SlashCompletionItem>, catalog: Seq<SlashCompletionItem>, q: Seq<char>) -> Seq<SlashCompletionItem>
    decreases catalog.len(),
{
    if catalog.len() == 0 {
        Seq::empty()
    } else {
        let prev = catalog_extra(items, catalog.drop_last(), q);
        let c = catalog.last();
        if !token_seen(items, trim(c.text@)) && item_score(c.text@, c.meta@, q) is Some {
            prev.push(c)
        } else {
            prev
        }
    }
}

/// The rows that are ranked: the completer's own rows, then the catalog's extra ones.
pub open spec fn merged_rows(items: Seq<SlashCompletionItem>, catalog: Seq<SlashCompletionItem>, q: Seq<char>) -> Seq<SlashCompletionItem> {
    items + catalog_extra(items, catalog, q)
}

/// The rows of `ms` whose score is `t`, in order.
pub open spec fn tier_rows(ms: Seq<SlashCompletionItem>, q: Seq<char>, t: nat) -> Seq<SlashCompletionItem>
    decreases ms.len(),
{
    if ms.len() == 0 {
        Seq::empty()
    } else {
        let prev = tier_rows(ms.drop_last(), q, t);
        if item_score(ms.last().text@, ms.last().meta@, q) == Some(t) {
            prev.push(ms.last())
        } else {
            prev
        }
    }
}

/// The rows of `ms` that match, sorted by score and, within a score, kept in their order:
/// every score is one of 0 to 5, so this is the tiers one after another.
pub open spec fn ranked_rows(ms: Seq<SlashCompletionItem>, q: Seq<char>) -> Seq<SlashCompletionItem> {
    tier_rows(ms, q, 0) + tier_rows(ms, q, 1) + tier_rows(ms, q, 2) + tier_rows(ms, q, 3)
        + tier_rows(ms, q, 4) + tier_rows(ms, q, 5)
}

/// The scores of the ranked rows, looked up by a row's token and description.
pub struct RankedScores {
    /// The normalized query the rows were scored against.
    pub query: String,
    /// Each ranked row with its score.
    pub entries: Vec<(SlashCompletionItem, u32)>,
}

impl RankedScores {
    /// Every entry carries its row's score against the query.
    pub open spec fn wf(&self) -> bool {
        forall|k: int|
            0 <= k < self.entries@.len() ==> item_score(
                (#[trigger] self.entries@[k]).0.text@,
                self.entries@[k].0.meta@,
                self.query@,
            ) == Some(self.entries@[k].1 as nat)
    }

    /// Some entry has the token and description of `item`.
    pub open spec fn holds(&self, item: SlashCompletionItem) -> bool {
        exists|k: int|
            0 <= k < self.entries@.len() && (#[trigger] self.entries@[k]).0.text@ == item.text@
                && self.entries@[k].0.meta@ == item.meta@
    }

    /// The score of `item` when it is one of the ranked rows (by token and description),
    /// else `None`.
    pub fn score_of(&self, item: &SlashCompletionItem) -> (r: Option<u32>)
        requires
            self.wf(),
        ensures
            self.holds(*item) ==> r.is_some() && item_score(item.text@, item.meta@, self.query@)
                == Some(r.unwrap() as nat),
            !self.holds(*item) ==> r is None,
    {
        let mut k: usize = 0;
        while k < self.entries.len()
            invariant
                k <= self.entries@.len(),
                self.wf(),
                forall|j: int|
                    0 <= j < k ==> !((#[trigger] self.entries@[j]).0.text@ == item.text@
                        && self.entries@[j].0.meta@ == item.meta@),
            decreases self.entries@.len() - k,
        {
            let e = &self.entries[k];
            let same_text = crate::text::chars_eq_str(to_chars(e.0.text.as_str()).as_slice(), item.text.as_str());
            let same_meta = crate::text::chars_eq_str(to_chars(e.0.meta.as_str()).as_slice(), item.meta.as_str());
            if same_text && same_meta {
                assert(self.entries@[k as int].0.text@ == item.text@);
                return Some(e.1);
            }
            k = k + 1;
        }
        None
    }
}

proof fn lemma_tier_scores(ms: Seq<SlashCompletionItem>, q: Seq<char>, t: nat)
    ensures
        forall|i: int|
            0 <= i < tier_rows(ms, q, t).len() ==> item_score(
                (#[trigger] tier_rows(ms, q, t)[i]).text@,
                tier_rows(ms, q, t)[i].meta@,
                q,
            ) == Some(t),
    decreases ms.len(),
{
    if ms.len() > 0 {
        lemma_tier_scores(ms.drop_last(), q, t);
    }
}

/// Ranking orders rows by score: of any two ranked rows, the earlier one scores no worse.
pub proof fn lemma_ranked_sorted(ms: Seq<SlashCompletionItem>, q: Seq<char>, i: int, j: int)
    requires
        0 <= i < j < ranked_rows(ms, q).len(),
    ensures
        item_score(ranked_rows(ms, q)[i].text@, ranked_rows(ms, q)[i].meta@, q) matches Some(a)
            && item_score(ranked_rows(ms, q)[j].text@, ranked_rows(ms, q)[j].meta@, q) matches Some(b)
            && a <= b,
{
    let r = ranked_rows(ms, q);
    lemma_tier_scores(ms, q, 0);
    lemma_tier_scores(ms, q, 1);
    lemma_tier_scores(ms, q, 2);
    lemma_tier_scores(ms, q, 3);
    lemma_tier_scores(ms, q, 4);
    lemma_tier_scores(ms, q, 5);
    let l0 = tier_rows(ms, q, 0).len() as int;
    let l1 = l0 + tier_rows(ms, q, 1).len();
    let l2 = l1 + tier_rows(ms, q, 2).len();
    let l3 = l2 + tier_rows(ms, q, 3).len();
    let l4 = l3 + tier_rows(ms, q, 4).len();
    assert forall|k: int| 0 <= k < r.len() implies item_score(
        (#[trigger] r[k]).text@,
        r[k].meta@,
        q,
    ) == Some(if k < l0 {
        0nat
    } else if k < l1 {
        1nat
    } else if k < l2 {
        2nat
    } else if k < l3 {
        3nat
    } else if k < l4 {
        4nat
    } else {
        5nat
    }) by {
        if k < l0 {
            assert(r[k] == tier_rows(ms, q, 0)[k]);
        } else if k < l1 {
            assert(r[k] == tier_rows(ms, q, 1)[k - l0]);
        } else if k < l2 {
            assert(r[k] == tier_rows(ms, q, 2)[k - l1]);
        } else if k < l3 {
            assert(r[k] == tier_rows(ms, q, 3)[k - l2]);
        } else if k < l4 {
            assert(r[k] == tier_rows(ms, q, 4)[k - l3]);
        } else {
            assert(r[k] == tier_rows(ms, q, 5)[k - l4]);
        }
    }
    assert(item_score(r[i].text@, r[i].meta@, q) is Some);
    assert(item_score(r[j].text@, r[j].meta@, q) is Some);
}

/// A score is one of 0 to 5: a command tier is at most 2 and a description tier at most 5.
pub proof fn lemma_score_range(text: Seq<char>, meta: Seq<char>, q: Seq<char>)
    ensures
        item_score(text, meta, q) matches Some(v) ==> v <= 5,
{
}

proof fn lemma_tier_contains(ms: Seq<SlashCompletionItem>, q: Seq<char>, i: int)
    requires
        0 <= i < ms.len(),
        item_score(ms[i].text@, ms[i].meta@, q) is Some,
    ensures
        tier_rows(ms, q, item_score(ms[i].text@, ms[i].meta@, q).unwrap()).contains(ms[i]),
    decreases ms.len(),
{
    let t = item_score(ms[i].text@, ms[i].meta@, q).unwrap();
    let prev = tier_rows(ms.drop_last(), q, t);
    if i == ms.len() - 1 {
        assert(tier_rows(ms, q, t) == prev.push(ms[i]));
        assert(tier_rows(ms, q, t)[prev.len() as int] == ms[i]);
    } else {
        assert(ms.drop_last()[i] == ms[i]);
        lemma_tier_contains(ms.drop_last(), q, i);
        let j = choose|j: int| 0 <= j < prev.len() && prev[j] == ms[i];
        if item_score(ms.last().text@, ms.last().meta@, q) == Some(t) {
            assert(tier_rows(ms, q, t)[j] == ms[i]);
        } else {
            assert(tier_rows(ms, q, t)[j] == ms[i]);
        }
    }
}

/// Ranking drops no match: every row that matches the query is among the ranked rows.
pub proof fn lemma_ranked_complete(ms: Seq<SlashCompletionItem>, q: Seq<char>, i: int)
    requires
        0 <= i < ms.len(),
        item_score(ms[i].text@, ms[i].meta@, q) is Some,
    ensures
        ranked_rows(ms, q).contains(ms[i]),
{
    lemma_score_range(ms[i].text@, ms[i].meta@, q);
    lemma_tier_contains(ms, q, i);
    let t = item_score(ms[i].text@, ms[i].meta@, q).unwrap();
    let r = ranked_rows(ms, q);
    let l0 = tier_rows(ms, q, 0).len() as int;
    let l1 = l0 + tier_rows(ms, q, 1).len();
    let l2 = l1 + tier_rows(ms, q, 2).len();
    let l3 = l2 + tier_rows(ms, q, 3).len();
    let l4 = l3 + tier_rows(ms, q, 4).len();
    let tr = tier_rows(ms, q, t);
    let j = choose|j: int| 0 <= j < tr.len() && tr[j] == ms[i];
    if t == 0 {
        assert(r[j] == ms[i]);
    } else if t == 1 {
        assert(r[l0 + j] == ms[i]);
    } else if t == 2 {
        assert(r[l1 + j] == ms[i]);
    } else if t == 3 {
        assert(r[l2 + j] == ms[i]);
    } else if t == 4 {
        assert(r[l3 + j] == ms[i]);
    } else {
        assert(r[l4 + j] == ms[i]);
    }
}

/// The positions in `ms` of the rows whose score is `t`, in order.
pub open spec fn tier_positions(ms: Seq<SlashCompletionItem>, q: Seq<char>, t: nat) -> Seq<int>
    decreases ms.len(),
{
    if ms.len() == 0 {
        Seq::empty()
    } else {
        let prev = tier_positions(ms.drop_last(), q, t);
        if item_score(ms.last().text@, ms.last().meta@, q) == Some(t) {
            prev.push(ms.len() - 1)
        } else {
            prev
        }
    }
}

/// The positions in `ms` of the ranked rows, tier after tier.
pub open spec fn ranked_positions(ms: Seq<SlashCompletionItem>, q: Seq<char>) -> Seq<int> {
    tier_positions(ms, q, 0) + tier_positions(ms, q, 1) + tier_positions(ms, q, 2)
        + tier_positions(ms, q, 3) + tier_positions(ms, q, 4) + tier_positions(ms, q, 5)
}

proof fn lemma_tier_positions(ms: Seq<SlashCompletionItem>, q: Seq<char>, t: nat)
    ensures
        tier_positions(ms, q, t).len() == tier_rows(ms, q, t).len(),
        forall|k: int|
            0 <= k < tier_positions(ms, q, t).len() ==> 0 <= #[trigger] tier_positions(ms, q, t)[k]
                < ms.len() && tier_rows(ms, q, t)[k] == ms[tier_positions(ms, q, t)[k]]
                && item_score(ms[tier_positions(ms, q, t)[k]].text@, ms[tier_positions(ms, q, t)[k]].meta@, q)
                == Some(t),
        forall|a: int, b: int|
            0 <= a < b < tier_positions(ms, q, t).len() ==> #[trigger] tier_positions(ms, q, t)[a]
                < #[trigger] tier_positions(ms, q, t)[b],
        forall|i: int|
            0 <= i < ms.len() && item_score(ms[i].text@, ms[i].meta@, q) == Some(t) ==> #[trigger] tier_positions(
                ms,
                q,
                t,
            ).contains(i),
    decreases ms.len(),
{
    if ms.len() > 0 {
        let w = ms.drop_last();
        lemma_tier_positions(w, q, t);
        let pw = tier_positions(w, q, t);
        let p = tier_positions(ms, q, t);
        assert forall|k: int| 0 <= k < pw.len() implies ms[#[trigger] pw[k]] == w[pw[k]] by {}
        assert forall|i: int|
            0 <= i < ms.len() && item_score(ms[i].text@, ms[i].meta@, q) == Some(t) implies #[trigger] p.contains(i) by {
            if i < ms.len() - 1 {
                assert(w[i] == ms[i]);
                assert(pw.contains(i));
                let k = choose|k: int| 0 <= k < pw.len() && pw[k] == i;
                assert(p[k] == i);
            } else {
                assert(p[p.len() - 1] == i);
            }
        }
    }
}

/// Ranking is a stable sort of the rows that match: the ranked rows are the matching rows of
/// `ms`, each once (`pos` maps them one to one onto the positions of those rows), ordered by
/// score, and two rows of equal score keep their order in `ms`.
pub proof fn lemma_ranked_stable_permutation(ms: Seq<SlashCompletionItem>, q: Seq<char>)
    ensures
        ({
            let r = ranked_rows(ms, q);
            let pos = ranked_positions(ms, q);
            &&& pos.len() == r.len()
            &&& forall|k: int|
                0 <= k < pos.len() ==> 0 <= #[trigger] pos[k] < ms.len() && r[k] == ms[pos[k]]
            &&& forall|a: int, b: int| 0 <= a < b < pos.len() ==> #[trigger] pos[a] != #[trigger] pos[b]
            &&& forall|i: int|
                0 <= i < ms.len() && item_score(ms[i].text@, ms[i].meta@, q) is Some ==> #[trigger] pos.contains(i)
            &&& forall|a: int, b: int|
                0 <= a < b < pos.len() && item_score(r[a].text@, r[a].meta@, q) == item_score(
                    r[b].text@,
                    r[b].meta@,
                    q,
                ) ==> #[trigger] pos[a] < #[trigger] pos[b]
        }),
{
    let r = ranked_rows(ms, q);
    let pos = ranked_positions(ms, q);
    lemma_tier_positions(ms, q, 0);
    lemma_tier_positions(ms, q, 1);
    lemma_tier_positions(ms, q, 2);
    lemma_tier_positions(ms, q, 3);
    lemma_tier_positions(ms, q, 4);
    lemma_tier_positions(ms, q, 5);
    let l0 = tier_positions(ms, q, 0).len() as int;
    let l1 = l0 + tier_positions(ms, q, 1).len();
    let l2 = l1 + tier_positions(ms, q, 2).len();
    let l3 = l2 + tier_positions(ms, q, 3).len();
    let l4 = l3 + tier_positions(ms, q, 4).len();
    let tier_of = |k: int| -> nat {
        if k < l0 {
            0nat
        } else if k < l1 {
            1nat
        } else if k < l2 {
            2nat
        } else if k < l3 {
            3nat
        } else if k < l4 {
            4nat
        } else {
            5nat
        }
    };
    let start_of = |t: nat| -> int {
        if t == 0 {
            0
        } else if t == 1 {
            l0
        } else if t == 2 {
            l1
        } else if t == 3 {
            l2
        } else if t == 4 {
            l3
        } else {
            l4
        }
    };
    assert forall|k: int| 0 <= k < pos.len() implies pos[k] == tier_positions(ms, q, tier_of(k))[k - start_of(tier_of(k))]
        && r[k] == tier_rows(ms, q, tier_of(k))[k - start_of(tier_of(k))] by {}
    assert forall|k: int| 0 <= k < pos.len() implies 0 <= #[trigger] pos[k] < ms.len() && r[k] == ms[pos[k]]
        && item_score(r[k].text@, r[k].meta@, q) == Some(tier_of(k)) by {
        let t = tier_of(k);
        assert(tier_positions(ms, q, t)[k - start_of(t)] == pos[k]);
    }
    assert forall|a: int, b: int| 0 <= a < b < pos.len() && tier_of(a) == tier_of(b) implies #[trigger] pos[a]
        < #[trigger] pos[b] by {
        let t = tier_of(a);
        let tp = tier_positions(ms, q, t);
        assert(tp[a - start_of(t)] < tp[b - start_of(t)]);
    }
    assert forall|a: int, b: int| 0 <= a < b < pos.len() implies #[trigger] pos[a] != #[trigger] pos[b] by {
        if tier_of(a) != tier_of(b) {
            assert(item_score(r[a].text@, r[a].meta@, q) != item_score(r[b].text@, r[b].meta@, q));
        }
    }
    assert forall|i: int|
        0 <= i < ms.len() && item_score(ms[i].text@, ms[i].meta@, q) is Some implies #[trigger] pos.contains(i) by {
        lemma_score_range(ms[i].text@, ms[i].meta@, q);
        let t = item_score(ms[i].text@, ms[i].meta@, q).unwrap();
        let tp = tier_positions(ms, q, t);
        assert(tp.contains(i));
        let j = choose|j: int| 0 <= j < tp.len() && tp[j] == i;
        assert(pos[start_of(t) + j] == i);
    }
}

fn trimmed_token(it: &SlashCompletionItem) -> (r: Vec<char>)
    ensures
        r@ == trim(it.text@),
{
    let c = to_chars(it.text.as_str());
    trim_exec(c.as_slice())
}

fn token_seen_exec(items: &[SlashCompletionItem], t: &[char]) -> (r: bool)
    ensures
        r == token_seen(items@, t@),
{
    let mut i: usize = 0;
    while i < items.len()
        invariant
            i <= items@.len(),
            forall|j: int| 0 <= j < i ==> trim((#[trigger] items@[j]).text@) != t@,
        decreases items@.len() - i,
    {
        let k = trimmed_token(&items[i]);
        if crate::text::chars_eq(k.as_slice(), t) {
            return true;
        }
        i = i + 1;
    }
    false
}

/// The rows of `ms` with score `t`, each with that score.
fn collect_tier(ms: &[SlashCompletionItem], scores: &[Option<u32>], q: Ghost<Seq<char>>, t: u32, out: &mut Vec<SlashCompletionItem>, table: &mut Vec<(SlashCompletionItem, u32)>)
    requires
        scores@.len() == ms@.len(),
        forall|i: int|
            0 <= i < ms@.len() ==> match #[trigger] scores@[i] {
                Some(v) => item_score(ms@[i].text@, ms@[i].meta@, q@) == Some(v as nat),
                None => item_score(ms@[i].text@, ms@[i].meta@, q@) is None,
            },
    ensures
        final(out)@ == old(out)@ + tier_rows(ms@, q@, t as nat),
        final(table)@.len() == old(table)@.len() + tier_rows(ms@, q@, t as nat).len(),
        forall|k: int| 0 <= k < old(table)@.len() ==> final(table)@[k] == old(table)@[k],
        forall|k: int|
            old(table)@.len() <= k < final(table)@.len() ==> (#[trigger] final(table)@[k]).0
                == tier_rows(ms@, q@, t as nat)[k - old(table)@.len()] && final(table)@[k].1 == t,
{
    let ghost out0 = out@;
    let ghost table0 = table@;
    let mut i: usize = 0;
    while i < ms.len()
        invariant
            i <= ms@.len(),
            scores@.len() == ms@.len(),
            forall|j: int|
                0 <= j < ms@.len() ==> match #[trigger] scores@[j] {
                    Some(v) => item_score(ms@[j].text@, ms@[j].meta@, q@) == Some(v as nat),
                    None => item_score(ms@[j].text@, ms@[j].meta@, q@) is None,
                },
            out@ == out0 + tier_rows(ms@.take(i as int), q@, t as nat),
            table@.len() == table0.len() + tier_rows(ms@.take(i as int), q@, t as nat).len(),
            forall|k: int| 0 <= k < table0.len() ==> table@[k] == table0[k],
            forall|k: int|
                table0.len() <= k < table@.len() ==> (#[trigger] table@[k]).0 == tier_rows(
                    ms@.take(i as int),
                    q@,
                    t as nat,
                )[k - table0.len()] && table@[k].1 == t,
        decreases ms@.len() - i,
    {
        let ghost prev = tier_rows(ms@.take(i as int), q@, t as nat);
        assert(ms@.take(i + 1).drop_last() =~= ms@.take(i as int));
        assert(ms@.take(i + 1).last() == ms@[i as int]);
        let hit = match scores[i] {
            Some(v) => v == t,
            None => false,
        };
        if hit {
            out.push(copy_item(&ms[i]));
            table.push((copy_item(&ms[i]), t));
            assert(tier_rows(ms@.take(i + 1), q@, t as nat) == prev.push(ms@[i as int]));
        } else {
            assert(tier_rows(ms@.take(i + 1), q@, t as nat) == prev);
        }
        i = i + 1;
    }
    assert(ms@.take(ms@.len() as int) =~= ms@);
}

/// Merges the catalog rows that the completer's prefix filter missed but the scorer matches
/// into `items`, and ranks the rows by score, keeping their order within a score. Returns
/// the ranked rows with their scores.
pub fn fuzzy_rank_slash_items(
    items: &[SlashCompletionItem],
    catalog: &[SlashCompletionItem],
    query: &str,
) -> (r: (Vec<SlashCompletionItem>, RankedScores))
    ensures
        r.0@ == ranked_rows(merged_rows(items@, catalog@, query@), query@),
        r.1.wf(),
        r.1.query@ == query@,
        r.1.entries@.len() == r.0@.len(),
        forall|k: int| 0 <= k < r.0@.len() ==> (#[trigger] r.1.entries@[k]).0 == r.0@[k],
{
    let mut merged: Vec<SlashCompletionItem> = Vec::new();
    let mut i: usize = 0;
    while i < items.len()
        invariant
            i <= items@.len(),
            merged@ == items@.take(i as int),
        decreases items@.len() - i,
    {
        merged.push(copy_item(&items[i]));
        i = i + 1;
        assert(merged@ =~= items@.take(i as int));
    }
    assert(items@.take(items@.len() as int) =~= items@);
    let mut j: usize = 0;
    while j < catalog.len()
        invariant
            j <= catalog@.len(),
            merged@ == items@ + catalog_extra(items@, catalog@.take(j as int), query@),
        decreases catalog@.len() - j,
    {
        assert(catalog@.take(j + 1).drop_last() =~= catalog@.take(j as int));
        assert(catalog@.take(j + 1).last() == catalog@[j as int]);
        let key = trimmed_token(&catalog[j]);
        let seen = token_seen_exec(items, key.as_slice());
        if !seen {
            let s = score_slash_completion_item(&catalog[j], query);
            if s.is_some() {
                merged.push(copy_item(&catalog[j]));
            }
        }
        j = j + 1;
        assert(merged@ =~= items@ + catalog_extra(items@, catalog@.take(j as int), query@));
    }
    assert(catalog@.take(catalog@.len() as int) =~= catalog@);
    let mut scores: Vec<Option<u32>> = Vec::new();
    let mut k: usize = 0;
    while k < merged.len()
        invariant
            k <= merged@.len(),
            scores@.len() == k,
            forall|x: int|
                0 <= x < k ==> match #[trigger] scores@[x] {
                    Some(v) => item_score(merged@[x].text@, merged@[x].meta@, query@) == Some(v as nat),
                    None => item_score(merged@[x].text@, merged@[x].meta@, query@) is None,
                },
        decreases merged@.len() - k,
    {
        let s = score_slash_completion_item(&merged[k], query);
        scores.push(s);
        k = k + 1;
    }
    let ghost q = query@;
    let mut ranked: Vec<SlashCompletionItem> = Vec::new();
    let mut table: Vec<(SlashCompletionItem, u32)> = Vec::new();
    let ghost ms = merged@;
    let mut t: u32 = 0;
    while t < 6
        invariant
            t <= 6,
            ms == merged@,
            scores@.len() == ms.len(),
            forall|x: int|
                0 <= x < ms.len() ==> match #[trigger] scores@[x] {
                    Some(v) => item_score(ms[x].text@, ms[x].meta@, q) == Some(v as nat),
                    None => item_score(ms[x].text@, ms[x].meta@, q) is None,
                },
            ranked@ == (if t == 0 {
                Seq::empty()
            } else if t == 1 {
                tier_rows(ms, q, 0)
            } else if t == 2 {
                tier_rows(ms, q, 0) + tier_rows(ms, q, 1)
            } else if t == 3 {
                tier_rows(ms, q, 0) + tier_rows(ms, q, 1) + tier_rows(ms, q, 2)
            } else if t == 4 {
                tier_rows(ms, q, 0) + tier_rows(ms, q, 1) + tier_rows(ms, q, 2) + tier_rows(ms, q, 3)
            } else if t == 5 {
                tier_rows(ms, q, 0) + tier_rows(ms, q, 1) + tier_rows(ms, q, 2) + tier_rows(ms, q, 3)
                    + tier_rows(ms, q, 4)
            } else {
                ranked_rows(ms, q)
            }),
            table@.len() == ranked@.len(),
            forall|x: int| 0 <= x < ranked@.len() ==> (#[trigger] table@[x]).0 == ranked@[x],
            forall|x: int|
                0 <= x < table@.len() ==> item_score(
                    (#[trigger] table@[x]).0.text@,
                    table@[x].0.meta@,
                    q,
                ) == Some(table@[x].1 as nat),
        decreases 6 - t,
    {
        let ghost ranked0 = ranked@;
        let ghost table0 = table@;
        collect_tier(merged.as_slice(), scores.as_slice(), Ghost(q), t, &mut ranked, &mut table);
        proof {
            lemma_tier_scores(ms, q, t as nat);
            assert forall|x: int| 0 <= x < ranked@.len() implies (#[trigger] table@[x]).0 == ranked@[x] by {
                if x >= ranked0.len() {
                    assert(ranked@[x] == tier_rows(ms, q, t as nat)[x - ranked0.len()]);
                }
            }
            assert forall|x: int| 0 <= x < table@.len() implies item_score(
                (#[trigger] table@[x]).0.text@,
                table@[x].0.meta@,
                q,
            ) == Some(table@[x].1 as nat) by {
                if x >= table0.len() {
                    assert(table@[x].0 == tier_rows(ms, q, t as nat)[x - table0.len()]);
                } else {
                    assert(table@[x] == table0[x]);
                }
            }
        }
        t = t + 1;
    }
    (ranked, RankedScores { query: own_str(query), entries: table })
}

} // verus!
