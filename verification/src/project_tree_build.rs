//! Building the project tree: sessions grouped into lanes and repos, repos into projects.
//!
//! Times enter as ranks: a session's `recency` is its last-active time (else its start time,
//! else zero) mapped to an integer in the same order, with zero kept at zero, so that sorting
//! and taking maxima by rank agree with doing so by time.

use vstd::prelude::*;
use crate::project_tree::{
    answered, base_name_chars, base_name_spec, lane_key, lane_key_spec, path_key, path_key_spec,
    path_segments, place, place_spec, place_trace, placement_view, resolve_view, segments_chars,
    identity_segments, BuildTreeOptions, Folder, FolderIndex, Placement, PlacementModel, Project,
    ResolveResult, NO_PROJECT_ID, NO_PROJECT_LABEL,
};
use crate::text::{
    char_views, chars_eq, from_chars, join_char, join_char_exec, lex_lt, lex_lt_exec, own_str,
    push_all, slice_vec, to_chars, to_lowercase_str, trim, trim_end_k, trim_end_k_exec, trim_exec,
    unicode_lower, CharClass,
};

verus! {

// ---------------------------------------------------------------------------
// Growing colliding labels
// ---------------------------------------------------------------------------

/// A label with the path it stands for, where it has one.
pub open spec fn labelled_view(x: (Vec<char>, Option<Vec<char>>)) -> (Seq<char>, Option<Seq<char>>) {
    (
        x.0@,
        match x.1 {
            Some(p) => Some(p@),
            None => None,
        },
    )
}

pub open spec fn labelled_views(v: Seq<(Vec<char>, Option<Vec<char>>)>) -> Seq<(Seq<char>, Option<Seq<char>>)> {
    v.map_values(|x: (Vec<char>, Option<Vec<char>>)| labelled_view(x))
}

/// The segments of a path's parent: its segments without the last.
pub open spec fn parent_segments(path: Seq<char>) -> Seq<Seq<char>> {
    let s = path_segments(path);
    if s.len() == 0 {
        s
    } else {
        s.drop_last()
    }
}

/// The last `d` of `segs` joined by `/` (all of them where there are fewer).
pub open spec fn depth_prefix(segs: Seq<Seq<char>>, d: nat) -> Seq<char> {
    if segs.len() >= d {
        join_char(segs.subrange(segs.len() - d, segs.len() as int), '/')
    } else {
        join_char(segs, '/')
    }
}

/// The label of `path` grown to depth `d`: the last `d` parent segments, a slash, and the
/// base name (or the whole path where it has none).
pub open spec fn grown_label(path: Seq<char>, d: nat) -> Seq<char> {
    let prefix = depth_prefix(parent_segments(path), d);
    let base = if base_name_spec(path).len() == 0 {
        path
    } else {
        base_name_spec(path)
    };
    if prefix.len() == 0 {
        base
    } else {
        prefix + seq!['/'] + base
    }
}

/// Item `j` is in the collision bucket of label `l`: it has that label and a path.
pub open spec fn in_bucket(items: Seq<(Seq<char>, Option<Seq<char>>)>, l: Seq<char>, j: int) -> bool {
    0 <= j < items.len() && items[j].0 == l && items[j].1 is Some
}

/// The most parent segments among the bucket members of label `l` in the first `n` items.
pub open spec fn bucket_depth(items: Seq<(Seq<char>, Option<Seq<char>>)>, l: Seq<char>, n: int) -> nat
    decreases n,
{
    if n <= 0 {
        0
    } else {
        let prev = bucket_depth(items, l, n - 1);
        if in_bucket(items, l, n - 1) && parent_segments(items[n - 1].1->0).len() > prev {
            parent_segments(items[n - 1].1->0).len()
        } else {
            prev
        }
    }
}

/// The grown labels of the bucket of `l` are pairwise distinct at depth `d`.
pub open spec fn distinct_at(items: Seq<(Seq<char>, Option<Seq<char>>)>, l: Seq<char>, d: nat) -> bool {
    forall|a: int, b: int|
        #![trigger in_bucket(items, l, a), in_bucket(items, l, b)]
        in_bucket(items, l, a) && in_bucket(items, l, b) && a != b ==> grown_label(
            items[a].1->0,
            d,
        ) != grown_label(items[b].1->0, d)
}

/// The depth the bucket of `l` settles at, trying depths from `d`: the first where its grown
/// labels are distinct, else `maxd`.
pub open spec fn settle_depth(items: Seq<(Seq<char>, Option<Seq<char>>)>, l: Seq<char>, d: nat, maxd: nat) -> nat
    decreases maxd - d,
{
    if d >= maxd || distinct_at(items, l, d) {
        d
    } else {
        settle_depth(items, l, d + 1, maxd)
    }
}

/// At least two items have label `l` and a path.
pub open spec fn collides(items: Seq<(Seq<char>, Option<Seq<char>>)>, l: Seq<char>) -> bool {
    exists|a: int, b: int|
        #![trigger in_bucket(items, l, a), in_bucket(items, l, b)]
        in_bucket(items, l, a) && in_bucket(items, l, b) && a != b
}

/// The label of item `i` once colliding labels have grown: unchanged unless it has a path and
/// collides with another pathed item of the same label whose parents give room to grow; then
/// its path's label at the depth the bucket settles at.
pub open spec fn settled_label(items: Seq<(Seq<char>, Option<Seq<char>>)>, i: int) -> Seq<char> {
    let l = items[i].0;
    let maxd = bucket_depth(items, l, items.len() as int);
    if items[i].1 is Some && collides(items, l) && maxd >= 1 {
        grown_label(items[i].1->0, settle_depth(items, l, 1, maxd))
    } else {
        l
    }
}

fn copy_parts(parts: &[Vec<char>], a: usize, b: usize) -> (r: Vec<Vec<char>>)
    requires
        a <= b <= parts@.len(),
    ensures
        char_views(r@) == char_views(parts@).subrange(a as int, b as int),
{
    let mut out: Vec<Vec<char>> = Vec::new();
    let mut i = a;
    while i < b
        invariant
            a <= i <= b <= parts@.len(),
            char_views(out@) == char_views(parts@).subrange(a as int, i as int),
        decreases b - i,
    {
        let ghost before = char_views(out@);
        let x = slice_vec(parts[i].as_slice(), 0, parts[i].len());
        assert(x@ =~= parts@[i as int]@);
        out.push(x);
        assert(char_views(out@) =~= before.push(x@));
        assert(char_views(parts@).subrange(a as int, i + 1) =~= char_views(parts@).subrange(
            a as int,
            i as int,
        ).push(x@));
        i = i + 1;
    }
    out
}

fn grown_label_exec(path: &[char], d: usize) -> (r: Vec<char>)
    ensures
        r@ == grown_label(path@, d as nat),
{
    let mut segs = segments_chars(path);
    let ghost full = char_views(segs@);
    if segs.len() > 0 {
        segs.pop();
        assert(char_views(segs@) =~= full.drop_last());
    }
    assert(char_views(segs@) == parent_segments(path@));
    let n = segs.len();
    let start = if n >= d {
        n - d
    } else {
        0
    };
    let tail = copy_parts(segs.as_slice(), start, n);
    proof {
        if n < d {
            assert(char_views(segs@).subrange(0, n as int) =~= char_views(segs@));
        }
    }
    let prefix = join_char_exec(tail.as_slice(), '/');
    let bn = base_name_chars(path);
    let base = if bn.len() == 0 {
        slice_vec(path, 0, path.len())
    } else {
        bn
    };
    assert(path@.subrange(0, path@.len() as int) =~= path@);
    if prefix.len() == 0 {
        base
    } else {
        let mut out = prefix;
        out.push('/');
        push_all(&mut out, base.as_slice());
        assert(out@ =~= grown_label(path@, d as nat));
        out
    }
}

/// The members of the bucket of `l`, in order, with the bucket's deepest parent.
fn bucket_members(items: &[(Vec<char>, Option<Vec<char>>)], l: &[char]) -> (r: (Vec<usize>, usize))
    ensures
        forall|k: int| 0 <= k < r.0@.len() ==> in_bucket(labelled_views(items@), l@, #[trigger] r.0@[k] as int),
        forall|j: int| #[trigger] in_bucket(labelled_views(items@), l@, j) ==> exists|k: int| 0 <= k < r.0@.len() && r.0@[k] == j,
        forall|k1: int, k2: int| 0 <= k1 < k2 < r.0@.len() ==> r.0@[k1] < r.0@[k2],
        r.1 == bucket_depth(labelled_views(items@), l@, items@.len() as int),
{
    let ghost iv = labelled_views(items@);
    let mut members: Vec<usize> = Vec::new();
    let mut maxd: usize = 0;
    let mut j: usize = 0;
    while j < items.len()
        invariant
            j <= items@.len(),
            iv == labelled_views(items@),
            forall|k: int| 0 <= k < members@.len() ==> in_bucket(iv, l@, #[trigger] members@[k] as int) && members@[k] < j,
            forall|x: int| 0 <= x < j && #[trigger] in_bucket(iv, l@, x) ==> exists|k: int| 0 <= k < members@.len() && members@[k] == x,
            forall|k1: int, k2: int| 0 <= k1 < k2 < members@.len() ==> members@[k1] < members@[k2],
            maxd == bucket_depth(iv, l@, j as int),
        decreases items@.len() - j,
    {
        let same = chars_eq(items[j].0.as_slice(), l);
        match &items[j].1 {
            Some(p) => {
                if same {
                    assert(in_bucket(iv, l@, j as int));
                    let mut segs = segments_chars(p.as_slice());
                    let ghost full = char_views(segs@);
                    if segs.len() > 0 {
                        segs.pop();
                        assert(char_views(segs@) =~= full.drop_last());
                    }
                    assert(segs@.len() == parent_segments(iv[j as int].1->0).len());
                    if segs.len() > maxd {
                        maxd = segs.len();
                    }
                    let ghost old_members = members@;
                    members.push(j);
                    assert forall|x: int| 0 <= x < j + 1 && #[trigger] in_bucket(iv, l@, x) implies exists|k: int| 0 <= k < members@.len() && members@[k] == x by {
                        if x == j {
                            assert(members@[members@.len() - 1] == x);
                        } else {
                            let k = choose|k: int| 0 <= k < old_members.len() && old_members[k] == x;
                            assert(members@[k] == x);
                        }
                    }
                } else {
                    assert(!in_bucket(iv, l@, j as int));
                }
            },
            None => {
                assert(!in_bucket(iv, l@, j as int));
            },
        }
        j = j + 1;
    }
    let r = (members, maxd);
    assert forall|x: int| #[trigger] in_bucket(labelled_views(items@), l@, x) implies exists|k: int| 0 <= k < r.0@.len() && r.0@[k] == x by {
        assert(in_bucket(iv, l@, x));
        assert(0 <= x < j);
        let k = choose|k: int| 0 <= k < r.0@.len() && r.0@[k] == x;
    }
    r
}

/// Whether the grown labels of `members` at depth `d` are pairwise distinct.
fn distinct_exec(items: &[(Vec<char>, Option<Vec<char>>)], l: Ghost<Seq<char>>, members: &[usize], d: usize) -> (r: bool)
    requires
        forall|k: int| 0 <= k < members@.len() ==> in_bucket(labelled_views(items@), l@, #[trigger] members@[k] as int),
        forall|j: int| #[trigger] in_bucket(labelled_views(items@), l@, j) ==> exists|k: int| 0 <= k < members@.len() && members@[k] == j,
        forall|k1: int, k2: int| 0 <= k1 < k2 < members@.len() ==> members@[k1] < members@[k2],
    ensures
        r == distinct_at(labelled_views(items@), l@, d as nat),
{
    let ghost iv = labelled_views(items@);
    let mut grown: Vec<Vec<char>> = Vec::new();
    let mut k: usize = 0;
    while k < members.len()
        invariant
            k <= members@.len(),
            iv == labelled_views(items@),
            forall|x: int| 0 <= x < members@.len() ==> in_bucket(iv, l@, #[trigger] members@[x] as int),
            grown@.len() == k,
            forall|x: int| 0 <= x < k ==> (#[trigger] grown@[x])@ == grown_label(iv[members@[x] as int].1->0, d as nat),
        decreases members@.len() - k,
    {
        let m = members[k];
        assert(in_bucket(iv, l@, m as int));
        let p = match &items[m].1 {
            Some(p) => p,
            None => {
                assert(false);
                return false;
            },
        };
        let g = grown_label_exec(p.as_slice(), d);
        grown.push(g);
        k = k + 1;
    }
    let mut a: usize = 0;
    while a < grown.len()
        invariant
            a <= grown@.len(),
            iv == labelled_views(items@),
            grown@.len() == members@.len(),
            forall|x: int| 0 <= x < members@.len() ==> in_bucket(iv, l@, #[trigger] members@[x] as int),
            forall|j: int| #[trigger] in_bucket(iv, l@, j) ==> exists|k: int| 0 <= k < members@.len() && members@[k] == j,
            forall|k1: int, k2: int| 0 <= k1 < k2 < members@.len() ==> members@[k1] < members@[k2],
            forall|x: int| 0 <= x < members@.len() ==> (#[trigger] grown@[x])@ == grown_label(iv[members@[x] as int].1->0, d as nat),
            forall|x: int, y: int| 0 <= x < a && 0 <= y < grown@.len() && x != y ==> (#[trigger] grown@[x])@ != (#[trigger] grown@[y])@,
        decreases grown@.len() - a,
    {
        let mut b: usize = 0;
        while b < grown.len()
            invariant
                a < grown@.len(),
                b <= grown@.len(),
                iv == labelled_views(items@),
                grown@.len() == members@.len(),
                forall|x: int| 0 <= x < members@.len() ==> in_bucket(iv, l@, #[trigger] members@[x] as int),
                forall|k1: int, k2: int| 0 <= k1 < k2 < members@.len() ==> members@[k1] < members@[k2],
                forall|x: int| 0 <= x < members@.len() ==> (#[trigger] grown@[x])@ == grown_label(iv[members@[x] as int].1->0, d as nat),
                forall|y: int| 0 <= y < b && a != y ==> grown@[a as int]@ != (#[trigger] grown@[y])@,
            decreases grown@.len() - b,
        {
            if a != b && chars_eq(grown[a].as_slice(), grown[b].as_slice()) {
                proof {
                    let ma = members@[a as int] as int;
                    let mb = members@[b as int] as int;
                    if a < b {
                        assert(ma < mb);
                    } else {
                        assert(mb < ma);
                    }
                    assert(in_bucket(iv, l@, ma) && in_bucket(iv, l@, mb));
                    assert(!distinct_at(iv, l@, d as nat));
                }
                return false;
            }
            b = b + 1;
        }
        a = a + 1;
    }
    proof {
        assert forall|x: int, y: int|
            #![trigger in_bucket(iv, l@, x), in_bucket(iv, l@, y)]
            in_bucket(iv, l@, x) && in_bucket(iv, l@, y) && x != y implies grown_label(
            iv[x].1->0,
            d as nat,
        ) != grown_label(iv[y].1->0, d as nat) by {
            let kx = choose|k: int| 0 <= k < members@.len() && members@[k] == x;
            let ky = choose|k: int| 0 <= k < members@.len() && members@[k] == y;
            assert(grown@[kx]@ != grown@[ky]@);
        }
    }
    true
}

/// The labels of `items` once colliding labels have grown, as [`settled_label`] says.
pub fn settled_labels(items: &[(Vec<char>, Option<Vec<char>>)]) -> (r: Vec<Vec<char>>)
    ensures
        r@.len() == items@.len(),
        forall|i: int| 0 <= i < items@.len() ==> (#[trigger] r@[i])@ == settled_label(labelled_views(items@), i),
{
    let ghost iv = labelled_views(items@);
    let mut out: Vec<Vec<char>> = Vec::new();
    let mut i: usize = 0;
    while i < items.len()
        invariant
            i <= items@.len(),
            iv == labelled_views(items@),
            out@.len() == i,
            forall|x: int| 0 <= x < i ==> (#[trigger] out@[x])@ == settled_label(iv, x),
        decreases items@.len() - i,
    {
        let l = slice_vec(items[i].0.as_slice(), 0, items[i].0.len());
        assert(l@ =~= iv[i as int].0);
        let label = match &items[i].1 {
            None => l,
            Some(p) => {
                let (members, maxd) = bucket_members(items, l.as_slice());
                assert(in_bucket(iv, l@, i as int));
                if members.len() < 2 || maxd == 0 {
                    proof {
                        if members@.len() < 2 && collides(iv, l@) {
                            let (a, b) = choose|a: int, b: int|
                                #![trigger in_bucket(iv, l@, a), in_bucket(iv, l@, b)]
                                in_bucket(iv, l@, a) && in_bucket(iv, l@, b) && a != b;
                            let ka = choose|k: int| 0 <= k < members@.len() && members@[k] == a;
                            let kb = choose|k: int| 0 <= k < members@.len() && members@[k] == b;
                            assert(ka != kb);
                        }
                    }
                    l
                } else {
                    proof {
                        assert(in_bucket(iv, l@, members@[0] as int));
                        assert(in_bucket(iv, l@, members@[1] as int));
                        assert(members@[0] < members@[1]);
                        assert(collides(iv, l@));
                    }
                    let mut d: usize = 1;
                    while d < maxd && !distinct_exec(items, Ghost(l@), members.as_slice(), d)
                        invariant
                            1 <= d <= maxd,
                            iv == labelled_views(items@),
                            forall|k: int| 0 <= k < members@.len() ==> in_bucket(iv, l@, #[trigger] members@[k] as int),
                            forall|j: int| #[trigger] in_bucket(iv, l@, j) ==> exists|k: int| 0 <= k < members@.len() && members@[k] == j,
                            forall|k1: int, k2: int| 0 <= k1 < k2 < members@.len() ==> members@[k1] < members@[k2],
                            settle_depth(iv, l@, d as nat, maxd as nat) == settle_depth(iv, l@, 1, maxd as nat),
                        decreases maxd - d,
                    {
                        d = d + 1;
                    }
                    grown_label_exec(p.as_slice(), d)
                }
            },
        };
        out.push(label);
        i = i + 1;
    }
    out
}


// ---------------------------------------------------------------------------
// Sessions and tree nodes
// ---------------------------------------------------------------------------

/// A session row as the tree reads it.
#[derive(Debug, Clone, PartialEq, Eq)]
pub struct Session {
    pub id: String,
    pub cwd: Option<String>,
    pub git_branch: Option<String>,
    pub git_repo_root: Option<String>,
    /// The session's time as a rank (larger is more recent; zero time is rank zero).
    pub recency: i64,
    pub input_tokens: Option<u64>,
    pub output_tokens: Option<u64>,
}

impl Session {
    /// A session with the given id and nothing else known.
    pub fn new(id: &str) -> (r: Self)
        ensures
            r.id@ == id@,
            r.cwd is None,
            r.git_branch is None,
            r.git_repo_root is None,
            r.recency == 0,
            r.input_tokens is None,
            r.output_tokens is None,
    {
        Session {
            id: own_str(id),
            cwd: None,
            git_branch: None,
            git_repo_root: None,
            recency: 0,
            input_tokens: None,
            output_tokens: None,
        }
    }

    /// This session with the given working directory.
    pub fn with_cwd(self, cwd: &str) -> (r: Self)
        ensures
            r == (Session { cwd: r.cwd, ..self }),
            r.cwd matches Some(c) && c@ == cwd@,
    {
        Session { cwd: Some(own_str(cwd)), ..self }
    }

    /// This session with the given branch.
    pub fn with_branch(self, b: &str) -> (r: Self)
        ensures
            r == (Session { git_branch: r.git_branch, ..self }),
            r.git_branch matches Some(c) && c@ == b@,
    {
        Session { git_branch: Some(own_str(b)), ..self }
    }

    /// This session with the given persisted repo root.
    pub fn with_repo_root(self, root: &str) -> (r: Self)
        ensures
            r == (Session { git_repo_root: r.git_repo_root, ..self }),
            r.git_repo_root matches Some(c) && c@ == root@,
    {
        Session { git_repo_root: Some(own_str(root)), ..self }
    }

    /// This session with the given recency rank.
    pub fn with_recency(self, recency: i64) -> (r: Self)
        ensures
            r == (Session { recency, ..self }),
    {
        Session { recency, ..self }
    }

    /// This session with the given token counts.
    pub fn with_tokens(self, input: u64, output: u64) -> (r: Self)
        ensures
            r == (Session { input_tokens: Some(input), output_tokens: Some(output), ..self }),
    {
        Session { input_tokens: Some(input), output_tokens: Some(output), ..self }
    }
}

fn copy_opt(o: &Option<String>) -> (r: Option<String>)
    ensures
        r == *o,
{
    match o {
        Some(s) => Some(s.clone()),
        None => None,
    }
}

fn copy_session(s: &Session) -> (r: Session)
    ensures
        r == *s,
{
    Session {
        id: s.id.clone(),
        cwd: copy_opt(&s.cwd),
        git_branch: copy_opt(&s.git_branch),
        git_repo_root: copy_opt(&s.git_repo_root),
        recency: s.recency,
        input_tokens: s.input_tokens,
        output_tokens: s.output_tokens,
    }
}

/// A lane: the sessions of one branch or kanban worktree of a repo.
#[derive(Debug, Clone, PartialEq, Eq)]
pub struct LaneGroup {
    pub id: String,
    pub label: String,
    pub path: Option<String>,
    pub is_main: bool,
    pub is_kanban: bool,
    pub sessions: Vec<Session>,
}

/// A repo with its lanes and the number of its sessions.
#[derive(Debug, Clone, PartialEq, Eq)]
pub struct RepoNode {
    pub id: String,
    pub label: String,
    pub path: Option<String>,
    pub groups: Vec<LaneGroup>,
    pub session_count: usize,
}

pub open spec fn opt_view(o: Option<String>) -> Option<Seq<char>> {
    match o {
        Some(s) => Some(s@),
        None => None,
    }
}

/// The text of a lane.
pub struct LaneModel {
    pub id: Seq<char>,
    pub label: Seq<char>,
    pub path: Option<Seq<char>>,
    pub is_main: bool,
    pub is_kanban: bool,
    pub sessions: Seq<Session>,
}

/// The text of a repo.
pub struct RepoModel {
    pub id: Seq<char>,
    pub label: Seq<char>,
    pub path: Option<Seq<char>>,
    pub groups: Seq<LaneModel>,
    pub session_count: nat,
}

pub open spec fn lane_view(g: LaneGroup) -> LaneModel {
    LaneModel {
        id: g.id@,
        label: g.label@,
        path: opt_view(g.path),
        is_main: g.is_main,
        is_kanban: g.is_kanban,
        sessions: g.sessions@,
    }
}

pub open spec fn lane_views(v: Seq<LaneGroup>) -> Seq<LaneModel> {
    v.map_values(|g: LaneGroup| lane_view(g))
}

pub open spec fn repo_view(r: RepoNode) -> RepoModel {
    RepoModel {
        id: r.id@,
        label: r.label@,
        path: opt_view(r.path),
        groups: lane_views(r.groups@),
        session_count: r.session_count as nat,
    }
}

pub open spec fn repo_views(v: Seq<RepoNode>) -> Seq<RepoModel> {
    v.map_values(|r: RepoNode| repo_view(r))
}

// ---------------------------------------------------------------------------
// Ordering by recency
// ---------------------------------------------------------------------------

/// `sorted` with `s` inserted before the first session strictly older than it.
pub open spec fn insert_by_recency(sorted: Seq<Session>, s: Session) -> Seq<Session>
    decreases sorted.len(),
{
    if sorted.len() == 0 {
        seq![s]
    } else if sorted[0].recency < s.recency {
        seq![s] + sorted
    } else {
        seq![sorted[0]] + insert_by_recency(sorted.drop_first(), s)
    }
}

/// The sessions newest first, in their given order among equal times (a stable sort).
pub open spec fn newest_first(ss: Seq<Session>) -> Seq<Session>
    decreases ss.len(),
{
    if ss.len() == 0 {
        Seq::empty()
    } else {
        insert_by_recency(newest_first(ss.drop_last()), ss.last())
    }
}

fn insert_by_recency_exec(sorted: Vec<Session>, s: Session) -> (r: Vec<Session>)
    ensures
        r@ == insert_by_recency(sorted@, s),
{
    let mut i: usize = 0;
    assert(sorted@.subrange(0, 0) + sorted@.subrange(0, sorted@.len() as int) =~= sorted@);
    while i < sorted.len() && !(sorted[i].recency < s.recency)
        invariant
            i <= sorted@.len(),
            insert_by_recency(sorted@, s) == sorted@.subrange(0, i as int) + insert_by_recency(
                sorted@.subrange(i as int, sorted@.len() as int),
                s,
            ),
        decreases sorted@.len() - i,
    {
        proof {
            let rest = sorted@.subrange(i as int, sorted@.len() as int);
            assert(rest.drop_first() =~= sorted@.subrange(i + 1, sorted@.len() as int));
            assert(sorted@.subrange(0, i + 1) =~= sorted@.subrange(0, i as int) + seq![rest[0]]);
        }
        i = i + 1;
    }
    let mut out: Vec<Session> = Vec::new();
    let mut k: usize = 0;
    while k < i
        invariant
            k <= i <= sorted@.len(),
            out@ == sorted@.subrange(0, k as int),
        decreases i - k,
    {
        out.push(copy_session(&sorted[k]));
        k = k + 1;
        assert(out@ =~= sorted@.subrange(0, k as int));
    }
    out.push(s);
    let mut k: usize = i;
    while k < sorted.len()
        invariant
            i <= k <= sorted@.len(),
            out@ == sorted@.subrange(0, i as int) + seq![s] + sorted@.subrange(i as int, k as int),
        decreases sorted@.len() - k,
    {
        out.push(copy_session(&sorted[k]));
        k = k + 1;
        assert(out@ =~= sorted@.subrange(0, i as int) + seq![s] + sorted@.subrange(i as int, k as int));
    }
    proof {
        let rest = sorted@.subrange(i as int, sorted@.len() as int);
        if rest.len() == 0 {
            assert(insert_by_recency(rest, s) =~= seq![s]);
        } else {
            assert(insert_by_recency(rest, s) == seq![s] + rest);
        }
        assert(out@ =~= insert_by_recency(sorted@, s));
    }
    out
}

/// Sorts sessions newest first, keeping the given order among equal times.
fn newest_first_exec(ss: &[Session]) -> (r: Vec<Session>)
    ensures
        r@ == newest_first(ss@),
{
    let mut out: Vec<Session> = Vec::new();
    let mut i: usize = 0;
    while i < ss.len()
        invariant
            i <= ss@.len(),
            out@ == newest_first(ss@.take(i as int)),
        decreases ss@.len() - i,
    {
        assert(ss@.take(i + 1).drop_last() =~= ss@.take(i as int));
        out = insert_by_recency_exec(out, copy_session(&ss[i]));
        i = i + 1;
    }
    assert(ss@.take(ss@.len() as int) =~= ss@);
    out
}


// ---------------------------------------------------------------------------
// Ordering lanes
// ---------------------------------------------------------------------------

/// A trunk branch name: `main`, `master`, `trunk` or `develop`.
pub open spec fn trunk_name(l: Seq<char>) -> bool {
    l == "main"@ || l == "master"@ || l == "trunk"@ || l == "develop"@
}

/// The lane is the main checkout of a trunk branch.
pub open spec fn is_trunk(g: LaneModel) -> bool {
    g.is_main && trunk_name(unicode_lower(g.label))
}

/// The most recent rank among `ss`, and at least zero.
pub open spec fn max_recency(ss: Seq<Session>) -> int
    decreases ss.len(),
{
    if ss.len() == 0 {
        0
    } else {
        let m = max_recency(ss.drop_last());
        if ss.last().recency > m {
            ss.last().recency as int
        } else {
            m
        }
    }
}

/// Lane `a` sorts before lane `b`: trunk lanes first, kanban lanes last, then the most
/// recently active first, then by lower-cased label.
pub open spec fn lane_lt(a: LaneModel, b: LaneModel) -> bool {
    let ta: int = if is_trunk(a) {
        0
    } else {
        1
    };
    let tb: int = if is_trunk(b) {
        0
    } else {
        1
    };
    let ka: int = if a.is_kanban {
        1
    } else {
        0
    };
    let kb: int = if b.is_kanban {
        1
    } else {
        0
    };
    ta < tb || (ta == tb && (ka < kb || (ka == kb && (max_recency(a.sessions) > max_recency(
        b.sessions,
    ) || (max_recency(a.sessions) == max_recency(b.sessions) && lex_lt(
        unicode_lower(a.label),
        unicode_lower(b.label),
    ))))))
}

/// `sorted` with `g` inserted before the first lane it sorts before.
pub open spec fn insert_lane(sorted: Seq<LaneModel>, g: LaneModel) -> Seq<LaneModel>
    decreases sorted.len(),
{
    if sorted.len() == 0 {
        seq![g]
    } else if lane_lt(g, sorted[0]) {
        seq![g] + sorted
    } else {
        seq![sorted[0]] + insert_lane(sorted.drop_first(), g)
    }
}

/// The lanes in lane order, keeping their given order among equal keys (a stable sort).
pub open spec fn sort_lanes(gs: Seq<LaneModel>) -> Seq<LaneModel>
    decreases gs.len(),
{
    if gs.len() == 0 {
        Seq::empty()
    } else {
        insert_lane(sort_lanes(gs.drop_last()), gs.last())
    }
}

/// The class a lane sorts in before recency is looked at: trunk lanes first, and among the
/// trunk lanes and among the others, the kanban lanes after the rest.
pub open spec fn lane_rank(g: LaneModel) -> int {
    (if is_trunk(g) {
        0int
    } else {
        2int
    }) + (if g.is_kanban {
        1int
    } else {
        0int
    })
}

/// Lane `a` may stand before lane `b`: a lower rank, or the same rank and activity at
/// least as recent.
pub open spec fn lane_key_le(a: LaneModel, b: LaneModel) -> bool {
    lane_rank(a) < lane_rank(b) || (lane_rank(a) == lane_rank(b) && max_recency(a.sessions) >= max_recency(
        b.sessions,
    ))
}

/// The lanes of `gs` come in nondecreasing rank, the most recently active first within a
/// rank.
pub open spec fn ranked(gs: Seq<LaneModel>) -> bool {
    forall|a: int, b: int| 0 <= a < b < gs.len() ==> lane_key_le(#[trigger] gs[a], #[trigger] gs[b])
}

proof fn lemma_insert_lane_ranked(sorted: Seq<LaneModel>, g: LaneModel)
    requires
        ranked(sorted),
    ensures
        insert_lane(sorted, g).len() == sorted.len() + 1,
        ranked(insert_lane(sorted, g)),
        forall|k: int|
            0 <= k < insert_lane(sorted, g).len() ==> #[trigger] insert_lane(sorted, g)[k] == g || exists|j: int|
                0 <= j < sorted.len() && insert_lane(sorted, g)[k] == #[trigger] sorted[j],
    decreases sorted.len(),
{
    if sorted.len() == 0 {
    } else if lane_lt(g, sorted[0]) {
        let r = seq![g] + sorted;
        assert(lane_key_le(g, sorted[0]));
        assert forall|a: int, b: int| 0 <= a < b < r.len() implies lane_key_le(#[trigger] r[a], #[trigger] r[b]) by {
            if a == 0 {
                assert(r[b] == sorted[b - 1]);
                if b - 1 > 0 {
                    assert(lane_key_le(sorted[0], sorted[b - 1]));
                }
            } else {
                assert(r[a] == sorted[a - 1] && r[b] == sorted[b - 1]);
            }
        }
        assert forall|k: int| 0 <= k < r.len() implies #[trigger] r[k] == g || exists|j: int|
            0 <= j < sorted.len() && r[k] == #[trigger] sorted[j] by {
            if k > 0 {
                assert(r[k] == sorted[k - 1]);
            }
        }
    } else {
        let rest = sorted.drop_first();
        assert(ranked(rest)) by {
            assert forall|a: int, b: int| 0 <= a < b < rest.len() implies lane_key_le(#[trigger] rest[a], #[trigger] rest[b]) by {
                assert(rest[a] == sorted[a + 1] && rest[b] == sorted[b + 1]);
            }
        }
        lemma_insert_lane_ranked(rest, g);
        let t = insert_lane(rest, g);
        let r = seq![sorted[0]] + t;
        assert(r == insert_lane(sorted, g));
        assert(lane_key_le(sorted[0], g));
        assert forall|k: int| 0 <= k < t.len() implies lane_key_le(sorted[0], #[trigger] t[k]) by {
            if t[k] != g {
                let j = choose|j: int| 0 <= j < rest.len() && t[k] == #[trigger] rest[j];
                assert(rest[j] == sorted[j + 1]);
            }
        }
        assert forall|a: int, b: int| 0 <= a < b < r.len() implies lane_key_le(#[trigger] r[a], #[trigger] r[b]) by {
            assert(r[b] == t[b - 1]);
            if a > 0 {
                assert(r[a] == t[a - 1]);
            }
        }
        assert forall|k: int| 0 <= k < r.len() implies #[trigger] r[k] == g || exists|j: int|
            0 <= j < sorted.len() && r[k] == #[trigger] sorted[j] by {
            if k == 0 {
                assert(r[k] == sorted[0]);
            } else {
                assert(r[k] == t[k - 1]);
                if t[k - 1] != g {
                    let j = choose|j: int| 0 <= j < rest.len() && t[k - 1] == #[trigger] rest[j];
                    assert(rest[j] == sorted[j + 1]);
                }
            }
        }
    }
}

/// Sorting keeps every lane and puts them in rank order: trunk lanes before the others, and
/// within each, kanban lanes after the rest; within a rank the most recently active lane
/// comes first.
pub proof fn lemma_sort_lanes_ranked(gs: Seq<LaneModel>)
    ensures
        sort_lanes(gs).len() == gs.len(),
        ranked(sort_lanes(gs)),
    decreases gs.len(),
{
    if gs.len() > 0 {
        lemma_sort_lanes_ranked(gs.drop_last());
        lemma_insert_lane_ranked(sort_lanes(gs.drop_last()), gs.last());
    }
}

/// A repo's finished lanes keep the sorted lanes' identity and kinds, and come in rank order:
/// a trunk lane never follows a lane that is not one, a kanban lane comes before a lane that
/// is not kanban only when it is itself a trunk lane (a main checkout), and within a rank the
/// more recently active lane comes first.
pub proof fn lemma_finish_lanes_kanban_last(gs: Seq<LaneModel>, hydrate: bool)
    ensures
        finish_lanes(gs, hydrate).len() == gs.len(),
        ranked(sort_lanes(gs)),
        forall|i: int|
            0 <= i < gs.len() ==> (#[trigger] finish_lanes(gs, hydrate)[i]).is_kanban == sort_lanes(gs)[i].is_kanban
                && finish_lanes(gs, hydrate)[i].is_main == sort_lanes(gs)[i].is_main
                && finish_lanes(gs, hydrate)[i].id == sort_lanes(gs)[i].id,
        forall|a: int, b: int|
            0 <= a < b < gs.len() && (#[trigger] finish_lanes(gs, hydrate)[a]).is_kanban
                && !(#[trigger] finish_lanes(gs, hydrate)[b]).is_kanban ==> finish_lanes(gs, hydrate)[a].is_main
                && is_trunk(sort_lanes(gs)[a]),
        forall|a: int, b: int|
            0 <= a < b < gs.len() && is_trunk(#[trigger] sort_lanes(gs)[b]) ==> is_trunk(
                #[trigger] sort_lanes(gs)[a],
            ),
        forall|a: int, b: int|
            0 <= a < b < gs.len() && lane_rank(#[trigger] sort_lanes(gs)[a]) == lane_rank(
                #[trigger] sort_lanes(gs)[b],
            ) ==> max_recency(sort_lanes(gs)[a].sessions) >= max_recency(sort_lanes(gs)[b].sessions),
{
    lemma_sort_lanes_ranked(gs);
    let s = sort_lanes(gs);
    let f = finish_lanes(gs, hydrate);
    assert forall|a: int, b: int|
        0 <= a < b < gs.len() && (#[trigger] f[a]).is_kanban && !(#[trigger] f[b]).is_kanban implies f[a].is_main
        && is_trunk(s[a]) by {
        assert(f[a].is_kanban == s[a].is_kanban && f[b].is_kanban == s[b].is_kanban);
        assert(lane_key_le(s[a], s[b]));
    }
    assert forall|a: int, b: int| 0 <= a < b < gs.len() && is_trunk(#[trigger] s[b]) implies is_trunk(
        #[trigger] s[a],
    ) by {
        assert(lane_key_le(s[a], s[b]));
    }
}

fn max_recency_exec(ss: &[Session]) -> (r: i64)
    ensures
        r == max_recency(ss@),
{
    let mut m: i64 = 0;
    let mut i: usize = 0;
    while i < ss.len()
        invariant
            i <= ss@.len(),
            m == max_recency(ss@.take(i as int)),
        decreases ss@.len() - i,
    {
        assert(ss@.take(i + 1).drop_last() =~= ss@.take(i as int));
        if ss[i].recency > m {
            m = ss[i].recency;
        }
        i = i + 1;
    }
    assert(ss@.take(ss@.len() as int) =~= ss@);
    m
}

fn is_trunk_exec(g: &LaneGroup) -> (r: bool)
    ensures
        r == is_trunk(lane_view(*g)),
{
    if !g.is_main {
        return false;
    }
    let low = to_lowercase_str(g.label.as_str());
    let c = to_chars(low.as_str());
    crate::text::chars_eq_str(c.as_slice(), "main") || crate::text::chars_eq_str(c.as_slice(), "master")
        || crate::text::chars_eq_str(c.as_slice(), "trunk") || crate::text::chars_eq_str(c.as_slice(), "develop")
}

fn lane_lt_exec(a: &LaneGroup, b: &LaneGroup) -> (r: bool)
    ensures
        r == lane_lt(lane_view(*a), lane_view(*b)),
{
    let ta: u8 = if is_trunk_exec(a) {
        0
    } else {
        1
    };
    let tb: u8 = if is_trunk_exec(b) {
        0
    } else {
        1
    };
    if ta != tb {
        return ta < tb;
    }
    let ka: u8 = if a.is_kanban {
        1
    } else {
        0
    };
    let kb: u8 = if b.is_kanban {
        1
    } else {
        0
    };
    if ka != kb {
        return ka < kb;
    }
    let ma = max_recency_exec(a.sessions.as_slice());
    let mb = max_recency_exec(b.sessions.as_slice());
    if ma != mb {
        return ma > mb;
    }
    let la = to_lowercase_str(a.label.as_str());
    let lb = to_lowercase_str(b.label.as_str());
    let ca = to_chars(la.as_str());
    let cb = to_chars(lb.as_str());
    lex_lt_exec(ca.as_slice(), cb.as_slice())
}

fn copy_sessions(v: &[Session]) -> (r: Vec<Session>)
    ensures
        r@ == v@,
{
    let mut out: Vec<Session> = Vec::new();
    let mut i: usize = 0;
    while i < v.len()
        invariant
            i <= v@.len(),
            out@ == v@.take(i as int),
        decreases v@.len() - i,
    {
        out.push(copy_session(&v[i]));
        i = i + 1;
        assert(out@ =~= v@.take(i as int));
    }
    assert(v@.take(v@.len() as int) =~= v@);
    out
}

fn copy_lane(g: &LaneGroup) -> (r: LaneGroup)
    ensures
        lane_view(r) == lane_view(*g),
{
    LaneGroup {
        id: g.id.clone(),
        label: g.label.clone(),
        path: copy_opt(&g.path),
        is_main: g.is_main,
        is_kanban: g.is_kanban,
        sessions: copy_sessions(g.sessions.as_slice()),
    }
}

fn insert_lane_exec(sorted: Vec<LaneGroup>, g: LaneGroup) -> (r: Vec<LaneGroup>)
    ensures
        lane_views(r@) == insert_lane(lane_views(sorted@), lane_view(g)),
{
    let ghost sv = lane_views(sorted@);
    let mut i: usize = 0;
    assert(sv.subrange(0, 0) + sv.subrange(0, sv.len() as int) =~= sv);
    while i < sorted.len() && !lane_lt_exec(&g, &sorted[i])
        invariant
            i <= sorted@.len(),
            sv == lane_views(sorted@),
            insert_lane(sv, lane_view(g)) == sv.subrange(0, i as int) + insert_lane(
                sv.subrange(i as int, sv.len() as int),
                lane_view(g),
            ),
        decreases sorted@.len() - i,
    {
        proof {
            let rest = sv.subrange(i as int, sv.len() as int);
            assert(rest.drop_first() =~= sv.subrange(i + 1, sv.len() as int));
            assert(sv.subrange(0, i + 1) =~= sv.subrange(0, i as int) + seq![rest[0]]);
        }
        i = i + 1;
    }
    let mut out: Vec<LaneGroup> = Vec::new();
    let mut k: usize = 0;
    while k < i
        invariant
            k <= i <= sorted@.len(),
            sv == lane_views(sorted@),
            lane_views(out@) == sv.subrange(0, k as int),
        decreases i - k,
    {
        let ghost before = lane_views(out@);
        let x = copy_lane(&sorted[k]);
        out.push(x);
        k = k + 1;
        assert(lane_views(out@) =~= before.push(lane_view(x)));
        assert(lane_views(out@) =~= sv.subrange(0, k as int));
    }
    let ghost before = lane_views(out@);
    let ghost gv = lane_view(g);
    out.push(g);
    assert(lane_views(out@) =~= before.push(gv));
    let mut k: usize = i;
    while k < sorted.len()
        invariant
            i <= k <= sorted@.len(),
            sv == lane_views(sorted@),
            lane_views(out@) == sv.subrange(0, i as int) + seq![gv] + sv.subrange(i as int, k as int),
        decreases sorted@.len() - k,
    {
        let ghost before = lane_views(out@);
        let x = copy_lane(&sorted[k]);
        out.push(x);
        k = k + 1;
        assert(lane_views(out@) =~= before.push(lane_view(x)));
        assert(lane_views(out@) =~= sv.subrange(0, i as int) + seq![gv] + sv.subrange(i as int, k as int));
    }
    proof {
        let rest = sv.subrange(i as int, sv.len() as int);
        if rest.len() == 0 {
            assert(insert_lane(rest, gv) =~= seq![gv]);
        } else {
            assert(insert_lane(rest, gv) == seq![gv] + rest);
        }
        assert(lane_views(out@) =~= insert_lane(sv, gv));
    }
    out
}

/// Sorts lanes into lane order, keeping their given order among equal keys.
fn sort_lanes_exec(gs: &[LaneGroup]) -> (r: Vec<LaneGroup>)
    ensures
        lane_views(r@) == sort_lanes(lane_views(gs@)),
{
    let ghost gv = lane_views(gs@);
    let mut out: Vec<LaneGroup> = Vec::new();
    let mut i: usize = 0;
    while i < gs.len()
        invariant
            i <= gs@.len(),
            gv == lane_views(gs@),
            lane_views(out@) == sort_lanes(gv.take(i as int)),
        decreases gs@.len() - i,
    {
        assert(gv.take(i + 1).drop_last() =~= gv.take(i as int));
        out = insert_lane_exec(out, copy_lane(&gs[i]));
        i = i + 1;
    }
    assert(gv.take(gv.len() as int) =~= gv);
    out
}


// ---------------------------------------------------------------------------
// Gathering sessions into lanes and lanes into repos
// ---------------------------------------------------------------------------

/// A lane as sessions are gathered, with its identity and the repo it belongs to.
pub struct LaneEntryModel {
    pub ident: Seq<char>,
    pub lane: LaneModel,
    pub repo_key: Seq<char>,
    pub repo_label: Seq<char>,
    pub repo_path: Seq<char>,
}

/// The trimmed working directory of a session (empty where it has none).
pub open spec fn cwd_text(s: Session) -> Seq<char> {
    match s.cwd {
        Some(c) => trim(c@),
        None => Seq::empty(),
    }
}

/// A session joins a lane when it has a working directory and a placement.
pub open spec fn placed(s: Session, p: Option<PlacementModel>) -> bool {
    cwd_text(s).len() > 0 && p is Some
}

/// The first lane entry at or after `i` with identity `id`.
pub open spec fn find_ident(es: Seq<LaneEntryModel>, id: Seq<char>, i: int) -> Option<int>
    decreases es.len() - i,
{
    if i < 0 || i >= es.len() {
        None
    } else if es[i].ident == id {
        Some(i)
    } else {
        find_ident(es, id, i + 1)
    }
}

/// A new lane entry for a session placed at `p`.
pub open spec fn new_lane_entry(id: Seq<char>, p: PlacementModel, s: Session) -> LaneEntryModel {
    LaneEntryModel {
        ident: id,
        lane: LaneModel {
            id: p.lane_key,
            label: p.lane_label,
            path: Some(p.lane_path),
            is_main: p.is_main,
            is_kanban: p.is_kanban,
            sessions: seq![s],
        },
        repo_key: p.repo_key,
        repo_label: p.repo_label,
        repo_path: p.repo_path,
    }
}

/// The lanes gathered from the first `n` sessions: one per lane identity (the canonical
/// lane key), in order of first appearance, described by its first session's placement and
/// holding its sessions in order.
pub open spec fn lanes_upto(ss: Seq<Session>, ps: Seq<Option<PlacementModel>>, n: int) -> Seq<LaneEntryModel>
    decreases n,
{
    if n <= 0 {
        Seq::empty()
    } else {
        let prev = lanes_upto(ss, ps, n - 1);
        if placed(ss[n - 1], ps[n - 1]) {
            let p = ps[n - 1]->0;
            let id = lane_key_spec(p.lane_key);
            match find_ident(prev, id, 0) {
                Some(i) => prev.update(
                    i,
                    LaneEntryModel {
                        lane: LaneModel { sessions: prev[i].lane.sessions.push(ss[n - 1]), ..prev[i].lane },
                        ..prev[i]
                    },
                ),
                None => prev.push(new_lane_entry(id, p, ss[n - 1])),
            }
        } else {
            prev
        }
    }
}

/// A gathered lane with its sessions newest first.
pub open spec fn sorted_lane(e: LaneEntryModel) -> LaneModel {
    LaneModel { sessions: newest_first(e.lane.sessions), ..e.lane }
}

/// The first repo at or after `i` whose id has the canonical key `key`.
pub open spec fn find_repo(rs: Seq<RepoModel>, key: Seq<char>, i: int) -> Option<int>
    decreases rs.len() - i,
{
    if i < 0 || i >= rs.len() {
        None
    } else if path_key_spec(rs[i].id) == key {
        Some(i)
    } else {
        find_repo(rs, key, i + 1)
    }
}

/// The repos gathered from the first `n` lanes: one per canonical repo key, in order of first
/// appearance, described by its first lane's repo, holding its lanes (sessions newest first)
/// and counting their sessions.
pub open spec fn repos_upto(es: Seq<LaneEntryModel>, n: int) -> Seq<RepoModel>
    decreases n,
{
    if n <= 0 {
        Seq::empty()
    } else {
        let prev = repos_upto(es, n - 1);
        let e = es[n - 1];
        let lane = sorted_lane(e);
        match find_repo(prev, path_key_spec(e.repo_key), 0) {
            Some(i) => prev.update(
                i,
                RepoModel {
                    groups: prev[i].groups.push(lane),
                    session_count: prev[i].session_count + lane.sessions.len(),
                    ..prev[i]
                },
            ),
            None => prev.push(
                RepoModel {
                    id: e.repo_key,
                    label: e.repo_label,
                    path: Some(e.repo_path),
                    groups: seq![lane],
                    session_count: lane.sessions.len(),
                },
            ),
        }
    }
}

/// The labels and paths of lanes, for growing colliding labels.
pub open spec fn lane_items(gs: Seq<LaneModel>) -> Seq<(Seq<char>, Option<Seq<char>>)> {
    gs.map_values(|g: LaneModel| (g.label, g.path))
}

/// The labels and paths of repos, for growing colliding labels.
pub open spec fn repo_items(rs: Seq<RepoModel>) -> Seq<(Seq<char>, Option<Seq<char>>)> {
    rs.map_values(|r: RepoModel| (r.label, r.path))
}

/// A repo's lanes in lane order with colliding labels grown, emptied of sessions unless
/// `hydrate`.
pub open spec fn finish_lanes(gs: Seq<LaneModel>, hydrate: bool) -> Seq<LaneModel> {
    let sorted = sort_lanes(gs);
    Seq::new(
        sorted.len(),
        |i: int|
            LaneModel {
                label: settled_label(lane_items(sorted), i),
                sessions: if hydrate {
                    sorted[i].sessions
                } else {
                    Seq::empty()
                },
                ..sorted[i]
            },
    )
}

/// The repo subtree of `ss` placed at `ps`: sessions gathered into lanes and lanes into repos,
/// each repo's lanes finished, and colliding repo labels grown.
pub open spec fn repos_spec(ss: Seq<Session>, ps: Seq<Option<PlacementModel>>, hydrate: bool) -> Seq<RepoModel> {
    let es = lanes_upto(ss, ps, ss.len() as int);
    let rs = repos_upto(es, es.len() as int);
    let fin = Seq::new(
        rs.len(),
        |i: int| RepoModel { groups: finish_lanes(rs[i].groups, hydrate), ..rs[i] },
    );
    Seq::new(fin.len(), |i: int| RepoModel { label: settled_label(repo_items(fin), i), ..fin[i] })
}

/// In every repo of the subtree, a kanban lane comes before a lane that is not kanban only
/// when it is a main checkout: ordinary lanes are never listed below kanban lanes.
pub proof fn lemma_repos_kanban_last(ss: Seq<Session>, ps: Seq<Option<PlacementModel>>, hydrate: bool)
    ensures
        forall|i: int, a: int, b: int|
            0 <= i < repos_spec(ss, ps, hydrate).len() && 0 <= a < b < repos_spec(ss, ps, hydrate)[i].groups.len()
                && (#[trigger] repos_spec(ss, ps, hydrate)[i].groups[a]).is_kanban
                && !(#[trigger] repos_spec(ss, ps, hydrate)[i].groups[b]).is_kanban ==> repos_spec(
                ss,
                ps,
                hydrate,
            )[i].groups[a].is_main,
{
    let es = lanes_upto(ss, ps, ss.len() as int);
    let rs = repos_upto(es, es.len() as int);
    let r = repos_spec(ss, ps, hydrate);
    assert forall|i: int, a: int, b: int|
        0 <= i < r.len() && 0 <= a < b < r[i].groups.len() && (#[trigger] r[i].groups[a]).is_kanban
            && !(#[trigger] r[i].groups[b]).is_kanban implies r[i].groups[a].is_main by {
        assert(r[i].groups == finish_lanes(rs[i].groups, hydrate));
        lemma_finish_lanes_kanban_last(rs[i].groups, hydrate);
    }
}

// ---- sizes, for bounding the counts ----

pub open spec fn entries_total(es: Seq<LaneEntryModel>) -> nat
    decreases es.len(),
{
    if es.len() == 0 {
        0
    } else {
        entries_total(es.drop_last()) + es.last().lane.sessions.len()
    }
}

pub open spec fn repos_total(rs: Seq<RepoModel>) -> nat
    decreases rs.len(),
{
    if rs.len() == 0 {
        0
    } else {
        repos_total(rs.drop_last()) + rs.last().session_count
    }
}

proof fn lemma_entries_total_update(es: Seq<LaneEntryModel>, i: int, e: LaneEntryModel)
    requires
        0 <= i < es.len(),
    ensures
        entries_total(es.update(i, e)) + es[i].lane.sessions.len() == entries_total(es) + e.lane.sessions.len(),
    decreases es.len(),
{
    if i < es.len() - 1 {
        assert(es.update(i, e).drop_last() =~= es.drop_last().update(i, e));
        lemma_entries_total_update(es.drop_last(), i, e);
    } else {
        assert(es.update(i, e).drop_last() =~= es.drop_last());
    }
}

proof fn lemma_repos_total_update(rs: Seq<RepoModel>, i: int, r: RepoModel)
    requires
        0 <= i < rs.len(),
    ensures
        repos_total(rs.update(i, r)) + rs[i].session_count == repos_total(rs) + r.session_count,
    decreases rs.len(),
{
    if i < rs.len() - 1 {
        assert(rs.update(i, r).drop_last() =~= rs.drop_last().update(i, r));
        lemma_repos_total_update(rs.drop_last(), i, r);
    } else {
        assert(rs.update(i, r).drop_last() =~= rs.drop_last());
    }
}

proof fn lemma_repo_le_total(rs: Seq<RepoModel>, i: int)
    requires
        0 <= i < rs.len(),
    ensures
        rs[i].session_count <= repos_total(rs),
    decreases rs.len(),
{
    if i < rs.len() - 1 {
        lemma_repo_le_total(rs.drop_last(), i);
    }
}

proof fn lemma_entries_prefix_total(es: Seq<LaneEntryModel>, n: int)
    requires
        0 <= n <= es.len(),
    ensures
        entries_total(es.take(n)) <= entries_total(es),
    decreases es.len() - n,
{
    if n < es.len() {
        assert(es.take(n + 1).drop_last() =~= es.take(n));
        lemma_entries_prefix_total(es, n + 1);
    } else {
        assert(es.take(n) =~= es);
    }
}

proof fn lemma_insert_by_recency_len(sorted: Seq<Session>, s: Session)
    ensures
        insert_by_recency(sorted, s).len() == sorted.len() + 1,
    decreases sorted.len(),
{
    if sorted.len() > 0 && !(sorted[0].recency < s.recency) {
        lemma_insert_by_recency_len(sorted.drop_first(), s);
    }
}

proof fn lemma_newest_first_len(ss: Seq<Session>)
    ensures
        newest_first(ss).len() == ss.len(),
    decreases ss.len(),
{
    if ss.len() > 0 {
        lemma_newest_first_len(ss.drop_last());
        lemma_insert_by_recency_len(newest_first(ss.drop_last()), ss.last());
    }
}

// ---- exec ----

struct LaneEntry {
    ident: Vec<char>,
    group: LaneGroup,
    repo_key: String,
    repo_label: String,
    repo_path: String,
}

spec fn entry_view(e: LaneEntry) -> LaneEntryModel {
    LaneEntryModel {
        ident: e.ident@,
        lane: lane_view(e.group),
        repo_key: e.repo_key@,
        repo_label: e.repo_label@,
        repo_path: e.repo_path@,
    }
}

spec fn entry_views(v: Seq<LaneEntry>) -> Seq<LaneEntryModel> {
    v.map_values(|e: LaneEntry| entry_view(e))
}

pub open spec fn placement_views(ps: Seq<Option<Placement>>) -> Seq<Option<PlacementModel>> {
    ps.map_values(|p: Option<Placement>| placement_view(p))
}

fn find_ident_exec(es: &[LaneEntry], id: &[char]) -> (r: Option<usize>)
    ensures
        match r {
            Some(i) => find_ident(entry_views(es@), id@, 0) == Some(i as int) && i < es@.len(),
            None => find_ident(entry_views(es@), id@, 0) is None,
        },
{
    let ghost ev = entry_views(es@);
    let mut i: usize = 0;
    while i < es.len()
        invariant
            i <= es@.len(),
            ev == entry_views(es@),
            find_ident(ev, id@, i as int) == find_ident(ev, id@, 0),
        decreases es@.len() - i,
    {
        if chars_eq(es[i].ident.as_slice(), id) {
            return Some(i);
        }
        i = i + 1;
    }
    None
}

fn cwd_text_exec(s: &Session) -> (r: Vec<char>)
    ensures
        r@ == cwd_text(*s),
{
    match &s.cwd {
        Some(c) => {
            let v = to_chars(c.as_str());
            trim_exec(v.as_slice())
        },
        None => Vec::new(),
    }
}

fn gather_lanes(ss: &[Session], ps: &[Option<Placement>]) -> (r: Vec<LaneEntry>)
    requires
        ps@.len() == ss@.len(),
    ensures
        entry_views(r@) == lanes_upto(ss@, placement_views(ps@), ss@.len() as int),
        entries_total(entry_views(r@)) <= ss@.len(),
{
    let ghost pv = placement_views(ps@);
    let mut es: Vec<LaneEntry> = Vec::new();
    let mut k: usize = 0;
    while k < ss.len()
        invariant
            k <= ss@.len(),
            ps@.len() == ss@.len(),
            pv == placement_views(ps@),
            entry_views(es@) == lanes_upto(ss@, pv, k as int),
            entries_total(entry_views(es@)) <= k,
        decreases ss@.len() - k,
    {
        let ghost prev = entry_views(es@);
        let cwd = cwd_text_exec(&ss[k]);
        if cwd.len() > 0 {
            match &ps[k] {
                Some(p) => {
                    assert(pv[k as int] == Some(p@));
                    let id = lane_key(p.lane_key.as_str());
                    let idc = to_chars(id.as_str());
                    match find_ident_exec(es.as_slice(), idc.as_slice()) {
                        Some(i) => {
                            let mut e = es.remove(i);
                            let ghost ev = entry_view(e);
                            e.group.sessions.push(copy_session(&ss[k]));
                            es.insert(i, e);
                            proof {
                                let newe = LaneEntryModel {
                                    lane: LaneModel { sessions: ev.lane.sessions.push(ss@[k as int]), ..ev.lane },
                                    ..ev
                                };
                                assert(entry_view(e) == newe);
                                assert(entry_views(es@) =~= prev.update(i as int, newe));
                                lemma_entries_total_update(prev, i as int, newe);
                            }
                        },
                        None => {
                            let g = LaneGroup {
                                id: p.lane_key.clone(),
                                label: p.lane_label.clone(),
                                path: Some(p.lane_path.clone()),
                                is_main: p.is_main,
                                is_kanban: p.is_kanban,
                                sessions: vec![copy_session(&ss[k])],
                            };
                            let e = LaneEntry {
                                ident: idc,
                                group: g,
                                repo_key: p.repo_key.clone(),
                                repo_label: p.repo_label.clone(),
                                repo_path: p.repo_path.clone(),
                            };
                            let ghost ev = entry_view(e);
                            es.push(e);
                            proof {
                                assert(ev.lane.sessions =~= seq![ss@[k as int]]);
                                assert(ev == new_lane_entry(id@, p@, ss@[k as int]));
                                assert(entry_views(es@) =~= prev.push(ev));
                                assert(entry_views(es@).drop_last() =~= prev);
                            }
                        },
                    }
                },
                None => {},
            }
        }
        k = k + 1;
    }
    es
}

fn find_repo_exec(rs: &[RepoNode], key: &[char]) -> (r: Option<usize>)
    ensures
        match r {
            Some(i) => find_repo(repo_views(rs@), key@, 0) == Some(i as int) && i < rs@.len(),
            None => find_repo(repo_views(rs@), key@, 0) is None,
        },
{
    let ghost rv = repo_views(rs@);
    let mut i: usize = 0;
    while i < rs.len()
        invariant
            i <= rs@.len(),
            rv == repo_views(rs@),
            find_repo(rv, key@, i as int) == find_repo(rv, key@, 0),
        decreases rs@.len() - i,
    {
        let k = path_key(rs[i].id.as_str());
        let kc = to_chars(k.as_str());
        if chars_eq(kc.as_slice(), key) {
            return Some(i);
        }
        i = i + 1;
    }
    None
}

fn gather_repos(es: Vec<LaneEntry>, bound: Ghost<nat>) -> (r: Vec<RepoNode>)
    requires
        entries_total(entry_views(es@)) <= bound@,
        bound@ <= usize::MAX,
    ensures
        repo_views(r@) == repos_upto(entry_views(es@), es@.len() as int),
{
    let ghost ev = entry_views(es@);
    let mut rs: Vec<RepoNode> = Vec::new();
    let mut n: usize = 0;
    while n < es.len()
        invariant
            n <= es@.len(),
            ev == entry_views(es@),
            entries_total(ev) <= bound@,
            bound@ <= usize::MAX,
            repo_views(rs@) == repos_upto(ev, n as int),
            repos_total(repo_views(rs@)) == entries_total(ev.take(n as int)),
        decreases es@.len() - n,
    {
        let ghost prev = repo_views(rs@);
        proof {
            assert(ev.take(n + 1).drop_last() =~= ev.take(n as int));
            lemma_entries_prefix_total(ev, n + 1);
            lemma_newest_first_len(ev[n as int].lane.sessions);
        }
        let e = &es[n];
        let sessions = newest_first_exec(e.group.sessions.as_slice());
        let count = sessions.len();
        let lane = LaneGroup {
            id: e.group.id.clone(),
            label: e.group.label.clone(),
            path: copy_opt(&e.group.path),
            is_main: e.group.is_main,
            is_kanban: e.group.is_kanban,
            sessions,
        };
        assert(lane_view(lane) == sorted_lane(ev[n as int]));
        let key = path_key(e.repo_key.as_str());
        let kc = to_chars(key.as_str());
        match find_repo_exec(rs.as_slice(), kc.as_slice()) {
            Some(i) => {
                let mut r = rs.remove(i);
                let ghost rv0 = repo_view(r);
                proof {
                    lemma_repo_le_total(prev, i as int);
                }
                let ghost lv = lane_view(lane);
                let ghost gv0 = lane_views(r.groups@);
                r.groups.push(lane);
                assert(lane_views(r.groups@) =~= gv0.push(lv));
                r.session_count = r.session_count + count;
                rs.insert(i, r);
                proof {
                    let newr = RepoModel {
                        groups: rv0.groups.push(lv),
                        session_count: rv0.session_count + lv.sessions.len(),
                        ..rv0
                    };
                    assert(repo_view(r) == newr);
                    assert(repo_views(rs@) =~= prev.update(i as int, newr));
                    lemma_repos_total_update(prev, i as int, newr);
                }
            },
            None => {
                let ghost lv = lane_view(lane);
                let r = RepoNode {
                    id: e.repo_key.clone(),
                    label: e.repo_label.clone(),
                    path: Some(e.repo_path.clone()),
                    groups: vec![lane],
                    session_count: count,
                };
                let ghost rv = repo_view(r);
                rs.push(r);
                proof {
                    assert(rv.groups =~= seq![lv]);
                    assert(repo_views(rs@) =~= prev.push(rv));
                    assert(repo_views(rs@).drop_last() =~= prev);
                }
            },
        }
        n = n + 1;
    }
    rs
}


// ---------------------------------------------------------------------------
// Finishing lanes and repos
// ---------------------------------------------------------------------------

fn opt_chars(o: &Option<String>) -> (r: Option<Vec<char>>)
    ensures
        match r {
            Some(v) => opt_view(*o) == Some(v@),
            None => o is None,
        },
{
    match o {
        Some(p) => Some(to_chars(p.as_str())),
        None => None,
    }
}

fn lane_label_items(gs: &[LaneGroup]) -> (r: Vec<(Vec<char>, Option<Vec<char>>)>)
    ensures
        labelled_views(r@) == lane_items(lane_views(gs@)),
{
    let mut out: Vec<(Vec<char>, Option<Vec<char>>)> = Vec::new();
    let mut i: usize = 0;
    while i < gs.len()
        invariant
            i <= gs@.len(),
            labelled_views(out@) == lane_items(lane_views(gs@)).take(i as int),
        decreases gs@.len() - i,
    {
        let ghost before = labelled_views(out@);
        let x = (to_chars(gs[i].label.as_str()), opt_chars(&gs[i].path));
        out.push(x);
        assert(labelled_views(out@) =~= before.push(labelled_view(x)));
        assert(lane_items(lane_views(gs@)).take(i + 1) =~= lane_items(lane_views(gs@)).take(i as int).push(labelled_view(x)));
        i = i + 1;
    }
    assert(lane_items(lane_views(gs@)).take(gs@.len() as int) =~= lane_items(lane_views(gs@)));
    out
}

fn repo_label_items(rs: &[RepoNode]) -> (r: Vec<(Vec<char>, Option<Vec<char>>)>)
    ensures
        labelled_views(r@) == repo_items(repo_views(rs@)),
{
    let mut out: Vec<(Vec<char>, Option<Vec<char>>)> = Vec::new();
    let mut i: usize = 0;
    while i < rs.len()
        invariant
            i <= rs@.len(),
            labelled_views(out@) == repo_items(repo_views(rs@)).take(i as int),
        decreases rs@.len() - i,
    {
        let ghost before = labelled_views(out@);
        let x = (to_chars(rs[i].label.as_str()), opt_chars(&rs[i].path));
        out.push(x);
        assert(labelled_views(out@) =~= before.push(labelled_view(x)));
        assert(repo_items(repo_views(rs@)).take(i + 1) =~= repo_items(repo_views(rs@)).take(i as int).push(labelled_view(x)));
        i = i + 1;
    }
    assert(repo_items(repo_views(rs@)).take(rs@.len() as int) =~= repo_items(repo_views(rs@)));
    out
}

fn finish_lanes_exec(gs: &[LaneGroup], hydrate: bool) -> (r: Vec<LaneGroup>)
    ensures
        lane_views(r@) == finish_lanes(lane_views(gs@), hydrate),
{
    let sorted = sort_lanes_exec(gs);
    let items = lane_label_items(sorted.as_slice());
    let labels = settled_labels(items.as_slice());
    assert(labelled_views(items@).len() == items@.len());
    let ghost sv = lane_views(sorted@);
    let ghost target = finish_lanes(lane_views(gs@), hydrate);
    let mut out: Vec<LaneGroup> = Vec::new();
    let mut i: usize = 0;
    while i < sorted.len()
        invariant
            i <= sorted@.len(),
            sv == lane_views(sorted@),
            sv == sort_lanes(lane_views(gs@)),
            target == finish_lanes(lane_views(gs@), hydrate),
            labels@.len() == sorted@.len(),
            forall|x: int| 0 <= x < sorted@.len() ==> (#[trigger] labels@[x])@ == settled_label(lane_items(sv), x),
            lane_views(out@) == target.take(i as int),
        decreases sorted@.len() - i,
    {
        let g = &sorted[i];
        let sessions = if hydrate {
            copy_sessions(g.sessions.as_slice())
        } else {
            Vec::new()
        };
        let x = LaneGroup {
            id: g.id.clone(),
            label: from_chars(labels[i].as_slice()),
            path: copy_opt(&g.path),
            is_main: g.is_main,
            is_kanban: g.is_kanban,
            sessions,
        };
        let ghost before = lane_views(out@);
        out.push(x);
        proof {
            assert(lane_view(x) == target[i as int]);
            assert(lane_views(out@) =~= before.push(lane_view(x)));
            assert(target.take(i + 1) =~= target.take(i as int).push(target[i as int]));
        }
        i = i + 1;
    }
    assert(target.take(target.len() as int) =~= target);
    out
}

/// The repo subtree of sessions at given placements, as [`repos_spec`] says.
pub fn build_repos_from(ss: &[Session], ps: &[Option<Placement>], hydrate: bool) -> (r: Vec<RepoNode>)
    requires
        ps@.len() == ss@.len(),
    ensures
        repo_views(r@) == repos_spec(ss@, placement_views(ps@), hydrate),
        forall|i: int, a: int, b: int|
            0 <= i < r@.len() && 0 <= a < b < r@[i].groups@.len() && (#[trigger] r@[i].groups@[a]).is_kanban
                && !(#[trigger] r@[i].groups@[b]).is_kanban ==> r@[i].groups@[a].is_main,
{
    let es = gather_lanes(ss, ps);
    let ghost ev = entry_views(es@);
    let n = ss.len();
    let rs = gather_repos(es, Ghost(n as nat));
    let ghost rv = repo_views(rs@);
    let ghost fin = Seq::new(
        rv.len(),
        |i: int| RepoModel { groups: finish_lanes(rv[i].groups, hydrate), ..rv[i] },
    );
    let mut done: Vec<RepoNode> = Vec::new();
    let mut i: usize = 0;
    while i < rs.len()
        invariant
            i <= rs@.len(),
            rv == repo_views(rs@),
            fin.len() == rv.len(),
            forall|x: int| 0 <= x < rv.len() ==> #[trigger] fin[x] == (RepoModel { groups: finish_lanes(rv[x].groups, hydrate), ..rv[x] }),
            repo_views(done@) == fin.take(i as int),
        decreases rs@.len() - i,
    {
        let r = &rs[i];
        let groups = finish_lanes_exec(r.groups.as_slice(), hydrate);
        let x = RepoNode {
            id: r.id.clone(),
            label: r.label.clone(),
            path: copy_opt(&r.path),
            groups,
            session_count: r.session_count,
        };
        let ghost before = repo_views(done@);
        done.push(x);
        proof {
            assert(repo_view(x) == fin[i as int]);
            assert(repo_views(done@) =~= before.push(repo_view(x)));
            assert(fin.take(i + 1) =~= fin.take(i as int).push(fin[i as int]));
        }
        i = i + 1;
    }
    assert(fin.take(fin.len() as int) =~= fin);
    let out = relabel_repos(done);
    proof {
        let spec_r = repos_spec(ss@, placement_views(ps@), hydrate);
        lemma_repos_kanban_last(ss@, placement_views(ps@), hydrate);
        assert forall|i: int, a: int, b: int|
            0 <= i < out@.len() && 0 <= a < b < out@[i].groups@.len() && (#[trigger] out@[i].groups@[a]).is_kanban
                && !(#[trigger] out@[i].groups@[b]).is_kanban implies out@[i].groups@[a].is_main by {
            assert(repo_views(out@)[i] == repo_view(out@[i]));
            assert(spec_r[i].groups == lane_views(out@[i].groups@));
            assert(spec_r[i].groups[a] == lane_view(out@[i].groups@[a]));
            assert(spec_r[i].groups[b] == lane_view(out@[i].groups@[b]));
        }
    }
    out
}

/// The repos with colliding labels grown.
pub open spec fn relabelled(rs: Seq<RepoModel>) -> Seq<RepoModel> {
    Seq::new(rs.len(), |i: int| RepoModel { label: settled_label(repo_items(rs), i), ..rs[i] })
}

fn relabel_repos(rs: Vec<RepoNode>) -> (r: Vec<RepoNode>)
    ensures
        repo_views(r@) == relabelled(repo_views(rs@)),
{
    let items = repo_label_items(rs.as_slice());
    let labels = settled_labels(items.as_slice());
    assert(labelled_views(items@).len() == items@.len());
    let ghost rv = repo_views(rs@);
    let ghost target = relabelled(rv);
    let mut out: Vec<RepoNode> = Vec::new();
    let mut i: usize = 0;
    while i < rs.len()
        invariant
            i <= rs@.len(),
            rv == repo_views(rs@),
            target == relabelled(rv),
            labels@.len() == rs@.len(),
            forall|x: int| 0 <= x < rs@.len() ==> (#[trigger] labels@[x])@ == settled_label(repo_items(rv), x),
            repo_views(out@) == target.take(i as int),
        decreases rs@.len() - i,
    {
        let r = &rs[i];
        let mut groups: Vec<LaneGroup> = Vec::new();
        let mut k: usize = 0;
        while k < r.groups.len()
            invariant
                k <= r.groups@.len(),
                lane_views(groups@) == lane_views(r.groups@).take(k as int),
            decreases r.groups@.len() - k,
        {
            let ghost before = lane_views(groups@);
            let g = copy_lane(&r.groups[k]);
            groups.push(g);
            assert(lane_views(groups@) =~= before.push(lane_view(g)));
            assert(lane_views(r.groups@).take(k + 1) =~= lane_views(r.groups@).take(k as int).push(lane_view(r.groups@[k as int])));
            k = k + 1;
        }
        assert(lane_views(r.groups@).take(r.groups@.len() as int) =~= lane_views(r.groups@));
        let x = RepoNode {
            id: r.id.clone(),
            label: from_chars(labels[i].as_slice()),
            path: copy_opt(&r.path),
            groups,
            session_count: r.session_count,
        };
        let ghost before = repo_views(out@);
        out.push(x);
        proof {
            assert(repo_view(x) == target[i as int]);
            assert(repo_views(out@) =~= before.push(repo_view(x)));
            assert(target.take(i + 1) =~= target.take(i as int).push(target[i as int]));
        }
        i = i + 1;
    }
    assert(target.take(target.len() as int) =~= target);
    out
}


// ---------------------------------------------------------------------------
// Placing sessions with a resolver
// ---------------------------------------------------------------------------

/// The trimmed branch of a session (empty where it has none).
pub open spec fn branch_text(s: Session) -> Seq<char> {
    match s.git_branch {
        Some(b) => trim(b@),
        None => Seq::empty(),
    }
}

/// The trimmed persisted repo root of a session (empty where it has none).
pub open spec fn root_text(s: Session) -> Seq<char> {
    match s.git_repo_root {
        Some(b) => trim(b@),
        None => Seq::empty(),
    }
}

/// `p` is a placement that placing session `s` with `resolve` may give: none without a working
/// directory; else the placement of its trimmed directory, branch and persisted root, from
/// what `resolve` answered.
pub open spec fn placement_of<F: Fn(&str) -> Option<ResolveResult>>(
    resolve: Option<&F>,
    s: Session,
    p: Option<PlacementModel>,
) -> bool {
    if cwd_text(s).len() == 0 {
        p is None
    } else {
        match resolve {
            None => p == place_spec(cwd_text(s), branch_text(s), None, root_text(s), Seq::empty()),
            Some(f) => exists|info: Option<ResolveResult>, sib: Seq<char>|
                #[trigger] place_trace(*f, cwd_text(s), branch_text(s), root_text(s), info, sib)
                    && p == place_spec(cwd_text(s), branch_text(s), resolve_view(info), root_text(s), sib),
        }
    }
}

fn opt_trimmed(o: &Option<String>) -> (r: String)
    ensures
        r@ == (match *o {
            Some(b) => trim(b@),
            None => Seq::empty(),
        }),
{
    match o {
        Some(b) => {
            let c = to_chars(b.as_str());
            let t = trim_exec(c.as_slice());
            let r = from_chars(t.as_slice());
            assert(r@ == trim(b@));
            r
        },
        None => {
            proof {
                reveal_strlit("");
            }
            own_str("")
        },
    }
}

/// Places one session with `resolve`, as [`placement_of`] says.
pub fn place_session<F: Fn(&str) -> Option<ResolveResult>>(s: &Session, resolve: Option<&F>) -> (r: Option<Placement>)
    requires
        resolve matches Some(f) ==> forall|x: &str| #[trigger] f.requires((x,)),
    ensures
        placement_of(resolve, *s, placement_view(r)),
{
    let cwd = opt_trimmed(&s.cwd);
    let c = to_chars(cwd.as_str());
    if c.len() == 0 {
        return None;
    }
    assert(cwd@ == cwd_text(*s));
    let branch = opt_trimmed(&s.git_branch);
    let root = opt_trimmed(&s.git_repo_root);
    proof {
        reveal_strlit("");
    }
    place(cwd.as_str(), branch.as_str(), resolve, root.as_str())
}

fn placements_for<F: Fn(&str) -> Option<ResolveResult>>(ss: &[Session], resolve: Option<&F>) -> (r: Vec<Option<Placement>>)
    requires
        resolve matches Some(f) ==> forall|x: &str| #[trigger] f.requires((x,)),
    ensures
        r@.len() == ss@.len(),
        forall|k: int| 0 <= k < ss@.len() ==> placement_of(resolve, ss@[k], #[trigger] placement_views(r@)[k]),
{
    let mut out: Vec<Option<Placement>> = Vec::new();
    let mut k: usize = 0;
    while k < ss.len()
        invariant
            k <= ss@.len(),
            out@.len() == k,
            resolve matches Some(f) ==> forall|x: &str| #[trigger] f.requires((x,)),
            forall|j: int| 0 <= j < k ==> placement_of(resolve, ss@[j], #[trigger] placement_views(out@)[j]),
        decreases ss@.len() - k,
    {
        let ghost before = placement_views(out@);
        let p = place_session(&ss[k], resolve);
        out.push(p);
        assert(placement_views(out@) =~= before.push(placement_view(p)));
        k = k + 1;
    }
    out
}

/// The repo subtree of `sessions`: each session placed with `resolve`, then gathered as
/// [`repos_spec`] says.
pub fn build_repos<F: Fn(&str) -> Option<ResolveResult>>(
    sessions: &[Session],
    resolve: Option<&F>,
    hydrate: bool,
) -> (r: Vec<RepoNode>)
    requires
        resolve matches Some(f) ==> forall|x: &str| #[trigger] f.requires((x,)),
    ensures
        exists|ps: Seq<Option<PlacementModel>>|
            ps.len() == sessions@.len() && (forall|k: int| 0 <= k < ps.len() ==> placement_of(resolve, sessions@[k], #[trigger] ps[k]))
                && repo_views(r@) == repos_spec(sessions@, ps, hydrate),
        forall|i: int, a: int, b: int|
            0 <= i < r@.len() && 0 <= a < b < r@[i].groups@.len() && (#[trigger] r@[i].groups@[a]).is_kanban
                && !(#[trigger] r@[i].groups@[b]).is_kanban ==> r@[i].groups@[a].is_main,
{
    let ps = placements_for(sessions, resolve);
    let r = build_repos_from(sessions, ps.as_slice(), hydrate);
    assert(placement_views(ps@).len() == sessions@.len());
    r
}

// ---------------------------------------------------------------------------
// Seeding declared folders as repos
// ---------------------------------------------------------------------------

/// The repo a declared folder root names: `root` with its base name as label, no lanes.
pub open spec fn seed_repo(root: Seq<char>) -> RepoModel {
    RepoModel {
        id: root,
        label: if base_name_spec(root).len() == 0 {
            root
        } else {
            base_name_spec(root)
        },
        path: Some(root),
        groups: Seq::empty(),
        session_count: 0,
    }
}

/// Repo `r` is known under canonical key `k`, by its id or its path.
pub open spec fn repo_has_key(r: RepoModel, k: Seq<char>) -> bool {
    (r.id.len() > 0 && path_key_spec(r.id) == k) || (r.path matches Some(p) && p.len() > 0
        && path_key_spec(p) == k)
}

/// Some repo of `rs` is known under `k`.
pub open spec fn key_seen(rs: Seq<RepoModel>, k: Seq<char>) -> bool {
    exists|i: int| 0 <= i < rs.len() && repo_has_key(#[trigger] rs[i], k)
}

/// The repos seeded from the first `n` folder roots after `base`: one per root whose key is
/// not empty and not yet known.
pub open spec fn seeds(base: Seq<RepoModel>, roots: Seq<Option<Seq<char>>>, n: int) -> Seq<RepoModel>
    decreases n,
{
    if n <= 0 {
        Seq::empty()
    } else {
        let prev = seeds(base, roots, n - 1);
        match roots[n - 1] {
            Some(root) => if path_key_spec(root).len() == 0 || key_seen(base + prev, path_key_spec(root)) {
                prev
            } else {
                prev.push(seed_repo(root))
            },
            None => prev,
        }
    }
}

/// `base` with every declared folder root shown as a repo, colliding labels grown where any
/// was added.
pub open spec fn seeded_spec(base: Seq<RepoModel>, roots: Seq<Option<Seq<char>>>) -> Seq<RepoModel> {
    let added = seeds(base, roots, roots.len() as int);
    if added.len() > 0 {
        relabelled(base + added)
    } else {
        base
    }
}

pub open spec fn opt_views(v: Seq<Option<String>>) -> Seq<Option<Seq<char>>> {
    v.map_values(|o: Option<String>| opt_view(o))
}

fn repo_has_key_exec(r: &RepoNode, k: &[char]) -> (b: bool)
    ensures
        b == repo_has_key(repo_view(*r), k@),
{
    let id = to_chars(r.id.as_str());
    if id.len() > 0 {
        let ik = path_key(r.id.as_str());
        if chars_eq(to_chars(ik.as_str()).as_slice(), k) {
            return true;
        }
    }
    match &r.path {
        Some(p) => {
            let pc = to_chars(p.as_str());
            if pc.len() > 0 {
                let pk = path_key(p.as_str());
                chars_eq(to_chars(pk.as_str()).as_slice(), k)
            } else {
                false
            }
        },
        None => false,
    }
}

fn key_seen_exec(rs: &[RepoNode], k: &[char]) -> (b: bool)
    ensures
        b == key_seen(repo_views(rs@), k@),
{
    let ghost rv = repo_views(rs@);
    let mut i: usize = 0;
    while i < rs.len()
        invariant
            i <= rs@.len(),
            rv == repo_views(rs@),
            forall|j: int| 0 <= j < i ==> !repo_has_key(#[trigger] rv[j], k@),
        decreases rs@.len() - i,
    {
        if repo_has_key_exec(&rs[i], k) {
            assert(repo_has_key(rv[i as int], k@));
            return true;
        }
        i = i + 1;
    }
    false
}

/// `repos` with every declared folder root (`None` for a blank folder) shown as a repo, as
/// [`seeded_spec`] says.
pub fn seed_folder_repos_from(repos: Vec<RepoNode>, roots: &[Option<String>]) -> (r: Vec<RepoNode>)
    ensures
        repo_views(r@) == seeded_spec(repo_views(repos@), opt_views(roots@)),
{
    let ghost base = repo_views(repos@);
    let ghost rv = opt_views(roots@);
    let mut seeded = repos;
    let mut k: usize = 0;
    let mut added = false;
    while k < roots.len()
        invariant
            k <= roots@.len(),
            rv == opt_views(roots@),
            repo_views(seeded@) == base + seeds(base, rv, k as int),
            added == (seeds(base, rv, k as int).len() > 0),
        decreases roots@.len() - k,
    {
        let ghost prev = seeds(base, rv, k as int);
        match &roots[k] {
            Some(root) => {
                let key = path_key(root.as_str());
                let kc = to_chars(key.as_str());
                if kc.len() > 0 && !key_seen_exec(seeded.as_slice(), kc.as_slice()) {
                    let bn = crate::project_tree::base_name(root.as_str());
                    let bc = to_chars(bn.as_str());
                    let label = if bc.len() == 0 {
                        root.clone()
                    } else {
                        bn
                    };
                    let x = RepoNode {
                        id: root.clone(),
                        label,
                        path: Some(root.clone()),
                        groups: Vec::new(),
                        session_count: 0,
                    };
                    let ghost before = repo_views(seeded@);
                    seeded.push(x);
                    proof {
                        assert(lane_views(x.groups@) =~= Seq::<LaneModel>::empty());
                        assert(repo_view(x) == seed_repo(root@));
                        assert(repo_views(seeded@) =~= before.push(repo_view(x)));
                        assert(repo_views(seeded@) =~= base + prev.push(seed_repo(root@)));
                    }
                    added = true;
                }
            },
            None => {},
        }
        k = k + 1;
    }
    if added {
        relabel_repos(seeded)
    } else {
        assert(repo_views(seeded@) =~= base);
        seeded
    }
}

/// The root a declared folder stands for: the repo root `resolve` answered for it, else the
/// folder without trailing separators.
pub open spec fn folder_root(raw: Seq<char>, info: Option<ResolveResult>) -> Seq<char> {
    match info {
        Some(i) => if trim(i.repo_root@).len() > 0 {
            trim(i.repo_root@)
        } else {
            trim_end_k(raw, CharClass::PathSep)
        },
        None => trim_end_k(raw, CharClass::PathSep),
    }
}

/// `root` is what folder `f` may stand for with `resolve`: none for a blank folder.
pub open spec fn folder_root_of<F: Fn(&str) -> Option<ResolveResult>>(
    resolve: Option<&F>,
    f: Folder,
    root: Option<Seq<char>>,
) -> bool {
    let raw = trim(f.path@);
    if raw.len() == 0 {
        root is None
    } else {
        match resolve {
            None => root == Some(trim_end_k(raw, CharClass::PathSep)),
            Some(g) => exists|info: Option<ResolveResult>| #[trigger] answered(*g, raw, info) && root == Some(folder_root(raw, info)),
        }
    }
}

fn folder_root_exec<F: Fn(&str) -> Option<ResolveResult>>(f: &Folder, resolve: Option<&F>) -> (r: Option<String>)
    requires
        resolve matches Some(g) ==> forall|x: &str| #[trigger] g.requires((x,)),
    ensures
        folder_root_of(resolve, *f, opt_view(r)),
{
    let c = to_chars(f.path.as_str());
    let raw = trim_exec(c.as_slice());
    if raw.len() == 0 {
        return None;
    }
    let stripped = trim_end_k_exec(raw.as_slice(), CharClass::PathSep);
    match resolve {
        None => Some(from_chars(stripped.as_slice())),
        Some(g) => {
            let raw_s = from_chars(raw.as_slice());
            let info = g(raw_s.as_str());
            proof {
                assert(answered(*g, raw@, info));
            }
            match &info {
                Some(i) => {
                    let rc = to_chars(i.repo_root.as_str());
                    let rt = trim_exec(rc.as_slice());
                    if rt.len() > 0 {
                        Some(from_chars(rt.as_slice()))
                    } else {
                        Some(from_chars(stripped.as_slice()))
                    }
                },
                None => Some(from_chars(stripped.as_slice())),
            }
        },
    }
}

/// `repos` with every folder of `folders` shown as a repo, each folder's root found with
/// `resolve`, then as [`seeded_spec`] says.
pub fn seed_folder_repos<F: Fn(&str) -> Option<ResolveResult>>(
    repos: Vec<RepoNode>,
    folders: &[Folder],
    resolve: Option<&F>,
) -> (r: Vec<RepoNode>)
    requires
        resolve matches Some(g) ==> forall|x: &str| #[trigger] g.requires((x,)),
    ensures
        exists|roots: Seq<Option<Seq<char>>>|
            roots.len() == folders@.len() && (forall|k: int| 0 <= k < roots.len() ==> folder_root_of(resolve, folders@[k], #[trigger] roots[k]))
                && repo_views(r@) == seeded_spec(repo_views(repos@), roots),
{
    let mut roots: Vec<Option<String>> = Vec::new();
    let mut k: usize = 0;
    while k < folders.len()
        invariant
            k <= folders@.len(),
            roots@.len() == k,
            resolve matches Some(g) ==> forall|x: &str| #[trigger] g.requires((x,)),
            forall|j: int| 0 <= j < k ==> folder_root_of(resolve, folders@[j], #[trigger] opt_views(roots@)[j]),
        decreases folders@.len() - k,
    {
        let ghost before = opt_views(roots@);
        let x = folder_root_exec(&folders[k], resolve);
        roots.push(x);
        assert(opt_views(roots@) =~= before.push(opt_view(x)));
        k = k + 1;
    }
    let r = seed_folder_repos_from(repos, roots.as_slice());
    assert(opt_views(roots@).len() == folders@.len());
    r
}


// ---------------------------------------------------------------------------
// Which project owns a session
// ---------------------------------------------------------------------------

/// `root` is the repo root a session may be given with `resolve`: the root `resolve` names for
/// its working directory, else its persisted root (trimmed).
pub open spec fn repo_root_of<F: Fn(&str) -> Option<ResolveResult>>(
    resolve: Option<&F>,
    s: Session,
    root: Seq<char>,
) -> bool {
    if cwd_text(s).len() > 0 && resolve is Some {
        exists|info: Option<ResolveResult>|
            #[trigger] answered(*resolve->0, cwd_text(s), info) && root == (if info matches Some(i)
                && trim(i.repo_root@).len() > 0 {
                trim(info->0.repo_root@)
            } else {
                root_text(s)
            })
    } else {
        root == root_text(s)
    }
}

/// The common repo root a session belongs to (folding linked worktrees), as
/// [`repo_root_of`] says.
pub fn session_repo_root<F: Fn(&str) -> Option<ResolveResult>>(s: &Session, resolve: Option<&F>) -> (r: String)
    requires
        resolve matches Some(f) ==> forall|x: &str| #[trigger] f.requires((x,)),
    ensures
        repo_root_of(resolve, *s, r@),
{
    let cwd = opt_trimmed(&s.cwd);
    let c = to_chars(cwd.as_str());
    if c.len() > 0 {
        match resolve {
            Some(f) => {
                let info = f(cwd.as_str());
                proof {
                    assert(answered(*f, cwd_text(*s), info));
                }
                match &info {
                    Some(i) => {
                        let rc = to_chars(i.repo_root.as_str());
                        let rt = trim_exec(rc.as_slice());
                        if rt.len() > 0 {
                            return from_chars(rt.as_slice());
                        }
                    },
                    None => {},
                }
                return opt_trimmed(&s.git_repo_root);
            },
            None => {},
        }
    }
    opt_trimmed(&s.git_repo_root)
}

/// The owning project (index and depth) of a session with working directory `cwd` and repo
/// root `root`: the deeper of the index's hits for the two, the directory's on a tie.
pub open spec fn session_owner(idx: FolderIndex, cwd: Seq<char>, root: Seq<char>) -> Option<(int, int)> {
    let a = idx.deepest(identity_segments(cwd), identity_segments(cwd).len() as int);
    let b = if root.len() > 0 && root != cwd {
        idx.deepest(identity_segments(root), identity_segments(root).len() as int)
    } else {
        None
    };
    let la: i32 = match a {
        Some(x) => x.1 as i32,
        None => -1i32,
    };
    match b {
        Some(y) => if (y.1 as i32) > la {
            b
        } else {
            a
        },
        None => a,
    }
}

/// The project the index gives for a directory `cwd` and repo root `root`, as
/// [`session_owner`] says.
fn owner_hit<'a>(index: &FolderIndex, projects: &'a [Project], cwd: &str, root: &str) -> (r: Option<&'a Project>)
    requires
        forall|key: Seq<char>| #[trigger]
            index.lookup(key) matches Some((pi, d)) ==> 0 <= pi < projects@.len() && d >= 0,
    ensures
        match session_owner(*index, cwd@, root@) {
            Some((pi, d)) => r matches Some(p) && *p == projects@[pi],
            None => r is None,
        },
{
    let c = to_chars(cwd);
    let rc = to_chars(root);
    let ghost a_s = index.deepest(identity_segments(cwd@), identity_segments(cwd@).len() as int);
    let (a, da) = index.match_target(cwd, projects);
    let mut best = a;
    let mut best_len: i32 = if best.is_some() {
        da
    } else {
        -1
    };
    let ghost la: i32 = match a_s {
        Some(x) => x.1 as i32,
        None => -1i32,
    };
    assert(best_len == la);
    if rc.len() > 0 && !chars_eq(rc.as_slice(), c.as_slice()) {
        let ghost b_s = index.deepest(identity_segments(root@), identity_segments(root@).len() as int);
        let (b, db) = index.match_target(root, projects);
        if b.is_some() && db > best_len {
            best = b;
            best_len = db;
        }
        proof {
            assert(root@.len() > 0 && root@ != cwd@);
            assert(session_owner(*index, cwd@, root@) == (match b_s {
                Some(y) => if (y.1 as i32) > la {
                    b_s
                } else {
                    a_s
                },
                None => a_s,
            }));
        }
    } else {
        proof {
            assert(!(root@.len() > 0 && root@ != cwd@));
            assert(session_owner(*index, cwd@, root@) == a_s);
        }
    }
    best
}

/// The explicit project that owns a session: none without a working directory; else the
/// deepest declared folder over its directory and its repo root.
pub fn project_for_session<'a, F: Fn(&str) -> Option<ResolveResult>>(
    session: &Session,
    index: &FolderIndex,
    projects: &'a [Project],
    resolve: Option<&F>,
) -> (r: Option<&'a Project>)
    requires
        resolve matches Some(f) ==> forall|x: &str| #[trigger] f.requires((x,)),
        forall|key: Seq<char>| #[trigger]
            index.lookup(key) matches Some((pi, d)) ==> 0 <= pi < projects@.len() && d >= 0,
    ensures
        cwd_text(*session).len() == 0 ==> r is None,
        cwd_text(*session).len() > 0 ==> exists|root: Seq<char>|
            #[trigger] repo_root_of(resolve, *session, root) && match session_owner(*index, cwd_text(*session), root) {
                Some((pi, d)) => r matches Some(p) && *p == projects@[pi],
                None => r is None,
            },
{
    let cwd = opt_trimmed(&session.cwd);
    let c = to_chars(cwd.as_str());
    if c.len() == 0 {
        return None;
    }
    let root = session_repo_root(session, resolve);
    let r = owner_hit(index, projects, cwd.as_str(), root.as_str());
    assert(repo_root_of(resolve, *session, root@));
    r
}

proof fn lemma_deepest_nonneg(idx: FolderIndex, segs: Seq<Seq<char>>, end: int, n: nat)
    requires
        forall|key: Seq<char>| #[trigger]
            idx.lookup(key) matches Some((pi, d)) ==> 0 <= pi < n && d >= 0,
    ensures
        idx.deepest(segs, end) matches Some((pi, d)) ==> 0 <= pi < n && d >= 0,
    decreases end,
{
    if end > 0 && end <= segs.len() {
        let _ = idx.lookup(join_char(segs.subrange(0, end), '/'));
        lemma_deepest_nonneg(idx, segs, end - 1, n);
    }
}


// ---------------------------------------------------------------------------
// The project tree
// ---------------------------------------------------------------------------

/// A repo found in history or on disk, with an optional label, its session count, and its
/// last activity as a rank (zero where unknown).
#[derive(Debug, Clone, PartialEq, Eq)]
pub struct DiscoveredRepo {
    pub root: String,
    pub label: Option<String>,
    pub sessions: Option<u64>,
    pub recency: i64,
}

impl DiscoveredRepo {
    /// A discovered repo at `root` with nothing else known.
    pub fn new(root: &str) -> (r: Self)
        ensures
            r.root@ == root@,
            r.label is None,
            r.sessions is None,
            r.recency == 0,
    {
        DiscoveredRepo { root: own_str(root), label: None, sessions: None, recency: 0 }
    }
}

/// A project of the tree: explicit, automatic (from a repo root), or the home bucket.
#[derive(Debug, Clone, PartialEq, Eq)]
pub struct ProjectNode {
    pub id: String,
    pub label: String,
    pub path: Option<String>,
    pub color: Option<String>,
    pub icon: Option<String>,
    pub is_auto: bool,
    pub is_no_project: bool,
    pub session_count: usize,
    /// The last activity as a rank: the most recent of its sessions (at least zero), or the
    /// discovered repo's.
    pub recency: i64,
    /// Input plus output tokens over its sessions, wrapping at 64 bits.
    pub total_tokens: u64,
    pub repos: Vec<RepoNode>,
    pub preview_sessions: Vec<Session>,
    /// The positions, in the given sessions, of the sessions it counts, in the order it
    /// counts them (for totals that are kept outside the tree, such as cost).
    pub members: Vec<usize>,
}

/// The projects of the tree and the ids of the sessions it placed, in order.
#[derive(Debug, Clone, PartialEq, Eq)]
pub struct BuildTreeResult {
    pub projects: Vec<ProjectNode>,
    pub scoped_session_ids: Vec<String>,
}

/// The text of a project node.
pub struct ProjectModel {
    pub id: Seq<char>,
    pub label: Seq<char>,
    pub path: Option<Seq<char>>,
    pub color: Option<Seq<char>>,
    pub icon: Option<Seq<char>>,
    pub is_auto: bool,
    pub is_no_project: bool,
    pub session_count: nat,
    pub recency: int,
    pub total_tokens: u64,
    pub repos: Seq<RepoModel>,
    pub preview: Seq<Session>,
    pub members: Seq<usize>,
}

pub open spec fn project_view(p: ProjectNode) -> ProjectModel {
    ProjectModel {
        id: p.id@,
        label: p.label@,
        path: opt_view(p.path),
        color: opt_view(p.color),
        icon: opt_view(p.icon),
        is_auto: p.is_auto,
        is_no_project: p.is_no_project,
        session_count: p.session_count as nat,
        recency: p.recency as int,
        total_tokens: p.total_tokens,
        repos: repo_views(p.repos@),
        preview: p.preview_sessions@,
        members: p.members@,
    }
}

pub open spec fn project_views(v: Seq<ProjectNode>) -> Seq<ProjectModel> {
    v.map_values(|p: ProjectNode| project_view(p))
}

pub open spec fn string_views(v: Seq<String>) -> Seq<Seq<char>> {
    v.map_values(|x: String| x@)
}

// ---- selections of sessions by position ----

/// The sessions at positions `ks`.
pub open spec fn at(ss: Seq<Session>, ks: Seq<usize>) -> Seq<Session> {
    ks.map_values(|k: usize| ss[k as int])
}

/// `sorted` with position `k` inserted before the first position whose session is strictly
/// older than session `k`.
pub open spec fn insert_idx(ss: Seq<Session>, sorted: Seq<usize>, k: usize) -> Seq<usize>
    decreases sorted.len(),
{
    if sorted.len() == 0 {
        seq![k]
    } else if ss[sorted[0] as int].recency < ss[k as int].recency {
        seq![k] + sorted
    } else {
        seq![sorted[0]] + insert_idx(ss, sorted.drop_first(), k)
    }
}

/// The positions `ks` ordered newest session first, keeping their order among equal times.
pub open spec fn newest_idx(ss: Seq<Session>, ks: Seq<usize>) -> Seq<usize>
    decreases ks.len(),
{
    if ks.len() == 0 {
        Seq::empty()
    } else {
        insert_idx(ss, newest_idx(ss, ks.drop_last()), ks.last())
    }
}

/// The preview of the sessions at `ks`: the `limit` newest.
pub open spec fn previews_of(ss: Seq<Session>, ks: Seq<usize>, limit: nat) -> Seq<Session> {
    if limit == 0 {
        Seq::empty()
    } else {
        let o = newest_idx(ss, ks);
        at(ss, if o.len() <= limit {
            o
        } else {
            o.take(limit as int)
        })
    }
}

/// A session's input plus output tokens, wrapping at 64 bits.
pub open spec fn tokens_of(s: Session) -> u64 {
    vstd::wrapping::u64_specs::wrapping_add(
        match s.input_tokens {
            Some(v) => v,
            None => 0,
        },
        match s.output_tokens {
            Some(v) => v,
            None => 0,
        },
    )
}

/// The tokens of `ss` added up, wrapping at 64 bits.
pub open spec fn tokens_sum(ss: Seq<Session>) -> u64
    decreases ss.len(),
{
    if ss.len() == 0 {
        0
    } else {
        vstd::wrapping::u64_specs::wrapping_add(tokens_sum(ss.drop_last()), tokens_of(ss.last()))
    }
}

/// The non-empty ids of `ss`, in order.
pub open spec fn ids_of(ss: Seq<Session>) -> Seq<Seq<char>>
    decreases ss.len(),
{
    if ss.len() == 0 {
        Seq::empty()
    } else if ss.last().id@.len() > 0 {
        ids_of(ss.drop_last()).push(ss.last().id@)
    } else {
        ids_of(ss.drop_last())
    }
}

// ---- what the closures answered ----

/// `b` is what the junk test `j` may say of `arg` (never junk without a test).
pub open spec fn junk_says<J: Fn(&str) -> bool>(j: Option<&J>, arg: Seq<char>, b: bool) -> bool {
    match j {
        Some(f) => exists|x: &str| x@ == arg && #[trigger] f.ensures((x,), b),
        None => !b,
    }
}

/// `b` is what the existence test `e` may say of `arg` (always there without a test).
pub open spec fn exists_says<E: Fn(&str) -> bool>(e: Option<&E>, arg: Seq<char>, b: bool) -> bool {
    match e {
        Some(f) => exists|x: &str| x@ == arg && #[trigger] f.ensures((x,), b),
        None => b,
    }
}

/// The answers the junk test `j` may give, as a relation.
pub open spec fn junk_rel<J: Fn(&str) -> bool>(j: Option<&J>) -> spec_fn(Seq<char>, bool) -> bool {
    |a: Seq<char>, b: bool| junk_says(j, a, b)
}

/// The answers the existence test `e` may give, as a relation.
pub open spec fn exists_rel<E: Fn(&str) -> bool>(e: Option<&E>) -> spec_fn(Seq<char>, bool) -> bool {
    |a: Seq<char>, b: bool| exists_says(e, a, b)
}

/// `ok` is what asking whether `root` is a usable repo root may answer: not junk, then there.
pub open spec fn root_usable(
    junk: spec_fn(Seq<char>, bool) -> bool,
    present: spec_fn(Seq<char>, bool) -> bool,
    root: Seq<char>,
    ok: bool,
) -> bool {
    &&& ok ==> junk(root, false) && present(root, true)
    &&& !ok ==> junk(root, true) || (junk(root, false) && present(root, false))
}

/// The facts the tree is built from: what the resolver, the junk tests and the existence
/// test answered, and the folder index of the projects.
pub struct TreeFacts {
    /// The non-archived projects (copies), in order.
    pub active: Seq<Project>,
    /// Their folder index.
    pub index: FolderIndex,
    /// Per session: the id of the project that owns it.
    pub owners: Seq<Option<Seq<char>>>,
    /// Per session: its repo root.
    pub roots: Seq<Seq<char>>,
    /// Per session: its placement.
    pub places: Seq<Option<PlacementModel>>,
    /// Per session: its repo root is usable.
    pub root_ok: Seq<bool>,
    /// Per session: its working directory is junk.
    pub cwd_junk: Seq<bool>,
    /// Per session: its placement's repo exists.
    pub place_ok: Seq<bool>,
    /// Per project: the roots of its folders.
    pub folder_roots: Seq<Seq<Option<Seq<char>>>>,
    /// Per discovered repo: its resolved root.
    pub disc_roots: Seq<Seq<char>>,
}

/// The non-archived projects, in order.
pub open spec fn active_spec(ps: Seq<Project>) -> Seq<Project>
    decreases ps.len(),
{
    if ps.len() == 0 {
        Seq::empty()
    } else if ps.last().archived {
        active_spec(ps.drop_last())
    } else {
        active_spec(ps.drop_last()).push(ps.last())
    }
}

/// `a` is a copy of project `b`.
pub open spec fn same_project(a: Project, b: Project) -> bool {
    &&& a.id == b.id
    &&& a.name == b.name
    &&& a.primary_path == b.primary_path
    &&& a.color == b.color
    &&& a.icon == b.icon
    &&& a.folders@ == b.folders@
    &&& a.archived == b.archived
}

/// The id of the project at `hit`, if any.
pub open spec fn owner_id(active: Seq<Project>, hit: Option<(int, int)>) -> Option<Seq<char>> {
    match hit {
        Some((pi, d)) => Some(active[pi].id@),
        None => None,
    }
}

/// The facts `owner`, `root`, `place`, `root_ok`, `cwd_junk` and `place_ok` about session `s`
/// are answers the resolver and the tests may give (the tests given as the answers each may
/// give: `junk(path, b)` holds when the junk test may answer `b` about `path`), with the
/// projects `active` and their index.
pub open spec fn one_session_ok<F: Fn(&str) -> Option<ResolveResult>>(
    s: Session,
    resolve: Option<&F>,
    junk: spec_fn(Seq<char>, bool) -> bool,
    junk_cwd: spec_fn(Seq<char>, bool) -> bool,
    present: spec_fn(Seq<char>, bool) -> bool,
    active: Seq<Project>,
    index: FolderIndex,
    owner: Option<Seq<char>>,
    root: Seq<char>,
    place: Option<PlacementModel>,
    root_ok: bool,
    cwd_junk: bool,
    place_ok: bool,
) -> bool {
    &&& repo_root_of(resolve, s, root)
    &&& owner == (if cwd_text(s).len() == 0 {
        None
    } else {
        owner_id(active, session_owner(index, cwd_text(s), root))
    })
    &&& placement_of(resolve, s, place)
    &&& owner is None && root.len() > 0 ==> root_usable(junk, present, root, root_ok)
    &&& owner is None && root.len() == 0 && cwd_text(s).len() > 0 ==> junk_cwd(cwd_text(s), cwd_junk)
    &&& owner is None && root.len() == 0 && cwd_text(s).len() > 0 && !cwd_junk && place is Some
        ==> present(place->0.repo_key, place_ok)
}

/// The facts about session `k` are answers the closures may give.
pub open spec fn session_facts_ok<F: Fn(&str) -> Option<ResolveResult>>(
    s: Session,
    resolve: Option<&F>,
    junk: spec_fn(Seq<char>, bool) -> bool,
    junk_cwd: spec_fn(Seq<char>, bool) -> bool,
    present: spec_fn(Seq<char>, bool) -> bool,
    f: TreeFacts,
    k: int,
) -> bool {
    one_session_ok(
        s,
        resolve,
        junk,
        junk_cwd,
        present,
        f.active,
        f.index,
        f.owners[k],
        f.roots[k],
        f.places[k],
        f.root_ok[k],
        f.cwd_junk[k],
        f.place_ok[k],
    )
}

/// The root a discovered repo stands for: the repo root `resolve` answered for its trimmed
/// root, else that trimmed root.
pub open spec fn disc_root_of<F: Fn(&str) -> Option<ResolveResult>>(
    resolve: Option<&F>,
    raw: Seq<char>,
    root: Seq<char>,
) -> bool {
    match resolve {
        None => root == raw,
        Some(g) => exists|info: Option<ResolveResult>|
            #[trigger] answered(*g, raw, info) && root == (if info matches Some(i) && trim(
                i.repo_root@,
            ).len() > 0 {
                trim(info->0.repo_root@)
            } else {
                raw
            }),
    }
}

/// All the facts are answers the closures may give, about the given inputs.
pub open spec fn facts_ok<F: Fn(&str) -> Option<ResolveResult>>(
    projects: Seq<Project>,
    sessions: Seq<Session>,
    discovered: Seq<DiscoveredRepo>,
    resolve: Option<&F>,
    junk: spec_fn(Seq<char>, bool) -> bool,
    junk_cwd: spec_fn(Seq<char>, bool) -> bool,
    present: spec_fn(Seq<char>, bool) -> bool,
    f: TreeFacts,
) -> bool {
    &&& f.active.len() == active_spec(projects).len()
    &&& forall|i: int| 0 <= i < f.active.len() ==> same_project(#[trigger] f.active[i], active_spec(projects)[i])
    &&& f.index.indexes(f.active)
    &&& f.owners.len() == sessions.len()
    &&& f.roots.len() == sessions.len()
    &&& f.places.len() == sessions.len()
    &&& f.root_ok.len() == sessions.len()
    &&& f.cwd_junk.len() == sessions.len()
    &&& f.place_ok.len() == sessions.len()
    &&& forall|k: int| 0 <= k < sessions.len() ==> #[trigger] session_facts_ok(sessions[k], resolve, junk, junk_cwd, present, f, k)
    &&& f.folder_roots.len() == f.active.len()
    &&& forall|i: int| 0 <= i < f.active.len() ==> (#[trigger] f.folder_roots[i]).len() == f.active[i].folders@.len()
    &&& forall|i: int, j: int| 0 <= i < f.active.len() && 0 <= j < f.active[i].folders@.len() ==> folder_root_of(resolve, f.active[i].folders@[j], #[trigger] f.folder_roots[i][j])
    &&& f.disc_roots.len() == discovered.len()
    &&& forall|d: int| 0 <= d < discovered.len() && trim(discovered[d].root@).len() > 0 ==> disc_root_of(resolve, trim(discovered[d].root@), #[trigger] f.disc_roots[d])
}

/// Every junk answer about a discovered repo that the tree asks for is one `junk` may give.
pub open spec fn disc_junk_ok(
    sessions: Seq<Session>,
    discovered: Seq<DiscoveredRepo>,
    opts: BuildTreeOptions,
    junk: spec_fn(Seq<char>, bool) -> bool,
    f: TreeFacts,
    dj: Seq<bool>,
) -> bool {
    let left = tier2_upto(sessions, f, sessions.len() as int);
    let bs = sort_buckets(left.buckets);
    let seen0 = tier2_nodes(sessions, f, opts, bs, bs.len() as int).seen;
    forall|d: int|
        0 <= d < discovered.len() && #[trigger] disc_asks_junk(discovered, f, dj, seen0, d) ==> junk(
            f.disc_roots[d],
            dj[d],
        )
}


// ---- tier 1: explicit projects ----

/// The positions among the first `n` sessions owned by a project with id `id`.
pub open spec fn owned_by(f: TreeFacts, id: Seq<char>, n: int) -> Seq<usize>
    decreases n,
{
    if n <= 0 {
        Seq::empty()
    } else if f.owners[n - 1] == Some(id) {
        owned_by(f, id, n - 1).push((n - 1) as usize)
    } else {
        owned_by(f, id, n - 1)
    }
}

/// The placements of the sessions at `ks`.
pub open spec fn places_at(f: TreeFacts, ks: Seq<usize>) -> Seq<Option<PlacementModel>> {
    ks.map_values(|k: usize| f.places[k as int])
}

/// The node of a project over the sessions at `ks` with the given repos.
pub open spec fn sessions_node(
    ss: Seq<Session>,
    ks: Seq<usize>,
    limit: nat,
    id: Seq<char>,
    label: Seq<char>,
    path: Option<Seq<char>>,
    color: Option<Seq<char>>,
    icon: Option<Seq<char>>,
    is_auto: bool,
    session_count: nat,
    repos: Seq<RepoModel>,
) -> ProjectModel {
    ProjectModel {
        id,
        label,
        path,
        color,
        icon,
        is_auto,
        is_no_project: false,
        session_count,
        recency: max_recency(at(ss, ks)),
        total_tokens: tokens_sum(at(ss, ks)),
        repos,
        preview: previews_of(ss, ks, limit),
        members: ks,
    }
}

/// The node of active project `pi`: its owned sessions, their repos with its folders seeded.
pub open spec fn tier1_node(ss: Seq<Session>, f: TreeFacts, opts: BuildTreeOptions, pi: int) -> ProjectModel {
    let p = f.active[pi];
    let ks = owned_by(f, p.id@, ss.len() as int);
    sessions_node(
        ss,
        ks,
        opts.preview_limit as nat,
        p.id@,
        match p.name {
            Some(n) => n@,
            None => p.id@,
        },
        opt_view(p.primary_path),
        opt_view(p.color),
        opt_view(p.icon),
        false,
        ks.len(),
        seeded_spec(repos_spec(at(ss, ks), places_at(f, ks), opts.hydrate), f.folder_roots[pi]),
    )
}

/// The session ids the first `n` explicit projects place.
pub open spec fn tier1_ids(ss: Seq<Session>, f: TreeFacts, n: int) -> Seq<Seq<char>>
    decreases n,
{
    if n <= 0 {
        Seq::empty()
    } else {
        tier1_ids(ss, f, n - 1) + ids_of(at(ss, owned_by(f, f.active[n - 1].id@, ss.len() as int)))
    }
}

// ---- tier 2: automatic projects from repo roots ----

/// Sessions gathered under one canonical repo root.
pub struct AutoBucket {
    pub key: Seq<char>,
    pub root: Seq<char>,
    pub members: Seq<usize>,
}

/// The buckets of leftover sessions so far and the sessions no tier can place.
pub struct Leftovers {
    pub buckets: Seq<AutoBucket>,
    pub homeless: Seq<usize>,
}

pub open spec fn find_bucket(bs: Seq<AutoBucket>, key: Seq<char>, i: int) -> Option<int>
    decreases bs.len() - i,
{
    if i < 0 || i >= bs.len() {
        None
    } else if bs[i].key == key {
        Some(i)
    } else {
        find_bucket(bs, key, i + 1)
    }
}

/// Session `k` filed under repo root `root`: homeless when the root has no key, else into the
/// bucket of its key (a new one, remembering this root, if none yet).
pub open spec fn add_auto(st: Leftovers, root: Seq<char>, k: usize) -> Leftovers {
    let key = path_key_spec(root);
    if key.len() == 0 {
        Leftovers { homeless: st.homeless.push(k), ..st }
    } else {
        match find_bucket(st.buckets, key, 0) {
            Some(i) => Leftovers {
                buckets: st.buckets.update(
                    i,
                    AutoBucket { members: st.buckets[i].members.push(k), ..st.buckets[i] },
                ),
                ..st
            },
            None => Leftovers {
                buckets: st.buckets.push(AutoBucket { key, root, members: seq![k] }),
                ..st
            },
        }
    }
}

/// The leftovers of the first `n` sessions: each session no project owns goes under its repo
/// root when that root is usable, else (with no root) under its placement's repo when its
/// directory is not junk and the repo exists; otherwise it is homeless.
pub open spec fn tier2_upto(ss: Seq<Session>, f: TreeFacts, n: int) -> Leftovers
    decreases n,
{
    if n <= 0 {
        Leftovers { buckets: Seq::empty(), homeless: Seq::empty() }
    } else {
        let prev = tier2_upto(ss, f, n - 1);
        let k = (n - 1) as usize;
        let s = ss[n - 1];
        let root = f.roots[n - 1];
        if f.owners[n - 1] is Some {
            prev
        } else if root.len() > 0 {
            if f.root_ok[n - 1] {
                add_auto(prev, root, k)
            } else {
                Leftovers { homeless: prev.homeless.push(k), ..prev }
            }
        } else if cwd_text(s).len() == 0 || f.cwd_junk[n - 1] {
            Leftovers { homeless: prev.homeless.push(k), ..prev }
        } else {
            match f.places[n - 1] {
                Some(p) => if f.place_ok[n - 1] {
                    add_auto(prev, p.repo_key, k)
                } else {
                    Leftovers { homeless: prev.homeless.push(k), ..prev }
                },
                None => Leftovers { homeless: prev.homeless.push(k), ..prev },
            }
        }
    }
}

/// `sorted` with bucket `b` inserted before the first bucket whose key sorts after its key.
pub open spec fn insert_bucket(sorted: Seq<AutoBucket>, b: AutoBucket) -> Seq<AutoBucket>
    decreases sorted.len(),
{
    if sorted.len() == 0 {
        seq![b]
    } else if lex_lt(b.key, sorted[0].key) {
        seq![b] + sorted
    } else {
        seq![sorted[0]] + insert_bucket(sorted.drop_first(), b)
    }
}

/// The buckets in order of their keys.
pub open spec fn sort_buckets(bs: Seq<AutoBucket>) -> Seq<AutoBucket>
    decreases bs.len(),
{
    if bs.len() == 0 {
        Seq::empty()
    } else {
        insert_bucket(sort_buckets(bs.drop_last()), bs.last())
    }
}

/// The first repo at or after `i` whose trimmed id or trimmed path has canonical key `key`.
pub open spec fn find_auto_repo(rs: Seq<RepoModel>, key: Seq<char>, i: int) -> Option<int>
    decreases rs.len() - i,
{
    if i < 0 || i >= rs.len() {
        None
    } else if path_key_spec(trim(rs[i].id)) == key || path_key_spec(
        trim(
            match rs[i].path {
                Some(p) => p,
                None => Seq::empty(),
            },
        ),
    ) == key {
        Some(i)
    } else {
        find_auto_repo(rs, key, i + 1)
    }
}

/// The automatic projects built so far, the sessions sent home, the keys shown, and the ids
/// placed.
pub struct AutoState {
    pub nodes: Seq<ProjectModel>,
    pub homeless: Seq<usize>,
    pub seen: Seq<Seq<char>>,
    pub ids: Seq<Seq<char>>,
}

/// The label of a root: its base name, or the whole root where it has none.
pub open spec fn root_label(root: Seq<char>) -> Seq<char> {
    if base_name_spec(root).len() == 0 {
        root
    } else {
        base_name_spec(root)
    }
}

/// The automatic projects of the first `n` sorted buckets: a bucket becomes a project when its
/// repo subtree has a repo under its root's key; otherwise its sessions go home.
pub open spec fn tier2_nodes(ss: Seq<Session>, f: TreeFacts, opts: BuildTreeOptions, bs: Seq<AutoBucket>, n: int) -> AutoState
    decreases n,
{
    if n <= 0 {
        AutoState { nodes: Seq::empty(), homeless: Seq::empty(), seen: Seq::empty(), ids: Seq::empty() }
    } else {
        let prev = tier2_nodes(ss, f, opts, bs, n - 1);
        let b = bs[n - 1];
        let repos = repos_spec(at(ss, b.members), places_at(f, b.members), opts.hydrate);
        let key = path_key_spec(b.root);
        match find_auto_repo(repos, key, 0) {
            None => AutoState { homeless: prev.homeless + b.members, ..prev },
            Some(ri) => AutoState {
                nodes: prev.nodes.push(
                    sessions_node(
                        ss,
                        b.members,
                        opts.preview_limit as nat,
                        b.root,
                        root_label(b.root),
                        Some(b.root),
                        None,
                        None,
                        true,
                        repos[ri].session_count,
                        repos,
                    ),
                ),
                seen: prev.seen.push(key),
                ids: prev.ids + ids_of(at(ss, b.members)),
                ..prev
            },
        }
    }
}

// ---- tier 3: discovered repos ----

/// The discovered projects built so far and the keys shown.
pub struct DiscState {
    pub nodes: Seq<ProjectModel>,
    pub seen: Seq<Seq<char>>,
}

/// The project of a discovered repo at `root`.
pub open spec fn disc_node(d: DiscoveredRepo, root: Seq<char>) -> ProjectModel {
    let label = match d.label {
        Some(l) => l@,
        None => root_label(root),
    };
    ProjectModel {
        id: root,
        label,
        path: Some(root),
        color: None,
        icon: None,
        is_auto: true,
        is_no_project: false,
        session_count: (match d.sessions {
            Some(v) => v,
            None => 0,
        }) as usize as nat,
        recency: d.recency as int,
        total_tokens: 0,
        repos: seq![RepoModel { id: root, label, path: Some(root), groups: Seq::empty(), session_count: 0 }],
        preview: Seq::empty(),
        members: Seq::empty(),
    }
}

/// Discovered repo `d` is asked about junk: its root has a key not yet shown.
pub open spec fn disc_asks_junk(ds: Seq<DiscoveredRepo>, f: TreeFacts, dj: Seq<bool>, seen0: Seq<Seq<char>>, d: int) -> bool {
    let st = tier3_upto(ds, f, dj, seen0, d);
    trim(ds[d].root@).len() > 0 && path_key_spec(f.disc_roots[d]).len() > 0 && !st.seen.contains(
        path_key_spec(f.disc_roots[d]),
    )
}

/// The projects of the first `n` discovered repos, after the keys `seen0` already shown: each
/// non-blank repo whose root has a key not yet shown, is not junk and lies under no explicit
/// project's folder.
pub open spec fn tier3_upto(ds: Seq<DiscoveredRepo>, f: TreeFacts, dj: Seq<bool>, seen0: Seq<Seq<char>>, n: int) -> DiscState
    decreases n,
{
    if n <= 0 {
        DiscState { nodes: Seq::empty(), seen: seen0 }
    } else {
        let prev = tier3_upto(ds, f, dj, seen0, n - 1);
        let d = ds[n - 1];
        let root = f.disc_roots[n - 1];
        let key = path_key_spec(root);
        if trim(d.root@).len() == 0 || key.len() == 0 || prev.seen.contains(key) || dj[n - 1]
            || f.index.deepest(identity_segments(root), identity_segments(root).len() as int) is Some {
            prev
        } else {
            DiscState { nodes: prev.nodes.push(disc_node(d, root)), seen: prev.seen.push(key) }
        }
    }
}

// ---- the whole tree ----

/// The projects with colliding labels grown.
pub open spec fn project_items(ps: Seq<ProjectModel>) -> Seq<(Seq<char>, Option<Seq<char>>)> {
    ps.map_values(|p: ProjectModel| (p.label, p.path))
}

pub open spec fn relabel_projects(ps: Seq<ProjectModel>) -> Seq<ProjectModel> {
    Seq::new(ps.len(), |i: int| ProjectModel { label: settled_label(project_items(ps), i), ..ps[i] })
}

/// The home bucket over the homeless sessions at `ks` (already newest first).
pub open spec fn home_node(ss: Seq<Session>, ks: Seq<usize>, opts: BuildTreeOptions) -> ProjectModel {
    let lane = LaneModel {
        id: NO_PROJECT_ID@,
        label: NO_PROJECT_LABEL@,
        path: None,
        is_main: false,
        is_kanban: false,
        sessions: if opts.hydrate {
            at(ss, ks)
        } else {
            Seq::empty()
        },
    };
    ProjectModel {
        id: NO_PROJECT_ID@,
        label: NO_PROJECT_LABEL@,
        path: None,
        color: None,
        icon: None,
        is_auto: false,
        is_no_project: true,
        session_count: ks.len(),
        recency: max_recency(at(ss, ks)),
        total_tokens: tokens_sum(at(ss, ks)),
        repos: seq![RepoModel { id: NO_PROJECT_ID@, label: NO_PROJECT_LABEL@, path: None, groups: seq![lane], session_count: ks.len() }],
        preview: previews_of(ss, ks, opts.preview_limit as nat),
        members: ks,
    }
}

/// The project tree from the facts: explicit projects (always shown), then automatic projects
/// from leftover sessions by repo root, then discovered repos, with colliding automatic labels
/// grown; the home bucket of everything unplaced comes first. With the ids of the sessions
/// placed: explicit projects' in project order, automatic projects', then the home bucket's.
pub open spec fn tree_spec(
    ss: Seq<Session>,
    ds: Seq<DiscoveredRepo>,
    opts: BuildTreeOptions,
    f: TreeFacts,
    dj: Seq<bool>,
) -> (Seq<ProjectModel>, Seq<Seq<char>>) {
    let t1 = Seq::new(f.active.len(), |pi: int| tier1_node(ss, f, opts, pi));
    let left = tier2_upto(ss, f, ss.len() as int);
    let bs = sort_buckets(left.buckets);
    let auto = tier2_nodes(ss, f, opts, bs, bs.len() as int);
    let disc = tier3_upto(ds, f, dj, auto.seen, ds.len() as int);
    let shown = t1 + relabel_projects(auto.nodes + disc.nodes);
    let ids = tier1_ids(ss, f, f.active.len() as int) + auto.ids;
    let homeless = left.homeless + auto.homeless;
    if homeless.len() > 0 {
        let sorted = newest_idx(ss, homeless);
        (seq![home_node(ss, sorted, opts)] + shown, ids + ids_of(at(ss, sorted)))
    } else {
        (shown, ids)
    }
}


/// The label an explicit project is shown under: its name, else its id.
pub open spec fn project_label(p: Project) -> Seq<char> {
    match p.name {
        Some(n) => n@,
        None => p.id@,
    }
}

proof fn lemma_insert_idx_len(ss: Seq<Session>, sorted: Seq<usize>, k: usize)
    ensures
        insert_idx(ss, sorted, k).len() == sorted.len() + 1,
    decreases sorted.len(),
{
    if sorted.len() > 0 && !(ss[sorted[0] as int].recency < ss[k as int].recency) {
        lemma_insert_idx_len(ss, sorted.drop_first(), k);
    }
}

proof fn lemma_newest_idx_len(ss: Seq<Session>, ks: Seq<usize>)
    ensures
        newest_idx(ss, ks).len() == ks.len(),
    decreases ks.len(),
{
    if ks.len() > 0 {
        lemma_newest_idx_len(ss, ks.drop_last());
        lemma_insert_idx_len(ss, newest_idx(ss, ks.drop_last()), ks.last());
    }
}

proof fn lemma_auto_nodes_auto(ss: Seq<Session>, f: TreeFacts, opts: BuildTreeOptions, bs: Seq<AutoBucket>, n: int)
    ensures
        forall|k: int|
            0 <= k < tier2_nodes(ss, f, opts, bs, n).nodes.len() ==> (#[trigger] tier2_nodes(
                ss,
                f,
                opts,
                bs,
                n,
            ).nodes[k]).is_auto && !tier2_nodes(ss, f, opts, bs, n).nodes[k].is_no_project,
    decreases n,
{
    if n > 0 {
        lemma_auto_nodes_auto(ss, f, opts, bs, n - 1);
    }
}

proof fn lemma_disc_nodes_auto(ds: Seq<DiscoveredRepo>, f: TreeFacts, dj: Seq<bool>, seen0: Seq<Seq<char>>, n: int)
    ensures
        forall|k: int|
            0 <= k < tier3_upto(ds, f, dj, seen0, n).nodes.len() ==> (#[trigger] tier3_upto(
                ds,
                f,
                dj,
                seen0,
                n,
            ).nodes[k]).is_auto && !tier3_upto(ds, f, dj, seen0, n).nodes[k].is_no_project,
    decreases n,
{
    if n > 0 {
        lemma_disc_nodes_auto(ds, f, dj, seen0, n - 1);
    }
}

/// In the project tree, the nodes that are neither automatic nor the home bucket are the
/// non-archived projects, in order, each under its own id and its name (its id when it has
/// none); every node after them is automatic. The home bucket, when there is one, comes
/// first, is the only node of its kind, and holds at least one session.
pub proof fn lemma_tree_explicit_nodes(
    projects: Seq<Project>,
    ss: Seq<Session>,
    ds: Seq<DiscoveredRepo>,
    opts: BuildTreeOptions,
    f: TreeFacts,
    dj: Seq<bool>,
)
    requires
        f.active.len() == active_spec(projects).len(),
        forall|i: int| 0 <= i < f.active.len() ==> same_project(#[trigger] f.active[i], active_spec(projects)[i]),
    ensures
        ({
            let ps = tree_spec(ss, ds, opts, f, dj).0;
            let act = active_spec(projects);
            let h: int = if ps.len() > 0 && ps[0].is_no_project {
                1
            } else {
                0
            };
            &&& h + act.len() <= ps.len()
            &&& forall|pi: int|
                0 <= pi < act.len() ==> ps[h + pi].id == (#[trigger] act[pi]).id@ && ps[h + pi].label
                    == project_label(act[pi]) && !ps[h + pi].is_auto && !ps[h + pi].is_no_project
            &&& forall|k: int| h + act.len() <= k < ps.len() ==> (#[trigger] ps[k]).is_auto && !ps[k].is_no_project
            &&& h == 1 ==> ps[0].id == NO_PROJECT_ID@ && ps[0].label == NO_PROJECT_LABEL@ && !ps[0].is_auto
                && ps[0].members.len() > 0
        }),
{
    let t1 = Seq::new(f.active.len(), |pi: int| tier1_node(ss, f, opts, pi));
    let left = tier2_upto(ss, f, ss.len() as int);
    let bs = sort_buckets(left.buckets);
    let auto = tier2_nodes(ss, f, opts, bs, bs.len() as int);
    let disc = tier3_upto(ds, f, dj, auto.seen, ds.len() as int);
    let tail = relabel_projects(auto.nodes + disc.nodes);
    let shown = t1 + tail;
    let homeless = left.homeless + auto.homeless;
    lemma_auto_nodes_auto(ss, f, opts, bs, bs.len() as int);
    lemma_disc_nodes_auto(ds, f, dj, auto.seen, ds.len() as int);
    let an = auto.nodes + disc.nodes;
    assert forall|k: int| 0 <= k < tail.len() implies (#[trigger] tail[k]).is_auto && !tail[k].is_no_project by {
        if k < auto.nodes.len() {
            assert(an[k] == auto.nodes[k]);
        } else {
            assert(an[k] == disc.nodes[k - auto.nodes.len()]);
        }
    }
    let act = active_spec(projects);
    assert forall|pi: int| 0 <= pi < act.len() implies shown[pi].id == (#[trigger] act[pi]).id@
        && shown[pi].label == project_label(act[pi]) && !shown[pi].is_auto && !shown[pi].is_no_project by {
        assert(shown[pi] == t1[pi]);
        assert(same_project(f.active[pi], act[pi]));
    }
    assert forall|k: int| act.len() <= k < shown.len() implies (#[trigger] shown[k]).is_auto
        && !shown[k].is_no_project by {
        assert(shown[k] == tail[k - act.len()]);
    }
    if homeless.len() > 0 {
        let sorted = newest_idx(ss, homeless);
        lemma_newest_idx_len(ss, homeless);
        let ps = seq![home_node(ss, sorted, opts)] + shown;
        assert(ps[0].is_no_project);
        assert forall|pi: int| 0 <= pi < act.len() implies ps[1 + pi] == shown[pi] by {}
        assert forall|k: int| 1 + act.len() <= k < ps.len() implies ps[k] == shown[k - 1] by {}
    } else {
        if shown.len() > 0 {
            if act.len() > 0 {
                assert(act[0] == act[0]);
                assert(!shown[0].is_no_project);
            } else {
                assert(!shown[0].is_no_project);
            }
        }
    }
}

/// How many times `k` occurs in `ks`.
pub open spec fn occurrences(ks: Seq<usize>, k: usize) -> nat
    decreases ks.len(),
{
    if ks.len() == 0 {
        0
    } else {
        occurrences(ks.drop_last(), k) + if ks.last() == k {
            1nat
        } else {
            0nat
        }
    }
}

/// How many times session `k` is a member of the nodes `ps`, all nodes together.
pub open spec fn member_count(ps: Seq<ProjectModel>, k: usize) -> nat
    decreases ps.len(),
{
    if ps.len() == 0 {
        0
    } else {
        member_count(ps.drop_last(), k) + occurrences(ps.last().members, k)
    }
}

/// How many times session `k` is a member of the buckets `bs`, all together.
pub open spec fn bucket_total(bs: Seq<AutoBucket>, k: usize) -> nat
    decreases bs.len(),
{
    if bs.len() == 0 {
        0
    } else {
        bucket_total(bs.drop_last(), k) + occurrences(bs.last().members, k)
    }
}

proof fn lemma_occurrences_concat(a: Seq<usize>, b: Seq<usize>, k: usize)
    ensures
        occurrences(a + b, k) == occurrences(a, k) + occurrences(b, k),
    decreases b.len(),
{
    if b.len() == 0 {
        assert(a + b =~= a);
    } else {
        lemma_occurrences_concat(a, b.drop_last(), k);
        assert((a + b).drop_last() =~= a + b.drop_last());
    }
}

proof fn lemma_member_count_concat(a: Seq<ProjectModel>, b: Seq<ProjectModel>, k: usize)
    ensures
        member_count(a + b, k) == member_count(a, k) + member_count(b, k),
    decreases b.len(),
{
    if b.len() == 0 {
        assert(a + b =~= a);
    } else {
        lemma_member_count_concat(a, b.drop_last(), k);
        assert((a + b).drop_last() =~= a + b.drop_last());
    }
}

proof fn lemma_bucket_total_concat(a: Seq<AutoBucket>, b: Seq<AutoBucket>, k: usize)
    ensures
        bucket_total(a + b, k) == bucket_total(a, k) + bucket_total(b, k),
    decreases b.len(),
{
    if b.len() == 0 {
        assert(a + b =~= a);
    } else {
        lemma_bucket_total_concat(a, b.drop_last(), k);
        assert((a + b).drop_last() =~= a + b.drop_last());
    }
}

proof fn lemma_bucket_total_update(bs: Seq<AutoBucket>, i: int, b: AutoBucket, k: usize)
    requires
        0 <= i < bs.len(),
    ensures
        bucket_total(bs.update(i, b), k) + occurrences(bs[i].members, k) == bucket_total(bs, k)
            + occurrences(b.members, k),
    decreases bs.len(),
{
    if i == bs.len() - 1 {
        assert(bs.update(i, b).drop_last() =~= bs.drop_last());
    } else {
        lemma_bucket_total_update(bs.drop_last(), i, b, k);
        assert(bs.update(i, b).drop_last() =~= bs.drop_last().update(i, b));
    }
}

proof fn lemma_member_count_same_members(a: Seq<ProjectModel>, b: Seq<ProjectModel>, k: usize)
    requires
        a.len() == b.len(),
        forall|i: int| 0 <= i < a.len() ==> (#[trigger] a[i]).members == b[i].members,
    ensures
        member_count(a, k) == member_count(b, k),
    decreases a.len(),
{
    if a.len() > 0 {
        lemma_member_count_same_members(a.drop_last(), b.drop_last(), k);
        assert(a.last().members == b.last().members);
    }
}

proof fn lemma_find_bucket_range(bs: Seq<AutoBucket>, key: Seq<char>, i: int)
    requires
        0 <= i,
    ensures
        find_bucket(bs, key, i) matches Some(j) ==> i <= j < bs.len(),
    decreases bs.len() - i,
{
    if i < bs.len() && bs[i].key != key {
        lemma_find_bucket_range(bs, key, i + 1);
    }
}

proof fn lemma_add_auto_count(st: Leftovers, root: Seq<char>, x: usize, k: usize)
    ensures
        bucket_total(add_auto(st, root, x).buckets, k) + occurrences(add_auto(st, root, x).homeless, k)
            == bucket_total(st.buckets, k) + occurrences(st.homeless, k) + if x == k {
            1nat
        } else {
            0nat
        },
{
    let key = path_key_spec(root);
    if key.len() > 0 {
        lemma_find_bucket_range(st.buckets, key, 0);
        match find_bucket(st.buckets, key, 0) {
            Some(i) => {
                let nb = AutoBucket { members: st.buckets[i].members.push(x), ..st.buckets[i] };
                lemma_bucket_total_update(st.buckets, i, nb, k);
                assert(nb.members.drop_last() =~= st.buckets[i].members);
                assert(add_auto(st, root, x).buckets == st.buckets.update(i, nb));
                assert(add_auto(st, root, x).homeless == st.homeless);
                assert(occurrences(nb.members, k) == occurrences(st.buckets[i].members, k) + if x == k {
                    1nat
                } else {
                    0nat
                });
            },
            None => {
                let nb = AutoBucket { key, root, members: seq![x] };
                assert(st.buckets.push(nb).drop_last() =~= st.buckets);
                assert(nb.members.drop_last() =~= Seq::<usize>::empty());
                assert(nb.members.last() == x);
                assert(occurrences(Seq::<usize>::empty(), k) == 0);
                assert(add_auto(st, root, x).buckets == st.buckets.push(nb));
                assert(add_auto(st, root, x).homeless == st.homeless);
                assert(occurrences(nb.members, k) == if x == k {
                    1nat
                } else {
                    0nat
                });
                assert(bucket_total(st.buckets.push(nb), k) == bucket_total(st.buckets, k) + occurrences(nb.members, k));
            },
        }
    } else {
        assert(st.homeless.push(x).drop_last() =~= st.homeless);
    }
}

proof fn lemma_owned_by_occurrences(f: TreeFacts, id: Seq<char>, m: int, k: usize)
    requires
        m <= usize::MAX + 1,
    ensures
        occurrences(owned_by(f, id, m), k) == if (k as int) < m && f.owners[k as int] == Some(id) {
            1nat
        } else {
            0nat
        },
    decreases m,
{
    if m > 0 {
        lemma_owned_by_occurrences(f, id, m - 1, k);
        if f.owners[m - 1] == Some(id) {
            assert(owned_by(f, id, m).drop_last() =~= owned_by(f, id, m - 1));
        }
    }
}

/// How many of the first `m` active projects have the id that owns session `k`.
pub open spec fn owner_hits(f: TreeFacts, k: int, m: int) -> nat
    decreases m,
{
    if m <= 0 {
        0
    } else {
        owner_hits(f, k, m - 1) + if f.owners[k] == Some(f.active[m - 1].id@) {
            1nat
        } else {
            0nat
        }
    }
}

proof fn lemma_tier1_member_count(ss: Seq<Session>, f: TreeFacts, opts: BuildTreeOptions, m: int, k: usize)
    requires
        0 <= m,
        ss.len() <= usize::MAX,
    ensures
        member_count(Seq::new(m as nat, |pi: int| tier1_node(ss, f, opts, pi)), k) == if (k as int)
            < ss.len() {
            owner_hits(f, k as int, m)
        } else {
            0
        },
    decreases m,
{
    if m > 0 {
        lemma_tier1_member_count(ss, f, opts, m - 1, k);
        let t = Seq::new(m as nat, |pi: int| tier1_node(ss, f, opts, pi));
        assert(t.drop_last() =~= Seq::new((m - 1) as nat, |pi: int| tier1_node(ss, f, opts, pi)));
        lemma_owned_by_occurrences(f, f.active[m - 1].id@, ss.len() as int, k);
    }
}

proof fn lemma_owner_hits_unique(f: TreeFacts, k: int, m: int)
    requires
        0 <= m <= f.active.len(),
        forall|a: int, b: int| 0 <= a < b < f.active.len() ==> (#[trigger] f.active[a]).id@ != (#[trigger] f.active[b]).id@,
    ensures
        (exists|j: int| 0 <= j < m && f.owners[k] == Some(#[trigger] f.active[j].id@)) ==> owner_hits(f, k, m) == 1,
        (forall|j: int| 0 <= j < m ==> f.owners[k] != Some(#[trigger] f.active[j].id@)) ==> owner_hits(f, k, m) == 0,
    decreases m,
{
    if m > 0 {
        lemma_owner_hits_unique(f, k, m - 1);
        if f.owners[k] == Some(f.active[m - 1].id@) {
            assert forall|j: int| 0 <= j < m - 1 implies f.owners[k] != Some(#[trigger] f.active[j].id@) by {
                assert(f.active[j].id@ != f.active[m - 1].id@);
            }
        }
    }
}

proof fn lemma_tier2_upto_count(ss: Seq<Session>, f: TreeFacts, m: int, k: usize)
    requires
        0 <= m <= ss.len(),
        ss.len() <= usize::MAX,
    ensures
        bucket_total(tier2_upto(ss, f, m).buckets, k) + occurrences(tier2_upto(ss, f, m).homeless, k)
            == if (k as int) < m && f.owners[k as int] is None {
            1nat
        } else {
            0nat
        },
    decreases m,
{
    if m > 0 {
        lemma_tier2_upto_count(ss, f, m - 1, k);
        let prev = tier2_upto(ss, f, m - 1);
        let x = (m - 1) as usize;
        let root = f.roots[m - 1];
        if f.owners[m - 1] is Some {
        } else if root.len() > 0 {
            if f.root_ok[m - 1] {
                lemma_add_auto_count(prev, root, x, k);
            } else {
                assert(prev.homeless.push(x).drop_last() =~= prev.homeless);
            }
        } else if cwd_text(ss[m - 1]).len() == 0 || f.cwd_junk[m - 1] {
            assert(prev.homeless.push(x).drop_last() =~= prev.homeless);
        } else {
            match f.places[m - 1] {
                Some(p) => if f.place_ok[m - 1] {
                    lemma_add_auto_count(prev, p.repo_key, x, k);
                } else {
                    assert(prev.homeless.push(x).drop_last() =~= prev.homeless);
                },
                None => {
                    assert(prev.homeless.push(x).drop_last() =~= prev.homeless);
                },
            }
        }
    }
}

proof fn lemma_insert_bucket_total(sorted: Seq<AutoBucket>, b: AutoBucket, k: usize)
    ensures
        bucket_total(insert_bucket(sorted, b), k) == bucket_total(sorted, k) + occurrences(b.members, k),
    decreases sorted.len(),
{
    lemma_bucket_total_concat(Seq::empty(), seq![b], k);
    assert(Seq::<AutoBucket>::empty() + seq![b] =~= seq![b]);
    assert(seq![b].drop_last() =~= Seq::<AutoBucket>::empty());
    if sorted.len() == 0 {
    } else if lex_lt(b.key, sorted[0].key) {
        lemma_bucket_total_concat(seq![b], sorted, k);
    } else {
        lemma_insert_bucket_total(sorted.drop_first(), b, k);
        lemma_bucket_total_concat(seq![sorted[0]], insert_bucket(sorted.drop_first(), b), k);
        lemma_bucket_total_concat(seq![sorted[0]], sorted.drop_first(), k);
        assert(seq![sorted[0]] + sorted.drop_first() =~= sorted);
    }
}

proof fn lemma_sort_buckets_total(bs: Seq<AutoBucket>, k: usize)
    ensures
        bucket_total(sort_buckets(bs), k) == bucket_total(bs, k),
    decreases bs.len(),
{
    if bs.len() > 0 {
        lemma_sort_buckets_total(bs.drop_last(), k);
        lemma_insert_bucket_total(sort_buckets(bs.drop_last()), bs.last(), k);
    }
}

proof fn lemma_tier2_nodes_count(ss: Seq<Session>, f: TreeFacts, opts: BuildTreeOptions, bs: Seq<AutoBucket>, n: int, k: usize)
    requires
        0 <= n <= bs.len(),
    ensures
        member_count(tier2_nodes(ss, f, opts, bs, n).nodes, k) + occurrences(
            tier2_nodes(ss, f, opts, bs, n).homeless,
            k,
        ) == bucket_total(bs.take(n), k),
    decreases n,
{
    if n > 0 {
        lemma_tier2_nodes_count(ss, f, opts, bs, n - 1, k);
        assert(bs.take(n).drop_last() =~= bs.take(n - 1));
        let prev = tier2_nodes(ss, f, opts, bs, n - 1);
        let b = bs[n - 1];
        let cur = tier2_nodes(ss, f, opts, bs, n);
        if cur.nodes.len() == prev.nodes.len() + 1 {
            assert(cur.nodes.drop_last() =~= prev.nodes);
        } else {
            lemma_occurrences_concat(prev.homeless, b.members, k);
        }
    }
}

proof fn lemma_disc_member_count(ds: Seq<DiscoveredRepo>, f: TreeFacts, dj: Seq<bool>, seen0: Seq<Seq<char>>, n: int, k: usize)
    ensures
        member_count(tier3_upto(ds, f, dj, seen0, n).nodes, k) == 0,
    decreases n,
{
    if n > 0 {
        lemma_disc_member_count(ds, f, dj, seen0, n - 1, k);
        let prev = tier3_upto(ds, f, dj, seen0, n - 1);
        let cur = tier3_upto(ds, f, dj, seen0, n);
        if cur.nodes.len() == prev.nodes.len() + 1 {
            assert(cur.nodes.drop_last() =~= prev.nodes);
            assert(cur.nodes.last().members =~= Seq::<usize>::empty());
        }
    }
}

proof fn lemma_insert_idx_occurrences(ss: Seq<Session>, sorted: Seq<usize>, x: usize, k: usize)
    ensures
        occurrences(insert_idx(ss, sorted, x), k) == occurrences(sorted, k) + if x == k {
            1nat
        } else {
            0nat
        },
    decreases sorted.len(),
{
    lemma_occurrences_concat(Seq::empty(), seq![x], k);
    assert(Seq::<usize>::empty() + seq![x] =~= seq![x]);
    assert(seq![x].drop_last() =~= Seq::<usize>::empty());
    if sorted.len() == 0 {
    } else if ss[sorted[0] as int].recency < ss[x as int].recency {
        lemma_occurrences_concat(seq![x], sorted, k);
    } else {
        lemma_insert_idx_occurrences(ss, sorted.drop_first(), x, k);
        lemma_occurrences_concat(seq![sorted[0]], insert_idx(ss, sorted.drop_first(), x), k);
        lemma_occurrences_concat(seq![sorted[0]], sorted.drop_first(), k);
        assert(seq![sorted[0]] + sorted.drop_first() =~= sorted);
    }
}

proof fn lemma_newest_idx_occurrences(ss: Seq<Session>, ks: Seq<usize>, k: usize)
    ensures
        occurrences(newest_idx(ss, ks), k) == occurrences(ks, k),
    decreases ks.len(),
{
    if ks.len() > 0 {
        lemma_newest_idx_occurrences(ss, ks.drop_last(), k);
        lemma_insert_idx_occurrences(ss, newest_idx(ss, ks.drop_last()), ks.last(), k);
    }
}

proof fn lemma_deepest_is_lookup(idx: FolderIndex, segs: Seq<Seq<char>>, end: int)
    ensures
        idx.deepest(segs, end) matches Some(h) ==> exists|key: Seq<char>| #[trigger] idx.lookup(key) == Some(h),
    decreases end,
{
    if 0 < end <= segs.len() {
        let key = join_char(segs.subrange(0, end), '/');
        if idx.lookup(key) is None {
            lemma_deepest_is_lookup(idx, segs, end - 1);
        }
    }
}

proof fn lemma_owner_is_active(idx: FolderIndex, active: Seq<Project>, cwd: Seq<char>, root: Seq<char>)
    requires
        idx.indexes(active),
    ensures
        owner_id(active, session_owner(idx, cwd, root)) matches Some(id) ==> exists|j: int|
            0 <= j < active.len() && id == (#[trigger] active[j]).id@,
{
    let a = idx.deepest(identity_segments(cwd), identity_segments(cwd).len() as int);
    let b = idx.deepest(identity_segments(root), identity_segments(root).len() as int);
    lemma_deepest_is_lookup(idx, identity_segments(cwd), identity_segments(cwd).len() as int);
    lemma_deepest_is_lookup(idx, identity_segments(root), identity_segments(root).len() as int);
    match session_owner(idx, cwd, root) {
        Some((pi, d)) => {
            let key = choose|key: Seq<char>| #[trigger] idx.lookup(key) == Some((pi, d));
            assert(crate::project_tree::best_hit(active, key, pi, d));
            let j = choose|j: int|
                crate::project_tree::scanned_before(pi, j, active.len() as int, 0) && #[trigger] crate::project_tree::folder_hit(active, key, pi, j, d);
            assert(0 <= pi < active.len());
            assert(active[pi].id@ == active[pi].id@);
        },
        None => {},
    }
}

/// A directory under no declared folder does not hide the repo root: when the root is set,
/// the owner is the index's deepest hit for the root (a linked worktree of a project's repo
/// belongs to that project). When the root has no hit, the directory's hit stands; when both
/// have one, the deeper wins, the directory's on a tie.
pub proof fn lemma_owner_via_root(idx: FolderIndex, cwd: Seq<char>, root: Seq<char>)
    ensures
        ({
            let a = idx.deepest(identity_segments(cwd), identity_segments(cwd).len() as int);
            let b = idx.deepest(identity_segments(root), identity_segments(root).len() as int);
            root.len() > 0 && a is Some && b is Some && 0 <= hit_depth(a) <= i32::MAX && 0 <= hit_depth(b)
                <= i32::MAX ==> session_owner(idx, cwd, root) == if hit_depth(b) > hit_depth(a) {
                b
            } else {
                a
            }
        }),
        idx.deepest(identity_segments(cwd), identity_segments(cwd).len() as int) is None && root.len() > 0
            && (idx.deepest(identity_segments(root), identity_segments(root).len() as int) is None
            || 0 <= hit_depth(idx.deepest(identity_segments(root), identity_segments(root).len() as int))
            <= i32::MAX) ==> session_owner(idx, cwd, root) == idx.deepest(
            identity_segments(root),
            identity_segments(root).len() as int,
        ),
        root.len() == 0 || idx.deepest(identity_segments(root), identity_segments(root).len() as int) is None
            ==> session_owner(idx, cwd, root) == idx.deepest(
            identity_segments(cwd),
            identity_segments(cwd).len() as int,
        ),
{
}

/// The project index of a hit.
pub open spec fn hit_project(hit: Option<(int, int)>) -> int {
    match hit {
        Some((pi, _)) => pi,
        None => -1,
    }
}

/// The depth of a hit.
pub open spec fn hit_depth(hit: Option<(int, int)>) -> int {
    match hit {
        Some((_, d)) => d,
        None => -1,
    }
}

proof fn lemma_owned_by_contains(f: TreeFacts, id: Seq<char>, m: int, k: int)
    requires
        0 <= k < m,
        m <= usize::MAX + 1,
        f.owners[k] == Some(id),
    ensures
        owned_by(f, id, m).contains(k as usize),
    decreases m,
{
    if k < m - 1 {
        lemma_owned_by_contains(f, id, m - 1, k);
        let prev = owned_by(f, id, m - 1);
        let j = choose|j: int| 0 <= j < prev.len() && prev[j] == k as usize;
        if f.owners[m - 1] == Some(id) {
            assert(owned_by(f, id, m)[j] == prev[j]);
        }
    } else {
        let prev = owned_by(f, id, m - 1);
        assert(owned_by(f, id, m)[prev.len() as int] == k as usize);
    }
}

/// A session with a working directory under no declared folder, whose repo root lies under a
/// folder of a non-archived project, is listed under that project (the one with the deepest
/// such folder): its node in the tree holds it.
pub proof fn lemma_tree_owner_via_root<F: Fn(&str) -> Option<ResolveResult>>(
    projects: Seq<Project>,
    ss: Seq<Session>,
    ds: Seq<DiscoveredRepo>,
    resolve: Option<&F>,
    junk: spec_fn(Seq<char>, bool) -> bool,
    junk_cwd: spec_fn(Seq<char>, bool) -> bool,
    present: spec_fn(Seq<char>, bool) -> bool,
    opts: BuildTreeOptions,
    f: TreeFacts,
    dj: Seq<bool>,
    k: int,
)
    requires
        facts_ok(projects, ss, ds, resolve, junk, junk_cwd, present, f),
        ss.len() <= usize::MAX,
        0 <= k < ss.len(),
        cwd_text(ss[k]).len() > 0,
        f.index.deepest(identity_segments(cwd_text(ss[k])), identity_segments(cwd_text(ss[k])).len() as int) is None,
        f.roots[k].len() > 0,
        f.index.deepest(identity_segments(f.roots[k]), identity_segments(f.roots[k]).len() as int) is Some,
        hit_depth(f.index.deepest(identity_segments(f.roots[k]), identity_segments(f.roots[k]).len() as int))
            <= i32::MAX,
    ensures
        ({
            let pi = hit_project(f.index.deepest(identity_segments(f.roots[k]), identity_segments(f.roots[k]).len() as int));
            let ps = tree_spec(ss, ds, opts, f, dj).0;
            let h: int = if ps.len() > 0 && ps[0].is_no_project {
                1
            } else {
                0
            };
            &&& 0 <= pi < f.active.len()
            &&& f.owners[k] == Some(f.active[pi].id@)
            &&& h + pi < ps.len()
            &&& ps[h + pi] == tier1_node(ss, f, opts, pi)
            &&& ps[h + pi].id == f.active[pi].id@
            &&& ps[h + pi].members.contains(k as usize)
        }),
{
    let cwd = cwd_text(ss[k]);
    let root = f.roots[k];
    let hit = f.index.deepest(identity_segments(root), identity_segments(root).len() as int);
    let (pi, d) = hit->0;
    assert(session_facts_ok(ss[k], resolve, junk, junk_cwd, present, f, k));
    lemma_deepest_is_lookup(f.index, identity_segments(root), identity_segments(root).len() as int);
    let key = choose|key: Seq<char>| #[trigger] f.index.lookup(key) == Some((pi, d));
    assert(crate::project_tree::best_hit(f.active, key, pi, d));
    let j = choose|j: int|
        crate::project_tree::scanned_before(pi, j, f.active.len() as int, 0) && #[trigger] crate::project_tree::folder_hit(f.active, key, pi, j, d);
    assert(0 <= pi < f.active.len() && d > 0);
    lemma_owner_via_root(f.index, cwd, root);
    assert(session_owner(f.index, cwd, root) == hit);
    assert(f.owners[k] == Some(f.active[pi].id@));
    lemma_owned_by_contains(f, f.active[pi].id@, ss.len() as int, k);
    let n = ss.len() as int;
    let t1 = Seq::new(f.active.len(), |q: int| tier1_node(ss, f, opts, q));
    let left = tier2_upto(ss, f, n);
    let bs = sort_buckets(left.buckets);
    let auto = tier2_nodes(ss, f, opts, bs, bs.len() as int);
    let disc = tier3_upto(ds, f, dj, auto.seen, ds.len() as int);
    let shown = t1 + relabel_projects(auto.nodes + disc.nodes);
    let homeless = left.homeless + auto.homeless;
    let ps = tree_spec(ss, ds, opts, f, dj).0;
    assert(shown[pi] == tier1_node(ss, f, opts, pi));
    if homeless.len() > 0 {
        let sorted = newest_idx(ss, homeless);
        assert(ps == seq![home_node(ss, sorted, opts)] + shown);
        assert(ps[0].is_no_project);
        assert(ps[1 + pi] == shown[pi]);
    } else {
        assert(ps == shown);
        if ps.len() > 0 && ps[0].is_no_project {
            if f.active.len() > 0 {
                assert(!tier1_node(ss, f, opts, 0).is_no_project);
            }
            assert(false);
        }
    }
}

/// Every session lands in exactly one node of the project tree, once: under an explicit
/// project, an automatic one or the home bucket; no node lists anything else. This holds when
/// the non-archived projects have distinct ids (two projects with one id would both list the
/// sessions it owns).
pub proof fn lemma_tree_sessions_partitioned<F: Fn(&str) -> Option<ResolveResult>>(
    projects: Seq<Project>,
    ss: Seq<Session>,
    ds: Seq<DiscoveredRepo>,
    resolve: Option<&F>,
    junk: spec_fn(Seq<char>, bool) -> bool,
    junk_cwd: spec_fn(Seq<char>, bool) -> bool,
    present: spec_fn(Seq<char>, bool) -> bool,
    opts: BuildTreeOptions,
    f: TreeFacts,
    dj: Seq<bool>,
    k: usize,
)
    requires
        facts_ok(projects, ss, ds, resolve, junk, junk_cwd, present, f),
        forall|a: int, b: int|
            0 <= a < b < active_spec(projects).len() ==> (#[trigger] active_spec(projects)[a]).id@
                != (#[trigger] active_spec(projects)[b]).id@,
        ss.len() <= usize::MAX,
    ensures
        member_count(tree_spec(ss, ds, opts, f, dj).0, k) == if (k as int) < ss.len() {
            1nat
        } else {
            0nat
        },
{
    let n = ss.len() as int;
    let t1 = Seq::new(f.active.len(), |pi: int| tier1_node(ss, f, opts, pi));
    let left = tier2_upto(ss, f, n);
    let bs = sort_buckets(left.buckets);
    let auto = tier2_nodes(ss, f, opts, bs, bs.len() as int);
    let disc = tier3_upto(ds, f, dj, auto.seen, ds.len() as int);
    let an = auto.nodes + disc.nodes;
    let tail = relabel_projects(an);
    let shown = t1 + tail;
    let homeless = left.homeless + auto.homeless;
    let act = active_spec(projects);
    assert forall|a: int, b: int| 0 <= a < b < f.active.len() implies (#[trigger] f.active[a]).id@
        != (#[trigger] f.active[b]).id@ by {
        assert(same_project(f.active[a], act[a]));
        assert(same_project(f.active[b], act[b]));
    }
    lemma_tier1_member_count(ss, f, opts, f.active.len() as int, k);
    lemma_owner_hits_unique(f, k as int, f.active.len() as int);
    if (k as int) < n {
        assert(session_facts_ok(ss[k as int], resolve, junk, junk_cwd, present, f, k as int));
        let s = ss[k as int];
        if cwd_text(s).len() > 0 {
            lemma_owner_is_active(f.index, f.active, cwd_text(s), f.roots[k as int]);
        }
        if f.owners[k as int] is Some {
            let j = choose|j: int| 0 <= j < f.active.len() && f.owners[k as int]->0 == (#[trigger] f.active[j]).id@;
            assert(f.owners[k as int] == Some(f.active[j].id@));
        }
    }
    lemma_tier2_upto_count(ss, f, n, k);
    lemma_sort_buckets_total(left.buckets, k);
    lemma_tier2_nodes_count(ss, f, opts, bs, bs.len() as int, k);
    assert(bs.take(bs.len() as int) =~= bs);
    lemma_disc_member_count(ds, f, dj, auto.seen, ds.len() as int, k);
    lemma_member_count_concat(auto.nodes, disc.nodes, k);
    lemma_member_count_same_members(tail, an, k);
    lemma_member_count_concat(t1, tail, k);
    lemma_occurrences_concat(left.homeless, auto.homeless, k);
    if homeless.len() > 0 {
        let sorted = newest_idx(ss, homeless);
        lemma_newest_idx_occurrences(ss, homeless, k);
        let home = home_node(ss, sorted, opts);
        lemma_member_count_concat(seq![home], shown, k);
        assert(seq![home].drop_last() =~= Seq::<ProjectModel>::empty());
        assert(seq![home].last() == home);
        assert(home.members == sorted);
        assert(member_count(Seq::<ProjectModel>::empty(), k) == 0);
        assert(member_count(seq![home], k) == occurrences(sorted, k));
    } else {
        assert(left.homeless.len() == 0 && auto.homeless.len() == 0);
    }
}

/// How many times `x` occurs in `ids`.
pub open spec fn id_count(ids: Seq<Seq<char>>, x: Seq<char>) -> nat
    decreases ids.len(),
{
    if ids.len() == 0 {
        0
    } else {
        id_count(ids.drop_last(), x) + if ids.last() == x {
            1nat
        } else {
            0nat
        }
    }
}

/// The non-empty session ids of `ss` are pairwise distinct.
pub open spec fn ids_distinct(ss: Seq<Session>) -> bool {
    forall|a: int, b: int|
        0 <= a < ss.len() && 0 <= b < ss.len() && a != b && (#[trigger] ss[a]).id@.len() > 0 ==> ss[a].id@
            != (#[trigger] ss[b]).id@
}

/// Some session of `ss` has the non-empty id `x`.
pub open spec fn has_id(ss: Seq<Session>, x: Seq<char>) -> bool {
    x.len() > 0 && exists|k: int| 0 <= k < ss.len() && (#[trigger] ss[k]).id@ == x
}

proof fn lemma_id_count_concat(a: Seq<Seq<char>>, b: Seq<Seq<char>>, x: Seq<char>)
    ensures
        id_count(a + b, x) == id_count(a, x) + id_count(b, x),
    decreases b.len(),
{
    if b.len() == 0 {
        assert(a + b =~= a);
    } else {
        lemma_id_count_concat(a, b.drop_last(), x);
        assert((a + b).drop_last() =~= a + b.drop_last());
    }
}

proof fn lemma_occurrences_positive(ks: Seq<usize>, p: int)
    requires
        0 <= p < ks.len(),
    ensures
        occurrences(ks, ks[p]) >= 1,
    decreases ks.len(),
{
    if p < ks.len() - 1 {
        lemma_occurrences_positive(ks.drop_last(), p);
    }
}

proof fn lemma_bucket_total_ge(bs: Seq<AutoBucket>, i: int, k: usize)
    requires
        0 <= i < bs.len(),
    ensures
        bucket_total(bs, k) >= occurrences(bs[i].members, k),
    decreases bs.len(),
{
    if i < bs.len() - 1 {
        lemma_bucket_total_ge(bs.drop_last(), i, k);
    }
}

/// The ids of the sessions at `ks`, all below `ss.len()`, hold `x` as often as `ks` holds the
/// session with that id, and never when no session has it.
proof fn lemma_ids_at_count(ss: Seq<Session>, ks: Seq<usize>, x: Seq<char>, k0: usize)
    requires
        ids_distinct(ss),
        all_below(ks, ss.len()),
        has_id(ss, x) ==> (k0 as int) < ss.len() && ss[k0 as int].id@ == x,
    ensures
        id_count(ids_of(at(ss, ks)), x) == if has_id(ss, x) {
            occurrences(ks, k0)
        } else {
            0
        },
    decreases ks.len(),
{
    if ks.len() > 0 {
        let w = ks.drop_last();
        assert(all_below(w, ss.len())) by {
            assert forall|i: int| 0 <= i < w.len() implies #[trigger] w[i] < ss.len() by {
                assert(w[i] == ks[i]);
            }
        }
        lemma_ids_at_count(ss, w, x, k0);
        assert(at(ss, ks).drop_last() =~= at(ss, w));
        let last = ks.last();
        assert(ks[ks.len() - 1] < ss.len());
        assert(at(ss, ks).last() == ss[last as int]);
        if has_id(ss, x) && last != k0 && ss[last as int].id@.len() > 0 {
            assert(ss[last as int].id@ != ss[k0 as int].id@);
        }
        if !has_id(ss, x) && ss[last as int].id@.len() > 0 && x.len() > 0 {
            assert(ss[last as int].id@ != x);
        }
        let ids_w = ids_of(at(ss, w));
        let id = ss[last as int].id@;
        if id.len() > 0 {
            assert(ids_of(at(ss, ks)) == ids_w.push(id));
            assert(ids_w.push(id).drop_last() =~= ids_w);
        } else {
            assert(ids_of(at(ss, ks)) == ids_w);
        }
    } else {
        assert(at(ss, ks).len() == 0);
    }
}

proof fn lemma_tier1_ids_count(ss: Seq<Session>, f: TreeFacts, opts: BuildTreeOptions, m: int, x: Seq<char>, k0: usize)
    requires
        0 <= m,
        ids_distinct(ss),
        ss.len() <= usize::MAX,
        has_id(ss, x) ==> (k0 as int) < ss.len() && ss[k0 as int].id@ == x,
    ensures
        id_count(tier1_ids(ss, f, m), x) == if has_id(ss, x) {
            member_count(Seq::new(m as nat, |pi: int| tier1_node(ss, f, opts, pi)), k0)
        } else {
            0
        },
    decreases m,
{
    if m > 0 {
        lemma_tier1_ids_count(ss, f, opts, m - 1, x, k0);
        let ks = owned_by(f, f.active[m - 1].id@, ss.len() as int);
        lemma_owned_by_below(f, f.active[m - 1].id@, ss.len() as int);
        lemma_ids_at_count(ss, ks, x, k0);
        lemma_id_count_concat(tier1_ids(ss, f, m - 1), ids_of(at(ss, ks)), x);
        let t = Seq::new(m as nat, |pi: int| tier1_node(ss, f, opts, pi));
        assert(t.drop_last() =~= Seq::new((m - 1) as nat, |pi: int| tier1_node(ss, f, opts, pi)));
    }
}

proof fn lemma_auto_ids_count(ss: Seq<Session>, f: TreeFacts, opts: BuildTreeOptions, bs: Seq<AutoBucket>, n: int, x: Seq<char>, k0: usize)
    requires
        0 <= n <= bs.len(),
        ids_distinct(ss),
        buckets_below(bs, ss.len()),
        has_id(ss, x) ==> (k0 as int) < ss.len() && ss[k0 as int].id@ == x,
    ensures
        id_count(tier2_nodes(ss, f, opts, bs, n).ids, x) == if has_id(ss, x) {
            member_count(tier2_nodes(ss, f, opts, bs, n).nodes, k0)
        } else {
            0
        },
    decreases n,
{
    if n > 0 {
        lemma_auto_ids_count(ss, f, opts, bs, n - 1, x, k0);
        let prev = tier2_nodes(ss, f, opts, bs, n - 1);
        let cur = tier2_nodes(ss, f, opts, bs, n);
        let b = bs[n - 1];
        if cur.nodes.len() == prev.nodes.len() + 1 {
            assert(all_below(b.members, ss.len()));
            lemma_ids_at_count(ss, b.members, x, k0);
            lemma_id_count_concat(prev.ids, ids_of(at(ss, b.members)), x);
            assert(cur.nodes.drop_last() =~= prev.nodes);
        }
    }
}

/// The ids of the sessions the project tree places hold each non-empty session id exactly
/// once and nothing else, when the non-empty session ids are distinct and so are the ids of
/// the non-archived projects.
pub proof fn lemma_tree_ids_permutation<F: Fn(&str) -> Option<ResolveResult>>(
    projects: Seq<Project>,
    ss: Seq<Session>,
    ds: Seq<DiscoveredRepo>,
    resolve: Option<&F>,
    junk: spec_fn(Seq<char>, bool) -> bool,
    junk_cwd: spec_fn(Seq<char>, bool) -> bool,
    present: spec_fn(Seq<char>, bool) -> bool,
    opts: BuildTreeOptions,
    f: TreeFacts,
    dj: Seq<bool>,
    x: Seq<char>,
)
    requires
        facts_ok(projects, ss, ds, resolve, junk, junk_cwd, present, f),
        forall|a: int, b: int|
            0 <= a < b < active_spec(projects).len() ==> (#[trigger] active_spec(projects)[a]).id@
                != (#[trigger] active_spec(projects)[b]).id@,
        ids_distinct(ss),
        ss.len() <= usize::MAX,
    ensures
        id_count(tree_spec(ss, ds, opts, f, dj).1, x) == if has_id(ss, x) {
            1nat
        } else {
            0nat
        },
{
    let n = ss.len() as int;
    let t1 = Seq::new(f.active.len(), |pi: int| tier1_node(ss, f, opts, pi));
    let left = tier2_upto(ss, f, n);
    let bs = sort_buckets(left.buckets);
    let auto = tier2_nodes(ss, f, opts, bs, bs.len() as int);
    let disc = tier3_upto(ds, f, dj, auto.seen, ds.len() as int);
    let an = auto.nodes + disc.nodes;
    let tail = relabel_projects(an);
    let shown = t1 + tail;
    let homeless = left.homeless + auto.homeless;
    let k0: usize = if has_id(ss, x) {
        (choose|k: int| 0 <= k < ss.len() && (#[trigger] ss[k]).id@ == x) as usize
    } else {
        0
    };
    let y = x;
    assert forall|k: usize| (k as int) >= n implies bucket_total(bs, k) == 0 by {
        lemma_tier2_upto_count(ss, f, n, k);
        lemma_sort_buckets_total(left.buckets, k);
    }
    assert(buckets_below(bs, ss.len())) by {
        assert forall|i: int| 0 <= i < bs.len() implies all_below(#[trigger] bs[i].members, ss.len()) by {
            assert forall|p: int| 0 <= p < bs[i].members.len() implies #[trigger] bs[i].members[p] < ss.len() by {
                lemma_occurrences_positive(bs[i].members, p);
                lemma_bucket_total_ge(bs, i, bs[i].members[p]);
            }
        }
    }
    lemma_tier1_ids_count(ss, f, opts, f.active.len() as int, y, k0);
    lemma_auto_ids_count(ss, f, opts, bs, bs.len() as int, y, k0);
    lemma_id_count_concat(tier1_ids(ss, f, f.active.len() as int), auto.ids, y);
    lemma_tree_sessions_partitioned(projects, ss, ds, resolve, junk, junk_cwd, present, opts, f, dj, k0);
    lemma_tier1_member_count(ss, f, opts, f.active.len() as int, k0);
    lemma_tier2_upto_count(ss, f, n, k0);
    lemma_sort_buckets_total(left.buckets, k0);
    lemma_tier2_nodes_count(ss, f, opts, bs, bs.len() as int, k0);
    assert(bs.take(bs.len() as int) =~= bs);
    lemma_disc_member_count(ds, f, dj, auto.seen, ds.len() as int, k0);
    lemma_member_count_concat(auto.nodes, disc.nodes, k0);
    lemma_member_count_same_members(tail, an, k0);
    lemma_member_count_concat(t1, tail, k0);
    lemma_occurrences_concat(left.homeless, auto.homeless, k0);
    if homeless.len() > 0 {
        let sorted = newest_idx(ss, homeless);
        lemma_newest_idx_occurrences(ss, homeless, k0);
        let home = home_node(ss, sorted, opts);
        lemma_member_count_concat(seq![home], shown, k0);
        assert(seq![home].drop_last() =~= Seq::<ProjectModel>::empty());
        assert(seq![home].last() == home);
        assert(member_count(Seq::<ProjectModel>::empty(), k0) == 0);
        assert(all_below(sorted, ss.len())) by {
            assert forall|p: int| 0 <= p < sorted.len() implies #[trigger] sorted[p] < ss.len() by {
                let q = sorted[p];
                lemma_occurrences_positive(sorted, p);
                lemma_newest_idx_occurrences(ss, homeless, q);
                lemma_occurrences_concat(left.homeless, auto.homeless, q);
                lemma_tier2_upto_count(ss, f, n, q);
                lemma_sort_buckets_total(left.buckets, q);
                lemma_tier2_nodes_count(ss, f, opts, bs, bs.len() as int, q);
            }
        }
        lemma_ids_at_count(ss, sorted, y, k0);
        lemma_id_count_concat(tier1_ids(ss, f, f.active.len() as int) + auto.ids, ids_of(at(ss, sorted)), y);
    }
}

// ---------------------------------------------------------------------------
// Gathering the facts
// ---------------------------------------------------------------------------

fn copy_folders(v: &[Folder]) -> (r: Vec<Folder>)
    ensures
        r@ == v@,
{
    let mut out: Vec<Folder> = Vec::new();
    let mut i: usize = 0;
    while i < v.len()
        invariant
            i <= v@.len(),
            out@ == v@.take(i as int),
        decreases v@.len() - i,
    {
        out.push(Folder { path: v[i].path.clone() });
        i = i + 1;
        assert(out@ =~= v@.take(i as int));
    }
    assert(v@.take(v@.len() as int) =~= v@);
    out
}

fn copy_project(p: &Project) -> (r: Project)
    ensures
        same_project(r, *p),
{
    Project {
        id: p.id.clone(),
        name: copy_opt(&p.name),
        primary_path: copy_opt(&p.primary_path),
        color: copy_opt(&p.color),
        icon: copy_opt(&p.icon),
        folders: copy_folders(p.folders.as_slice()),
        archived: p.archived,
    }
}

fn active_copies(ps: &[Project]) -> (r: Vec<Project>)
    ensures
        r@.len() == active_spec(ps@).len(),
        forall|i: int| 0 <= i < r@.len() ==> same_project(#[trigger] r@[i], active_spec(ps@)[i]),
{
    let mut out: Vec<Project> = Vec::new();
    let mut k: usize = 0;
    while k < ps.len()
        invariant
            k <= ps@.len(),
            out@.len() == active_spec(ps@.take(k as int)).len(),
            forall|i: int| 0 <= i < out@.len() ==> same_project(#[trigger] out@[i], active_spec(ps@.take(k as int))[i]),
        decreases ps@.len() - k,
    {
        assert(ps@.take(k + 1).drop_last() =~= ps@.take(k as int));
        if !ps[k].archived {
            out.push(copy_project(&ps[k]));
        }
        k = k + 1;
    }
    assert(ps@.take(ps@.len() as int) =~= ps@);
    out
}

proof fn lemma_index_bounds(idx: FolderIndex, ps: Seq<Project>)
    requires
        idx.indexes(ps),
    ensures
        forall|key: Seq<char>| #[trigger]
            idx.lookup(key) matches Some((pi, d)) ==> 0 <= pi < ps.len() && d >= 0,
{
    assert forall|key: Seq<char>| #[trigger]
        idx.lookup(key) is Some implies 0 <= (idx.lookup(key)->0).0 < ps.len() && (idx.lookup(key)->0).1 >= 0 by {
        if let Some((pi, d)) = idx.lookup(key) {
            assert(crate::project_tree::best_hit(ps, key, pi, d));
            let j = choose|j: int|
                crate::project_tree::scanned_before(pi, j, ps.len() as int, 0) && #[trigger] crate::project_tree::folder_hit(ps, key, pi, j, d);
        }
    }
}

fn ask_junk<J: Fn(&str) -> bool>(j: Option<&J>, arg: &str) -> (b: bool)
    requires
        j matches Some(f) ==> forall|x: &str| #[trigger] f.requires((x,)),
    ensures
        junk_says(j, arg@, b),
{
    match j {
        Some(f) => {
            let b = f(arg);
            assert(f.ensures((arg,), b));
            b
        },
        None => false,
    }
}

fn ask_exists<E: Fn(&str) -> bool>(e: Option<&E>, arg: &str) -> (b: bool)
    requires
        e matches Some(f) ==> forall|x: &str| #[trigger] f.requires((x,)),
    ensures
        exists_says(e, arg@, b),
{
    match e {
        Some(f) => {
            let b = f(arg);
            assert(f.ensures((arg,), b));
            b
        },
        None => true,
    }
}


/// What the tree learns about one session.
struct SessionFact {
    owner: Option<String>,
    root: String,
    place: Option<Placement>,
    root_ok: bool,
    cwd_junk: bool,
    place_ok: bool,
}

fn gather_session<F: Fn(&str) -> Option<ResolveResult>, J: Fn(&str) -> bool, K: Fn(&str) -> bool, E: Fn(&str) -> bool>(
    s: &Session,
    index: &FolderIndex,
    active: &[Project],
    resolve: Option<&F>,
    junk: Option<&J>,
    junk_cwd: Option<&K>,
    exists: Option<&E>,
) -> (r: SessionFact)
    requires
        resolve matches Some(f) ==> forall|x: &str| #[trigger] f.requires((x,)),
        junk matches Some(f) ==> forall|x: &str| #[trigger] f.requires((x,)),
        junk_cwd matches Some(f) ==> forall|x: &str| #[trigger] f.requires((x,)),
        exists matches Some(f) ==> forall|x: &str| #[trigger] f.requires((x,)),
        forall|key: Seq<char>| #[trigger]
            index.lookup(key) matches Some((pi, d)) ==> 0 <= pi < active@.len() && d >= 0,
    ensures
        one_session_ok(
            *s,
            resolve,
            junk_rel(junk),
            junk_rel(junk_cwd),
            exists_rel(exists),
            active@,
            *index,
            opt_view(r.owner),
            r.root@,
            placement_view(r.place),
            r.root_ok,
            r.cwd_junk,
            r.place_ok,
        ),
{
    let cwd = opt_trimmed(&s.cwd);
    let cc = to_chars(cwd.as_str());
    let root = session_repo_root(s, resolve);
    let rc = to_chars(root.as_str());
    let place = place_session(s, resolve);
    let owner = if cc.len() == 0 {
        None
    } else {
        match owner_hit(index, active, cwd.as_str(), root.as_str()) {
            Some(p) => Some(p.id.clone()),
            None => None,
        }
    };
    let mut root_ok = false;
    let mut cwd_junk = false;
    let mut place_ok = false;
    if owner.is_none() {
        if rc.len() > 0 {
            let j = ask_junk(junk, root.as_str());
            if !j {
                root_ok = ask_exists(exists, root.as_str());
            }
        } else if cc.len() > 0 {
            cwd_junk = ask_junk(junk_cwd, cwd.as_str());
            if !cwd_junk {
                match &place {
                    Some(p) => {
                        place_ok = ask_exists(exists, p.repo_key.as_str());
                    },
                    None => {},
                }
            }
        }
    }
    SessionFact { owner, root, place, root_ok, cwd_junk, place_ok }
}


// ---------------------------------------------------------------------------
// Building project nodes
// ---------------------------------------------------------------------------

/// Every position in `ks` is below `n`.
pub open spec fn all_below(ks: Seq<usize>, n: nat) -> bool {
    forall|i: int| 0 <= i < ks.len() ==> (#[trigger] ks[i]) < n
}

fn sessions_at(ss: &[Session], ks: &[usize]) -> (r: Vec<Session>)
    requires
        all_below(ks@, ss@.len()),
    ensures
        r@ == at(ss@, ks@),
{
    let mut out: Vec<Session> = Vec::new();
    let mut i: usize = 0;
    while i < ks.len()
        invariant
            i <= ks@.len(),
            all_below(ks@, ss@.len()),
            out@ == at(ss@, ks@).take(i as int),
        decreases ks@.len() - i,
    {
        let k = ks[i];
        assert(k < ss@.len());
        out.push(copy_session(&ss[k]));
        i = i + 1;
        assert(out@ =~= at(ss@, ks@).take(i as int));
    }
    assert(at(ss@, ks@).take(ks@.len() as int) =~= at(ss@, ks@));
    out
}

proof fn lemma_insert_idx_below(ss: Seq<Session>, sorted: Seq<usize>, k: usize, n: nat)
    requires
        all_below(sorted, n),
        k < n,
    ensures
        all_below(insert_idx(ss, sorted, k), n),
        insert_idx(ss, sorted, k).len() == sorted.len() + 1,
    decreases sorted.len(),
{
    if sorted.len() > 0 && !(ss[sorted[0] as int].recency < ss[k as int].recency) {
        lemma_insert_idx_below(ss, sorted.drop_first(), k, n);
        let rest = insert_idx(ss, sorted.drop_first(), k);
        assert forall|i: int| 0 <= i < (seq![sorted[0]] + rest).len() implies #[trigger] (seq![sorted[0]] + rest)[i] < n by {
            if i > 0 {
                assert((seq![sorted[0]] + rest)[i] == rest[i - 1]);
            }
        }
    } else if sorted.len() > 0 {
        assert forall|i: int| 0 <= i < (seq![k] + sorted).len() implies #[trigger] (seq![k] + sorted)[i] < n by {
            if i > 0 {
                assert((seq![k] + sorted)[i] == sorted[i - 1]);
            }
        }
    }
}

proof fn lemma_newest_idx_below(ss: Seq<Session>, ks: Seq<usize>, n: nat)
    requires
        all_below(ks, n),
    ensures
        all_below(newest_idx(ss, ks), n),
        newest_idx(ss, ks).len() == ks.len(),
    decreases ks.len(),
{
    if ks.len() > 0 {
        lemma_newest_idx_below(ss, ks.drop_last(), n);
        lemma_insert_idx_below(ss, newest_idx(ss, ks.drop_last()), ks.last(), n);
    }
}

fn insert_idx_exec(ss: &[Session], sorted: Vec<usize>, k: usize) -> (r: Vec<usize>)
    requires
        all_below(sorted@, ss@.len()),
        k < ss@.len(),
    ensures
        r@ == insert_idx(ss@, sorted@, k),
{
    let mut i: usize = 0;
    assert(sorted@.subrange(0, 0) + sorted@.subrange(0, sorted@.len() as int) =~= sorted@);
    while i < sorted.len() && !(ss[sorted[i]].recency < ss[k].recency)
        invariant
            i <= sorted@.len(),
            all_below(sorted@, ss@.len()),
            k < ss@.len(),
            insert_idx(ss@, sorted@, k) == sorted@.subrange(0, i as int) + insert_idx(
                ss@,
                sorted@.subrange(i as int, sorted@.len() as int),
                k,
            ),
        decreases sorted@.len() - i,
    {
        proof {
            let rest = sorted@.subrange(i as int, sorted@.len() as int);
            assert(rest.drop_first() =~= sorted@.subrange(i + 1, sorted@.len() as int));
            assert(sorted@.subrange(0, i + 1) =~= sorted@.subrange(0, i as int) + seq![rest[0]]);
        }
        i = i + 1;
    }
    let mut out: Vec<usize> = Vec::new();
    let mut x: usize = 0;
    while x < i
        invariant
            x <= i <= sorted@.len(),
            out@ == sorted@.subrange(0, x as int),
        decreases i - x,
    {
        out.push(sorted[x]);
        x = x + 1;
        assert(out@ =~= sorted@.subrange(0, x as int));
    }
    out.push(k);
    let mut x: usize = i;
    while x < sorted.len()
        invariant
            i <= x <= sorted@.len(),
            out@ == sorted@.subrange(0, i as int) + seq![k] + sorted@.subrange(i as int, x as int),
        decreases sorted@.len() - x,
    {
        out.push(sorted[x]);
        x = x + 1;
        assert(out@ =~= sorted@.subrange(0, i as int) + seq![k] + sorted@.subrange(i as int, x as int));
    }
    proof {
        let rest = sorted@.subrange(i as int, sorted@.len() as int);
        if rest.len() == 0 {
            assert(insert_idx(ss@, rest, k) =~= seq![k]);
        } else {
            assert(insert_idx(ss@, rest, k) == seq![k] + rest);
        }
        assert(out@ =~= insert_idx(ss@, sorted@, k));
    }
    out
}

fn newest_idx_exec(ss: &[Session], ks: &[usize]) -> (r: Vec<usize>)
    requires
        all_below(ks@, ss@.len()),
    ensures
        r@ == newest_idx(ss@, ks@),
        all_below(r@, ss@.len()),
        r@.len() == ks@.len(),
{
    let mut out: Vec<usize> = Vec::new();
    let mut i: usize = 0;
    while i < ks.len()
        invariant
            i <= ks@.len(),
            all_below(ks@, ss@.len()),
            out@ == newest_idx(ss@, ks@.take(i as int)),
            all_below(out@, ss@.len()),
        decreases ks@.len() - i,
    {
        assert(ks@.take(i + 1).drop_last() =~= ks@.take(i as int));
        proof {
            lemma_insert_idx_below(ss@, out@, ks@[i as int], ss@.len());
        }
        out = insert_idx_exec(ss, out, ks[i]);
        i = i + 1;
    }
    assert(ks@.take(ks@.len() as int) =~= ks@);
    proof {
        lemma_newest_idx_below(ss@, ks@, ss@.len());
    }
    out
}

fn previews_exec(ss: &[Session], ks: &[usize], limit: usize) -> (r: Vec<Session>)
    requires
        all_below(ks@, ss@.len()),
    ensures
        r@ == previews_of(ss@, ks@, limit as nat),
{
    if limit == 0 {
        return Vec::new();
    }
    let o = newest_idx_exec(ss, ks);
    if o.len() <= limit {
        sessions_at(ss, o.as_slice())
    } else {
        let mut t: Vec<usize> = Vec::new();
        let mut i: usize = 0;
        while i < limit
            invariant
                i <= limit < o@.len(),
                t@ == o@.take(i as int),
            decreases limit - i,
        {
            t.push(o[i]);
            i = i + 1;
            assert(t@ =~= o@.take(i as int));
        }
        assert(all_below(t@, ss@.len()));
        sessions_at(ss, t.as_slice())
    }
}

fn tokens_sum_exec(ss: &[Session]) -> (r: u64)
    ensures
        r == tokens_sum(ss@),
{
    let mut total: u64 = 0;
    let mut i: usize = 0;
    while i < ss.len()
        invariant
            i <= ss@.len(),
            total == tokens_sum(ss@.take(i as int)),
        decreases ss@.len() - i,
    {
        assert(ss@.take(i + 1).drop_last() =~= ss@.take(i as int));
        let a = match ss[i].input_tokens {
            Some(v) => v,
            None => 0,
        };
        let b = match ss[i].output_tokens {
            Some(v) => v,
            None => 0,
        };
        total = total.wrapping_add(a.wrapping_add(b));
        i = i + 1;
    }
    assert(ss@.take(ss@.len() as int) =~= ss@);
    total
}

fn ids_exec(ss: &[Session], out: &mut Vec<String>)
    ensures
        string_views(final(out)@) == string_views(old(out)@) + ids_of(ss@),
{
    let ghost start = string_views(out@);
    let mut i: usize = 0;
    assert(string_views(out@) =~= start + ids_of(ss@.take(0)));
    while i < ss.len()
        invariant
            i <= ss@.len(),
            string_views(out@) == start + ids_of(ss@.take(i as int)),
        decreases ss@.len() - i,
    {
        assert(ss@.take(i + 1).drop_last() =~= ss@.take(i as int));
        let ghost before = string_views(out@);
        let id = to_chars(ss[i].id.as_str());
        if id.len() > 0 {
            let x = ss[i].id.clone();
            out.push(x);
            assert(string_views(out@) =~= before.push(x@));
        }
        i = i + 1;
    }
    assert(ss@.take(ss@.len() as int) =~= ss@);
}

/// Builds the node of a project over the sessions at `ks`, as [`sessions_node`] says.
fn make_sessions_node(
    ss: &[Session],
    ks: Vec<usize>,
    limit: usize,
    id: String,
    label: String,
    path: Option<String>,
    color: Option<String>,
    icon: Option<String>,
    is_auto: bool,
    session_count: usize,
    repos: Vec<RepoNode>,
) -> (r: ProjectNode)
    requires
        all_below(ks@, ss@.len()),
    ensures
        project_view(r) == sessions_node(
            ss@,
            ks@,
            limit as nat,
            id@,
            label@,
            opt_view(path),
            opt_view(color),
            opt_view(icon),
            is_auto,
            session_count as nat,
            repo_views(repos@),
        ),
{
    let sub = sessions_at(ss, ks.as_slice());
    let recency = max_recency_exec(sub.as_slice());
    let total_tokens = tokens_sum_exec(sub.as_slice());
    let preview_sessions = previews_exec(ss, ks.as_slice(), limit);
    ProjectNode {
        id,
        label,
        path,
        color,
        icon,
        is_auto,
        is_no_project: false,
        session_count,
        recency,
        total_tokens,
        repos,
        preview_sessions,
        members: ks,
    }
}


// ---------------------------------------------------------------------------
// Gathering every fact before building
// ---------------------------------------------------------------------------

struct Gathered {
    active: Vec<Project>,
    index: FolderIndex,
    owners: Vec<Option<String>>,
    roots: Vec<String>,
    places: Vec<Option<Placement>>,
    root_ok: Vec<bool>,
    cwd_junk: Vec<bool>,
    place_ok: Vec<bool>,
    folder_roots: Vec<Vec<Option<String>>>,
    disc_roots: Vec<String>,
}

pub open spec fn nested_opt_views(v: Seq<Vec<Option<String>>>) -> Seq<Seq<Option<Seq<char>>>> {
    v.map_values(|x: Vec<Option<String>>| opt_views(x@))
}

spec fn gathered_view(g: Gathered) -> TreeFacts {
    TreeFacts {
        active: g.active@,
        index: g.index,
        owners: opt_views(g.owners@),
        roots: string_views(g.roots@),
        places: placement_views(g.places@),
        root_ok: g.root_ok@,
        cwd_junk: g.cwd_junk@,
        place_ok: g.place_ok@,
        folder_roots: nested_opt_views(g.folder_roots@),
        disc_roots: string_views(g.disc_roots@),
    }
}

fn gather<F: Fn(&str) -> Option<ResolveResult>, J: Fn(&str) -> bool, K: Fn(&str) -> bool, E: Fn(&str) -> bool>(
    projects: &[Project],
    sessions: &[Session],
    discovered: &[DiscoveredRepo],
    resolve: Option<&F>,
    junk: Option<&J>,
    junk_cwd: Option<&K>,
    exists: Option<&E>,
) -> (g: Gathered)
    requires
        resolve matches Some(f) ==> forall|x: &str| #[trigger] f.requires((x,)),
        junk matches Some(f) ==> forall|x: &str| #[trigger] f.requires((x,)),
        junk_cwd matches Some(f) ==> forall|x: &str| #[trigger] f.requires((x,)),
        exists matches Some(f) ==> forall|x: &str| #[trigger] f.requires((x,)),
    ensures
        facts_ok(
            projects@,
            sessions@,
            discovered@,
            resolve,
            junk_rel(junk),
            junk_rel(junk_cwd),
            exists_rel(exists),
            gathered_view(g),
        ),
        forall|key: Seq<char>| #[trigger]
            g.index.lookup(key) matches Some((pi, d)) ==> 0 <= pi < g.active@.len() && d >= 0,
{
    let active = active_copies(projects);
    let index = FolderIndex::new(active.as_slice());
    proof {
        lemma_index_bounds(index, active@);
    }
    let mut owners: Vec<Option<String>> = Vec::new();
    let mut roots: Vec<String> = Vec::new();
    let mut places: Vec<Option<Placement>> = Vec::new();
    let mut root_ok: Vec<bool> = Vec::new();
    let mut cwd_junk: Vec<bool> = Vec::new();
    let mut place_ok: Vec<bool> = Vec::new();
    let mut k: usize = 0;
    while k < sessions.len()
        invariant
            k <= sessions@.len(),
            resolve matches Some(f) ==> forall|x: &str| #[trigger] f.requires((x,)),
            junk matches Some(f) ==> forall|x: &str| #[trigger] f.requires((x,)),
            junk_cwd matches Some(f) ==> forall|x: &str| #[trigger] f.requires((x,)),
            exists matches Some(f) ==> forall|x: &str| #[trigger] f.requires((x,)),
            forall|key: Seq<char>| #[trigger]
                index.lookup(key) matches Some((pi, d)) ==> 0 <= pi < active@.len() && d >= 0,
            owners@.len() == k,
            roots@.len() == k,
            places@.len() == k,
            root_ok@.len() == k,
            cwd_junk@.len() == k,
            place_ok@.len() == k,
            forall|j: int|
                0 <= j < k ==> #[trigger] one_session_ok(
                    sessions@[j],
                    resolve,
                    junk_rel(junk),
                    junk_rel(junk_cwd),
                    exists_rel(exists),
                    active@,
                    index,
                    opt_views(owners@)[j],
                    string_views(roots@)[j],
                    placement_views(places@)[j],
                    root_ok@[j],
                    cwd_junk@[j],
                    place_ok@[j],
                ),
        decreases sessions@.len() - k,
    {
        let ghost o0 = opt_views(owners@);
        let ghost r0 = string_views(roots@);
        let ghost p0 = placement_views(places@);
        let fact = gather_session(&sessions[k], &index, active.as_slice(), resolve, junk, junk_cwd, exists);
        let ghost fo = opt_view(fact.owner);
        let ghost fr = fact.root@;
        let ghost fp = placement_view(fact.place);
        owners.push(fact.owner);
        roots.push(fact.root);
        places.push(fact.place);
        root_ok.push(fact.root_ok);
        cwd_junk.push(fact.cwd_junk);
        place_ok.push(fact.place_ok);
        assert(opt_views(owners@) =~= o0.push(fo));
        assert(string_views(roots@) =~= r0.push(fr));
        assert(placement_views(places@) =~= p0.push(fp));
        k = k + 1;
    }
    let mut folder_roots: Vec<Vec<Option<String>>> = Vec::new();
    let mut pi: usize = 0;
    while pi < active.len()
        invariant
            pi <= active@.len(),
            resolve matches Some(f) ==> forall|x: &str| #[trigger] f.requires((x,)),
            folder_roots@.len() == pi,
            forall|i: int| 0 <= i < pi ==> (#[trigger] nested_opt_views(folder_roots@)[i]).len() == active@[i].folders@.len(),
            forall|i: int, j: int| 0 <= i < pi && 0 <= j < active@[i].folders@.len() ==> folder_root_of(resolve, active@[i].folders@[j], #[trigger] nested_opt_views(folder_roots@)[i][j]),
        decreases active@.len() - pi,
    {
        let fs = &active[pi].folders;
        let mut rs: Vec<Option<String>> = Vec::new();
        let mut j: usize = 0;
        while j < fs.len()
            invariant
                j <= fs@.len(),
                resolve matches Some(f) ==> forall|x: &str| #[trigger] f.requires((x,)),
                rs@.len() == j,
                forall|x: int| 0 <= x < j ==> folder_root_of(resolve, fs@[x], #[trigger] opt_views(rs@)[x]),
            decreases fs@.len() - j,
        {
            let ghost before = opt_views(rs@);
            let x = folder_root_exec(&fs[j], resolve);
            rs.push(x);
            assert(opt_views(rs@) =~= before.push(opt_view(x)));
            j = j + 1;
        }
        let ghost before = nested_opt_views(folder_roots@);
        let ghost rv = opt_views(rs@);
        folder_roots.push(rs);
        assert(nested_opt_views(folder_roots@) =~= before.push(rv));
        pi = pi + 1;
    }
    let mut disc_roots: Vec<String> = Vec::new();
    let mut d: usize = 0;
    while d < discovered.len()
        invariant
            d <= discovered@.len(),
            resolve matches Some(f) ==> forall|x: &str| #[trigger] f.requires((x,)),
            disc_roots@.len() == d,
            forall|x: int| 0 <= x < d && trim(discovered@[x].root@).len() > 0 ==> disc_root_of(resolve, trim(discovered@[x].root@), #[trigger] string_views(disc_roots@)[x]),
        decreases discovered@.len() - d,
    {
        let ghost before = string_views(disc_roots@);
        let c = to_chars(discovered[d].root.as_str());
        let raw = trim_exec(c.as_slice());
        let raw_s = from_chars(raw.as_slice());
        let root = match resolve {
            Some(f) => {
                if raw.len() > 0 {
                    let info = f(raw_s.as_str());
                    proof {
                        assert(answered(*f, raw@, info));
                    }
                    match &info {
                        Some(i) => {
                            let rc = to_chars(i.repo_root.as_str());
                            let rt = trim_exec(rc.as_slice());
                            if rt.len() > 0 {
                                from_chars(rt.as_slice())
                            } else {
                                raw_s
                            }
                        },
                        None => raw_s,
                    }
                } else {
                    raw_s
                }
            },
            None => raw_s,
        };
        let ghost rv = root@;
        disc_roots.push(root);
        assert(string_views(disc_roots@) =~= before.push(rv));
        d = d + 1;
    }
    let g = Gathered { active, index, owners, roots, places, root_ok, cwd_junk, place_ok, folder_roots, disc_roots };
    proof {
        let f = gathered_view(g);
        let jr = junk_rel(junk);
        let kr = junk_rel(junk_cwd);
        let er = exists_rel(exists);
        assert forall|k: int| 0 <= k < sessions@.len() implies #[trigger] session_facts_ok(sessions@[k], resolve, jr, kr, er, f, k) by {
            assert(one_session_ok(sessions@[k], resolve, jr, kr, er, g.active@, g.index, opt_views(g.owners@)[k], string_views(g.roots@)[k], placement_views(g.places@)[k], g.root_ok@[k], g.cwd_junk@[k], g.place_ok@[k]));
        }
    }
    g
}


// ---------------------------------------------------------------------------
// The tiers
// ---------------------------------------------------------------------------

proof fn lemma_owned_by_below(f: TreeFacts, id: Seq<char>, n: int)
    requires
        n >= 0,
    ensures
        all_below(owned_by(f, id, n), n as nat),
    decreases n,
{
    if n > 0 {
        lemma_owned_by_below(f, id, n - 1);
    }
}

fn owned_by_exec(owners: &[Option<String>], id: &str, f: Ghost<TreeFacts>) -> (r: Vec<usize>)
    requires
        f@.owners == opt_views(owners@),
    ensures
        r@ == owned_by(f@, id@, owners@.len() as int),
        all_below(r@, owners@.len() as nat),
{
    let mut out: Vec<usize> = Vec::new();
    let mut k: usize = 0;
    while k < owners.len()
        invariant
            k <= owners@.len(),
            f@.owners == opt_views(owners@),
            out@ == owned_by(f@, id@, k as int),
        decreases owners@.len() - k,
    {
        let hit = match &owners[k] {
            Some(o) => crate::text::chars_eq_str(to_chars(o.as_str()).as_slice(), id),
            None => false,
        };
        assert(hit == (f@.owners[k as int] == Some(id@)));
        if hit {
            out.push(k);
        }
        k = k + 1;
    }
    proof {
        lemma_owned_by_below(f@, id@, owners@.len() as int);
    }
    out
}

fn copy_placement(p: &Placement) -> (r: Placement)
    ensures
        r == *p,
{
    Placement {
        repo_key: p.repo_key.clone(),
        repo_label: p.repo_label.clone(),
        repo_path: p.repo_path.clone(),
        lane_key: p.lane_key.clone(),
        lane_label: p.lane_label.clone(),
        lane_path: p.lane_path.clone(),
        is_main: p.is_main,
        is_kanban: p.is_kanban,
    }
}

fn places_at_exec(places: &[Option<Placement>], ks: &[usize], f: Ghost<TreeFacts>) -> (r: Vec<Option<Placement>>)
    requires
        f@.places == placement_views(places@),
        all_below(ks@, places@.len() as nat),
    ensures
        placement_views(r@) == places_at(f@, ks@),
        r@.len() == ks@.len(),
{
    let mut out: Vec<Option<Placement>> = Vec::new();
    let mut i: usize = 0;
    while i < ks.len()
        invariant
            i <= ks@.len(),
            f@.places == placement_views(places@),
            all_below(ks@, places@.len() as nat),
            out@.len() == i,
            placement_views(out@) == places_at(f@, ks@).take(i as int),
        decreases ks@.len() - i,
    {
        let k = ks[i];
        assert(k < places@.len());
        let x = match &places[k] {
            Some(p) => Some(copy_placement(p)),
            None => None,
        };
        let ghost before = placement_views(out@);
        out.push(x);
        assert(placement_views(out@) =~= before.push(placement_view(x)));
        i = i + 1;
        assert(placement_views(out@) =~= places_at(f@, ks@).take(i as int));
    }
    assert(places_at(f@, ks@).take(ks@.len() as int) =~= places_at(f@, ks@));
    out
}

fn tier1_exec(
    ss: &[Session],
    g: &Gathered,
    opts: &BuildTreeOptions,
    nodes: &mut Vec<ProjectNode>,
    ids: &mut Vec<String>,
)
    requires
        old(nodes)@.len() == 0,
        old(ids)@.len() == 0,
        gathered_view(*g).owners.len() == ss@.len(),
        gathered_view(*g).places.len() == ss@.len(),
        gathered_view(*g).folder_roots.len() == g.active@.len(),
    ensures
        project_views(final(nodes)@) == Seq::new(g.active@.len(), |pi: int| tier1_node(ss@, gathered_view(*g), *opts, pi)),
        string_views(final(ids)@) == tier1_ids(ss@, gathered_view(*g), g.active@.len() as int),
{
    let ghost f = gathered_view(*g);
    let ghost t1 = Seq::new(g.active@.len(), |pi: int| tier1_node(ss@, f, *opts, pi));
    let mut pi: usize = 0;
    assert(project_views(nodes@) =~= t1.take(0));
    while pi < g.active.len()
        invariant
            pi <= g.active@.len(),
            f == gathered_view(*g),
            f.owners.len() == ss@.len(),
            f.places.len() == ss@.len(),
            f.folder_roots.len() == g.active@.len(),
            t1 == Seq::new(g.active@.len(), |pi: int| tier1_node(ss@, f, *opts, pi)),
            project_views(nodes@) == t1.take(pi as int),
            string_views(ids@) == tier1_ids(ss@, f, pi as int),
        decreases g.active@.len() - pi,
    {
        let p = &g.active[pi];
        let ks = owned_by_exec(g.owners.as_slice(), p.id.as_str(), Ghost(f));
        let sub = sessions_at(ss, ks.as_slice());
        let subp = places_at_exec(g.places.as_slice(), ks.as_slice(), Ghost(f));
        let repos = build_repos_from(sub.as_slice(), subp.as_slice(), opts.hydrate);
        assert(opt_views(g.folder_roots@[pi as int]@) == f.folder_roots[pi as int]);
        let seeded = seed_folder_repos_from(repos, g.folder_roots[pi].as_slice());
        ids_exec(sub.as_slice(), ids);
        let label = match &p.name {
            Some(n) => n.clone(),
            None => p.id.clone(),
        };
        let count = ks.len();
        let node = make_sessions_node(
            ss,
            ks,
            opts.preview_limit,
            p.id.clone(),
            label,
            copy_opt(&p.primary_path),
            copy_opt(&p.color),
            copy_opt(&p.icon),
            false,
            count,
            seeded,
        );
        let ghost before = project_views(nodes@);
        nodes.push(node);
        proof {
            assert(project_view(node) == t1[pi as int]);
            assert(project_views(nodes@) =~= before.push(project_view(node)));
            assert(t1.take(pi + 1) =~= t1.take(pi as int).push(t1[pi as int]));
        }
        pi = pi + 1;
    }
    assert(t1.take(t1.len() as int) =~= t1);
}


// ---- tier 2 ----

struct Bucket {
    key: Vec<char>,
    root: String,
    members: Vec<usize>,
}

spec fn bucket_view(b: Bucket) -> AutoBucket {
    AutoBucket { key: b.key@, root: b.root@, members: b.members@ }
}

spec fn bucket_views(v: Seq<Bucket>) -> Seq<AutoBucket> {
    v.map_values(|b: Bucket| bucket_view(b))
}

/// Every member of every bucket is below `n`.
pub open spec fn buckets_below(bs: Seq<AutoBucket>, n: nat) -> bool {
    forall|i: int| 0 <= i < bs.len() ==> all_below(#[trigger] bs[i].members, n)
}

fn find_bucket_exec(bs: &[Bucket], key: &[char]) -> (r: Option<usize>)
    ensures
        match r {
            Some(i) => find_bucket(bucket_views(bs@), key@, 0) == Some(i as int) && i < bs@.len(),
            None => find_bucket(bucket_views(bs@), key@, 0) is None,
        },
{
    let ghost bv = bucket_views(bs@);
    let mut i: usize = 0;
    while i < bs.len()
        invariant
            i <= bs@.len(),
            bv == bucket_views(bs@),
            find_bucket(bv, key@, i as int) == find_bucket(bv, key@, 0),
        decreases bs@.len() - i,
    {
        if chars_eq(bs[i].key.as_slice(), key) {
            return Some(i);
        }
        i = i + 1;
    }
    None
}

fn add_auto_exec(buckets: &mut Vec<Bucket>, homeless: &mut Vec<usize>, root: &str, k: usize, n: Ghost<nat>)
    requires
        k < n@,
        buckets_below(bucket_views(old(buckets)@), n@),
        all_below(old(homeless)@, n@),
    ensures
        (Leftovers { buckets: bucket_views(final(buckets)@), homeless: final(homeless)@ }) == add_auto(
            Leftovers { buckets: bucket_views(old(buckets)@), homeless: old(homeless)@ },
            root@,
            k,
        ),
        buckets_below(bucket_views(final(buckets)@), n@),
        all_below(final(homeless)@, n@),
{
    let ghost b0 = bucket_views(buckets@);
    let key = path_key(root);
    let kc = to_chars(key.as_str());
    if kc.len() == 0 {
        homeless.push(k);
        assert(all_below(homeless@, n@));
        return;
    }
    match find_bucket_exec(buckets.as_slice(), kc.as_slice()) {
        Some(i) => {
            let mut b = buckets.remove(i);
            let ghost bv = bucket_view(b);
            b.members.push(k);
            let ghost nb = AutoBucket { members: bv.members.push(k), ..bv };
            assert(bucket_view(b) == nb);
            buckets.insert(i, b);
            assert(bucket_views(buckets@) =~= b0.update(i as int, nb));
            assert(all_below(b0[i as int].members, n@));
            assert(all_below(nb.members, n@));
        },
        None => {
            let mut members: Vec<usize> = Vec::new();
            members.push(k);
            let b = Bucket { key: kc, root: own_str(root), members };
            let ghost bv = bucket_view(b);
            assert(bv.members =~= seq![k]);
            buckets.push(b);
            assert(bucket_views(buckets@) =~= b0.push(bv));
        },
    }
}

fn tier2_exec(ss: &[Session], g: &Gathered) -> (r: (Vec<Bucket>, Vec<usize>))
    requires
        gathered_view(*g).owners.len() == ss@.len(),
        gathered_view(*g).roots.len() == ss@.len(),
        gathered_view(*g).places.len() == ss@.len(),
        g.root_ok@.len() == ss@.len(),
        g.cwd_junk@.len() == ss@.len(),
        g.place_ok@.len() == ss@.len(),
    ensures
        (Leftovers { buckets: bucket_views(r.0@), homeless: r.1@ }) == tier2_upto(ss@, gathered_view(*g), ss@.len() as int),
        buckets_below(bucket_views(r.0@), ss@.len() as nat),
        all_below(r.1@, ss@.len() as nat),
{
    let ghost f = gathered_view(*g);
    let mut buckets: Vec<Bucket> = Vec::new();
    let mut homeless: Vec<usize> = Vec::new();
    let mut k: usize = 0;
    assert(bucket_views(buckets@) =~= Seq::<AutoBucket>::empty());
    assert(homeless@ =~= Seq::<usize>::empty());
    while k < ss.len()
        invariant
            k <= ss@.len(),
            f == gathered_view(*g),
            f.owners.len() == ss@.len(),
            f.roots.len() == ss@.len(),
            f.places.len() == ss@.len(),
            g.root_ok@.len() == ss@.len(),
            g.cwd_junk@.len() == ss@.len(),
            g.place_ok@.len() == ss@.len(),
            (Leftovers { buckets: bucket_views(buckets@), homeless: homeless@ }) == tier2_upto(ss@, f, k as int),
            buckets_below(bucket_views(buckets@), ss@.len() as nat),
            all_below(homeless@, ss@.len() as nat),
        decreases ss@.len() - k,
    {
        let ghost prev = tier2_upto(ss@, f, k as int);
        assert(f.owners[k as int] == opt_view(g.owners@[k as int]));
        assert(f.roots[k as int] == g.roots@[k as int]@);
        assert(f.places[k as int] == placement_view(g.places@[k as int]));
        if g.owners[k].is_none() {
            let rc = to_chars(g.roots[k].as_str());
            if rc.len() > 0 {
                if g.root_ok[k] {
                    add_auto_exec(&mut buckets, &mut homeless, g.roots[k].as_str(), k, Ghost(ss@.len() as nat));
                } else {
                    homeless.push(k);
                }
            } else {
                let cwd = opt_trimmed(&ss[k].cwd);
                let cc = to_chars(cwd.as_str());
                if cc.len() == 0 || g.cwd_junk[k] {
                    homeless.push(k);
                } else {
                    match &g.places[k] {
                        Some(p) => {
                            if g.place_ok[k] {
                                add_auto_exec(&mut buckets, &mut homeless, p.repo_key.as_str(), k, Ghost(ss@.len() as nat));
                            } else {
                                homeless.push(k);
                            }
                        },
                        None => {
                            homeless.push(k);
                        },
                    }
                }
            }
        }
        k = k + 1;
    }
    (buckets, homeless)
}

fn copy_usizes(v: &[usize]) -> (r: Vec<usize>)
    ensures
        r@ == v@,
{
    let mut out: Vec<usize> = Vec::new();
    let mut i: usize = 0;
    while i < v.len()
        invariant
            i <= v@.len(),
            out@ == v@.take(i as int),
        decreases v@.len() - i,
    {
        out.push(v[i]);
        i = i + 1;
        assert(out@ =~= v@.take(i as int));
    }
    assert(v@.take(v@.len() as int) =~= v@);
    out
}

fn copy_bucket(b: &Bucket) -> (r: Bucket)
    ensures
        bucket_view(r) == bucket_view(*b),
{
    let key = slice_vec(b.key.as_slice(), 0, b.key.len());
    assert(key@ =~= b.key@);
    Bucket { key, root: b.root.clone(), members: copy_usizes(b.members.as_slice()) }
}

proof fn lemma_insert_bucket_below(sorted: Seq<AutoBucket>, b: AutoBucket, n: nat)
    requires
        buckets_below(sorted, n),
        all_below(b.members, n),
    ensures
        buckets_below(insert_bucket(sorted, b), n),
    decreases sorted.len(),
{
    if sorted.len() > 0 && !lex_lt(b.key, sorted[0].key) {
        lemma_insert_bucket_below(sorted.drop_first(), b, n);
        let rest = insert_bucket(sorted.drop_first(), b);
        assert forall|i: int| 0 <= i < (seq![sorted[0]] + rest).len() implies all_below(#[trigger] (seq![sorted[0]] + rest)[i].members, n) by {
            if i > 0 {
                assert((seq![sorted[0]] + rest)[i] == rest[i - 1]);
            }
        }
    } else if sorted.len() > 0 {
        assert forall|i: int| 0 <= i < (seq![b] + sorted).len() implies all_below(#[trigger] (seq![b] + sorted)[i].members, n) by {
            if i > 0 {
                assert((seq![b] + sorted)[i] == sorted[i - 1]);
            }
        }
    } else {
        assert forall|i: int| 0 <= i < seq![b].len() implies all_below(#[trigger] seq![b][i].members, n) by {
        }
    }
}

fn insert_bucket_exec(sorted: Vec<Bucket>, b: Bucket) -> (r: Vec<Bucket>)
    ensures
        bucket_views(r@) == insert_bucket(bucket_views(sorted@), bucket_view(b)),
{
    let ghost sv = bucket_views(sorted@);
    let mut i: usize = 0;
    assert(sv.subrange(0, 0) + sv.subrange(0, sv.len() as int) =~= sv);
    while i < sorted.len() && !lex_lt_exec(b.key.as_slice(), sorted[i].key.as_slice())
        invariant
            i <= sorted@.len(),
            sv == bucket_views(sorted@),
            insert_bucket(sv, bucket_view(b)) == sv.subrange(0, i as int) + insert_bucket(
                sv.subrange(i as int, sv.len() as int),
                bucket_view(b),
            ),
        decreases sorted@.len() - i,
    {
        proof {
            let rest = sv.subrange(i as int, sv.len() as int);
            assert(rest.drop_first() =~= sv.subrange(i + 1, sv.len() as int));
            assert(sv.subrange(0, i + 1) =~= sv.subrange(0, i as int) + seq![rest[0]]);
        }
        i = i + 1;
    }
    let mut out: Vec<Bucket> = Vec::new();
    let mut k: usize = 0;
    while k < i
        invariant
            k <= i <= sorted@.len(),
            sv == bucket_views(sorted@),
            bucket_views(out@) == sv.subrange(0, k as int),
        decreases i - k,
    {
        let ghost before = bucket_views(out@);
        let x = copy_bucket(&sorted[k]);
        out.push(x);
        k = k + 1;
        assert(bucket_views(out@) =~= before.push(bucket_view(x)));
        assert(bucket_views(out@) =~= sv.subrange(0, k as int));
    }
    let ghost before = bucket_views(out@);
    let ghost bv = bucket_view(b);
    out.push(b);
    assert(bucket_views(out@) =~= before.push(bv));
    let mut k: usize = i;
    while k < sorted.len()
        invariant
            i <= k <= sorted@.len(),
            sv == bucket_views(sorted@),
            bucket_views(out@) == sv.subrange(0, i as int) + seq![bv] + sv.subrange(i as int, k as int),
        decreases sorted@.len() - k,
    {
        let ghost before = bucket_views(out@);
        let x = copy_bucket(&sorted[k]);
        out.push(x);
        k = k + 1;
        assert(bucket_views(out@) =~= before.push(bucket_view(x)));
        assert(bucket_views(out@) =~= sv.subrange(0, i as int) + seq![bv] + sv.subrange(i as int, k as int));
    }
    proof {
        let rest = sv.subrange(i as int, sv.len() as int);
        if rest.len() == 0 {
            assert(insert_bucket(rest, bv) =~= seq![bv]);
        } else {
            assert(insert_bucket(rest, bv) == seq![bv] + rest);
        }
        assert(bucket_views(out@) =~= insert_bucket(sv, bv));
    }
    out
}

fn sort_buckets_exec(bs: &[Bucket], n: Ghost<nat>) -> (r: Vec<Bucket>)
    requires
        buckets_below(bucket_views(bs@), n@),
    ensures
        bucket_views(r@) == sort_buckets(bucket_views(bs@)),
        buckets_below(bucket_views(r@), n@),
{
    let ghost bv = bucket_views(bs@);
    let mut out: Vec<Bucket> = Vec::new();
    let mut i: usize = 0;
    while i < bs.len()
        invariant
            i <= bs@.len(),
            bv == bucket_views(bs@),
            buckets_below(bv, n@),
            bucket_views(out@) == sort_buckets(bv.take(i as int)),
            buckets_below(bucket_views(out@), n@),
        decreases bs@.len() - i,
    {
        assert(bv.take(i + 1).drop_last() =~= bv.take(i as int));
        let x = copy_bucket(&bs[i]);
        proof {
            assert(all_below(bv[i as int].members, n@));
            lemma_insert_bucket_below(bucket_views(out@), bucket_view(x), n@);
        }
        out = insert_bucket_exec(out, x);
        i = i + 1;
    }
    assert(bv.take(bv.len() as int) =~= bv);
    out
}


fn find_auto_repo_exec(rs: &[RepoNode], key: &[char]) -> (r: Option<usize>)
    ensures
        match r {
            Some(i) => find_auto_repo(repo_views(rs@), key@, 0) == Some(i as int) && i < rs@.len(),
            None => find_auto_repo(repo_views(rs@), key@, 0) is None,
        },
{
    let ghost rv = repo_views(rs@);
    let mut i: usize = 0;
    while i < rs.len()
        invariant
            i <= rs@.len(),
            rv == repo_views(rs@),
            find_auto_repo(rv, key@, i as int) == find_auto_repo(rv, key@, 0),
        decreases rs@.len() - i,
    {
        let idc = to_chars(rs[i].id.as_str());
        let idt = trim_exec(idc.as_slice());
        let k1 = path_key(from_chars(idt.as_slice()).as_str());
        let pc = match &rs[i].path {
            Some(p) => to_chars(p.as_str()),
            None => Vec::new(),
        };
        let pt = trim_exec(pc.as_slice());
        let k2 = path_key(from_chars(pt.as_slice()).as_str());
        proof {
            assert(pc@ == (match rv[i as int].path {
                Some(p) => p,
                None => Seq::<char>::empty(),
            }));
        }
        if chars_eq(to_chars(k1.as_str()).as_slice(), key) || chars_eq(to_chars(k2.as_str()).as_slice(), key) {
            return Some(i);
        }
        i = i + 1;
    }
    None
}

fn push_all_idx(out: &mut Vec<usize>, v: &[usize])
    ensures
        final(out)@ == old(out)@ + v@,
{
    let ghost start = out@;
    let mut i: usize = 0;
    while i < v.len()
        invariant
            i <= v@.len(),
            out@ == start + v@.take(i as int),
        decreases v@.len() - i,
    {
        out.push(v[i]);
        i = i + 1;
        assert(out@ =~= start + v@.take(i as int));
    }
    assert(v@.take(v@.len() as int) =~= v@);
}

fn tier2_nodes_exec(
    ss: &[Session],
    g: &Gathered,
    opts: &BuildTreeOptions,
    bs: &[Bucket],
    nodes: &mut Vec<ProjectNode>,
    extra: &mut Vec<usize>,
    seen: &mut Vec<Vec<char>>,
    ids: &mut Vec<String>,
)
    requires
        old(nodes)@.len() == 0,
        old(extra)@.len() == 0,
        old(seen)@.len() == 0,
        gathered_view(*g).places.len() == ss@.len(),
        buckets_below(bucket_views(bs@), ss@.len() as nat),
    ensures
        project_views(final(nodes)@) == tier2_nodes(ss@, gathered_view(*g), *opts, bucket_views(bs@), bs@.len() as int).nodes,
        final(extra)@ == tier2_nodes(ss@, gathered_view(*g), *opts, bucket_views(bs@), bs@.len() as int).homeless,
        char_views(final(seen)@) == tier2_nodes(ss@, gathered_view(*g), *opts, bucket_views(bs@), bs@.len() as int).seen,
        string_views(final(ids)@) == string_views(old(ids)@) + tier2_nodes(ss@, gathered_view(*g), *opts, bucket_views(bs@), bs@.len() as int).ids,
        all_below(final(extra)@, ss@.len() as nat),
{
    let ghost f = gathered_view(*g);
    let ghost bv = bucket_views(bs@);
    let ghost ids0 = string_views(ids@);
    let mut i: usize = 0;
    assert(project_views(nodes@) =~= Seq::<ProjectModel>::empty());
    assert(char_views(seen@) =~= Seq::<Seq<char>>::empty());
    assert(string_views(ids@) =~= ids0 + Seq::<Seq<char>>::empty());
    while i < bs.len()
        invariant
            i <= bs@.len(),
            f == gathered_view(*g),
            bv == bucket_views(bs@),
            f.places.len() == ss@.len(),
            buckets_below(bv, ss@.len() as nat),
            project_views(nodes@) == tier2_nodes(ss@, f, *opts, bv, i as int).nodes,
            extra@ == tier2_nodes(ss@, f, *opts, bv, i as int).homeless,
            char_views(seen@) == tier2_nodes(ss@, f, *opts, bv, i as int).seen,
            string_views(ids@) == ids0 + tier2_nodes(ss@, f, *opts, bv, i as int).ids,
            all_below(extra@, ss@.len() as nat),
        decreases bs@.len() - i,
    {
        let ghost prev = tier2_nodes(ss@, f, *opts, bv, i as int);
        let b = &bs[i];
        assert(bv[i as int] == bucket_view(*b));
        assert(all_below(bv[i as int].members, ss@.len() as nat));
        assert(all_below(b.members@, ss@.len() as nat));
        let sub = sessions_at(ss, b.members.as_slice());
        let subp = places_at_exec(g.places.as_slice(), b.members.as_slice(), Ghost(f));
        let repos = build_repos_from(sub.as_slice(), subp.as_slice(), opts.hydrate);
        let key = path_key(b.root.as_str());
        let kc = to_chars(key.as_str());
        match find_auto_repo_exec(repos.as_slice(), kc.as_slice()) {
            None => {
                push_all_idx(extra, b.members.as_slice());
                assert(all_below(extra@, ss@.len() as nat)) by {
                    assert forall|x: int| 0 <= x < extra@.len() implies #[trigger] extra@[x] < ss@.len() by {
                        if x >= prev.homeless.len() {
                            assert(extra@[x] == b.members@[x - prev.homeless.len()]);
                        }
                    }
                }
            },
            Some(ri) => {
                let count = repos[ri].session_count;
                let bn = crate::project_tree::base_name(b.root.as_str());
                let bc = to_chars(bn.as_str());
                let label = if bc.len() == 0 {
                    b.root.clone()
                } else {
                    bn
                };
                let ghost before_ids = string_views(ids@);
                ids_exec(sub.as_slice(), ids);
                let members = copy_usizes(b.members.as_slice());
                let node = make_sessions_node(
                    ss,
                    members,
                    opts.preview_limit,
                    b.root.clone(),
                    label,
                    Some(b.root.clone()),
                    None,
                    None,
                    true,
                    count,
                    repos,
                );
                let ghost before = project_views(nodes@);
                nodes.push(node);
                let ghost sb = char_views(seen@);
                seen.push(kc);
                proof {
                    assert(project_views(nodes@) =~= before.push(project_view(node)));
                    assert(char_views(seen@) =~= sb.push(key@));
                    assert(string_views(ids@) =~= ids0 + (prev.ids + ids_of(at(ss@, b.members@))));
                }
            },
        }
        i = i + 1;
    }
}

// ---- tier 3 ----

proof fn lemma_tier3_prefix(ds: Seq<DiscoveredRepo>, f: TreeFacts, dj1: Seq<bool>, dj2: Seq<bool>, seen0: Seq<Seq<char>>, n: int)
    requires
        forall|i: int| 0 <= i < n ==> dj1[i] == dj2[i],
    ensures
        tier3_upto(ds, f, dj1, seen0, n) == tier3_upto(ds, f, dj2, seen0, n),
    decreases n,
{
    if n > 0 {
        lemma_tier3_prefix(ds, f, dj1, dj2, seen0, n - 1);
    }
}

fn seen_contains(seen: &[Vec<char>], key: &[char]) -> (r: bool)
    ensures
        r == char_views(seen@).contains(key@),
{
    let mut i: usize = 0;
    while i < seen.len()
        invariant
            i <= seen@.len(),
            forall|j: int| 0 <= j < i ==> (#[trigger] seen@[j])@ != key@,
        decreases seen@.len() - i,
    {
        if chars_eq(seen[i].as_slice(), key) {
            assert(char_views(seen@)[i as int] == key@);
            return true;
        }
        i = i + 1;
    }
    proof {
        if char_views(seen@).contains(key@) {
            let j = choose|j: int| 0 <= j < char_views(seen@).len() && char_views(seen@)[j] == key@;
            assert(seen@[j]@ == key@);
        }
    }
    false
}

fn disc_node_exec(d: &DiscoveredRepo, root: &str) -> (r: ProjectNode)
    ensures
        project_view(r) == disc_node(*d, root@),
{
    let label = match &d.label {
        Some(l) => l.clone(),
        None => {
            let bn = crate::project_tree::base_name(root);
            let bc = to_chars(bn.as_str());
            if bc.len() == 0 {
                own_str(root)
            } else {
                bn
            }
        },
    };
    let count: u64 = match d.sessions {
        Some(v) => v,
        None => 0,
    };
    let repo = RepoNode {
        id: own_str(root),
        label: label.clone(),
        path: Some(own_str(root)),
        groups: Vec::new(),
        session_count: 0,
    };
    let repos = vec![repo];
    let r = ProjectNode {
        id: own_str(root),
        label,
        path: Some(own_str(root)),
        color: None,
        icon: None,
        is_auto: true,
        is_no_project: false,
        session_count: count as usize,
        recency: d.recency,
        total_tokens: 0,
        repos,
        preview_sessions: Vec::new(),
        members: Vec::new(),
    };
    proof {
        assert(lane_views(repo.groups@) =~= Seq::<LaneModel>::empty());
        assert(repo_views(r.repos@) =~= seq![repo_view(repo)]);
        assert(r.preview_sessions@ =~= Seq::<Session>::empty());
        assert(r.members@ =~= Seq::<usize>::empty());
    }
    r
}

fn tier3_exec<J: Fn(&str) -> bool>(
    ds: &[DiscoveredRepo],
    g: &Gathered,
    junk: Option<&J>,
    seen: &mut Vec<Vec<char>>,
    nodes: &mut Vec<ProjectNode>,
) -> (dj: Vec<bool>)
    requires
        old(nodes)@.len() == 0,
        junk matches Some(f) ==> forall|x: &str| #[trigger] f.requires((x,)),
        gathered_view(*g).disc_roots.len() == ds@.len(),
        forall|key: Seq<char>| #[trigger]
            g.index.lookup(key) matches Some((pi, d)) ==> 0 <= pi < g.active@.len() && d >= 0,
    ensures
        dj@.len() == ds@.len(),
        (DiscState { nodes: project_views(final(nodes)@), seen: char_views(final(seen)@) }) == tier3_upto(ds@, gathered_view(*g), dj@, char_views(old(seen)@), ds@.len() as int),
        forall|d: int|
            0 <= d < ds@.len() && #[trigger] disc_asks_junk(ds@, gathered_view(*g), dj@, char_views(old(seen)@), d) ==> junk_says(
                junk,
                gathered_view(*g).disc_roots[d],
                dj@[d],
            ),
{
    let ghost f = gathered_view(*g);
    let ghost seen0 = char_views(seen@);
    let mut dj: Vec<bool> = Vec::new();
    let mut d: usize = 0;
    assert(project_views(nodes@) =~= Seq::<ProjectModel>::empty());
    while d < ds.len()
        invariant
            d <= ds@.len(),
            f == gathered_view(*g),
            f.disc_roots.len() == ds@.len(),
            junk matches Some(jf) ==> forall|x: &str| #[trigger] jf.requires((x,)),
            forall|key: Seq<char>| #[trigger]
                g.index.lookup(key) matches Some((pi, dd)) ==> 0 <= pi < g.active@.len() && dd >= 0,
            dj@.len() == d,
            (DiscState { nodes: project_views(nodes@), seen: char_views(seen@) }) == tier3_upto(ds@, f, dj@, seen0, d as int),
            forall|x: int|
                0 <= x < d && #[trigger] disc_asks_junk(ds@, f, dj@, seen0, x) ==> junk_says(
                    junk,
                    f.disc_roots[x],
                    dj@[x],
                ),
        decreases ds@.len() - d,
    {
        let ghost dj0 = dj@;
        let ghost prev = tier3_upto(ds@, f, dj0, seen0, d as int);
        let c = to_chars(ds[d].root.as_str());
        let raw = trim_exec(c.as_slice());
        let root = &g.disc_roots[d];
        assert(f.disc_roots[d as int] == root@);
        let key = path_key(root.as_str());
        let kc = to_chars(key.as_str());
        let mut j = false;
        if raw.len() > 0 && kc.len() > 0 && !seen_contains(seen.as_slice(), kc.as_slice()) {
            j = ask_junk(junk, root.as_str());
            if !j {
                let owned = g.index.project_for_path(root.as_str(), g.active.as_slice());
                if owned.is_none() {
                    let node = disc_node_exec(&ds[d], root.as_str());
                    let ghost before = project_views(nodes@);
                    let ghost sb = char_views(seen@);
                    nodes.push(node);
                    seen.push(kc);
                    assert(project_views(nodes@) =~= before.push(project_view(node)));
                    assert(char_views(seen@) =~= sb.push(key@));
                }
            }
        }
        dj.push(j);
        proof {
            lemma_tier3_prefix(ds@, f, dj0, dj@, seen0, d as int);
            assert(tier3_upto(ds@, f, dj@, seen0, d as int) == prev);
            assert forall|x: int|
                0 <= x < d + 1 && #[trigger] disc_asks_junk(ds@, f, dj@, seen0, x) implies junk_says(
                    junk,
                    f.disc_roots[x],
                    dj@[x],
                ) by {
                lemma_tier3_prefix(ds@, f, dj0, dj@, seen0, x);
                if x < d {
                    assert(disc_asks_junk(ds@, f, dj0, seen0, x));
                }
            }
        }
        d = d + 1;
    }
    dj
}


// ---- assembling ----

fn project_label_items(ps: &[ProjectNode]) -> (r: Vec<(Vec<char>, Option<Vec<char>>)>)
    ensures
        labelled_views(r@) == project_items(project_views(ps@)),
{
    let mut out: Vec<(Vec<char>, Option<Vec<char>>)> = Vec::new();
    let mut i: usize = 0;
    while i < ps.len()
        invariant
            i <= ps@.len(),
            labelled_views(out@) == project_items(project_views(ps@)).take(i as int),
        decreases ps@.len() - i,
    {
        let ghost before = labelled_views(out@);
        let x = (to_chars(ps[i].label.as_str()), opt_chars(&ps[i].path));
        out.push(x);
        assert(labelled_views(out@) =~= before.push(labelled_view(x)));
        assert(project_items(project_views(ps@)).take(i + 1) =~= project_items(project_views(ps@)).take(i as int).push(labelled_view(x)));
        i = i + 1;
    }
    assert(project_items(project_views(ps@)).take(ps@.len() as int) =~= project_items(project_views(ps@)));
    out
}

fn relabel_project_nodes(ps: Vec<ProjectNode>) -> (r: Vec<ProjectNode>)
    ensures
        project_views(r@) == relabel_projects(project_views(ps@)),
{
    let items = project_label_items(ps.as_slice());
    let labels = settled_labels(items.as_slice());
    assert(labelled_views(items@).len() == items@.len());
    let ghost pv = project_views(ps@);
    let ghost target = relabel_projects(pv);
    let mut v = ps;
    let mut i: usize = 0;
    while i < v.len()
        invariant
            i <= v@.len(),
            v@.len() == pv.len(),
            target == relabel_projects(pv),
            labels@.len() == pv.len(),
            forall|x: int| 0 <= x < pv.len() ==> (#[trigger] labels@[x])@ == settled_label(project_items(pv), x),
            forall|x: int| 0 <= x < i ==> #[trigger] project_views(v@)[x] == target[x],
            forall|x: int| i <= x < pv.len() ==> #[trigger] project_views(v@)[x] == pv[x],
        decreases pv.len() - i,
    {
        let ghost v0 = v@;
        let ghost ox = v@[i as int];
        assert(project_views(v@)[i as int] == pv[i as int]);
        assert(project_view(ox) == pv[i as int]);
        let mut x = v.remove(i);
        assert(x == ox);
        x.label = from_chars(labels[i].as_slice());
        let ghost xv = project_view(x);
        assert(xv == (ProjectModel { label: labels@[i as int]@, ..project_view(ox) }));
        v.insert(i, x);
        proof {
            assert(v@ =~= v0.update(i as int, x));
            assert(xv == target[i as int]);
            assert forall|y: int| 0 <= y < i + 1 implies #[trigger] project_views(v@)[y] == target[y] by {
                if y < i {
                    assert(v@[y] == v0[y]);
                    assert(project_views(v0)[y] == target[y]);
                } else {
                    assert(v@[y] == x);
                }
            }
            assert forall|y: int| i + 1 <= y < pv.len() implies #[trigger] project_views(v@)[y] == pv[y] by {
                assert(v@[y] == v0[y]);
                assert(project_views(v0)[y] == pv[y]);
            }
        }
        i = i + 1;
    }
    assert(project_views(v@) =~= target);
    v
}

fn home_node_exec(ss: &[Session], ks: Vec<usize>, opts: &BuildTreeOptions) -> (r: ProjectNode)
    requires
        all_below(ks@, ss@.len()),
    ensures
        project_view(r) == home_node(ss@, ks@, *opts),
{
    let sessions = if opts.hydrate {
        sessions_at(ss, ks.as_slice())
    } else {
        Vec::new()
    };
    let lane = LaneGroup {
        id: own_str(NO_PROJECT_ID),
        label: own_str(NO_PROJECT_LABEL),
        path: None,
        is_main: false,
        is_kanban: false,
        sessions,
    };
    let ghost lv = lane_view(lane);
    let count = ks.len();
    let repo = RepoNode {
        id: own_str(NO_PROJECT_ID),
        label: own_str(NO_PROJECT_LABEL),
        path: None,
        groups: vec![lane],
        session_count: count,
    };
    let ghost rv = repo_view(repo);
    let sub = sessions_at(ss, ks.as_slice());
    let recency = max_recency_exec(sub.as_slice());
    let total_tokens = tokens_sum_exec(sub.as_slice());
    let preview_sessions = previews_exec(ss, ks.as_slice(), opts.preview_limit);
    let r = ProjectNode {
        id: own_str(NO_PROJECT_ID),
        label: own_str(NO_PROJECT_LABEL),
        path: None,
        color: None,
        icon: None,
        is_auto: false,
        is_no_project: true,
        session_count: count,
        recency,
        total_tokens,
        repos: vec![repo],
        preview_sessions,
        members: ks,
    };
    proof {
        assert(lane_views(repo.groups@) =~= seq![lv]);
        assert(repo_views(r.repos@) =~= seq![rv]);
        if !opts.hydrate {
            assert(lv.sessions =~= Seq::<Session>::empty());
        }
    }
    r
}

/// Builds the project tree, asking `resolve` about session directories, folders and
/// discovered roots, `is_junk_root` and `exists` about repo roots, and `is_junk_cwd` about
/// directories: the result is [`tree_spec`] of what they answered.
pub fn build_tree<F: Fn(&str) -> Option<ResolveResult>, J: Fn(&str) -> bool, K: Fn(&str) -> bool, E: Fn(&str) -> bool>(
    projects: &[Project],
    sessions: &[Session],
    discovered_repos: &[DiscoveredRepo],
    resolve: Option<&F>,
    options: &BuildTreeOptions,
    is_junk_root: Option<&J>,
    is_junk_cwd: Option<&K>,
    exists: Option<&E>,
) -> (r: BuildTreeResult)
    requires
        resolve matches Some(f) ==> forall|x: &str| #[trigger] f.requires((x,)),
        is_junk_root matches Some(f) ==> forall|x: &str| #[trigger] f.requires((x,)),
        is_junk_cwd matches Some(f) ==> forall|x: &str| #[trigger] f.requires((x,)),
        exists matches Some(f) ==> forall|x: &str| #[trigger] f.requires((x,)),
    ensures
        exists|f: TreeFacts, dj: Seq<bool>|
            facts_ok(
                projects@,
                sessions@,
                discovered_repos@,
                resolve,
                junk_rel(is_junk_root),
                junk_rel(is_junk_cwd),
                exists_rel(exists),
                f,
            ) && #[trigger] disc_junk_ok(
                sessions@,
                discovered_repos@,
                *options,
                junk_rel(is_junk_root),
                f,
                dj,
            ) && (project_views(r.projects@), string_views(r.scoped_session_ids@)) == tree_spec(
                sessions@,
                discovered_repos@,
                *options,
                f,
                dj,
            ),
{
    let g = gather(projects, sessions, discovered_repos, resolve, is_junk_root, is_junk_cwd, exists);
    let ghost f = gathered_view(g);
    let mut t1: Vec<ProjectNode> = Vec::new();
    let mut ids: Vec<String> = Vec::new();
    tier1_exec(sessions, &g, options, &mut t1, &mut ids);
    let (buckets, homeless) = tier2_exec(sessions, &g);
    let n = sessions.len();
    let bs = sort_buckets_exec(buckets.as_slice(), Ghost(n as nat));
    let mut autos: Vec<ProjectNode> = Vec::new();
    let mut extra: Vec<usize> = Vec::new();
    let mut seen: Vec<Vec<char>> = Vec::new();
    tier2_nodes_exec(sessions, &g, options, bs.as_slice(), &mut autos, &mut extra, &mut seen, &mut ids);
    let ghost seen0 = char_views(seen@);
    let mut discs: Vec<ProjectNode> = Vec::new();
    let dj = tier3_exec(discovered_repos, &g, is_junk_root, &mut seen, &mut discs);
    let ghost av = project_views(autos@);
    let ghost dv = project_views(discs@);
    autos.append(&mut discs);
    assert(project_views(autos@) =~= av + dv);
    let tail = relabel_project_nodes(autos);
    let mut all_home = homeless;
    let ghost h0 = all_home@;
    push_all_idx(&mut all_home, extra.as_slice());
    assert(all_below(all_home@, n as nat)) by {
        assert forall|x: int| 0 <= x < all_home@.len() implies #[trigger] all_home@[x] < n by {
            if x < h0.len() {
                assert(all_home@[x] == h0[x]);
            } else {
                assert(all_home@[x] == extra@[x - h0.len()]);
            }
        }
    }
    let ghost t1v = project_views(t1@);
    let ghost tv = project_views(tail@);
    let mut out: Vec<ProjectNode> = Vec::new();
    if all_home.len() > 0 {
        let sorted = newest_idx_exec(sessions, all_home.as_slice());
        let sub = sessions_at(sessions, sorted.as_slice());
        ids_exec(sub.as_slice(), &mut ids);
        let home = home_node_exec(sessions, sorted, options);
        let ghost hv = project_view(home);
        out.push(home);
        out.append(&mut t1);
        let mut tail2 = tail;
        out.append(&mut tail2);
        assert(project_views(out@) =~= seq![hv] + (t1v + tv));
    } else {
        out.append(&mut t1);
        let mut tail2 = tail;
        out.append(&mut tail2);
        assert(project_views(out@) =~= t1v + tv);
    }
    let r = BuildTreeResult { projects: out, scoped_session_ids: ids };
    proof {
        let jr = junk_rel(is_junk_root);
        let kr = junk_rel(is_junk_cwd);
        let er = exists_rel(exists);
        assert(facts_ok(projects@, sessions@, discovered_repos@, resolve, jr, kr, er, f));
        assert(disc_junk_ok(sessions@, discovered_repos@, *options, jr, f, dj@));
    }
    r
}

/// The answers of a test that never says yes.
pub open spec fn never_rel() -> spec_fn(Seq<char>, bool) -> bool {
    |a: Seq<char>, b: bool| !b
}

/// The answers of a test that always says yes.
pub open spec fn always_rel() -> spec_fn(Seq<char>, bool) -> bool {
    |a: Seq<char>, b: bool| b
}

proof fn lemma_facts_weaken<F: Fn(&str) -> Option<ResolveResult>>(
    projects: Seq<Project>,
    sessions: Seq<Session>,
    discovered: Seq<DiscoveredRepo>,
    resolve: Option<&F>,
    j1: spec_fn(Seq<char>, bool) -> bool,
    k1: spec_fn(Seq<char>, bool) -> bool,
    e1: spec_fn(Seq<char>, bool) -> bool,
    j2: spec_fn(Seq<char>, bool) -> bool,
    k2: spec_fn(Seq<char>, bool) -> bool,
    e2: spec_fn(Seq<char>, bool) -> bool,
    f: TreeFacts,
)
    requires
        facts_ok(projects, sessions, discovered, resolve, j1, k1, e1, f),
        forall|a: Seq<char>, b: bool| #[trigger] j1(a, b) ==> j2(a, b),
        forall|a: Seq<char>, b: bool| #[trigger] k1(a, b) ==> k2(a, b),
        forall|a: Seq<char>, b: bool| #[trigger] e1(a, b) ==> e2(a, b),
    ensures
        facts_ok(projects, sessions, discovered, resolve, j2, k2, e2, f),
{
    assert forall|k: int| 0 <= k < sessions.len() implies #[trigger] session_facts_ok(sessions[k], resolve, j2, k2, e2, f, k) by {
        assert(session_facts_ok(sessions[k], resolve, j1, k1, e1, f, k));
    }
}

/// The project tree with the default options and no junk or existence tests.
pub fn build_tree_simple<F: Fn(&str) -> Option<ResolveResult>>(
    projects: &[Project],
    sessions: &[Session],
    discovered_repos: &[DiscoveredRepo],
    resolve: Option<&F>,
) -> (r: BuildTreeResult)
    requires
        resolve matches Some(f) ==> forall|x: &str| #[trigger] f.requires((x,)),
    ensures
        exists|f: TreeFacts, dj: Seq<bool>|
            facts_ok(projects@, sessions@, discovered_repos@, resolve, never_rel(), never_rel(), always_rel(), f)
                && #[trigger] disc_junk_ok(sessions@, discovered_repos@, BuildTreeOptions { preview_limit: 3, hydrate: false }, never_rel(), f, dj)
                && (project_views(r.projects@), string_views(r.scoped_session_ids@)) == tree_spec(
                sessions@,
                discovered_repos@,
                BuildTreeOptions { preview_limit: 3, hydrate: false },
                f,
                dj,
            ),
{
    let options = BuildTreeOptions { preview_limit: 3, hydrate: false };
    let no = |x: &str| -> (b: bool)
        ensures
            !b,
        { false };
    let yes = |x: &str| -> (b: bool)
        ensures
            b,
        { true };
    let r = build_tree(projects, sessions, discovered_repos, resolve, &options, Some(&no), Some(&no), Some(&yes));
    proof {
        let jr = junk_rel(Some(&no));
        let er = exists_rel(Some(&yes));
        let nv = never_rel();
        let av = always_rel();
        let (f, dj) = choose|f: TreeFacts, dj: Seq<bool>|
            facts_ok(projects@, sessions@, discovered_repos@, resolve, jr, jr, er, f)
                && #[trigger] disc_junk_ok(sessions@, discovered_repos@, options, jr, f, dj)
                && (project_views(r.projects@), string_views(r.scoped_session_ids@)) == tree_spec(
                sessions@,
                discovered_repos@,
                options,
                f,
                dj,
            );
        assert forall|a: Seq<char>, b: bool| #[trigger] jr(a, b) implies nv(a, b) by {
            let x = choose|x: &str| x@ == a && #[trigger] no.ensures((x,), b);
        }
        assert forall|a: Seq<char>, b: bool| #[trigger] er(a, b) implies av(a, b) by {
            let x = choose|x: &str| x@ == a && #[trigger] yes.ensures((x,), b);
        }
        lemma_facts_weaken(projects@, sessions@, discovered_repos@, resolve, jr, jr, er, nv, nv, av, f);
        assert(disc_junk_ok(sessions@, discovered_repos@, options, nv, f, dj));
    }
    r
}


// ---------------------------------------------------------------------------
// Growing colliding labels in place
// ---------------------------------------------------------------------------

/// Grows colliding repo labels into path-prefixed ones.
pub fn disambiguate_repos(repos: &mut Vec<RepoNode>)
    ensures
        repo_views(final(repos)@) == relabelled(repo_views(old(repos)@)),
{
    let mut taken: Vec<RepoNode> = Vec::new();
    std::mem::swap(&mut taken, repos);
    *repos = relabel_repos(taken);
}

/// Grows colliding project labels into path-prefixed ones.
pub fn disambiguate_projects(projects: &mut Vec<ProjectNode>)
    ensures
        project_views(final(projects)@) == relabel_projects(project_views(old(projects)@)),
{
    let mut taken: Vec<ProjectNode> = Vec::new();
    std::mem::swap(&mut taken, projects);
    *projects = relabel_project_nodes(taken);
}

/// The lanes with colliding labels grown.
pub open spec fn relabelled_lanes(gs: Seq<LaneModel>) -> Seq<LaneModel> {
    Seq::new(gs.len(), |i: int| LaneModel { label: settled_label(lane_items(gs), i), ..gs[i] })
}

/// Grows colliding lane labels into path-prefixed ones.
pub fn disambiguate_lane_groups(groups: &mut Vec<LaneGroup>)
    ensures
        lane_views(final(groups)@) == relabelled_lanes(lane_views(old(groups)@)),
{
    let items = lane_label_items(groups.as_slice());
    let labels = settled_labels(items.as_slice());
    assert(labelled_views(items@).len() == items@.len());
    let ghost gv = lane_views(groups@);
    let ghost target = relabelled_lanes(gv);
    let mut out: Vec<LaneGroup> = Vec::new();
    let mut i: usize = 0;
    while i < groups.len()
        invariant
            i <= groups@.len(),
            gv == lane_views(groups@),
            target == relabelled_lanes(gv),
            labels@.len() == groups@.len(),
            forall|x: int| 0 <= x < groups@.len() ==> (#[trigger] labels@[x])@ == settled_label(lane_items(gv), x),
            lane_views(out@) == target.take(i as int),
        decreases groups@.len() - i,
    {
        let g = &groups[i];
        let x = LaneGroup {
            id: g.id.clone(),
            label: from_chars(labels[i].as_slice()),
            path: copy_opt(&g.path),
            is_main: g.is_main,
            is_kanban: g.is_kanban,
            sessions: copy_sessions(g.sessions.as_slice()),
        };
        let ghost before = lane_views(out@);
        out.push(x);
        proof {
            assert(lane_view(x) == target[i as int]);
            assert(lane_views(out@) =~= before.push(lane_view(x)));
            assert(target.take(i + 1) =~= target.take(i as int).push(target[i as int]));
        }
        i = i + 1;
    }
    assert(target.take(target.len() as int) =~= target);
    *groups = out;
}

} // verus!
