//! Project tree: path identity helpers and lane placement of session working directories.
use vstd::prelude::*;
use crate::text::{
    char_views, chars_eq, chars_eq_str, find, find_class_exec, find_class_from, find_str,
    from_chars, in_class, join_char, join_char_exec, join_first_exec, lemma_rfind_class_before,
    lemma_skip_back_bounds, push_all, push_str, rfind_class_before,
    rfind_class_exec, skip_back, skip_back_exec, slice_vec, split_char, split_char_exec,
    starts_with, starts_with_str, to_chars, to_lowercase_str, trim, trim_end_k, trim_end_k_exec,
    trim_exec, unicode_lower, CharClass,
};
pub use crate::project_tree_build::{
    build_repos, build_repos_from, build_tree, build_tree_simple, disambiguate_lane_groups,
    disambiguate_projects, disambiguate_repos, project_for_session, seed_folder_repos,
    seed_folder_repos_from, session_repo_root, BuildTreeResult, DiscoveredRepo, LaneGroup,
    ProjectNode, RepoNode, Session,
};

verus! {

/// The branch names of a trunk lane: `main`, `master`, `trunk` and `develop`.
pub const TRUNK_BRANCHES: [&'static str; 4] = ["main", "master", "trunk", "develop"];

pub const DEFAULT_BRANCH_LABEL: &'static str = "main";

pub const NO_PROJECT_ID: &'static str = "__no_project__";

pub const NO_PROJECT_LABEL: &'static str = "Home";

/// At most this many sibling-worktree probes.
pub const MAX_SIBLING_PROBES: usize = 4;

// ---------------------------------------------------------------------------
// Git identity probe result
// ---------------------------------------------------------------------------

/// Result of a git identity probe: the common repo root, this checkout's root, and
/// whether this checkout is the main one.
#[derive(Debug, Clone, PartialEq, Eq)]
pub struct ResolveResult {
    pub repo_root: String,
    pub worktree_root: String,
    pub is_main: bool,
}

pub struct ResolveModel {
    pub repo_root: Seq<char>,
    pub worktree_root: Seq<char>,
    pub is_main: bool,
}

impl View for ResolveResult {
    type V = ResolveModel;

    open spec fn view(&self) -> ResolveModel {
        ResolveModel {
            repo_root: self.repo_root@,
            worktree_root: self.worktree_root@,
            is_main: self.is_main,
        }
    }
}

impl ResolveResult {
    pub fn new(repo_root: &str, worktree_root: &str) -> (r: Self)
        ensures
            r.repo_root@ == repo_root@,
            r.worktree_root@ == worktree_root@,
            !r.is_main,
    {
        ResolveResult {
            repo_root: from_chars(to_chars(repo_root).as_slice()),
            worktree_root: from_chars(to_chars(worktree_root).as_slice()),
            is_main: false,
        }
    }

    pub fn with_is_main(self, is_main: bool) -> (r: Self)
        ensures
            r.repo_root == self.repo_root,
            r.worktree_root == self.worktree_root,
            r.is_main == is_main,
    {
        let mut s = self;
        s.is_main = is_main;
        s
    }
}

// ---------------------------------------------------------------------------
// Path helpers
// ---------------------------------------------------------------------------

/// Splits at `/` and `\`, dropping empty pieces.
pub open spec fn seg_scan(s: Seq<char>, i: int, cur: Seq<char>, out: Seq<Seq<char>>) -> Seq<
    Seq<char>,
>
    decreases s.len() - i,
{
    if i < 0 || i >= s.len() {
        if cur.len() > 0 {
            out.push(cur)
        } else {
            out
        }
    } else if in_class(s[i], CharClass::PathSep) {
        seg_scan(
            s,
            i + 1,
            Seq::empty(),
            if cur.len() > 0 {
                out.push(cur)
            } else {
                out
            },
        )
    } else {
        seg_scan(s, i + 1, cur.push(s[i]), out)
    }
}

/// The non-empty pieces of a path between `/` and `\` separators.
pub open spec fn path_segments(path: Seq<char>) -> Seq<Seq<char>> {
    seg_scan(path, 0, Seq::empty(), Seq::empty())
}

pub fn segments_chars(path: &[char]) -> (r: Vec<Vec<char>>)
    ensures
        char_views(r@) == path_segments(path@),
{
    let mut out: Vec<Vec<char>> = Vec::new();
    let mut cur: Vec<char> = Vec::new();
    let mut i: usize = 0;
    assert(char_views(out@) =~= Seq::<Seq<char>>::empty());
    while i < path.len()
        invariant
            i <= path@.len(),
            seg_scan(path@, i as int, cur@, char_views(out@)) == path_segments(path@),
        decreases path@.len() - i,
    {
        let c = path[i];
        if c == '/' || c == '\\' {
            if cur.len() > 0 {
                let ghost before = char_views(out@);
                out.push(cur);
                assert(char_views(out@) =~= before.push(cur@));
            }
            cur = Vec::new();
            assert(cur@ =~= Seq::<char>::empty());
        } else {
            cur.push(c);
        }
        i = i + 1;
    }
    if cur.len() > 0 {
        let ghost before = char_views(out@);
        out.push(cur);
        assert(char_views(out@) =~= before.push(cur@));
    }
    out
}

pub open spec fn string_views(v: Seq<String>) -> Seq<Seq<char>> {
    v.map_values(|s: String| s@)
}

pub fn to_strings(v: &Vec<Vec<char>>) -> (r: Vec<String>)
    ensures
        string_views(r@) == char_views(v@),
{
    let mut out: Vec<String> = Vec::new();
    let mut i: usize = 0;
    while i < v.len()
        invariant
            i <= v@.len(),
            string_views(out@) == char_views(v@.subrange(0, i as int)),
        decreases v@.len() - i,
    {
        let ghost before = string_views(out@);
        let x = from_chars(v[i].as_slice());
        out.push(x);
        proof {
            assert(string_views(out@) =~= before.push(x@));
            assert(char_views(v@.subrange(0, i + 1)) =~= char_views(v@.subrange(0, i as int)).push(
                v@[i as int]@,
            ));
        }
        i = i + 1;
    }
    assert(v@.subrange(0, v@.len() as int) =~= v@);
    out
}

/// Splits a path into its non-empty segments on `/` or `\`.
pub fn segments(path: &str) -> (r: Vec<String>)
    ensures
        string_views(r@) == path_segments(path@),
{
    let p = to_chars(path);
    let s = segments_chars(p.as_slice());
    to_strings(&s)
}

pub open spec fn is_ascii_alpha(c: char) -> bool {
    ('a' <= c && c <= 'z') || ('A' <= c && c <= 'Z')
}

/// A drive-letter path (`C:\`, `C:/`), or one that starts with `\` or `//`.
pub open spec fn windows_path(path: Seq<char>) -> bool {
    let v = trim(path);
    ||| (v.len() >= 3 && is_ascii_alpha(v[0]) && v[1] == ':' && (v[2] == '/' || v[2] == '\\'))
    ||| (v.len() >= 1 && v[0] == '\\')
    ||| starts_with(v, "//"@)
}

fn windows_path_chars(path: &[char]) -> (r: bool)
    ensures
        r == windows_path(path@),
{
    let v = trim_exec(path);
    let n = v.len();
    if n >= 3 && (('a' <= v[0] && v[0] <= 'z') || ('A' <= v[0] && v[0] <= 'Z')) && v[1] == ':' && (
    v[2] == '/' || v[2] == '\\') {
        return true;
    }
    if n >= 1 && v[0] == '\\' {
        return true;
    }
    starts_with_str(v.as_slice(), "//")
}

/// Whether `path` is a Windows path (drive letter, UNC, or backslash-rooted).
pub fn is_windows_path(path: &str) -> (r: bool)
    ensures
        r == windows_path(path@),
{
    let p = to_chars(path);
    windows_path_chars(p.as_slice())
}

/// Segments for identity comparison: lower-cased on Windows paths.
pub open spec fn identity_segments(path: Seq<char>) -> Seq<Seq<char>> {
    if windows_path(path) {
        path_segments(path).map_values(|x: Seq<char>| unicode_lower(x))
    } else {
        path_segments(path)
    }
}

fn lower_chars(x: &[char]) -> (r: Vec<char>)
    ensures
        r@ == unicode_lower(x@),
{
    let s = from_chars(x);
    let l = to_lowercase_str(s.as_str());
    to_chars(l.as_str())
}

pub fn identity_segments_chars(path: &[char]) -> (r: Vec<Vec<char>>)
    ensures
        char_views(r@) == identity_segments(path@),
{
    let segs = segments_chars(path);
    if !windows_path_chars(path) {
        return segs;
    }
    let ghost sv = char_views(segs@);
    let mut out: Vec<Vec<char>> = Vec::new();
    let mut i: usize = 0;
    while i < segs.len()
        invariant
            i <= segs@.len(),
            sv == char_views(segs@),
            char_views(out@) == sv.subrange(0, i as int).map_values(
                |x: Seq<char>| unicode_lower(x),
            ),
        decreases segs@.len() - i,
    {
        let ghost before = char_views(out@);
        let x = lower_chars(segs[i].as_slice());
        out.push(x);
        proof {
            assert(char_views(out@) =~= before.push(x@));
            assert(sv[i as int] == segs@[i as int]@);
            assert(sv.subrange(0, i + 1).map_values(|x: Seq<char>| unicode_lower(x)) =~= sv.subrange(
                0,
                i as int,
            ).map_values(|x: Seq<char>| unicode_lower(x)).push(unicode_lower(sv[i as int])));
        }
        i = i + 1;
    }
    assert(sv.subrange(0, segs@.len() as int) =~= sv);
    out
}

/// Path segments for identity comparison (lower-cased on Windows paths).
pub fn comparison_segments(path: &str) -> (r: Vec<String>)
    ensures
        string_views(r@) == identity_segments(path@),
{
    let p = to_chars(path);
    let s = identity_segments_chars(p.as_slice());
    to_strings(&s)
}

/// The comparison segments joined with `/`.
pub open spec fn path_key_spec(path: Seq<char>) -> Seq<char> {
    join_char(identity_segments(path), '/')
}

pub fn path_key_chars(path: &[char]) -> (r: Vec<char>)
    ensures
        r@ == path_key_spec(path@),
{
    let s = identity_segments_chars(path);
    join_char_exec(s.as_slice(), '/')
}

/// Canonical comparison key of a path, separator and trailing-slash agnostic.
pub fn path_key(path: &str) -> (r: String)
    ensures
        r@ == path_key_spec(path@),
{
    let p = to_chars(path);
    from_chars(path_key_chars(p.as_slice()).as_slice())
}

/// A lane id with its path part canonicalized and its branch suffix kept verbatim.
pub open spec fn lane_key_spec(p: Seq<char>) -> Seq<char> {
    match find(p, "::branch::"@) {
        Some(i) => path_key_spec(p.subrange(0, i)) + "::branch::"@ + p.subrange(
            i + "::branch::"@.len(),
            p.len() as int,
        ),
        None => match find(p, "::kanban"@) {
            Some(i) => path_key_spec(p.subrange(0, i)) + "::kanban"@ + p.subrange(
                i + "::kanban"@.len(),
                p.len() as int,
            ),
            None => path_key_spec(p),
        },
    }
}

fn lane_key_marker(p: &[char], idx: usize, marker: &str) -> (r: Vec<char>)
    requires
        idx + marker@.len() <= p@.len(),
    ensures
        r@ == path_key_spec(p@.subrange(0, idx as int)) + marker@ + p@.subrange(
            idx + marker@.len(),
            p@.len() as int,
        ),
{
    let m = to_chars(marker);
    let root = slice_vec(p, 0, idx);
    let mut out = path_key_chars(root.as_slice());
    push_all(&mut out, m.as_slice());
    let n = p.len();
    assert(idx + m@.len() <= n);
    let suffix = slice_vec(p, idx + m.len(), n);
    push_all(&mut out, suffix.as_slice());
    out
}

/// Canonicalizes the path portion of a lane id (branch labels kept byte for byte).
pub fn lane_key(path_or_lane: &str) -> (r: String)
    ensures
        r@ == lane_key_spec(path_or_lane@),
{
    let p = to_chars(path_or_lane);
    match find_str(p.as_slice(), "::branch::") {
        Some(idx) => from_chars(lane_key_marker(p.as_slice(), idx, "::branch::").as_slice()),
        None => match find_str(p.as_slice(), "::kanban") {
            Some(idx) => from_chars(lane_key_marker(p.as_slice(), idx, "::kanban").as_slice()),
            None => from_chars(path_key_chars(p.as_slice()).as_slice()),
        },
    }
}

/// The last segment, or the empty text.
pub open spec fn base_name_spec(path: Seq<char>) -> Seq<char> {
    let s = path_segments(path);
    if s.len() == 0 {
        Seq::empty()
    } else {
        s.last()
    }
}

pub fn base_name_chars(path: &[char]) -> (r: Vec<char>)
    ensures
        r@ == base_name_spec(path@),
{
    let mut s = segments_chars(path);
    match s.pop() {
        Some(v) => v,
        None => Vec::new(),
    }
}

/// Basename (last segment) or "".
pub fn base_name(path: &str) -> (r: String)
    ensures
        r@ == base_name_spec(path@),
{
    let p = to_chars(path);
    from_chars(base_name_chars(p.as_slice()).as_slice())
}

/// `s` without its trailing separators.
pub open spec fn strip_seps(s: Seq<char>) -> Seq<char> {
    trim_end_k(s, CharClass::PathSep)
}

pub open spec fn is_lower_hex(c: char) -> bool {
    ('0' <= c && c <= '9') || ('a' <= c && c <= 'f')
}

/// `<repo>/.worktrees` for a `<repo>/.worktrees/t_<lower hex>` path (trailing separators
/// ignored).
pub open spec fn kanban_prefix(t: Seq<char>) -> Seq<char> {
    match rfind_class_before(t, t.len() as int, CharClass::PathSep) {
        Some(i) => t.subrange(0, i),
        None => Seq::empty(),
    }
}

pub open spec fn kanban_last(t: Seq<char>) -> Seq<char> {
    match rfind_class_before(t, t.len() as int, CharClass::PathSep) {
        Some(i) => t.subrange(i + 1, t.len() as int),
        None => t,
    }
}

pub open spec fn lower_hex_tail(last: Seq<char>) -> bool {
    forall|m: int| 2 <= m < last.len() ==> is_lower_hex(#[trigger] last[m])
}

pub open spec fn kanban_dir_spec(path: Seq<char>) -> Option<Seq<char>> {
    let t = strip_seps(path);
    if path.len() == 0 || t.len() == 0 {
        None
    } else {
        let prefix = kanban_prefix(t);
        let last = kanban_last(t);
        if !starts_with(last, "t_"@) || last.len() <= 2 {
            None
        } else if !lower_hex_tail(last) {
            None
        } else if base_name_spec(prefix) != ".worktrees"@ || prefix.len() == 0 {
            None
        } else {
            Some(prefix)
        }
    }
}

pub fn kanban_dir_chars(path: &[char]) -> (r: Option<Vec<char>>)
    ensures
        r matches Some(v) ==> kanban_dir_spec(path@) == Some(v@),
        r is None ==> kanban_dir_spec(path@) is None,
{
    if path.len() == 0 {
        return None;
    }
    let t = trim_end_k_exec(path, CharClass::PathSep);
    if t.len() == 0 {
        return None;
    }
    let n = t.len();
    let (prefix, last) = match rfind_class_exec(t.as_slice(), n, CharClass::PathSep) {
        Some(i) => (slice_vec(t.as_slice(), 0, i), slice_vec(t.as_slice(), i + 1, n)),
        None => (Vec::new(), slice_vec(t.as_slice(), 0, n)),
    };
    assert(t@.subrange(0, n as int) =~= t@);
    assert(prefix@ =~= kanban_prefix(t@));
    assert(last@ =~= kanban_last(t@));
    if !starts_with_str(last.as_slice(), "t_") || last.len() <= 2 {
        return None;
    }
    let mut m: usize = 2;
    while m < last.len()
        invariant
            2 <= m <= last@.len(),
            forall|q: int| 2 <= q < m ==> is_lower_hex(#[trigger] last@[q]),
            last@ == kanban_last(t@),
            t@ == strip_seps(path@),
            path@.len() > 0,
            t@.len() > 0,
            starts_with(last@, "t_"@),
            last@.len() > 2,
        decreases last@.len() - m,
    {
        let c = last[m];
        if !(('0' <= c && c <= '9') || ('a' <= c && c <= 'f')) {
            assert(!is_lower_hex(last@[m as int]));
            assert(!lower_hex_tail(last@));
            return None;
        }
        m = m + 1;
    }
    let pb = base_name_chars(prefix.as_slice());
    if !chars_eq_str(pb.as_slice(), ".worktrees") || prefix.len() == 0 {
        return None;
    }
    assert(prefix@.len() == 0 ==> prefix@ =~= Seq::<char>::empty());
    Some(prefix)
}

/// The `<repo>/.worktrees` dir of a `.../.worktrees/t_<hex>` path, else `None`.
pub fn kanban_worktree_dir(path: &str) -> (r: Option<String>)
    ensures
        r matches Some(v) ==> kanban_dir_spec(path@) == Some(v@),
        r is None ==> kanban_dir_spec(path@) is None,
{
    let p = to_chars(path);
    match kanban_dir_chars(p.as_slice()) {
        Some(v) => Some(from_chars(v.as_slice())),
        None => None,
    }
}

/// `target` equals `folder` or is nested under it, segment by segment.
pub open spec fn path_under(folder: Seq<char>, target: Seq<char>) -> bool {
    let f = identity_segments(folder);
    let t = identity_segments(target);
    f.len() > 0 && f.len() <= t.len() && forall|i: int| 0 <= i < f.len() ==> f[i] == t[i]
}

/// True when `target` equals `folder` or is nested under it (segment-wise, platform-aware).
pub fn is_path_under(folder: &str, target: &str) -> (r: bool)
    ensures
        r == path_under(folder@, target@),
{
    let fp = to_chars(folder);
    let tp = to_chars(target);
    let f = identity_segments_chars(fp.as_slice());
    let t = identity_segments_chars(tp.as_slice());
    let ghost fv = char_views(f@);
    let ghost tv = char_views(t@);
    assert(fv.len() == f@.len() && tv.len() == t@.len());
    if f.len() == 0 || f.len() > t.len() {
        return false;
    }
    let mut i: usize = 0;
    while i < f.len()
        invariant
            i <= f@.len() <= t@.len(),
            fv == char_views(f@),
            fv == identity_segments(folder@),
            tv == identity_segments(target@),
            tv == char_views(t@),
            forall|q: int| 0 <= q < i ==> fv[q] == tv[q],
        decreases f@.len() - i,
    {
        assert(fv[i as int] == f@[i as int]@ && tv[i as int] == t@[i as int]@);
        if !chars_eq(f[i].as_slice(), t[i].as_slice()) {
            assert(fv[i as int] != tv[i as int]);
            assert(identity_segments(folder@)[i as int] != identity_segments(target@)[i as int]);
            return false;
        }
        i = i + 1;
    }
    true
}

/// `path` with its last segment replaced by `name` (trailing separators dropped first).
pub open spec fn with_base_name_spec(path: Seq<char>, name: Seq<char>) -> Seq<char> {
    let s = strip_seps(path);
    if s.len() == 0 {
        name
    } else {
        match rfind_class_before(s, s.len() as int, CharClass::PathSep) {
            Some(i) => s.subrange(0, i + 1) + name,
            None => name,
        }
    }
}

pub fn with_base_name_chars(path: &[char], name: &[char]) -> (r: Vec<char>)
    ensures
        r@ == with_base_name_spec(path@, name@),
{
    let s = trim_end_k_exec(path, CharClass::PathSep);
    if s.len() == 0 {
        return slice_vec(name, 0, name.len());
    }
    match rfind_class_exec(s.as_slice(), s.len(), CharClass::PathSep) {
        Some(i) => {
            let mut out = slice_vec(s.as_slice(), 0, i + 1);
            push_all(&mut out, name);
            out
        },
        None => slice_vec(name, 0, name.len()),
    }
}

/// Replaces the basename of `path` with `name`.
pub fn with_base_name(path: &str, name: &str) -> (r: String)
    ensures
        r@ == with_base_name_spec(path@, name@),
{
    let p = to_chars(path);
    let n = to_chars(name);
    proof {
        assert(n@.subrange(0, n@.len() as int) =~= n@);
    }
    from_chars(with_base_name_chars(p.as_slice(), n.as_slice()).as_slice())
}

/// `<repo>::branch::<trimmed branch>`.
pub open spec fn branch_lane_spec(repo_root: Seq<char>, branch: Seq<char>) -> Seq<char> {
    repo_root + "::branch::"@ + trim(branch)
}

pub fn branch_lane_chars(repo_root: &[char], branch: &[char]) -> (r: Vec<char>)
    ensures
        r@ == branch_lane_spec(repo_root@, branch@),
{
    let mut out: Vec<char> = Vec::new();
    push_all(&mut out, repo_root);
    push_str(&mut out, "::branch::");
    let b = trim_exec(branch);
    push_all(&mut out, b.as_slice());
    assert(out@ =~= branch_lane_spec(repo_root@, branch@));
    out
}

/// The lane id of a main checkout on a branch.
pub fn branch_lane_id(repo_root: &str, branch: &str) -> (r: String)
    ensures
        r@ == branch_lane_spec(repo_root@, branch@),
{
    let a = to_chars(repo_root);
    let b = to_chars(branch);
    from_chars(branch_lane_chars(a.as_slice(), b.as_slice()).as_slice())
}

pub open spec fn kanban_lane_spec(repo_root: Seq<char>) -> Seq<char> {
    repo_root + "::kanban"@
}

pub fn kanban_lane_chars(repo_root: &[char]) -> (r: Vec<char>)
    ensures
        r@ == kanban_lane_spec(repo_root@),
{
    let mut out: Vec<char> = Vec::new();
    push_all(&mut out, repo_root);
    push_str(&mut out, "::kanban");
    out
}

/// The kanban lane id of a repo.
pub fn kanban_lane_id(repo_root: &str) -> (r: String)
    ensures
        r@ == kanban_lane_spec(repo_root@),
{
    let a = to_chars(repo_root);
    from_chars(kanban_lane_chars(a.as_slice()).as_slice())
}

/// The containing directory of `path` (empty once the root is passed).
pub open spec fn parent_dir_spec(path: Seq<char>) -> Seq<char> {
    let s = strip_seps(path);
    if s.len() == 0 {
        Seq::empty()
    } else {
        match rfind_class_before(s, s.len() as int, CharClass::PathSep) {
            Some(i) => strip_seps(s.subrange(0, i + 1)),
            None => Seq::empty(),
        }
    }
}

pub fn parent_dir_chars(path: &[char]) -> (r: Vec<char>)
    ensures
        r@ == parent_dir_spec(path@),
{
    let s = trim_end_k_exec(path, CharClass::PathSep);
    if s.len() == 0 {
        return Vec::new();
    }
    match rfind_class_exec(s.as_slice(), s.len(), CharClass::PathSep) {
        Some(i) => {
            let w = slice_vec(s.as_slice(), 0, i + 1);
            trim_end_k_exec(w.as_slice(), CharClass::PathSep)
        },
        None => Vec::new(),
    }
}

/// The containing directory of `path` ("" once the root is passed).
pub fn parent_dir(path: &str) -> (r: String)
    ensures
        r@ == parent_dir_spec(path@),
{
    let p = to_chars(path);
    from_chars(parent_dir_chars(p.as_slice()).as_slice())
}


// ---------------------------------------------------------------------------
// Lane placement
// ---------------------------------------------------------------------------

/// Placement of a session cwd: its repo and its lane within the repo.
#[derive(Debug, Clone, PartialEq, Eq)]
pub struct Placement {
    pub repo_key: String,
    pub repo_label: String,
    pub repo_path: String,
    pub lane_key: String,
    pub lane_label: String,
    pub lane_path: String,
    pub is_main: bool,
    pub is_kanban: bool,
}

pub struct PlacementModel {
    pub repo_key: Seq<char>,
    pub repo_label: Seq<char>,
    pub repo_path: Seq<char>,
    pub lane_key: Seq<char>,
    pub lane_label: Seq<char>,
    pub lane_path: Seq<char>,
    pub is_main: bool,
    pub is_kanban: bool,
}

impl View for Placement {
    type V = PlacementModel;

    open spec fn view(&self) -> PlacementModel {
        PlacementModel {
            repo_key: self.repo_key@,
            repo_label: self.repo_label@,
            repo_path: self.repo_path@,
            lane_key: self.lane_key@,
            lane_label: self.lane_label@,
            lane_path: self.lane_path@,
            is_main: self.is_main,
            is_kanban: self.is_kanban,
        }
    }
}

pub open spec fn placement_view(p: Option<Placement>) -> Option<PlacementModel> {
    match p {
        Some(x) => Some(x@),
        None => None,
    }
}

/// A placement in repo `repo_root`, labelled by the repo's base name (or its whole path).
pub open spec fn placement_spec(
    repo_root: Seq<char>,
    lane_key: Seq<char>,
    lane_label: Seq<char>,
    lane_path: Seq<char>,
    is_main: bool,
    is_kanban: bool,
) -> PlacementModel {
    PlacementModel {
        repo_key: repo_root,
        repo_label: if base_name_spec(repo_root).len() == 0 {
            repo_root
        } else {
            base_name_spec(repo_root)
        },
        repo_path: repo_root,
        lane_key,
        lane_label,
        lane_path,
        is_main,
        is_kanban,
    }
}

fn placement(
    repo_root: &[char],
    lane_key: &[char],
    lane_label: &[char],
    lane_path: &[char],
    is_main: bool,
    is_kanban: bool,
) -> (r: Placement)
    ensures
        r@ == placement_spec(repo_root@, lane_key@, lane_label@, lane_path@, is_main, is_kanban),
{
    let bn = base_name_chars(repo_root);
    let label = if bn.len() == 0 {
        from_chars(repo_root)
    } else {
        from_chars(bn.as_slice())
    };
    Placement {
        repo_key: from_chars(repo_root),
        repo_label: label,
        repo_path: from_chars(repo_root),
        lane_key: from_chars(lane_key),
        lane_label: from_chars(lane_label),
        lane_path: from_chars(lane_path),
        is_main,
        is_kanban,
    }
}

/// The last index `i <= j` in `base` where `-wt-` splits it into two non-empty parts.
pub open spec fn wt_split_from(base: Seq<char>, j: int) -> Option<int>
    decreases j,
{
    if j < 1 {
        None
    } else if crate::text::occurs_at(base, "-wt-"@, j) && j + 4 < base.len() {
        Some(j)
    } else {
        wt_split_from(base, j - 1)
    }
}

/// Path-only placement: kanban worktree, `<repo>-wt-<name>` worktree, or a main checkout.
pub open spec fn heuristic_spec(path: Seq<char>) -> Option<PlacementModel> {
    let base = base_name_spec(path);
    if base.len() == 0 {
        None
    } else {
        match kanban_dir_spec(path) {
            Some(kd) => {
                let repo = strip_seps(with_base_name_spec(kd, Seq::empty()));
                Some(placement_spec(repo, kanban_lane_spec(repo), "kanban"@, kd, false, true))
            },
            None => match wt_split_from(base, base.len() as int) {
                Some(i) => Some(
                    placement_spec(
                        with_base_name_spec(path, base.subrange(0, i)),
                        path,
                        base.subrange(i + 4, base.len() as int),
                        path,
                        false,
                        false,
                    ),
                ),
                None => Some(
                    placement_spec(path, branch_lane_spec(path, "main"@), base, path, true, false),
                ),
            },
        }
    }
}

fn wt_split_exec(base: &[char]) -> (r: Option<usize>)
    ensures
        r matches Some(i) ==> wt_split_from(base@, base@.len() as int) == Some(i as int) && 1 <= i
            && i + 4 < base@.len(),
        r is None ==> wt_split_from(base@, base@.len() as int) is None,
{
    let marker = to_chars("-wt-");
    proof {
        reveal_strlit("-wt-");
    }
    let mut j = base.len();
    while j >= 1
        invariant
            j <= base@.len(),
            marker@ == "-wt-"@,
            marker@.len() == 4,
            wt_split_from(base@, j as int) == wt_split_from(base@, base@.len() as int),
        decreases j,
    {
        if crate::text::occurs_at_exec(base, marker.as_slice(), j) && base.len() - j > 4 {
            return Some(j);
        }
        j = j - 1;
    }
    None
}

pub fn heuristic_chars(path: &[char]) -> (r: Option<Placement>)
    ensures
        placement_view(r) == heuristic_spec(path@),
{
    let base = base_name_chars(path);
    if base.len() == 0 {
        return None;
    }
    match kanban_dir_chars(path) {
        Some(kd) => {
            let e: Vec<char> = Vec::new();
            let w = with_base_name_chars(kd.as_slice(), e.as_slice());
            assert(e@ =~= Seq::<char>::empty());
            let repo = trim_end_k_exec(w.as_slice(), CharClass::PathSep);
            let lane = kanban_lane_chars(repo.as_slice());
            let label = to_chars("kanban");
            Some(placement(repo.as_slice(), lane.as_slice(), label.as_slice(), kd.as_slice(), false, true))
        },
        None => match wt_split_exec(base.as_slice()) {
            Some(i) => {
                let repo_base = slice_vec(base.as_slice(), 0, i);
                let wt = slice_vec(base.as_slice(), i + 4, base.len());
                let repo = with_base_name_chars(path, repo_base.as_slice());
                Some(placement(repo.as_slice(), path, wt.as_slice(), path, false, false))
            },
            None => {
                let main = to_chars("main");
                let lane = branch_lane_chars(path, main.as_slice());
                Some(placement(path, lane.as_slice(), base.as_slice(), path, true, false))
            },
        },
    }
}

/// Path-only fallback placement when there is no git probe and no persisted root.
pub fn place_by_heuristic(path: &str) -> (r: Option<Placement>)
    ensures
        placement_view(r) == heuristic_spec(path@),
{
    let p = to_chars(path);
    heuristic_chars(p.as_slice())
}


// ---------------------------------------------------------------------------
// Sibling-worktree probe
// ---------------------------------------------------------------------------

/// `res` is an answer that `resolve` may give when asked about the path `p`.
pub open spec fn answered<F: Fn(&str) -> Option<ResolveResult>>(
    resolve: F,
    p: Seq<char>,
    res: Option<ResolveResult>,
) -> bool {
    exists|s: &str| s@ == p && #[trigger] resolve.ensures((s,), res)
}

/// The trimmed repo root that a probe answer names (empty when it names none).
pub open spec fn answer_root(res: Option<ResolveResult>) -> Seq<char> {
    match res {
        Some(info) => trim(info.repo_root@),
        None => Seq::empty(),
    }
}

pub open spec fn resolve_view(res: Option<ResolveResult>) -> Option<ResolveModel> {
    match res {
        Some(info) => Some(info@),
        None => None,
    }
}

/// Going to the parent directory shortens a non-empty path.
pub proof fn lemma_parent_dir_shorter(path: Seq<char>)
    requires
        path.len() > 0,
    ensures
        parent_dir_spec(path).len() < path.len(),
{
    let sb = crate::text::skip_back(path, path.len() as int, CharClass::PathSep);
    lemma_skip_back_bounds(path, path.len() as int, CharClass::PathSep);
    let s = strip_seps(path);
    assert(s.len() == sb);
    if s.len() > 0 {
        lemma_rfind_class_before(s, s.len() as int, CharClass::PathSep);
        match rfind_class_before(s, s.len() as int, CharClass::PathSep) {
            Some(i) => {
                assert(s[s.len() - 1] == path[sb - 1]);
                assert(i + 1 < s.len());
                let w = s.subrange(0, i + 1);
                lemma_skip_back_bounds(w, w.len() as int, CharClass::PathSep);
            },
            None => {},
        }
    }
}

/// The candidates tried at one directory level: `path` with its base name cut back to its
/// first `i` dash-separated parts, `i` running down from one less than the number of parts
/// to 1.
pub open spec fn level_candidates(path: Seq<char>) -> Seq<Seq<char>> {
    let parts = split_char(base_name_spec(path), '-');
    let n: int = if parts.len() >= 1 {
        parts.len() - 1
    } else {
        0
    };
    Seq::new(
        n as nat,
        |k: int| with_base_name_spec(path, join_char(parts.subrange(0, n - k), '-')),
    )
}

/// The candidates of `path` and then of each of its parents, for at most `fuel` levels.
pub open spec fn sibling_candidates(path: Seq<char>, fuel: nat) -> Seq<Seq<char>>
    decreases fuel,
{
    if fuel == 0 || path.len() == 0 {
        Seq::empty()
    } else {
        level_candidates(path) + sibling_candidates(parent_dir_spec(path), (fuel - 1) as nat)
    }
}

/// The repo paths probed for `cwd`, in order: the first `MAX_SIBLING_PROBES` candidates.
pub open spec fn probe_candidates(cwd: Seq<char>) -> Seq<Seq<char>> {
    let all = sibling_candidates(strip_seps(cwd), cwd.len());
    if all.len() <= MAX_SIBLING_PROBES {
        all
    } else {
        all.subrange(0, MAX_SIBLING_PROBES as int)
    }
}

/// `answers` are what `resolve` gave for the first candidates in turn, all but the last
/// naming no repo root, and `root` is the root the last one named; the probe only stops
/// short of the last candidate on an answer that names a root.
pub open spec fn probe_record<F: Fn(&str) -> Option<ResolveResult>>(
    resolve: F,
    cands: Seq<Seq<char>>,
    answers: Seq<Option<ResolveResult>>,
    root: Seq<char>,
) -> bool {
    &&& answers.len() <= cands.len()
    &&& forall|k: int| 0 <= k < answers.len() ==> answered(resolve, cands[k], #[trigger] answers[k])
    &&& forall|k: int| 0 <= k < answers.len() - 1 ==> answer_root(#[trigger] answers[k]).len() == 0
    &&& root == (if answers.len() == 0 {
        Seq::<char>::empty()
    } else {
        answer_root(answers.last())
    })
    &&& root.len() == 0 ==> answers.len() == cands.len()
}

/// `root` is a possible outcome of probing the siblings of `cwd` with `resolve`.
pub open spec fn sibling_outcome<F: Fn(&str) -> Option<ResolveResult>>(
    resolve: F,
    cwd: Seq<char>,
    root: Seq<char>,
) -> bool {
    exists|answers: Seq<Option<ResolveResult>>|
        #[trigger] probe_record(resolve, probe_candidates(cwd), answers, root)
}

/// The sibling probe reads at most `MAX_SIBLING_PROBES` answers, the answer about the first
/// candidate first, and its outcome is either nothing or the trimmed repo root that the last
/// answer it read names; when `resolve` never names a repo root, the outcome is nothing.
pub proof fn lemma_sibling_probe_bounded<F: Fn(&str) -> Option<ResolveResult>>(
    resolve: F,
    cwd: Seq<char>,
    root: Seq<char>,
)
    requires
        sibling_outcome(resolve, cwd, root),
    ensures
        probe_candidates(cwd).len() <= MAX_SIBLING_PROBES,
        exists|answers: Seq<Option<ResolveResult>>|
            answers.len() <= MAX_SIBLING_PROBES && (answers.len() > 0 ==> answered(
                resolve,
                probe_candidates(cwd)[0],
                answers[0],
            )) && (root.len() == 0 || (answers.len() > 0 && answers.last() is Some
                && root == trim(answers.last()->0.repo_root@))),
        (forall|s: &str, res: Option<ResolveResult>|
            #[trigger] resolve.ensures((s,), res) ==> answer_root(res).len() == 0) ==> root.len() == 0,
{
    let cands = probe_candidates(cwd);
    let answers = choose|answers: Seq<Option<ResolveResult>>|
        #[trigger] probe_record(resolve, cands, answers, root);
    assert(answers.len() <= MAX_SIBLING_PROBES);
    if answers.len() > 0 {
        assert(answered(resolve, cands[0], answers[0]));
    }
    if forall|s: &str, res: Option<ResolveResult>|
        #[trigger] resolve.ensures((s,), res) ==> answer_root(res).len() == 0 {
        if answers.len() > 0 {
            let k = answers.len() - 1;
            assert(answered(resolve, cands[k], answers[k]));
            let s = choose|s: &str| s@ == cands[k] && #[trigger] resolve.ensures((s,), answers[k]);
            assert(answer_root(answers[k]).len() == 0);
        }
    }
}

fn answer_root_exec(info: &Option<ResolveResult>) -> (r: Vec<char>)
    ensures
        r@ == answer_root(*info),
{
    match info {
        Some(i) => {
            let c = to_chars(i.repo_root.as_str());
            trim_exec(c.as_slice())
        },
        None => Vec::new(),
    }
}

/// The parent repo root of a deleted `<repo>-<suffix>` worktree, else "".
///
/// Cuts the base name of `cwd`, and then of each parent, back one dash-separated part at a
/// time, asking `resolve` about each candidate path, at most `MAX_SIBLING_PROBES` times in
/// all; returns the first trimmed repo root named.
pub fn probe_sibling_worktree<F: Fn(&str) -> Option<ResolveResult>>(cwd: &str, resolve: &F) -> (r:
    String)
    requires
        forall|s: &str| probe_candidates(cwd@).contains(s@) ==> #[trigger] resolve.requires((s,)),
    ensures
        sibling_outcome(*resolve, cwd@, r@),
{
    let ghost all = sibling_candidates(strip_seps(cwd@), cwd@.len());
    let ghost cands = probe_candidates(cwd@);
    let c = to_chars(cwd);
    let mut path = trim_end_k_exec(c.as_slice(), CharClass::PathSep);
    let mut probes: usize = 0;
    let ghost mut answers: Seq<Option<ResolveResult>> = Seq::empty();
    let ghost mut fuel: nat = cwd@.len();
    proof {
        lemma_skip_back_bounds(c@, c@.len() as int, CharClass::PathSep);
        assert(all.subrange(0, 0) + sibling_candidates(path@, fuel) =~= all);
    }
    while path.len() > 0 && probes < MAX_SIBLING_PROBES
        invariant
            forall|s: &str| probe_candidates(cwd@).contains(s@) ==> #[trigger] resolve.requires((s,)),
            all == sibling_candidates(strip_seps(cwd@), cwd@.len()),
            cands == probe_candidates(cwd@),
            probes <= MAX_SIBLING_PROBES,
            probes <= all.len(),
            answers.len() == probes,
            path@.len() <= fuel,
            probes < MAX_SIBLING_PROBES ==> all.subrange(0, probes as int) + sibling_candidates(
                path@,
                fuel,
            ) == all,
            forall|k: int| 0 <= k < probes ==> answered(*resolve, all[k], #[trigger] answers[k]),
            forall|k: int| 0 <= k < probes ==> answer_root(#[trigger] answers[k]).len() == 0,
        decreases path@.len(),
    {
        let bn = base_name_chars(path.as_slice());
        let parts = split_char_exec(bn.as_slice(), '-');
        let n = parts.len() - 1;
        let ghost p0 = probes as int;
        let ghost lc = level_candidates(path@);
        let ghost rest = sibling_candidates(parent_dir_spec(path@), (fuel - 1) as nat);
        assert(sibling_candidates(path@, fuel) == lc + rest);
        assert(lc.len() == n);
        let mut k: usize = 0;
        while k < n && probes < MAX_SIBLING_PROBES
            invariant
                forall|s: &str| probe_candidates(cwd@).contains(s@) ==> #[trigger] resolve.requires((s,)),
                all == sibling_candidates(strip_seps(cwd@), cwd@.len()),
                cands == probe_candidates(cwd@),
                lc == level_candidates(path@),
                char_views(parts@) == split_char(base_name_spec(path@), '-'),
                n == parts@.len() - 1,
                lc.len() == n,
                k <= n,
                probes == p0 + k,
                p0 < MAX_SIBLING_PROBES,
                0 <= p0 <= all.len(),
                probes <= MAX_SIBLING_PROBES,
                all.subrange(0, p0) + lc + rest == all,
                answers.len() == probes,
                forall|j: int| 0 <= j < probes ==> answered(*resolve, all[j], #[trigger] answers[j]),
                forall|j: int| 0 <= j < probes ==> answer_root(#[trigger] answers[j]).len() == 0,
            decreases n - k,
        {
            assert(all[p0 + k] == lc[k as int]) by {
                let pre = all.subrange(0, p0);
                assert(pre.len() == p0);
                assert((pre + lc)[p0 + k] == lc[k as int]);
                assert((pre + lc + rest)[p0 + k] == (pre + lc)[p0 + k]);
            }
            probes = probes + 1;
            let name = join_first_exec(parts.as_slice(), n - k, '-');
            let cand = with_base_name_chars(path.as_slice(), name.as_slice());
            let cand_s = from_chars(cand.as_slice());
            assert(cands.contains(cand_s@)) by {
                assert(cands[p0 + k] == all[p0 + k]);
            }
            let info = resolve(cand_s.as_str());
            proof {
                assert(answered(*resolve, all[p0 + k], info));
                answers = answers.push(info);
                assert(answers[p0 + k] == info);
            }
            let root = answer_root_exec(&info);
            if root.len() > 0 {
                proof {
                    assert(cands.len() >= probes);
                    assert forall|j: int| 0 <= j < answers.len() implies answered(
                        *resolve,
                        cands[j],
                        #[trigger] answers[j],
                    ) by {
                        assert(cands[j] == all[j]);
                    }
                    assert(answers.last() == info);
                    assert(probe_record(*resolve, cands, answers, root@));
                }
                return from_chars(root.as_slice());
            }
            k = k + 1;
        }
        proof {
            lemma_parent_dir_shorter(path@);
            if probes < MAX_SIBLING_PROBES {
                assert(k == n);
                assert(all.subrange(0, probes as int) + rest =~= all) by {
                    assert(all.subrange(0, probes as int) =~= all.subrange(0, p0) + lc);
                }
            }
            fuel = (fuel - 1) as nat;
        }
        path = parent_dir_chars(path.as_slice());
    }
    proof {
        if probes < MAX_SIBLING_PROBES {
            assert(sibling_candidates(path@, fuel) =~= Seq::<Seq<char>>::empty());
            assert(all.subrange(0, probes as int) =~= all);
        }
        assert(cands.len() == probes);
        assert forall|j: int| 0 <= j < answers.len() implies answered(
            *resolve,
            cands[j],
            #[trigger] answers[j],
        ) by {
            assert(cands[j] == all[j]);
        }
        if answers.len() > 0 {
            assert(answer_root(answers[answers.len() - 1]).len() == 0);
            assert(answer_root(answers.last()) =~= Seq::<char>::empty());
        }
        assert(probe_record(*resolve, cands, answers, Seq::<char>::empty()));
    }
    let e = String::new();
    assert(e@ =~= Seq::<char>::empty());
    e
}

// ---------------------------------------------------------------------------
// Placement by tiers
// ---------------------------------------------------------------------------

/// The trimmed branch, or `main` when it is blank.
pub open spec fn branch_label(branch: Seq<char>) -> Seq<char> {
    if trim(branch).len() == 0 {
        DEFAULT_BRANCH_LABEL@
    } else {
        trim(branch)
    }
}

/// A main-checkout placement of `root` on the branch labelled by `branch`.
pub open spec fn main_placement(root: Seq<char>, branch: Seq<char>) -> PlacementModel {
    placement_spec(
        root,
        branch_lane_spec(root, branch_label(branch)),
        branch_label(branch),
        root,
        true,
        false,
    )
}

/// A kanban placement of `root` with its worktrees under `kanban_dir`.
pub open spec fn kanban_placement(root: Seq<char>, kanban_dir: Seq<char>) -> PlacementModel {
    placement_spec(root, kanban_lane_spec(root), "kanban"@, kanban_dir, false, true)
}

/// The placement that a git probe answer gives: the main checkout, a kanban worktree or a
/// linked worktree of its repo.
pub open spec fn git_placement(repo: Seq<char>, worktree: Seq<char>, is_main: bool, branch: Seq<
    char,
>) -> PlacementModel {
    if path_key_spec(worktree) == path_key_spec(repo) || is_main {
        main_placement(repo, branch)
    } else {
        match kanban_dir_spec(worktree) {
            Some(kd) => kanban_placement(repo, kd),
            None => placement_spec(
                repo,
                worktree,
                if base_name_spec(worktree).len() == 0 {
                    worktree
                } else {
                    base_name_spec(worktree)
                },
                worktree,
                false,
                false,
            ),
        }
    }
}

/// The first two tiers: a git probe answer that names both roots, then a persisted repo root.
/// `None` when neither decides.
pub open spec fn probed_placement(
    cwd: Seq<char>,
    branch: Seq<char>,
    info: Option<ResolveModel>,
    persisted_root: Seq<char>,
) -> Option<PlacementModel> {
    if info matches Some(m) && trim(m.repo_root).len() > 0 && trim(m.worktree_root).len() > 0 {
        let m = info->0;
        Some(git_placement(trim(m.repo_root), trim(m.worktree_root), m.is_main, branch))
    } else if trim(persisted_root).len() > 0 {
        let pr = trim(persisted_root);
        match kanban_dir_spec(cwd) {
            Some(kd) => Some(kanban_placement(pr, kd)),
            None => Some(main_placement(pr, branch)),
        }
    } else {
        None
    }
}

/// All four tiers: git probe, persisted root, sibling-worktree root, path heuristic.
pub open spec fn place_spec(
    cwd: Seq<char>,
    branch: Seq<char>,
    info: Option<ResolveModel>,
    persisted_root: Seq<char>,
    sibling_root: Seq<char>,
) -> Option<PlacementModel> {
    match probed_placement(cwd, branch, info, persisted_root) {
        Some(p) => Some(p),
        None => if sibling_root.len() > 0 {
            Some(main_placement(trim(sibling_root), branch))
        } else {
            heuristic_spec(cwd)
        },
    }
}

/// `info` is what `resolve` answered for `cwd`, and, where the first two tiers do not decide,
/// `sibling_root` is what the sibling probe found.
pub open spec fn place_trace<F: Fn(&str) -> Option<ResolveResult>>(
    resolve: F,
    cwd: Seq<char>,
    branch: Seq<char>,
    persisted_root: Seq<char>,
    info: Option<ResolveResult>,
    sibling_root: Seq<char>,
) -> bool {
    &&& answered(resolve, cwd, info)
    &&& probed_placement(cwd, branch, resolve_view(info), persisted_root) is None ==> sibling_outcome(
        resolve,
        cwd,
        sibling_root,
    )
}

fn branch_label_exec(branch: &str) -> (r: Vec<char>)
    ensures
        r@ == branch_label(branch@),
{
    let b = to_chars(branch);
    let t = trim_exec(b.as_slice());
    if t.len() == 0 {
        proof {
            reveal_strlit("main");
        }
        to_chars(DEFAULT_BRANCH_LABEL)
    } else {
        t
    }
}

fn main_placement_exec(root: &[char], branch: &str) -> (r: Placement)
    ensures
        r@ == main_placement(root@, branch@),
{
    let b = branch_label_exec(branch);
    let lane = branch_lane_chars(root, b.as_slice());
    placement(root, lane.as_slice(), b.as_slice(), root, true, false)
}

fn kanban_placement_exec(root: &[char], kanban_dir: &[char]) -> (r: Placement)
    ensures
        r@ == kanban_placement(root@, kanban_dir@),
{
    let lane = kanban_lane_chars(root);
    let label = to_chars("kanban");
    placement(root, lane.as_slice(), label.as_slice(), kanban_dir, false, true)
}

fn probed_placement_exec(
    cwd: &[char],
    branch: &str,
    info: &Option<ResolveResult>,
    persisted_root: &str,
) -> (r: Option<Placement>)
    ensures
        placement_view(r) == probed_placement(cwd@, branch@, resolve_view(*info), persisted_root@),
{
    if let Some(i) = info {
        let rc = to_chars(i.repo_root.as_str());
        let wc = to_chars(i.worktree_root.as_str());
        let repo = trim_exec(rc.as_slice());
        let wt = trim_exec(wc.as_slice());
        if repo.len() > 0 && wt.len() > 0 {
            let rk = path_key_chars(repo.as_slice());
            let wk = path_key_chars(wt.as_slice());
            if chars_eq(wk.as_slice(), rk.as_slice()) || i.is_main {
                return Some(main_placement_exec(repo.as_slice(), branch));
            }
            match kanban_dir_chars(wt.as_slice()) {
                Some(kd) => {
                    return Some(kanban_placement_exec(repo.as_slice(), kd.as_slice()));
                },
                None => {
                    let bn = base_name_chars(wt.as_slice());
                    let label = if bn.len() == 0 {
                        slice_vec(wt.as_slice(), 0, wt.len())
                    } else {
                        bn
                    };
                    proof {
                        assert(wt@.subrange(0, wt@.len() as int) =~= wt@);
                    }
                    return Some(
                        placement(
                            repo.as_slice(),
                            wt.as_slice(),
                            label.as_slice(),
                            wt.as_slice(),
                            false,
                            false,
                        ),
                    );
                },
            }
        }
    }
    let pc = to_chars(persisted_root);
    let pr = trim_exec(pc.as_slice());
    if pr.len() > 0 {
        match kanban_dir_chars(cwd) {
            Some(kd) => Some(kanban_placement_exec(pr.as_slice(), kd.as_slice())),
            None => Some(main_placement_exec(pr.as_slice(), branch)),
        }
    } else {
        None
    }
}

fn fallback_placement_exec(cwd: &[char], branch: &str, sibling_root: &str) -> (r: Option<
    Placement,
>)
    ensures
        placement_view(r) == (if sibling_root@.len() > 0 {
            Some(main_placement(trim(sibling_root@), branch@))
        } else {
            heuristic_spec(cwd@)
        }),
{
    let sc = to_chars(sibling_root);
    if sc.len() > 0 {
        let sr = trim_exec(sc.as_slice());
        Some(main_placement_exec(sr.as_slice(), branch))
    } else {
        heuristic_chars(cwd)
    }
}

/// Lane placement for a cwd from given probe results: the git probe answer `info`, the
/// persisted repo root, and the root the sibling probe found (tiers in that order, then the
/// path heuristic).
pub fn place_with(
    cwd: &str,
    branch: &str,
    info: Option<ResolveResult>,
    persisted_root: &str,
    sibling_root: &str,
) -> (r: Option<Placement>)
    ensures
        placement_view(r) == place_spec(
            cwd@,
            branch@,
            resolve_view(info),
            persisted_root@,
            sibling_root@,
        ),
{
    let c = to_chars(cwd);
    match probed_placement_exec(c.as_slice(), branch, &info, persisted_root) {
        Some(p) => Some(p),
        None => fallback_placement_exec(c.as_slice(), branch, sibling_root),
    }
}

/// Lane placement for a cwd: git probe, then persisted root, then sibling worktree, then the
/// path heuristic. Without `resolve` no probe is made.
pub fn place<F: Fn(&str) -> Option<ResolveResult>>(
    cwd: &str,
    branch: &str,
    resolve: Option<&F>,
    persisted_root: &str,
) -> (r: Option<Placement>)
    requires
        resolve matches Some(f) ==> forall|s: &str| #[trigger] f.requires((s,)),
    ensures
        resolve is None ==> placement_view(r) == place_spec(
            cwd@,
            branch@,
            None,
            persisted_root@,
            Seq::empty(),
        ),
        resolve matches Some(f) ==> exists|info: Option<ResolveResult>, sibling_root: Seq<char>|
            #[trigger] place_trace(*f, cwd@, branch@, persisted_root@, info, sibling_root)
                && placement_view(r) == place_spec(
                cwd@,
                branch@,
                resolve_view(info),
                persisted_root@,
                sibling_root,
            ),
{
    let c = to_chars(cwd);
    let info = match resolve {
        Some(f) => f(cwd),
        None => None,
    };
    if let Some(p) = probed_placement_exec(c.as_slice(), branch, &info, persisted_root) {
        proof {
            if let Some(f) = resolve {
                assert(place_trace(*f, cwd@, branch@, persisted_root@, info, Seq::empty()));
            }
        }
        return Some(p);
    }
    let sibling = match resolve {
        Some(f) => probe_sibling_worktree(cwd, f),
        None => String::new(),
    };
    proof {
        if let Some(f) = resolve {
            assert(place_trace(*f, cwd@, branch@, persisted_root@, info, sibling@));
        } else {
            assert(sibling@ =~= Seq::<char>::empty());
        }
    }
    fallback_placement_exec(c.as_slice(), branch, sibling.as_str())
}

// ---------------------------------------------------------------------------
// Projects and the folder index
// ---------------------------------------------------------------------------

/// A project folder.
#[derive(Debug, Clone, PartialEq, Eq)]
pub struct Folder {
    pub path: String,
}

impl Folder {
    pub fn new(path: &str) -> (r: Self)
        ensures
            r.path@ == path@,
    {
        Folder { path: from_chars(to_chars(path).as_slice()) }
    }
}

/// A project: an id, optional display fields, and the folders it owns.
#[derive(Debug, Clone, PartialEq, Eq)]
pub struct Project {
    pub id: String,
    pub name: Option<String>,
    pub primary_path: Option<String>,
    pub color: Option<String>,
    pub icon: Option<String>,
    pub folders: Vec<Folder>,
    pub archived: bool,
}

impl Project {
    pub fn new(id: &str) -> (r: Self)
        ensures
            r.id@ == id@,
            r.name is None,
            r.primary_path is None,
            r.color is None,
            r.icon is None,
            r.folders@.len() == 0,
            !r.archived,
    {
        Project {
            id: from_chars(to_chars(id).as_slice()),
            name: None,
            primary_path: None,
            color: None,
            icon: None,
            folders: Vec::new(),
            archived: false,
        }
    }

    pub fn with_name(self, n: &str) -> (r: Self)
        ensures
            r.name matches Some(x) && x@ == n@,
            r.id == self.id,
            r.primary_path == self.primary_path,
            r.color == self.color,
            r.icon == self.icon,
            r.folders == self.folders,
            r.archived == self.archived,
    {
        let mut s = self;
        s.name = Some(from_chars(to_chars(n).as_slice()));
        s
    }

    pub fn with_primary_path(self, p: &str) -> (r: Self)
        ensures
            r.primary_path matches Some(x) && x@ == p@,
            r.id == self.id,
            r.name == self.name,
            r.color == self.color,
            r.icon == self.icon,
            r.folders == self.folders,
            r.archived == self.archived,
    {
        let mut s = self;
        s.primary_path = Some(from_chars(to_chars(p).as_slice()));
        s
    }

    pub fn with_folders(self, folders: Vec<Folder>) -> (r: Self)
        ensures
            r.folders == folders,
            r.id == self.id,
            r.name == self.name,
            r.primary_path == self.primary_path,
            r.color == self.color,
            r.icon == self.icon,
            r.archived == self.archived,
    {
        let mut s = self;
        s.folders = folders;
        s
    }
}

/// The index key of a path: its comparison segments joined with `/`.
pub open spec fn folder_key(path: Seq<char>) -> Seq<char> {
    join_char(identity_segments(path), '/')
}

/// Folder `j` of project `pi` has a path of `d > 0` comparison segments whose key is `key`.
pub open spec fn folder_hit(projects: Seq<Project>, key: Seq<char>, pi: int, j: int, d: int) -> bool {
    &&& 0 <= pi < projects.len()
    &&& 0 <= j < projects[pi].folders@.len()
    &&& d > 0
    &&& identity_segments(projects[pi].folders@[j].path@).len() == d
    &&& folder_key(projects[pi].folders@[j].path@) == key
}

/// Folder `j` of project `pi` comes before folder `f` of project `p` in scan order.
pub open spec fn scanned_before(pi: int, j: int, p: int, f: int) -> bool {
    pi < p || (pi == p && j < f)
}

/// Among the folders scanned before (`p`, `f`), `key` is held at depth `d` by project `pi`:
/// the deepest hit, the first project in scan order at that depth.
pub open spec fn best_hit_before(
    projects: Seq<Project>,
    key: Seq<char>,
    pi: int,
    d: int,
    p: int,
    f: int,
) -> bool {
    &&& exists|j: int| scanned_before(pi, j, p, f) && #[trigger] folder_hit(projects, key, pi, j, d)
    &&& forall|q: int, j: int, e: int|
        scanned_before(q, j, p, f) && #[trigger] folder_hit(projects, key, q, j, e) ==> e <= d
    &&& forall|q: int, j: int|
        scanned_before(q, j, p, f) && q < pi ==> !#[trigger] folder_hit(projects, key, q, j, d)
}

/// No folder scanned before (`p`, `f`) has key `key`.
pub open spec fn no_hit_before(projects: Seq<Project>, key: Seq<char>, p: int, f: int) -> bool {
    forall|q: int, j: int, e: int|
        scanned_before(q, j, p, f) ==> !#[trigger] folder_hit(projects, key, q, j, e)
}

/// Over all the folders of `projects`: `key` is held at depth `d` by project `pi`.
pub open spec fn best_hit(projects: Seq<Project>, key: Seq<char>, pi: int, d: int) -> bool {
    best_hit_before(projects, key, pi, d, projects.len() as int, 0)
}

/// No folder of `projects` has key `key`.
pub open spec fn no_hit(projects: Seq<Project>, key: Seq<char>) -> bool {
    no_hit_before(projects, key, projects.len() as int, 0)
}

proof fn lemma_best_carry(projects: Seq<Project>, key: Seq<char>, pi: int, d: int, p: int, f: int)
    requires
        best_hit_before(projects, key, pi, d, p, f),
        forall|e: int| #[trigger] folder_hit(projects, key, p, f, e) ==> e <= d,
    ensures
        best_hit_before(projects, key, pi, d, p, f + 1),
{
    let j0 = choose|j: int| scanned_before(pi, j, p, f) && #[trigger] folder_hit(projects, key, pi, j, d);
    assert(scanned_before(pi, j0, p, f + 1) && folder_hit(projects, key, pi, j0, d));
    assert forall|q: int, j: int, e: int|
        scanned_before(q, j, p, f + 1) && #[trigger] folder_hit(projects, key, q, j, e) implies e <= d by {
        if !scanned_before(q, j, p, f) {
            assert(q == p && j == f);
        }
    }
    assert forall|q: int, j: int|
        scanned_before(q, j, p, f + 1) && q < pi implies !#[trigger] folder_hit(
        projects,
        key,
        q,
        j,
        d,
    ) by {
        if !scanned_before(q, j, p, f) {
            assert(q == p && j == f);
        }
    }
}

proof fn lemma_no_hit_carry(projects: Seq<Project>, key: Seq<char>, p: int, f: int)
    requires
        no_hit_before(projects, key, p, f),
        forall|e: int| !#[trigger] folder_hit(projects, key, p, f, e),
    ensures
        no_hit_before(projects, key, p, f + 1),
{
    assert forall|q: int, j: int, e: int| scanned_before(q, j, p, f + 1) implies !#[trigger] folder_hit(
        projects,
        key,
        q,
        j,
        e,
    ) by {
        if !scanned_before(q, j, p, f) {
            assert(q == p && j == f);
        }
    }
}

proof fn lemma_first_hit(projects: Seq<Project>, key: Seq<char>, p: int, f: int, dd: int)
    requires
        no_hit_before(projects, key, p, f),
        folder_hit(projects, key, p, f, dd),
        forall|e: int| #[trigger] folder_hit(projects, key, p, f, e) ==> e == dd,
    ensures
        best_hit_before(projects, key, p, dd, p, f + 1),
{
    assert(scanned_before(p, f, p, f + 1));
    assert forall|q: int, j: int, e: int|
        scanned_before(q, j, p, f + 1) && #[trigger] folder_hit(projects, key, q, j, e) implies e
        <= dd by {
        if !scanned_before(q, j, p, f) {
            assert(q == p && j == f);
        }
    }
}

proof fn lemma_deeper_hit(
    projects: Seq<Project>,
    key: Seq<char>,
    pi: int,
    d: int,
    p: int,
    f: int,
    dd: int,
)
    requires
        best_hit_before(projects, key, pi, d, p, f),
        folder_hit(projects, key, p, f, dd),
        dd > d,
        forall|e: int| #[trigger] folder_hit(projects, key, p, f, e) ==> e == dd,
    ensures
        best_hit_before(projects, key, p, dd, p, f + 1),
{
    assert(scanned_before(p, f, p, f + 1));
    assert forall|q: int, j: int, e: int|
        scanned_before(q, j, p, f + 1) && #[trigger] folder_hit(projects, key, q, j, e) implies e
        <= dd by {
        if !scanned_before(q, j, p, f) {
            assert(q == p && j == f);
        }
    }
    assert forall|q: int, j: int|
        scanned_before(q, j, p, f + 1) && q < p implies !#[trigger] folder_hit(
        projects,
        key,
        q,
        j,
        dd,
    ) by {
        if folder_hit(projects, key, q, j, dd) {
            assert(scanned_before(q, j, p, f));
        }
    }
}

proof fn lemma_next_project(projects: Seq<Project>, key: Seq<char>, p: int)
    requires
        0 <= p < projects.len(),
    ensures
        forall|pi: int, d: int|
            best_hit_before(projects, key, pi, d, p, projects[p].folders@.len() as int)
                ==> #[trigger] best_hit_before(projects, key, pi, d, p + 1, 0),
        no_hit_before(projects, key, p, projects[p].folders@.len() as int) ==> no_hit_before(
            projects,
            key,
            p + 1,
            0,
        ),
{
    let n = projects[p].folders@.len() as int;
    assert forall|q: int, j: int, e: int| #[trigger] folder_hit(projects, key, q, j, e) implies (
    scanned_before(q, j, p, n) <==> scanned_before(q, j, p + 1, 0)) by {}
    assert forall|pi: int, d: int|
        best_hit_before(projects, key, pi, d, p, n) implies #[trigger] best_hit_before(
        projects,
        key,
        pi,
        d,
        p + 1,
        0,
    ) by {
        let j0 = choose|j: int|
            scanned_before(pi, j, p, n) && #[trigger] folder_hit(projects, key, pi, j, d);
        assert(scanned_before(pi, j0, p + 1, 0));
    }
}

struct FolderEntry {
    key: Vec<char>,
    project: usize,
    depth: usize,
}

/// Folder index: the owning project of each folder key (the deepest, then the first in
/// scan order).
pub struct FolderIndex {
    entries: Vec<FolderEntry>,
}

spec fn entry_keys_distinct(es: Seq<FolderEntry>) -> bool {
    forall|a: int, b: int| 0 <= a < b < es.len() ==> es[a].key@ != es[b].key@
}

spec fn find_entry(es: Seq<FolderEntry>, key: Seq<char>, i: int) -> Option<int>
    decreases es.len() - i,
{
    if i < 0 || i >= es.len() {
        None
    } else if es[i].key@ == key {
        Some(i)
    } else {
        find_entry(es, key, i + 1)
    }
}

proof fn lemma_find_entry(es: Seq<FolderEntry>, key: Seq<char>, i: int)
    requires
        0 <= i,
    ensures
        find_entry(es, key, i) matches Some(m) ==> i <= m < es.len() && es[m].key@ == key
            && forall|t: int| i <= t < m ==> (#[trigger] es[t]).key@ != key,
        find_entry(es, key, i) is None ==> forall|t: int|
            i <= t < es.len() ==> (#[trigger] es[t]).key@ != key,
    decreases es.len() - i,
{
    if i < es.len() && es[i].key@ != key {
        lemma_find_entry(es, key, i + 1);
    }
}

impl FolderIndex {
    /// The project index and depth held for `key`, if any.
    pub closed spec fn lookup(&self, key: Seq<char>) -> Option<(int, int)> {
        match find_entry(self.entries@, key, 0) {
            Some(i) => Some((self.entries@[i].project as int, self.entries@[i].depth as int)),
            None => None,
        }
    }

    /// The index holds, for each key, the best hit among the folders of `projects`.
    pub open spec fn indexes(&self, projects: Seq<Project>) -> bool {
        forall|key: Seq<char>|
            match #[trigger] self.lookup(key) {
                Some((pi, d)) => best_hit(projects, key, pi, d),
                None => no_hit(projects, key),
            }
    }

    /// The deepest prefix `segs[..end']` (`end' <= end`) of the target's segments that the
    /// index holds, with its project and depth.
    pub open spec fn deepest(&self, segs: Seq<Seq<char>>, end: int) -> Option<(int, int)>
        decreases end,
    {
        if end <= 0 || end > segs.len() {
            None
        } else {
            match self.lookup(join_char(segs.subrange(0, end), '/')) {
                Some(hit) => Some(hit),
                None => self.deepest(segs, end - 1),
            }
        }
    }

    fn find_key(&self, key: &[char]) -> (r: Option<usize>)
        ensures
            r matches Some(i) ==> find_entry(self.entries@, key@, 0) == Some(i as int),
            r is None ==> find_entry(self.entries@, key@, 0) is None,
    {
        let mut i: usize = 0;
        while i < self.entries.len()
            invariant
                i <= self.entries@.len(),
                find_entry(self.entries@, key@, i as int) == find_entry(self.entries@, key@, 0),
            decreases self.entries@.len() - i,
        {
            if chars_eq(self.entries[i].key.as_slice(), key) {
                return Some(i);
            }
            i = i + 1;
        }
        None
    }

    /// Owning project for `target` by its deepest indexed ancestor folder, with that folder's
    /// depth; `(None, -1)` when no ancestor is indexed.
    pub fn match_target<'a>(&self, target: &str, projects: &'a [Project]) -> (r: (
        Option<&'a Project>,
        i32,
    ))
        requires
            forall|key: Seq<char>| #[trigger]
                self.lookup(key) matches Some((pi, d)) ==> 0 <= pi < projects@.len(),
        ensures
            match self.deepest(identity_segments(target@), identity_segments(target@).len() as int) {
                Some((pi, d)) => r.0 matches Some(x) && *x == projects@[pi] && r.1 == d as i32,
                None => r.0 is None && r.1 == -1,
            },
    {
        let tc = to_chars(target);
        let segs = identity_segments_chars(tc.as_slice());
        let ghost sv = char_views(segs@);
        let mut end = segs.len();
        while end > 0
            invariant
                end <= segs@.len(),
                sv == char_views(segs@),
                sv == identity_segments(target@),
                self.deepest(sv, end as int) == self.deepest(sv, sv.len() as int),
                forall|key: Seq<char>| #[trigger]
                    self.lookup(key) matches Some((pi, d)) ==> 0 <= pi < projects@.len(),
            decreases end,
        {
            let key = join_first_exec(segs.as_slice(), end, '/');
            if let Some(i) = self.find_key(key.as_slice()) {
                proof {
                    lemma_find_entry(self.entries@, key@, 0);
                    assert(self.lookup(key@) == Some(
                        (self.entries@[i as int].project as int, self.entries@[i as int].depth as int),
                    ));
                }
                let e = &self.entries[i];
                return (Some(&projects[e.project]), e.depth as i32);
            }
            end = end - 1;
        }
        (None, -1)
    }

    /// Owning project for a path.
    pub fn project_for_path<'a>(&self, target: &str, projects: &'a [Project]) -> (r: Option<
        &'a Project,
    >)
        requires
            forall|key: Seq<char>| #[trigger]
                self.lookup(key) matches Some((pi, d)) ==> 0 <= pi < projects@.len(),
        ensures
            match self.deepest(identity_segments(target@), identity_segments(target@).len() as int) {
                Some((pi, d)) => r matches Some(x) && *x == projects@[pi],
                None => r is None,
            },
    {
        self.match_target(target, projects).0
    }

    /// Indexes the folders of `projects` by key.
    pub fn new(projects: &[Project]) -> (r: Self)
        ensures
            r.indexes(projects@),
    {
        let mut idx = FolderIndex { entries: Vec::new() };
        let mut p: usize = 0;
        while p < projects.len()
            invariant
                p <= projects@.len(),
                entry_keys_distinct(idx.entries@),
                forall|i: int|
                    0 <= i < idx.entries@.len() ==> best_hit_before(
                        projects@,
                        (#[trigger] idx.entries@[i]).key@,
                        idx.entries@[i].project as int,
                        idx.entries@[i].depth as int,
                        p as int,
                        0,
                    ),
                forall|key: Seq<char>|
                    (forall|i: int| 0 <= i < idx.entries@.len() ==> (#[trigger] idx.entries@[i]).key@
                        != key) ==> #[trigger] no_hit_before(projects@, key, p as int, 0),
            decreases projects@.len() - p,
        {
            let folders = &projects[p].folders;
            let mut f: usize = 0;
            while f < folders.len()
                invariant
                    p < projects@.len(),
                    *folders == projects@[p as int].folders,
                    f <= folders@.len(),
                    entry_keys_distinct(idx.entries@),
                    forall|i: int|
                        0 <= i < idx.entries@.len() ==> best_hit_before(
                            projects@,
                            (#[trigger] idx.entries@[i]).key@,
                            idx.entries@[i].project as int,
                            idx.entries@[i].depth as int,
                            p as int,
                            f as int,
                        ),
                    forall|key: Seq<char>|
                        (forall|i: int|
                            0 <= i < idx.entries@.len() ==> (#[trigger] idx.entries@[i]).key@
                                != key) ==> #[trigger] no_hit_before(projects@, key, p as int, f as int),
                decreases folders@.len() - f,
            {
                let pc = to_chars(folders[f].path.as_str());
                let segs = identity_segments_chars(pc.as_slice());
                let ghost es0 = idx.entries@;
                let ghost pp = p as int;
                let ghost ff = f as int;
                if segs.len() > 0 {
                    let key = join_char_exec(segs.as_slice(), '/');
                    let depth = segs.len();
                    let ghost kk = key@;
                    let ghost dd = depth as int;
                    proof {
                        assert(folder_hit(projects@, kk, pp, ff, dd));
                        assert forall|k: Seq<char>, e: int| #[trigger] folder_hit(
                            projects@,
                            k,
                            pp,
                            ff,
                            e,
                        ) implies k == kk && e == dd by {}
                        lemma_find_entry(es0, kk, 0);
                    }
                    match idx.find_key(key.as_slice()) {
                        None => {
                            idx.entries.push(FolderEntry { key, project: p, depth });
                            proof {
                                let es1 = idx.entries@;
                                assert forall|i: int| 0 <= i < es1.len() implies best_hit_before(
                                    projects@,
                                    (#[trigger] es1[i]).key@,
                                    es1[i].project as int,
                                    es1[i].depth as int,
                                    pp,
                                    ff + 1,
                                ) by {
                                    if i < es0.len() {
                                        assert(es1[i] == es0[i]);
                                        lemma_best_carry(
                                            projects@,
                                            es0[i].key@,
                                            es0[i].project as int,
                                            es0[i].depth as int,
                                            pp,
                                            ff,
                                        );
                                    } else {
                                        assert(no_hit_before(projects@, kk, pp, ff));
                                        lemma_first_hit(projects@, kk, pp, ff, dd);
                                    }
                                }
                                assert forall|k: Seq<char>|
                                    (forall|i: int|
                                        0 <= i < es1.len() ==> (#[trigger] es1[i]).key@ != k) implies #[trigger] no_hit_before(
                                    projects@,
                                    k,
                                    pp,
                                    ff + 1,
                                ) by {
                                    assert(es1[es0.len() as int].key@ == kk);
                                    assert forall|i: int| 0 <= i < es0.len() implies (
                                    #[trigger] es0[i]).key@ != k by {
                                        assert(es1[i] == es0[i]);
                                    }
                                    lemma_no_hit_carry(projects@, k, pp, ff);
                                }
                            }
                        },
                        Some(i) => {
                            let ghost ii = i as int;
                            let ghost pi0 = es0[ii].project as int;
                            let ghost d0 = es0[ii].depth as int;
                            if depth > idx.entries[i].depth {
                                let k2 = slice_vec(
                                    idx.entries[i].key.as_slice(),
                                    0,
                                    idx.entries[i].key.len(),
                                );
                                idx.entries.set(i, FolderEntry { key: k2, project: p, depth });
                                proof {
                                    assert(es0[ii].key@.subrange(0, es0[ii].key@.len() as int)
                                        =~= es0[ii].key@);
                                    lemma_deeper_hit(projects@, kk, pi0, d0, pp, ff, dd);
                                }
                            } else {
                                proof {
                                    lemma_best_carry(projects@, kk, pi0, d0, pp, ff);
                                }
                            }
                            proof {
                                let es1 = idx.entries@;
                                assert forall|t: int| 0 <= t < es1.len() implies best_hit_before(
                                    projects@,
                                    (#[trigger] es1[t]).key@,
                                    es1[t].project as int,
                                    es1[t].depth as int,
                                    pp,
                                    ff + 1,
                                ) by {
                                    if t != ii {
                                        assert(es1[t] == es0[t]);
                                        assert(es0[t].key@ != kk);
                                        lemma_best_carry(
                                            projects@,
                                            es0[t].key@,
                                            es0[t].project as int,
                                            es0[t].depth as int,
                                            pp,
                                            ff,
                                        );
                                    }
                                }
                                assert forall|k: Seq<char>|
                                    (forall|t: int|
                                        0 <= t < es1.len() ==> (#[trigger] es1[t]).key@ != k) implies #[trigger] no_hit_before(
                                    projects@,
                                    k,
                                    pp,
                                    ff + 1,
                                ) by {
                                    assert(es1[ii].key@ == kk);
                                    assert forall|t: int| 0 <= t < es0.len() implies (
                                    #[trigger] es0[t]).key@ != k by {
                                        assert(es1[t].key@ == es0[t].key@);
                                    }
                                    lemma_no_hit_carry(projects@, k, pp, ff);
                                }
                            }
                        },
                    }
                } else {
                    proof {
                        assert forall|k: Seq<char>, e: int| !#[trigger] folder_hit(
                            projects@,
                            k,
                            pp,
                            ff,
                            e,
                        ) by {}
                        assert forall|t: int| 0 <= t < es0.len() implies best_hit_before(
                            projects@,
                            (#[trigger] es0[t]).key@,
                            es0[t].project as int,
                            es0[t].depth as int,
                            pp,
                            ff + 1,
                        ) by {
                            lemma_best_carry(
                                projects@,
                                es0[t].key@,
                                es0[t].project as int,
                                es0[t].depth as int,
                                pp,
                                ff,
                            );
                        }
                        assert forall|k: Seq<char>|
                            (forall|t: int| 0 <= t < es0.len() ==> (#[trigger] es0[t]).key@ != k) implies #[trigger] no_hit_before(
                            projects@,
                            k,
                            pp,
                            ff + 1,
                        ) by {
                            lemma_no_hit_carry(projects@, k, pp, ff);
                        }
                    }
                }
                f = f + 1;
            }
            proof {
                let es = idx.entries@;
                assert forall|key: Seq<char>|
                    (forall|i: int| 0 <= i < es.len() ==> (#[trigger] es[i]).key@ != key) implies #[trigger] no_hit_before(
                    projects@,
                    key,
                    p + 1,
                    0,
                ) by {
                    assert(no_hit_before(projects@, key, p as int, f as int));
                    lemma_next_project(projects@, key, p as int);
                }
                assert forall|t: int| 0 <= t < es.len() implies best_hit_before(
                    projects@,
                    (#[trigger] es[t]).key@,
                    es[t].project as int,
                    es[t].depth as int,
                    p + 1,
                    0,
                ) by {
                    lemma_next_project(projects@, es[t].key@, p as int);
                }
            }
            p = p + 1;
        }
        proof {
            assert forall|key: Seq<char>| match #[trigger] idx.lookup(key) {
                Some((pi, d)) => best_hit(projects@, key, pi, d),
                None => no_hit(projects@, key),
            } by {
                lemma_find_entry(idx.entries@, key, 0);
            }
        }
        idx
    }
}

/// Options for building the tree.
#[derive(Debug, Clone)]
pub struct BuildTreeOptions {
    pub preview_limit: usize,
    pub hydrate: bool,
}

impl Default for BuildTreeOptions {
    fn default() -> (r: Self)
        ensures
            r.preview_limit == 3,
            !r.hydrate,
    {
        BuildTreeOptions { preview_limit: 3, hydrate: false }
    }
}

} // verus!
