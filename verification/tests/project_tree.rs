use hermes_tui::project_tree::{
    build_repos, build_tree, build_tree_simple, disambiguate_repos, DiscoveredRepo, RepoNode,
    Session, NO_PROJECT_ID, NO_PROJECT_LABEL,
    base_name, branch_lane_id, comparison_segments, is_path_under, is_windows_path,
    kanban_lane_id, kanban_worktree_dir, lane_key, parent_dir, path_key, place, place_by_heuristic,
    place_with, probe_sibling_worktree, segments, with_base_name, BuildTreeOptions, Folder,
    FolderIndex, Project, ResolveResult, DEFAULT_BRANCH_LABEL, MAX_SIBLING_PROBES,
};

#[test]
fn segments_and_base() {
    assert_eq!(segments("/a/b/c"), vec!["a", "b", "c"]);
    assert_eq!(segments(r"C:\Users\foo\"), vec!["C:", "Users", "foo"]);
    assert_eq!(segments("/a//b\\c/"), vec!["a", "b", "c"]);
    assert_eq!(segments(""), Vec::<String>::new());
    assert_eq!(base_name("/a/b/c"), "c");
    assert_eq!(base_name("/"), "");
    assert_eq!(base_name(""), "");
}

#[test]
fn windows_path_detection() {
    assert!(is_windows_path(r"C:\Users\foo"));
    assert!(is_windows_path(r"C:/Users/foo"));
    assert!(is_windows_path(r"\\srv\share"));
    assert!(is_windows_path(r"//srv/share"));
    assert!(is_windows_path(r"\Users\foo"));
    assert!(!is_windows_path("/home/user"));
    assert!(!is_windows_path("/tmp"));
}

#[test]
fn path_key_normalization() {
    assert_eq!(path_key("/a/b/"), "a/b");
    assert_eq!(path_key(r"C:\Users\Foo\"), "c:/users/foo");
    assert_eq!(path_key("//srv/share/a"), "srv/share/a");
    assert_eq!(lane_key("/a/b::branch::Main"), "a/b::branch::Main");
    // a kanban lane key is the path key of its repo with the suffix kept
    assert_eq!(lane_key("/a/b::kanban"), "a/b::kanban");
    assert_eq!(lane_key("/A/B::kanban"), format!("{}::kanban", path_key("/A/B")));
}

#[test]
fn kanban_detection() {
    assert_eq!(kanban_worktree_dir("/repo/.worktrees/t_abc123"), Some("/repo/.worktrees".into()));
    assert_eq!(kanban_worktree_dir("/repo/.worktrees/t_abc123/"), Some("/repo/.worktrees".into()));
    assert_eq!(kanban_worktree_dir(r"C:\repo\.worktrees\t_abc"), Some(r"C:\repo\.worktrees".into()));
    assert_eq!(kanban_worktree_dir("/repo/.worktrees/new-worktree"), None);
    assert_eq!(kanban_worktree_dir("/repo/.worktrees/t_GHI"), None);
    assert_eq!(kanban_worktree_dir("/repo/other/t_abc"), None);
}

#[test]
fn with_base_and_parent() {
    assert_eq!(with_base_name("/a/b/c", "d"), "/a/b/d");
    assert_eq!(with_base_name("/a/b/c/", "d"), "/a/b/d");
    assert_eq!(with_base_name("c", "d"), "d");
    assert_eq!(parent_dir("/a/b/c"), "/a/b");
    assert_eq!(parent_dir("/a/b/"), "/a");
    assert_eq!(parent_dir("/a"), "");
    assert_eq!(parent_dir(""), "");
}

#[test]
fn is_path_under_cases() {
    assert!(is_path_under("/a/b", "/a/b/c"));
    assert!(is_path_under("/a/b", "/a/b"));
    assert!(!is_path_under("/a/b", "/a/bc"));
    assert!(is_path_under(r"C:\Users\Foo", r"C:\users\foo\bar"));
    assert!(!is_path_under("/a/b", "/a"));
}

#[test]
fn branch_and_kanban_ids() {
    assert_eq!(branch_lane_id("/repo", "main"), "/repo::branch::main");
    assert_eq!(branch_lane_id("/repo", "  "), "/repo::branch::");
    assert_eq!(kanban_lane_id("/repo"), "/repo::kanban");
}

#[test]
fn place_by_heuristic_cases() {
    let p = place_by_heuristic("/a/b").unwrap();
    assert!(p.is_main);
    assert_eq!(p.lane_key, "/a/b::branch::main");
    let p2 = place_by_heuristic("/repo/.worktrees/t_abc").unwrap();
    assert!(p2.is_kanban);
    let p3 = place_by_heuristic("/tmp/myrepo-wt-feature").unwrap();
    assert!(!p3.is_main);
    assert_eq!(p3.lane_label, "feature");
    assert_eq!(p3.repo_path, "/tmp/myrepo");
}

#[test]
fn folder_index_deepest_wins() {
    let projects = vec![
        Project::new("p1").with_folders(vec![Folder::new("/a")]),
        Project::new("p2").with_folders(vec![Folder::new("/a/b")]),
    ];
    let idx = FolderIndex::new(&projects);
    assert_eq!(idx.match_target("/a/b/c", &projects).0.unwrap().id, "p2");
    assert_eq!(idx.match_target("/a/c", &projects).0.unwrap().id, "p1");
    assert!(idx.match_target("/other", &projects).0.is_none());
}

#[test]
fn probe_sibling_bounded() {
    let res = probe_sibling_worktree("/tmp/myrepo-feature/sub/dir", &|_| None);
    assert!(res.is_empty());
    let calls = std::cell::RefCell::new(Vec::new());
    let _ = probe_sibling_worktree("/tmp/myrepo-feature", &|p: &str| {
        calls.borrow_mut().push(p.to_string());
        if p == "/tmp/myrepo" {
            Some(ResolveResult::new("/tmp/myrepo", "/tmp/myrepo"))
        } else {
            None
        }
    });
    assert!(calls.borrow().contains(&"/tmp/myrepo".to_string()));
}

// ---------------------------------------------------------------------------
// Further cases
// ---------------------------------------------------------------------------

#[test]
fn heuristic_edge_cases() {
    assert!(place_by_heuristic("").is_none());
    assert!(place_by_heuristic("///").is_none());
    // The last `-wt-` splits the base name.
    let p = place_by_heuristic("/tmp/a-wt-b-wt-c").unwrap();
    assert_eq!(p.repo_path, "/tmp/a-wt-b");
    assert_eq!(p.lane_label, "c");
    assert_eq!(p.lane_key, "/tmp/a-wt-b-wt-c");
    // Nothing after the marker: a main checkout.
    let q = place_by_heuristic("/tmp/repo-wt-").unwrap();
    assert!(q.is_main);
    assert_eq!(q.lane_label, "repo-wt-");
    let k = place_by_heuristic("/repo/.worktrees/t_abc").unwrap();
    assert_eq!(k.repo_path, "/repo");
    assert_eq!(k.lane_key, "/repo::kanban");
    assert_eq!(k.lane_path, "/repo/.worktrees");
    assert_eq!(k.repo_label, "repo");
}

#[test]
fn kanban_needs_hex_after_prefix() {
    assert_eq!(kanban_worktree_dir("/repo/.worktrees/t_"), None);
    assert_eq!(kanban_worktree_dir(""), None);
    assert_eq!(kanban_worktree_dir("t_abc"), None);
}

#[test]
fn comparison_segments_lower_windows_only() {
    assert_eq!(comparison_segments(r"C:\Users\Foo"), vec!["c:", "users", "foo"]);
    assert_eq!(comparison_segments("/Users/Foo"), vec!["Users", "Foo"]);
}

#[test]
fn probe_counts_at_most_four() {
    let calls = std::cell::RefCell::new(Vec::new());
    let r = probe_sibling_worktree("/x/a-b-c-d-e-f", &|p: &str| {
        calls.borrow_mut().push(p.to_string());
        None
    });
    assert_eq!(r, "");
    let c = calls.borrow();
    assert_eq!(c.len(), MAX_SIBLING_PROBES);
    assert_eq!(c[0], "/x/a-b-c-d-e");
    assert_eq!(c[1], "/x/a-b-c-d");
    assert_eq!(c[3], "/x/a-b");
}

#[test]
fn probe_walks_parents_and_trims_root() {
    let calls = std::cell::RefCell::new(Vec::new());
    let r = probe_sibling_worktree("/w/app-x/sub/", &|p: &str| {
        calls.borrow_mut().push(p.to_string());
        if p == "/w/app" {
            Some(ResolveResult::new("  /w/app \n", "/w/app"))
        } else {
            None
        }
    });
    assert_eq!(r, "/w/app");
    assert_eq!(calls.borrow().clone(), vec!["/w/app".to_string()]);
}

#[test]
fn place_tiers_in_order() {
    // Git probe naming both roots wins.
    let info = ResolveResult::new("/repo", "/repo");
    let p = place_with("/repo/src", " dev ", Some(info), "/persisted", "/sib").unwrap();
    assert!(p.is_main);
    assert_eq!(p.lane_key, "/repo::branch::dev");
    assert_eq!(p.lane_label, "dev");
    // Linked worktree.
    let info = ResolveResult::new("/repo", "/wt/feature");
    let p = place_with("/wt/feature", "x", Some(info), "", "").unwrap();
    assert!(!p.is_main);
    assert_eq!(p.lane_key, "/wt/feature");
    assert_eq!(p.lane_label, "feature");
    assert_eq!(p.repo_label, "repo");
    // Kanban worktree.
    let info = ResolveResult::new("/repo", "/repo/.worktrees/t_ab12");
    let p = place_with("/repo/.worktrees/t_ab12", "x", Some(info), "", "").unwrap();
    assert!(p.is_kanban);
    assert_eq!(p.lane_key, "/repo::kanban");
    // is_main flag.
    let info = ResolveResult::new("/repo", "/elsewhere").with_is_main(true);
    let p = place_with("/elsewhere", "", Some(info), "", "").unwrap();
    assert_eq!(p.lane_key, "/repo::branch::main");
    // Persisted root.
    let p = place_with("/repo/sub", "", None, " /repo ", "/sib").unwrap();
    assert_eq!(p.repo_path, "/repo");
    assert_eq!(p.lane_label, DEFAULT_BRANCH_LABEL);
    // Sibling root.
    let p = place_with("/gone/app-x", "feat", None, "", "/gone/app").unwrap();
    assert_eq!(p.repo_path, "/gone/app");
    assert_eq!(p.lane_key, "/gone/app::branch::feat");
    // Heuristic.
    let p = place_with("/gone/app-wt-x", "", None, "", "").unwrap();
    assert_eq!(p.repo_path, "/gone/app");
}

#[test]
fn place_with_and_without_resolver() {
    let p = place::<fn(&str) -> Option<ResolveResult>>("/tmp/thing", "", None, "").unwrap();
    assert!(p.is_main);
    assert_eq!(p.lane_key, "/tmp/thing::branch::main");
    let resolve = |p: &str| {
        if p == "/r/sub" {
            Some(ResolveResult::new("/r", "/r"))
        } else {
            None
        }
    };
    let p = place("/r/sub", "topic", Some(&resolve), "").unwrap();
    assert_eq!(p.repo_path, "/r");
    assert_eq!(p.lane_key, "/r::branch::topic");
    let sib = |p: &str| {
        if p == "/r/app" {
            Some(ResolveResult::new("/r/app", "/r/app"))
        } else {
            None
        }
    };
    let p = place("/r/app-gone", "", Some(&sib), "").unwrap();
    assert_eq!(p.repo_path, "/r/app");
    assert!(p.is_main);
}

#[test]
fn folder_index_first_project_wins_ties() {
    let projects = vec![
        Project::new("p1").with_folders(vec![Folder::new("/a/b")]),
        Project::new("p2").with_folders(vec![Folder::new("/a/b/")]),
        Project::new("p3").with_folders(vec![Folder::new(""), Folder::new("/")]),
    ];
    let idx = FolderIndex::new(&projects);
    let (p, d) = idx.match_target("/a/b/c/d", &projects);
    assert_eq!(p.unwrap().id, "p1");
    assert_eq!(d, 2);
    assert_eq!(idx.match_target("/z", &projects).1, -1);
    assert_eq!(idx.project_for_path("/a/b", &projects).unwrap().id, "p1");
}

#[test]
fn project_builders() {
    let p = Project::new("id").with_name("N").with_primary_path("/p");
    assert_eq!(p.name.as_deref(), Some("N"));
    assert_eq!(p.primary_path.as_deref(), Some("/p"));
    assert!(p.folders.is_empty());
    assert!(!p.archived);
    let o = BuildTreeOptions::default();
    assert_eq!(o.preview_limit, 3);
    assert!(!o.hydrate);
}

type Resolver = fn(&str) -> Option<ResolveResult>;
type Test = fn(&str) -> bool;

fn sess(id: &str, cwd: &str) -> Session {
    Session::new(id).with_cwd(cwd)
}

#[test]
fn build_repos_basic() {
    let sessions = vec![
        Session::new("s1").with_cwd("/repo").with_branch("main").with_repo_root("/repo"),
        Session::new("s2").with_cwd("/repo").with_branch("main").with_repo_root("/repo"),
    ];
    let repos = build_repos(&sessions, None::<&Resolver>, true);
    assert_eq!(repos.len(), 1);
    assert_eq!(repos[0].session_count, 2);
    assert_eq!(repos[0].groups.len(), 1);
    assert_eq!(repos[0].groups[0].sessions.len(), 2);
    let repos2 = build_repos(&sessions, None::<&Resolver>, false);
    assert!(repos2[0].groups[0].sessions.is_empty());
}

#[test]
fn build_tree_tiers() {
    let proj = Project::new("p1").with_folders(vec![Folder::new("/repo")]);
    let sessions = vec![Session::new("s1").with_cwd("/repo/sub").with_repo_root("/repo")];
    let out = build_tree_simple(&[proj], &sessions, &[], None::<&Resolver>);
    assert_eq!(out.projects.len(), 1);
    assert_eq!(out.projects[0].id, "p1");
    assert_eq!(out.scoped_session_ids, vec!["s1"]);

    let sessions2 = vec![Session::new("s2").with_cwd("")];
    let out2 = build_tree_simple(&[], &sessions2, &[], None::<&Resolver>);
    assert_eq!(out2.projects[0].id, NO_PROJECT_ID);
    assert!(out2.projects[0].is_no_project);
}

#[test]
fn build_tree_auto_and_discovered() {
    let sessions = vec![Session::new("s1").with_cwd("/auto/repo").with_repo_root("/auto/repo")];
    let out = build_tree_simple(&[], &sessions, &[], None::<&Resolver>);
    assert!(out.projects.iter().any(|p| p.is_auto && p.id == "/auto/repo"));

    let discovered = vec![DiscoveredRepo::new("/discovered/repo")];
    let out2 = build_tree_simple(&[], &[], &discovered, None::<&Resolver>);
    assert!(out2.projects.iter().any(|p| p.id == "/discovered/repo"));
}

#[test]
fn disambiguate_labels_collision() {
    let mut repos = vec![
        RepoNode { id: "/a/app".into(), label: "app".into(), path: Some("/a/app".into()), groups: vec![], session_count: 0 },
        RepoNode { id: "/b/app".into(), label: "app".into(), path: Some("/b/app".into()), groups: vec![], session_count: 0 },
    ];
    disambiguate_repos(&mut repos);
    assert_ne!(repos[0].label, repos[1].label);
    assert!(repos[0].label.contains("app"));
    assert_eq!(repos[0].label, "a/app");
    assert_eq!(repos[1].label, "b/app");
}

#[test]
fn labels_grow_only_as_deep_as_needed() {
    let mut repos = vec![
        RepoNode { id: "/x/a/app".into(), label: "app".into(), path: Some("/x/a/app".into()), groups: vec![], session_count: 0 },
        RepoNode { id: "/y/a/app".into(), label: "app".into(), path: Some("/y/a/app".into()), groups: vec![], session_count: 0 },
        RepoNode { id: "/z/web".into(), label: "web".into(), path: Some("/z/web".into()), groups: vec![], session_count: 0 },
    ];
    disambiguate_repos(&mut repos);
    assert_eq!(repos[0].label, "x/a/app");
    assert_eq!(repos[1].label, "y/a/app");
    assert_eq!(repos[2].label, "web");
}

#[test]
fn lanes_sorted_trunk_first_then_recent() {
    let sessions = vec![
        sess("a", "/r").with_branch("feature").with_repo_root("/r").with_recency(5),
        sess("b", "/r").with_branch("main").with_repo_root("/r").with_recency(1),
        sess("c", "/r").with_branch("zeta").with_repo_root("/r").with_recency(9),
        sess("d", "/r").with_branch("feature").with_repo_root("/r").with_recency(7),
    ];
    let repos = build_repos(&sessions, None::<&Resolver>, true);
    assert_eq!(repos.len(), 1);
    let labels: Vec<&str> = repos[0].groups.iter().map(|g| g.label.as_str()).collect();
    assert_eq!(labels, vec!["main", "zeta", "feature"]);
    let ids: Vec<&str> = repos[0].groups[2].sessions.iter().map(|s| s.id.as_str()).collect();
    assert_eq!(ids, vec!["d", "a"]);
    assert_eq!(repos[0].session_count, 4);
}

#[test]
fn tree_home_bucket_and_tokens() {
    let sessions = vec![
        Session::new("h1").with_recency(3).with_tokens(10, 5),
        Session::new("h2").with_recency(8).with_tokens(1, 1),
        Session::new("").with_recency(8),
    ];
    let opts = BuildTreeOptions { preview_limit: 2, hydrate: true };
    let out = build_tree(&[], &sessions, &[], None::<&Resolver>, &opts, None::<&Test>, None::<&Test>, None::<&Test>);
    assert_eq!(out.projects.len(), 1);
    let home = &out.projects[0];
    assert!(home.is_no_project);
    assert_eq!(home.label, NO_PROJECT_LABEL);
    assert_eq!(home.session_count, 3);
    assert_eq!(home.members, vec![1, 2, 0]);
    assert_eq!(home.recency, 8);
    assert_eq!(home.total_tokens, 17);
    assert_eq!(home.preview_sessions.len(), 2);
    assert_eq!(home.repos[0].groups[0].sessions.len(), 3);
    assert_eq!(out.scoped_session_ids, vec!["h2", "h1"]);
}

#[test]
fn tree_junk_and_missing_roots_go_home() {
    let sessions = vec![
        sess("j", "/tmp/x").with_repo_root("/tmp/x"),
        sess("m", "/gone").with_repo_root("/gone"),
        sess("ok", "/work/app").with_repo_root("/work/app"),
    ];
    let junk = |p: &str| p.starts_with("/tmp");
    let exists = |p: &str| p != "/gone";
    let out = build_tree(
        &[],
        &sessions,
        &[],
        None::<&Resolver>,
        &BuildTreeOptions::default(),
        Some(&junk),
        None::<&Test>,
        Some(&exists),
    );
    assert_eq!(out.projects.len(), 2);
    assert!(out.projects[0].is_no_project);
    assert_eq!(out.projects[0].session_count, 2);
    assert_eq!(out.projects[1].id, "/work/app");
    assert!(out.projects[1].is_auto);
    assert_eq!(out.scoped_session_ids, vec!["ok", "j", "m"]);
}

#[test]
fn tree_discovered_skips_owned_and_seen() {
    let proj = Project::new("p").with_name("Proj").with_folders(vec![Folder::new("/owned")]);
    let sessions = vec![sess("s", "/auto").with_repo_root("/auto")];
    let discovered = vec![
        DiscoveredRepo::new("/owned/sub"),
        DiscoveredRepo::new("/auto/"),
        DiscoveredRepo::new("/fresh"),
        DiscoveredRepo::new("  "),
    ];
    let out = build_tree_simple(&[proj], &sessions, &discovered, None::<&Resolver>);
    let ids: Vec<&str> = out.projects.iter().map(|p| p.id.as_str()).collect();
    assert_eq!(ids, vec!["p", "/auto", "/fresh"]);
    assert_eq!(out.projects[0].label, "Proj");
    assert_eq!(out.projects[0].repos.len(), 1);
    assert_eq!(out.projects[0].repos[0].id, "/owned");
}

#[test]
fn auto_projects_sorted_by_root_key() {
    let sessions = vec![
        sess("1", "/z/app").with_repo_root("/z/app"),
        sess("2", "/a/app").with_repo_root("/a/app"),
    ];
    let out = build_tree_simple(&[], &sessions, &[], None::<&Resolver>);
    let ids: Vec<&str> = out.projects.iter().map(|p| p.id.as_str()).collect();
    assert_eq!(ids, vec!["/a/app", "/z/app"]);
    let labels: Vec<&str> = out.projects.iter().map(|p| p.label.as_str()).collect();
    assert_eq!(labels, vec!["a/app", "z/app"]);
}

#[test]
fn build_tree_places_each_session_once() {
    let p1 = Project::new("p1").with_folders(vec![Folder::new("/repo")]);
    let p2 = Project::new("p2").with_folders(vec![Folder::new("/other")]);
    let sessions = vec![
        Session::new("s1").with_cwd("/repo/sub").with_repo_root("/repo"),
        Session::new("s2").with_cwd("/auto/repo").with_repo_root("/auto/repo"),
        Session::new("s3").with_cwd(""),
        Session::new("s4").with_cwd("/other"),
    ];
    let out = build_tree_simple(&[p1, p2], &sessions, &[], None::<&Resolver>);
    let mut ids = out.scoped_session_ids.clone();
    ids.sort();
    assert_eq!(ids, vec!["s1", "s2", "s3", "s4"]);
    // the home bucket first, then the explicit projects in order, then automatic ones
    assert!(out.projects[0].is_no_project);
    assert_eq!(out.projects[1].id, "p1");
    assert_eq!(out.projects[2].id, "p2");
    assert!(!out.projects[1].is_auto && !out.projects[2].is_auto);
    assert!(out.projects[3..].iter().all(|p| p.is_auto && !p.is_no_project));
    assert_eq!(out.projects.iter().filter(|p| p.is_no_project).count(), 1);
}
