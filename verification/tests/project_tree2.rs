use hermes_tui::project_tree2::{
    base_name, branch_lane_id, is_path_under, kanban_lane_id, kanban_worktree_dir, lane_key,
    path_key, DEFAULT_BRANCH_LABEL, MAX_SIBLING_PROBES, NO_PROJECT_ID, NO_PROJECT_LABEL,
    PROJECT_TREE2_SLICE, TRUNK_BRANCHES,
};
use hermes_tui::project_tree2::{build_repos, build_tree_simple, ResolveResult, Session};

#[test]
fn reexport_parity() {
    assert_eq!(TRUNK_BRANCHES, hermes_tui::project_tree::TRUNK_BRANCHES);
    assert_eq!(DEFAULT_BRANCH_LABEL, hermes_tui::project_tree::DEFAULT_BRANCH_LABEL);
    assert_eq!(NO_PROJECT_ID, hermes_tui::project_tree::NO_PROJECT_ID);
    assert_eq!(NO_PROJECT_LABEL, hermes_tui::project_tree::NO_PROJECT_LABEL);
    assert_eq!(MAX_SIBLING_PROBES, hermes_tui::project_tree::MAX_SIBLING_PROBES);
    assert_eq!(PROJECT_TREE2_SLICE, "T0388-retry");
    assert_eq!(path_key("/a/b/"), hermes_tui::project_tree::path_key("/a/b/"));
    assert_eq!(lane_key("/a/b::branch::Main"), hermes_tui::project_tree::lane_key("/a/b::branch::Main"));
    assert_eq!(base_name("/a/b/c"), "c");
    assert_eq!(kanban_worktree_dir("/repo/.worktrees/t_abc123"), Some("/repo/.worktrees".to_string()));
    assert!(is_path_under("/a/b", "/a/b/c"));
    assert_eq!(branch_lane_id("/repo", "main"), "/repo::branch::main");
    assert_eq!(kanban_lane_id("/repo"), "/repo::kanban");
}

type Resolver = fn(&str) -> Option<ResolveResult>;

#[test]
fn build_tree_via_reexport() {
    let sessions = vec![Session::new("s1").with_cwd("/repo").with_branch("main").with_repo_root("/repo")];
    let out = build_repos(&sessions, None::<&Resolver>, true);
    assert_eq!(out.len(), 1);
    assert_eq!(out[0].session_count, 1);
    let out2 = build_tree_simple(&[], &sessions, &[], None::<&Resolver>);
    assert!(out2.projects.iter().any(|p| p.session_count == 1 || p.is_auto || !p.is_no_project));
}
