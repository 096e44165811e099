//! The project tree surface under a second module path.
use vstd::prelude::*;
pub use crate::project_tree::{
    base_name, branch_lane_id, comparison_segments, is_path_under, is_windows_path,
    kanban_lane_id, kanban_worktree_dir, lane_key, parent_dir, path_key, place, place_by_heuristic,
    place_with, probe_sibling_worktree, segments, with_base_name, BuildTreeOptions, Folder,
    FolderIndex, Placement, Project, ResolveResult, DEFAULT_BRANCH_LABEL, MAX_SIBLING_PROBES,
    NO_PROJECT_ID, NO_PROJECT_LABEL, TRUNK_BRANCHES,
};
pub use crate::project_tree_build::{
    build_repos, build_tree, build_tree_simple, project_for_session, seed_folder_repos,
    session_repo_root, BuildTreeResult, DiscoveredRepo, LaneGroup, ProjectNode, RepoNode, Session,
};

verus! {

/// Marks this module's surface.
pub const PROJECT_TREE2_SLICE: &'static str = "T0388-retry";

} // verus!
