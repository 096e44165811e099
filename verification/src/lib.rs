pub mod text;
pub mod rpc_json;
pub mod number;
pub mod methods_tools_slice2;
pub mod methods_tools_slice3;
pub mod methods_tools_slice4;
pub mod project_tree;
pub mod project_tree2;
pub mod server_slice3;
pub mod slash_worker;
pub mod transport;
pub mod server_slice2;
pub mod synthetic_turn;
pub mod slash_fuzzy;
pub mod render2;
pub mod stdin_recovery;
pub mod project_tree_build;
