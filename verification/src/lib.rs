//! Per-workspace colours for Herdr: the rules, edits and reports behind the
//! command line tool, with their contracts.
pub mod actions;
pub mod actions_laws;
pub mod aside;
pub mod cli;
pub mod cli_laws;
pub mod commit;
pub mod config;
pub mod config_laws;
pub mod default_config;
pub mod herdr;
pub mod herdr_laws;
pub mod json;
pub mod keymap;
pub mod memo;
pub mod own;
pub mod palette;
pub mod paths;
pub mod paths_laws;
pub mod plan;
pub mod plan_kept;
pub mod plan_laws;
pub mod plan_read;
pub mod plan_series;
pub mod plan_trail;
pub mod plan_undo;
pub mod report;
pub mod report_laws;
pub mod rules;
pub mod select;
pub mod select_laws;
pub mod sidebar;
pub mod sidebar_laws;
pub mod state;
pub mod sweep;
pub mod text;
pub mod text_laws;
pub mod toml;
pub mod tree;
pub mod window;
pub mod window_laws;
pub mod window_runs;
