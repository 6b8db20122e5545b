//! Bringing a saved session back.
pub mod action;
pub mod assembly;
pub mod course;
pub mod ending;
pub mod groups;
pub mod launch;
pub mod matching;
pub mod merging;
pub mod note;
pub mod observe;
pub mod plan;
pub mod position;
pub mod rebuild;
pub mod reconcile;
pub mod session;
pub mod task;
pub mod turns;
pub mod workspace;

pub use action::Action;
pub use groups::plan_groups;
pub use launch::{browser_binary, resolve_command, resolve_launch};
pub use matching::{class_key, launched_window_matches, parse_pwa_class};
pub use note::Note;
pub use observe::{client_ws, existing_group_ws, grouped_count, Condition};
pub use plan::{launch_app, restore_groups, Step};
pub use position::restore_window_position;
pub use rebuild::{dissolve_group, rebuild_group, BuildStep};
pub use reconcile::{match_launched, reconcile};
pub use session::{restore_session, Event, Request, Session, MAX_WINDOWS};
pub use task::GroupTask;
pub use workspace::{workspace_label, workspace_target};
