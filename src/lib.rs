//! A verified store of recently opened projects: recording an access,
//! listing the most recent entries, removing one entry and clearing all.

pub mod laws;
pub mod project;
pub mod table;
pub mod text;

pub use project::{name_from_segment, project_name, RecentProject};
pub use table::{
    add_recent_project, clear_recent_projects, get_recent_projects, remove_recent_project,
    RecentProjects, DEFAULT_LIMIT,
};
pub use text::text_less;
