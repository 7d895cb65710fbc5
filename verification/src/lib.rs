//! Structured todo notes in an Obsidian vault: tasks and projects as Markdown records with front
//! matter, the store that holds them, and what can be done with them.
pub mod append_laws;
pub mod attachment_laws;
pub mod attachments;
pub mod calendar;
pub mod commands;
pub mod config;
pub mod config_laws;
pub mod discovery;
pub mod document_laws;
pub mod documents;
pub mod edit_laws;
pub mod error;
pub mod frontmatter;
pub mod input;
pub mod input_laws;
pub mod link_laws;
pub mod list_laws;
pub mod making_laws;
pub mod markdown;
pub mod model;
pub mod order;
pub mod output;
pub mod output_laws;
pub mod parent_laws;
pub mod parents;
pub mod path_laws;
pub mod paths;
pub mod patterns;
pub mod project_laws;
pub mod record_laws;
pub mod recurrence;
pub mod replies;
pub mod scan;
pub mod schedule_laws;
pub mod schema;
pub mod store;
pub mod store_laws;
pub mod task_laws;
pub mod text;
pub mod text_laws;
pub mod upgrade;
pub mod url;
pub mod url_laws;
pub mod validate;
pub mod validate_laws;
pub mod value_laws;
pub mod yaml;

pub use commands::init::{initialize, InitOptions, InitPlan};
pub use commands::project::{
    create as create_project, delete as delete_project, edit as edit_project,
    list as list_projects, show as show_project, CreateProject, EditProject, ProjectSummary,
    ProjectView,
};
pub use commands::task::{
    cancel as cancel_task, complete as complete_task, delete as delete_task,
    edit as edit_task, finish_series, list as list_tasks, reopen as reopen_task, show as show_task,
    AddTask, EditTask, TaskFilter, TaskView,
};
pub use config::{Config, State};
pub use discovery::{discover, DiscoveryOptions};
pub use error::{Error, ErrorKind, ValidationIssue};
pub use model::{Clock, FixedClock, Project, SystemClock, Task};
pub use recurrence::{Frequency, RecurrenceMode, RecurrenceRule};
pub use store::{Store, StorePaths};
pub use validate::{validate_store, ValidationReport};
