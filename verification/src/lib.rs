//! Planning and decision logic of a multi-repository deployment tool:
//! the configuration model, the selection of repositories, the execution
//! timeline, the git deployment sequence and the interactive selection screen.

pub mod config;

pub use config::{default_branch, default_commit_message, Config, Group, Repository};
pub mod selection;

pub use selection::Selection;
pub mod schedule;
pub mod git;

pub use git::Git;
pub mod tui;

pub use tui::{App, View};
