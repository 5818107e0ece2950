//! The application control plane: launch slots, thread groups, the registry of
//! shared libraries and the paths that a launch resolves.

pub mod namespace;
pub mod path;
pub mod event_queue;
pub mod registry;
pub mod registry_batch;
pub mod registry_init;
pub mod registry_quiescence;
pub mod registry_waiters;
pub mod registry_history;
pub mod group;
pub mod publication;
pub mod manager;
pub mod launch;
pub mod package;
pub mod system_paths;
pub mod vfs_reader;
pub mod resolver;
pub mod package_resolver;
pub mod package_session;
pub mod library_groups;
pub mod loader;
pub mod reaper;
pub mod seed;
pub mod start_info;
