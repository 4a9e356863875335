//! Toggle GPU render offload for executables by swapping each target binary
//! for a generated shell wrapper.
//!
//! The state machine is encoded entirely in the filesystem: a target is
//! wrapped exactly when its backup path exists.  The library contains the
//! path classifier, the wrapper-name slug, the installer, the revert, and
//! the toggle orchestrator, all verified against an explicit filesystem
//! model; a thin unverified shell performs the same operations on the real
//! filesystem.

pub mod config;
pub mod paths;
pub mod slug;
pub mod fsmodel;
pub mod procs;
pub mod toggle;

pub use config::validate_config;
pub use fsmodel::find_executables;
pub use fsmodel::is_executable;
pub use fsmodel::SimFs;
pub use fsmodel::SimNode;
pub use paths::backup_path;
pub use paths::is_system_path;
pub use paths::original_path;
pub use procs::get_executable_paths;
pub use slug::generate_wrapper_name;
pub use toggle::create_wrapper;
pub use toggle::execute;
pub use toggle::revert_changes;
pub use toggle::ToggleError;
