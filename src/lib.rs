//! Core decision logic for launching, tracking and tearing down a distro
//! container: PATH prefix management, `/etc/environment` editing, run-info
//! validation and the container lifecycle.
pub mod text;
pub mod bin_path;
pub mod envfile;
pub mod process;
pub mod distro;
pub mod waiter;
