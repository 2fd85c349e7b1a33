//! Host picker logic for SSH over tmux: ssh_config parsing and merging,
//! picker state and screens, tmux and ssh command construction, credential
//! naming, and the command-line front end's decisions.

pub mod text;
pub mod paths;
pub mod sshconfig;
pub mod state;
pub mod search;
pub mod picker;
pub mod tmuxrun;
pub mod credentials;
pub mod cli;
pub mod termio;
pub mod screen;
pub mod readback;
