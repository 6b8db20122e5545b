//! Saving and restoring a Hyprland session: what the compositor is told, what its replies
//! mean, and which steps bring a saved set of windows back.
pub mod ipc;
pub mod json;
pub mod numbers;
pub mod restore;
pub mod text;
pub mod unicode;
