//! Core logic of a dual-pane file manager with SSH/SFTP support:
//! text scanning, base64, `known_hosts` and `ssh_config` parsing,
//! configuration paths, directory listings, bookmarks and session bookkeeping.

pub mod text;
pub mod base64;
pub mod known_hosts;
pub mod paths;
pub mod ssh_config;
pub mod listing;
pub mod bookmarks;
pub mod connection;
pub mod settings;
pub mod fs_ops;
