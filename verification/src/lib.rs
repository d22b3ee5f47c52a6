//! Verified core of a desktop SSH/SFTP client: configuration types, SSH
//! config import, credential escrow, metrics history and the decisions
//! made by the SSH and SFTP front ends.
pub mod config;
pub mod credential_escrow;
pub mod metrics_store;
pub mod session;
pub mod sftp;
pub mod ssh_config_parser;
pub mod text;


