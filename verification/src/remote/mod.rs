//! Servers reached over the network.
pub mod auth;
pub mod sftp;
