//! The logic of a downloader for MEGA links.

pub mod api;
pub mod base64url;
pub mod chunk;
pub mod content;
pub mod crypto;
pub mod download;
pub mod folder;
pub mod json;
pub mod limits;
pub mod link;
pub mod path;
pub mod proxy;
pub mod resume;
pub mod text;
pub mod tree;
pub mod worker;
