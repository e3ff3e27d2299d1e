//! Workspaces of Roblox packages: loading them, resolving their dependencies,
//! planning what an installation writes, and preparing a member for publishing.

pub mod commands;
pub mod dependency_spec;
pub mod installation;
pub mod loading;
pub mod manifest;
pub mod messages;
pub mod order;
pub mod ordered;
pub mod package_id;
pub mod package_name;
pub mod package_req;
pub mod package_source;
pub mod path;
pub mod plain;
pub mod resolution;
pub mod text;
pub mod version;
pub mod version_req;
pub mod workspace;
