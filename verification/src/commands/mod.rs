//! The decisions of the commands.

pub mod install;
pub mod publish;
pub mod releases;
pub mod update;
