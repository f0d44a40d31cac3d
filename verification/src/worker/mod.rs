//! The transfer engine: what it decides, without the network, the disk and the
//! clock that its owner works with.

pub mod download;
pub mod download_task;
pub mod folder;
pub mod listing;
pub mod messages;
pub mod operations;
pub mod parts;
pub mod script;
pub mod session;
pub mod sizes;
pub mod transfers;
pub mod upload;
pub mod upload_task;
