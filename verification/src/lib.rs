//! Verified core of an end-to-end encrypted storage browser.

pub mod codec;
pub mod crypto;
pub mod dir_view;
pub mod json;
pub mod key_map;
pub mod manifest;
pub mod manifest_store;
pub mod primitives;
pub mod ratelimit;
pub mod settings;
pub mod sorting;
pub mod storage;
pub mod text;
pub mod ui;
pub mod worker;
