//! Mytube: a local video library catalog.
pub mod text;
pub mod slug;
pub mod clock;
pub mod error;
pub mod models;
pub mod store;
pub mod pathutil;
pub mod metadata;
pub mod order;
pub mod rows;
pub mod catalog;
pub mod upkeep;
pub mod playlists;
pub mod scan;
