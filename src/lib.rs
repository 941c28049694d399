//! Matching freshly downloaded folders against an organised library by the names they hold.
pub mod cache;
pub mod cache_box;
pub mod config;
pub mod data;
pub mod matcher;
pub mod registry;
pub mod signal;
pub mod source_anime_map;
pub mod text;
pub mod walker;
