//! Comparison of disk-usage snapshots.

pub mod analysis;
pub mod browsing;
pub mod cli;
pub mod compression;
pub mod double;
pub mod export;
pub mod figures;
pub mod format;
pub mod gdu;
pub mod index;
pub mod json;
pub mod keeping;
pub mod loading;
pub mod messages;
pub mod path;
pub mod progress;
pub mod requests;
pub mod rows;
pub mod screen;
pub mod snapshots;
pub mod sort;
pub mod store;
pub mod text;
pub mod text_map;
pub mod texts;
pub mod totals;
pub mod tui;
pub mod version;
pub mod view;
