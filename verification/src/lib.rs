//! Verified core of the Ledge shelf / clipboard-history application.
//!
//! The library holds the decisions of the application: the shelf, favourite-folder,
//! tag and clipboard-history tables with their rules, the clipboard content hash and
//! the guard against recording the application's own clipboard writes, pasting, the
//! settings merge, the shelf window's placement and visibility, the drag-start
//! heuristic, the clipboard-bitmap decoder and ZIP archives. Everything that touches
//! the operating system, the database file or the UI toolkit lives outside it.
#![allow(unused_imports)]

pub mod text;
pub mod sort;
pub mod search;
pub mod error;
pub mod models;
pub mod paths;
pub mod shelf;
pub mod favorites;
pub mod clipboard;
pub mod history;
pub mod settings;
pub mod layout;
pub mod drag;
pub mod dib;
pub mod paste;
pub mod archive;
pub mod retention;
pub mod visibility;
