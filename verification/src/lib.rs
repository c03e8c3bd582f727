//! The logic of a file manager for Windows: what it shows, and what it does about each event.
//!
//! [`librarian::Librarian`] is the whole state; [`message`] lists what can happen to it and
//! what it can ask for.

pub mod assoc;
pub mod browsing;
pub mod columns;
pub mod config;
pub mod desk;
pub mod drives;
pub mod ellipsis;
pub mod enumerate;
pub mod finding;
pub mod geometry;
pub mod handling;
pub mod history;
pub mod icons;
pub mod keyboard;
pub mod known;
pub mod listing;
pub mod labels;
pub mod librarian;
pub mod matcher;
pub mod message;
pub mod model;
pub mod naming;
pub mod open;
pub mod order;
pub mod path;
pub mod pictures;
pub mod pixels;
pub mod promises;
pub mod rows;
pub mod screen;
pub mod search;
pub mod selection;
pub mod sidebar;
pub mod sort;
pub mod startup;
pub mod text;
pub mod thumbs;
pub mod time;
pub mod tree;
pub mod unicode;
pub mod update;
pub mod view_mode;
pub mod walk;
pub mod wide;
pub mod wsl;
