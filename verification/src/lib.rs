pub mod utf8_text;
pub mod text_utils;
pub mod buffer;
pub mod find;
pub mod format;
pub mod enter;
pub mod edits;
pub mod tables;
pub mod md;
pub mod html;
pub mod md_events;
pub mod md_parse;
pub mod md_doc;
pub mod highlight;
pub mod io;
pub mod editor;
pub mod app_text;
pub mod theme;
pub mod dialogs;
pub mod config;
pub mod preview;
pub mod session;
pub mod round_trips;
pub mod workbench;
