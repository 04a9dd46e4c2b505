//! td: a minimalist todo list, with its projects, its small modal editor and
//! its plain-text storage, as a verified library.

pub mod text;
pub mod config;
pub mod key;
pub mod editor;
pub mod date;
pub mod stamp;
pub mod model;
pub mod project;
pub mod layout;
pub mod prompt;
pub mod ui;
