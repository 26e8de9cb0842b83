//! Core algorithms of an internationalisation toolkit: key minification,
//! locale fallback resolution, message-table merging, and export and sort of
//! a multi-locale translation store.

pub mod args;
pub mod backend;
pub mod cli;
pub mod config;
pub mod convert;
pub mod export;
pub mod import;
pub mod layout;
pub mod locale;
pub mod message;
pub mod minify;
pub mod sorted;
pub mod store;
pub mod table;
pub mod text;
