//! The decisions behind a Markdown editor's windows and its edit history.
pub mod delta;
pub mod history;
pub mod history_diff;
pub mod history_file;
pub mod history_laws;
pub mod line_diff;
pub mod lines;
pub mod order;
pub mod paths;
pub mod pdf;
pub mod record_laws;
pub mod stable_hash;
pub mod startup;
pub mod store;
pub mod store_laws;
pub mod string_map;
pub mod text;
pub mod window;
