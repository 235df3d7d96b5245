//! Line-anchored annotations kept outside a codebase.

pub mod clock;
pub mod commands;
pub mod compact;
pub mod context;
pub mod fold;
pub mod hunks;
pub mod id;
pub mod lines;
pub mod log;
pub mod model;
pub mod order;
pub mod path;
pub mod rematch;
pub mod segments;
pub mod store;
pub mod strings;
pub mod sync;
pub mod text;
