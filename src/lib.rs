//! A personal note store: notes kept in memory and in a flat text file,
//! with marked links rewritten to point at local page snapshots.
pub mod archive;
pub mod clock;
pub mod codec;
pub mod filename;
pub mod render;
pub mod store;
pub mod text;
