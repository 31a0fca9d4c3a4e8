//! Loading glTF levels with artist-authored metadata: the tag model, the
//! parsers for node names and `extras`, tag resolution, and the bookkeeping
//! of resident levels.
pub mod assoc;
pub mod decimal;
pub mod loader;
pub mod persist;
pub mod plugin;
pub mod stage;
pub mod tag;
pub mod text;
pub mod view;
