pub mod board;
pub mod paths;
pub mod registry;
pub mod text;
pub mod yaml;
pub mod dates;
pub mod sync;
pub mod watcher;
