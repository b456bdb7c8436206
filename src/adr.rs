pub mod commands;
pub mod directory;
pub mod model;
pub mod paths;
pub mod state;
