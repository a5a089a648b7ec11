pub mod model;
pub mod path;
pub mod text;
pub mod toml_doc;
pub mod resolver;
pub mod engine;
pub mod git;
pub mod config;
pub mod api;
pub mod cli;
