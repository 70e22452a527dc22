//! forgetmenot: trigger-based, scoped memory for coding agents.
pub mod catalog;
pub mod context;
pub mod edits;
pub mod engine;
pub mod events;
pub mod hook;
pub mod naming;
pub mod operations;
pub mod params;
pub mod prompt;
pub mod patterns;
pub mod registry;
pub mod report;
pub mod render;
pub mod routes;
pub mod scopes;
pub mod sessions;
pub mod text;
pub mod transcript;
pub mod writes;
