//! Structured evaluation signals, error-pattern extraction and the plain data
//! types of a self-correction service for coding agents.
pub mod config;
pub mod eslint;
pub mod pattern;
pub mod recording;
pub mod stats;
pub mod text;
pub mod tools;
pub mod tsc;
pub mod types;
