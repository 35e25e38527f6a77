//! Verified core of the AA engine tooling.
pub mod json;
pub mod text;
pub mod ron_subset;
pub mod number;
pub mod schema_subset;
pub mod config;
pub mod assets;
pub mod exit_codes;
pub mod project;
pub mod world;
pub mod playtest;
pub mod validate;
pub mod check;
pub mod scene;
pub mod eval;
pub mod index;
pub mod ability;
pub mod experience;
