//! braze-sync: GitOps for Braze configuration.
//!
//! The verified core of the tool: what the commands decide about catalogs,
//! content blocks, email templates, custom attributes and tags, as functions
//! from plain values to plain values. Reading files, talking to Braze and
//! printing happen outside of it.

pub mod text;
pub mod order;
pub mod pattern;
pub mod resource;
pub mod diff;
pub mod time;
pub mod error;
pub mod endpoint;
pub mod braze;
pub mod config;
pub mod fs;
pub mod format;
pub mod cli;
