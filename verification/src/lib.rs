//! A cache of configuration files that mirrors the branches of git
//! repositories.
//!
//! The files of a branch are decoded into dynamic values and flattened
//! into dotted paths; the leaves and the shape of each document stand in
//! an ordered, bounded cache, which a service reads by path. A
//! synchronizer per branch decides from the diff of each new commit what
//! is to be loaded and what is to leave the cache.

pub mod branch_handler;
pub mod branch_laws;
pub mod branch_settings;
pub mod cache;
pub mod cache_branch;
pub mod cache_laws;
pub mod datum;
pub mod decode;
pub mod document;
pub mod entries;
pub mod gitdis;
pub mod list_props;
pub mod path_map;
pub mod payload;
pub mod payload_laws;
pub mod routers;
pub mod services;
pub mod sync_laws;
pub mod text;
