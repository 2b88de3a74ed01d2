//! Directory frecency: a store of visited and discovered directories, a
//! ranking pipeline over them, and the background indexer's decisions.

pub mod text;
pub mod path;
pub mod binary64;
pub mod matching;
pub mod env;
pub mod spec;
pub mod interp;
pub mod store;
pub mod config;
pub mod indexer;
pub mod facade;
