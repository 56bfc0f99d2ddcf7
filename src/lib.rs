//! A schema compiler core: declaration trees, a scope hierarchy with
//! fully-qualified names, lexical type resolution and deferred emission of
//! nested types as flat top-level units.
pub mod types;
pub mod utils;
pub mod naming;
pub mod equality;
pub mod hierarchy;
pub mod environment;
pub mod dart;
pub mod code_gen;
