//! A keystroke-driven command launcher core: a configuration compiler that
//! turns declarative text into a cycle-checked menu/command tree, an
//! incremental key-path resolver that walks that tree character by character,
//! and an invocation planner that turns a resolved command into an exec
//! specification.

pub mod invoke;
pub mod laws;
pub mod nav;
pub mod outproxy;
pub mod parser;
pub mod rt_conf;
pub mod scan;
pub mod text;
