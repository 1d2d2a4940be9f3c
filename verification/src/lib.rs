//! Resolves the workspace-local dependency closure of one package inside a
//! large multi-package workspace, and derives from that closure the inputs for
//! a sparse checkout and a filtered workspace manifest.

pub mod builder;
pub mod closure;
pub mod filter;
pub mod git_command;
pub mod graph;
pub mod strutil;
