//! A monorepo task runner: a workspace graph of projects and tasks, change
//! detection, and the decisions of a dependency-respecting scheduler.
use vstd::prelude::*;

pub mod paths;
pub mod graph;
pub mod workspace;
pub mod exclusions;
pub mod output;
pub mod runner;
pub mod git;
pub mod hashing;
pub mod registry;
pub mod cli;
pub mod config;
