//! A suite of small tools around `git`, and the library they rest on.
//!
//! The heart of the library reads a repository's plain-text metadata: it
//! parses the `config` file ([`config`]), finds the root of the repository
//! that a directory lies in ([`discover`]), tells a branch from a detached
//! `HEAD` and says how `git` is to be run in the repository ([`git`]). It
//! can write a configuration back as text, and proves that what it wrote
//! reads back as what it read ([`render`]).
//!
//! Around that stand the rules of the tools: the plan of a sync ([`plan`]),
//! the listing of branches ([`br`]), user profiles ([`usr`]) and what all
//! commands share ([`cli`]). Files, processes and the terminal are left to
//! the caller: the library takes what was read and says what to do next.

pub mod arguments;
pub mod br;
pub mod cli;
pub mod config;
pub mod discover;
pub mod git;
pub mod path;
pub mod plan;
pub mod render;
pub mod text;
pub mod usr;
