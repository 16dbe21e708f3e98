//! `badm` stores configuration files ("dotfiles") in a directory that mirrors
//! the directory hierarchy of their original locations, and links each
//! original location to its stored copy.
//!
//! The library decides; its caller acts. Each operation takes the managed root
//! and what was observed at the paths involved, and returns a plan of file
//! system actions together with the path it reports, or the reason it
//! refuses. `fsmodel` gives the meaning of observations and actions on a
//! model file system, and `lifecycle` proves what the operations do to it.

pub mod commands;
pub mod config;
pub mod fsmodel;
pub mod handler;
pub mod lifecycle;
pub mod paths;
pub mod scanner;
