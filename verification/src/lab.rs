//! A laboratory that runs a mesh of nodes and shows what they do.
//!
//! Processes, sockets and web pages belong to the caller. Here is what a node
//! shows of itself, how the laboratory judges what the nodes show, which links
//! it keeps, and what its proxies do to frames.

pub mod admin;
pub mod args;
pub mod graph;
pub mod keeping;
pub mod links;
pub mod nodes;
pub mod numbers;
pub mod passing;
pub mod proxy;
pub mod showing;
pub mod state;
pub mod telling;
