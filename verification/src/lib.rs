//! A process-tree tracer library: a verified model of the process tree that
//! a traced command and its descendants form, together with the decision
//! logic of the trace event loop.
//!
//! The kernel-facing work (spawning the traced command, `waitpid`, the
//! ptrace requests, the procfs reads) happens outside this crate; the
//! caller turns each kernel notification into an [`engine::Event`], hands
//! it to [`tree::ProcessTree::handle_event`], and performs the returned
//! [`engine::Action`]. Everything this crate does to the tree is verified.

pub mod engine;
pub mod ext;
pub mod json;
pub mod render;
pub mod traverse;
pub mod tree;
