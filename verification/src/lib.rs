//! Builds, without privileges, a private root directory in which a store
//! directory appears at `/nix`.
//!
//! The library decides; it performs no system call. Each engine is a state
//! machine: a step hands out the commands to carry out and one question
//! about the host, and the next step takes the answer. The program around
//! the library carries out and answers.
//!
//! - [`path`]: host paths and what can be told of them from their spelling.
//! - [`names`]: the fixed paths and words.
//! - [`host`]: questions, answers and commands.
//! - [`chroot`], [`mount`], [`config`]: where the view is built, what is
//!   mirrored, and the mount policy.
//! - [`resolve`]: the resolution of paths whose links point under `/nix`.
//! - [`mirror`]: the mirroring of host entries into the new root.
//! - [`construct`]: the construction of the view, from the first command to
//!   the last.
//! - [`identity`], [`wait`]: the identity map, and the parent's side.
//!
//! What the engines compute is said a second time without steps, as plain
//! recursive definitions over a model of the host, in [`meaning`],
//! [`mirrored`] and [`constructed`]; each of these modules proves that the
//! engine and the definition agree. [`laws`] holds what follows for every
//! host.

pub mod chroot;
pub mod config;
pub mod construct;
pub mod constructed;
pub mod host;
pub mod identity;
pub mod laws;
pub mod meaning;
pub mod mirror;
pub mod mirrored;
pub mod mount;
pub mod names;
pub mod path;
pub mod resolve;
pub mod wait;
