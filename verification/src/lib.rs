//! An interactive search-and-select engine for terminal applications, with
//! the command registry and script plumbing of a "forgotten commands" runner
//! built on top of it.
//!
//! The heart of the crate is the filter engine ([`filter`]) and the
//! keyboard-driven selection session ([`session`]): given a list of keyed,
//! labeled entries, a session lets a user narrow the list by typed text,
//! move a highlight through it, toggle selections, and confirm or cancel.
//! All of that logic is verified; the terminal I/O that drives it lives
//! outside this crate and only exchanges plain values with it.

pub mod text;

pub mod filter;

pub mod keyset;

pub mod session;

pub mod registry;

pub mod script;

pub mod chooser;

pub mod ondisk;

pub mod interrupt;

pub mod cli;
