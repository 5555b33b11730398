//! Reports which beatmap sets in a collection on disk have a completion
//! status recorded in an osu! installation, as a styled ASCII tree.
//!
//! The core of the crate is [`pathtree_stylizer`]: it builds a tree from a
//! flat list of `(path, status)` pairs, fills missing directory statuses
//! bottom-up with the best status found below, orders siblings, and renders
//! the tree with box-drawing connectors and per-status style markers.
//! [`osu`] holds the status domain: grades, statuses, their total order,
//! and the queries that reduce a set of beatmaps to its worst played grade.
//! [`cli`] holds the tool's configuration.  All of it is verified; the
//! surrounding binary only parses arguments, walks the filesystem, reads
//! the databases, and prints.

pub mod cli;
pub mod osu;
pub mod osz_finder;
pub mod pathtree_stylizer;
