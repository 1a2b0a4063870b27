//! Fair re-ordering of a shared, ordered playlist.
//!
//! The crate computes a new order for the entries of a collaboratively edited
//! playlist, in which consecutive entries are unlikely to come from the same
//! contributor, and turns that order into a series of single-entry moves that
//! a remote list service can apply one at a time.
//!
//! - `shuffle` computes the new order: it groups the entries by contributor
//!   (`grouping`), shuffles each group, and interleaves the groups
//!   (`round_robin`).
//! - `planner` finds, for each position of the new order in turn, the move
//!   that brings the right entry there, against a local mirror of the list.
//! - `executor` makes one move on the remote list, threading the service's
//!   concurrency token from move to move and waiting out throttling
//!   (`retry_after` reads the delay that the service names).
//! - `reorder` is the whole run: every planned move, made through the
//!   executor.
//! - `playlist_url` finds the list identifier in a sharable URL.

pub mod executor;
pub mod grouping;
pub mod item;
pub mod planner;
pub mod playlist_url;
pub mod reorder;
pub mod retry_after;
pub mod round_robin;
pub mod shuffle;
