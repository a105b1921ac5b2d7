//! Queue synchronizer for a music-playback daemon.
//!
//! The daemon keeps a remote player's play queue filled with tracks similar
//! to a "pinned" anchor track, and detects from the player's own change
//! notifications when the user's actions invalidate the pin.  This crate
//! holds the decision logic of that daemon: the snapshot-diff state machine
//! that tells self-caused queue changes from external ones, the genre-weight
//! metric and ranking, the host-configuration and path rules, and the
//! chunked read-only map that backs the inspection pages.  All I/O (the
//! player connection, the analysis database, files) lives outside, in thin
//! shells that call into these verified functions.

pub mod bytes;
pub mod chunked;
pub mod genre;
pub mod hostcfg;
pub mod paths;
pub mod rank;
pub mod sync;
