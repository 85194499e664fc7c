//! Layout and metrics engine for an animated graph of commits.
//!
//! A history of commits, branches and merges is turned into a place for
//! every commit (`tree`, `layout`, `overlay`, `calendar`), into one snapshot
//! of the code inventory per revealed commit (`stats`), and into the order
//! in which the frames of the video are rendered and written (`pipeline`,
//! `scene`).
//!
//! Coordinates and lengths are whole numbers of `1 / fixed::ONE` pixel, and
//! times are whole seconds, so that every result is the same on every
//! machine.

pub mod aggregates;
pub mod calendar;
pub mod config;
pub mod data;
pub mod dates;
pub mod fixed;
pub mod laws;
pub mod layout;
pub mod names;
pub mod overlay;
pub mod palette;
pub mod pipeline;
pub mod scene;
pub mod stats;
pub mod timeline;
pub mod tree;
