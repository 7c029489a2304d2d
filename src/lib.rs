//! Commit graph layout for a terminal repository viewer.
//!
//! The core is [`layout::build_graph`]: one pass over the commits, most recent
//! first, that assigns each commit a lane, picks colors with
//! [`colors::ColorAssigner`], and describes every row as a vector of
//! [`graph::CellType`] cells, with connector rows where lanes join.
//! [`layout::insert_uncommitted_node`] threads a row for uncommitted changes
//! on top. The other modules hold the verified rules of the viewer around it:
//! branch search, branch labels, row navigation, diff summaries and the
//! decisions taken on each user action.

pub mod action;
pub mod colors;
pub mod diff;
pub mod graph;
pub mod labels;
pub mod layout;
pub mod mode;
pub mod navigation;
pub mod search;
pub mod session;
pub mod widgets;
