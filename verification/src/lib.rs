//! Verified core of a git history analyser: path classification, commit
//! sampling and fast-diff planning, per-label curve aggregation, curve
//! alignment and trimming, survival deltas, calendar-event manifests and
//! the layout of their annotations on a plot.

pub mod text;
pub mod paths;
pub mod order;
pub mod labelmap;
pub mod timeline;
pub mod merge;
pub mod curve;
pub mod analysis;
pub mod histogram;
pub mod tracker;
pub mod path_filter;
pub mod cohort;
pub mod output;
pub mod events;
pub mod layout;
pub mod svg;
pub mod naming;
pub mod survival;
pub mod wrap;
pub mod targets;
